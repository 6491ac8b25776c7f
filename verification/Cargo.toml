[package]
name = "lindera-dictionary"
version = "0.1.0"
edition = "2021"
publish = false

[dependencies]
anyhow = "=1.0.104"
bincode = "=1.3.3"
lindera-core = "=0.13.5"
log = "=0.4.34"
yada = "=0.5.1"

[dev-dependencies]
byteorder = "=1.5.0"
