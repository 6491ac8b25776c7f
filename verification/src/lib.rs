//! The lexicon of a morphological analyser: compiles a user's comma-separated word list into
//! a trie over the surface forms, the word entries that its values point into, and the
//! detail records with their offsets; and reads the resources of a compiled system
//! dictionary from the bytes of its files.

pub mod bytes;
pub mod codec;
pub mod details;
pub mod error;
pub mod groups;
pub mod lines;
pub mod loader;
pub mod number;
pub mod row;
pub mod runs;
pub mod sort;
pub mod theorems;
pub mod trie;
pub mod user_dict;

pub use crate::codec::{WordEntry, WordId};
pub use crate::error::{BuildError, Column, ErrorClass, RowError};
pub use crate::loader::{
    char_def, connection, load_dictionary, prefix_dict, unknown_dict, Dictionary, File,
    LoadError,
};
pub use crate::row::CsvRow;
pub use crate::user_dict::{build_user_dict, compile_rows, PrefixDict, UserDictionary};
