use std::collections::HashSet;

use lindera_dictionary::trie::{build_trie, shared_len, takes, MAX_KEY_LEN, MAX_TRIE_UNITS};
use lindera_dictionary::{BuildError, ErrorClass};
use yada::DoubleArray;

fn set_of<'a>(pairs: &[(&'a [u8], u32)]) -> Vec<(&'a [u8], u32)> {
    pairs.to_vec()
}

#[test]
fn trie_finds_every_key_with_its_value() {
    let set = set_of(&[(b"", 7), (b"a", 0), (b"ab", 1), (b"abc", 0x7fff_ffff), (b"b", 3)]);
    assert!(takes(&set));
    let da = DoubleArray::new(build_trie(&set).unwrap());
    for (key, value) in set.iter() {
        assert_eq!(da.exact_match_search(key), Some(*value));
    }
    assert_eq!(da.exact_match_search(b"c"), None);
    assert_eq!(da.exact_match_search(b"abcd"), None);
    let found: Vec<(u32, usize)> = da.common_prefix_search(b"abd").collect();
    assert_eq!(found, vec![(0, 1), (1, 2)]);
}

#[test]
fn trie_is_what_yada_builds() {
    let set = set_of(&[("すし".as_bytes(), 2), ("東京".as_bytes(), 65)]);
    let ours = build_trie(&set).unwrap();
    let theirs = yada::builder::DoubleArrayBuilder::build(&set).unwrap();
    assert_eq!(ours, theirs);
    assert!(!ours.is_empty());
}

#[test]
fn empty_key_set_is_refused() {
    let set: Vec<(&[u8], u32)> = Vec::new();
    assert!(!takes(&set));
    let error = build_trie(&set).unwrap_err();
    assert_eq!(error, BuildError::Trie);
    assert_eq!(error.kind(), ErrorClass::Io);
    assert_eq!(error.message(), "DoubleArray build error for user dict.");
}

#[test]
fn unsorted_and_doubled_keys_are_refused() {
    assert!(!takes(&set_of(&[(b"b", 0), (b"a", 1)])));
    assert!(!takes(&set_of(&[(b"a", 0), (b"a", 1)])));
    assert!(!takes(&set_of(&[(b"a", 0), (b"b", 1), (b"ab", 2)])));
    assert!(takes(&set_of(&[(b"a", 0), (b"ab", 1), (b"b", 2)])));
    assert_eq!(build_trie(&set_of(&[(b"b", 0), (b"a", 1)])), Err(BuildError::Trie));
    assert_eq!(build_trie(&set_of(&[(b"a", 0), (b"a", 1)])), Err(BuildError::Trie));
}

#[test]
fn zero_bytes_are_refused() {
    assert!(!takes(&set_of(&[(b"\0", 0)])));
    assert!(!takes(&set_of(&[(b"a\0b", 0)])));
    assert!(!takes(&set_of(&[(b"a", 0), (b"b\0", 1)])));
    assert_eq!(build_trie(&set_of(&[(b"a\0", 0)])), Err(BuildError::Trie));
}

#[test]
fn large_values_are_refused() {
    assert!(takes(&set_of(&[(b"a", 0x7fff_ffff)])));
    assert!(!takes(&set_of(&[(b"a", 0x8000_0000)])));
    assert!(!takes(&set_of(&[(b"a", u32::MAX)])));
    assert_eq!(build_trie(&set_of(&[(b"a", 0x8000_0000)])), Err(BuildError::Trie));
}

#[test]
fn long_keys_are_refused() {
    let longest = vec![b'a'; MAX_KEY_LEN];
    let longer = vec![b'a'; MAX_KEY_LEN + 1];
    assert!(takes(&set_of(&[(&longest[..], 5)])));
    assert!(!takes(&set_of(&[(&longer[..], 5)])));
    let da = DoubleArray::new(build_trie(&set_of(&[(&longest[..], 5)])).unwrap());
    assert_eq!(da.exact_match_search(&longest), Some(5));
    assert_eq!(build_trie(&set_of(&[(&longer[..], 5)])), Err(BuildError::Trie));
}

/// The units of the trie of the keys, besides its root: the beginnings of keys, each
/// counted once, and the keys.
fn units_of(keys: &[Vec<u8>]) -> usize {
    let mut beginnings: HashSet<&[u8]> = HashSet::new();
    for key in keys.iter() {
        for end in 1..=key.len() {
            beginnings.insert(&key[..end]);
        }
    }
    beginnings.len() + keys.len()
}

/// Keys of 40 bytes that differ in their first three bytes.
fn long_tailed_keys(count: usize) -> Vec<Vec<u8>> {
    let mut keys: Vec<Vec<u8>> = Vec::new();
    for i in 0..count {
        let mut key = vec![b'a'; 40];
        key[0] = b'a' + (i / 400) as u8;
        key[1] = b'a' + (i / 20 % 20) as u8;
        key[2] = b'a' + (i % 20) as u8;
        keys.push(key);
    }
    keys
}

fn set_of_keys(keys: &[Vec<u8>]) -> Vec<(&[u8], u32)> {
    keys.iter().enumerate().map(|(i, k)| (&k[..], i as u32)).collect()
}

#[test]
fn shared_len_counts_the_common_beginning() {
    assert_eq!(shared_len(b"", b""), 0);
    assert_eq!(shared_len(b"abc", b""), 0);
    assert_eq!(shared_len(b"abc", b"abd"), 2);
    assert_eq!(shared_len(b"abc", b"abcd"), 3);
    assert_eq!(shared_len(b"abc", b"abc"), 3);
    assert_eq!(shared_len(b"xbc", b"abc"), 0);
    assert_eq!(shared_len("東京".as_bytes(), "東北".as_bytes()), 3);
}

#[test]
fn a_trie_of_too_many_units_is_refused() {
    // each key but the first of a run adds 38 or 39 units
    let mut keys = long_tailed_keys(3400);
    while units_of(&keys) > MAX_TRIE_UNITS {
        keys.pop();
    }
    assert!(units_of(&keys) > MAX_TRIE_UNITS - 41);
    assert!(takes(&set_of_keys(&keys)));
    // short keys fill what is left, one unit each and one for their end
    let mut filler = 0u8;
    while units_of(&keys) + 2 <= MAX_TRIE_UNITS {
        filler += 1;
        keys.push(vec![b'z', filler]);
    }
    if units_of(&keys) < MAX_TRIE_UNITS {
        keys.insert(0, Vec::new());
    }
    assert_eq!(units_of(&keys), MAX_TRIE_UNITS);
    assert!(takes(&set_of_keys(&keys)));
    keys.push(vec![b'z', 0xff]);
    assert!(units_of(&keys) > MAX_TRIE_UNITS);
    assert!(!takes(&set_of_keys(&keys)));
    assert_eq!(build_trie(&set_of_keys(&keys)), Err(BuildError::Trie));
}

#[test]
fn a_trie_at_the_limit_is_built() {
    let mut keys = long_tailed_keys(3400);
    while units_of(&keys) > MAX_TRIE_UNITS {
        keys.pop();
    }
    let set = set_of_keys(&keys);
    assert!(takes(&set));
    let da = DoubleArray::new(build_trie(&set).unwrap());
    assert_eq!(da.exact_match_search(&keys[0]), Some(0));
    assert_eq!(da.exact_match_search(&keys[keys.len() - 1]), Some(keys.len() as u32 - 1));
    assert!(da.0.len() / 1024 <= 8192);
}

#[test]
fn keys_that_share_their_beginning_count_it_once() {
    // 125 keys of 1024 bytes that differ in their last byte
    let mut keys: Vec<Vec<u8>> = Vec::new();
    for last in 1..=125u8 {
        let mut key = vec![b'a'; 1024];
        key[1023] = last;
        keys.push(key);
    }
    assert_eq!(units_of(&keys), 1023 + 2 * 125);
    let set = set_of_keys(&keys);
    assert!(takes(&set));
    let da = DoubleArray::new(build_trie(&set).unwrap());
    for (key, value) in set.iter() {
        assert_eq!(da.exact_match_search(key), Some(*value));
    }
    assert!(da.0.len() / 1024 < 100);
}

#[test]
fn nineteen_thousand_keys_of_six_bytes_are_built() {
    let mut keys: Vec<Vec<u8>> = Vec::new();
    let mut seed: u32 = 99;
    while keys.len() < 19_000 {
        let mut key = Vec::new();
        for _ in 0..6 {
            seed = seed.wrapping_mul(1664525).wrapping_add(1013904223);
            key.push(1 + (seed >> 24) as u8 % 255);
        }
        keys.push(key);
    }
    keys.sort();
    keys.dedup();
    assert!(keys.len() > 18_990);
    assert!(units_of(&keys) > 100_000);
    let set = set_of_keys(&keys);
    assert!(takes(&set));
    let da = DoubleArray::new(build_trie(&set).unwrap());
    for (key, value) in set.iter().step_by(53) {
        assert_eq!(da.exact_match_search(key), Some(*value));
    }
    assert!(da.0.len() / 1024 <= 8192);
}

/// The bytes 01..0F and 10, 20, .. F0: each byte is the difference of two of them, so that
/// no two nodes with these children stand in one block.
fn spreading_bytes() -> Vec<u8> {
    let mut bytes: Vec<u8> = (1u8..16).collect();
    bytes.extend((1u8..16).map(|high| high << 4));
    bytes
}

#[test]
fn blocks_stay_filled_where_nodes_spread() {
    let spread = spreading_bytes();
    let mut keys: Vec<Vec<u8>> = Vec::new();
    let prefixes = MAX_TRIE_UNITS / (2 * spread.len() + 2);
    for p in 0..prefixes {
        for byte in spread.iter() {
            keys.push(vec![1 + (p / 255) as u8, 1 + (p % 255) as u8, *byte]);
        }
    }
    keys.sort();
    let set: Vec<(&[u8], u32)> =
        keys.iter().enumerate().map(|(i, k)| (&k[..], i as u32)).collect();
    assert!(takes(&set));
    let da = DoubleArray::new(build_trie(&set).unwrap());
    for (key, value) in set.iter().step_by(97) {
        assert_eq!(da.exact_match_search(key), Some(*value));
    }
    // the units in use: the root and those of the trie
    let units = 1 + units_of(&keys);
    assert!(units > MAX_TRIE_UNITS - 4096);
    let blocks = da.0.len() / 1024;
    assert!(blocks > prefixes / 4);
    assert!(blocks <= 2 * units / 31 + 1);
    assert!(blocks <= 8192);
}

#[test]
fn many_keys_are_built() {
    let mut keys: Vec<String> = Vec::new();
    for i in 0..20000u32 {
        keys.push(format!("{:05}", i));
    }
    let set: Vec<(&[u8], u32)> =
        keys.iter().enumerate().map(|(i, k)| (k.as_bytes(), i as u32)).collect();
    let da = DoubleArray::new(build_trie(&set).unwrap());
    assert_eq!(da.exact_match_search("00000"), Some(0));
    assert_eq!(da.exact_match_search("12345"), Some(12345));
    assert_eq!(da.exact_match_search("19999"), Some(19999));
    assert_eq!(da.exact_match_search("20000"), None);
}

#[test]
fn one_key_set_always_gives_the_same_trie() {
    let set = set_of(&[(b"a", 1), (b"ab", 2), (b"b", 3), ("すし".as_bytes(), 4)]);
    let first = build_trie(&set).unwrap();
    let second = build_trie(&set.clone()).unwrap();
    assert_eq!(first, second);
}

#[test]
fn every_key_set_that_is_taken_is_built() {
    let mut seed: u32 = 2024;
    for round in 0..50 {
        let mut keys: Vec<Vec<u8>> = Vec::new();
        for _ in 0..(1 + round * 3) {
            seed = seed.wrapping_mul(1664525).wrapping_add(1013904223);
            let len = (seed >> 24) % 6;
            let mut key = Vec::new();
            for i in 0..len {
                key.push(1 + ((seed >> (4 * i)) % 4) as u8 * 60);
            }
            keys.push(key);
        }
        keys.sort();
        keys.dedup();
        let set: Vec<(&[u8], u32)> =
            keys.iter().enumerate().map(|(i, k)| (&k[..], (i as u32) << 5 | 1)).collect();
        assert!(takes(&set));
        let da = DoubleArray::new(build_trie(&set).unwrap());
        for (key, value) in set.iter() {
            assert_eq!(da.exact_match_search(key), Some(*value));
        }
    }
}
