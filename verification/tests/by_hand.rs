use std::collections::BTreeMap;

use byteorder::{LittleEndian, WriteBytesExt};
use lindera_core::word_entry::{WordEntry as CoreEntry, WordId as CoreId};
use lindera_dictionary::build_user_dict;
use yada::builder::DoubleArrayBuilder;

struct Tables {
    da: Vec<u8>,
    vals: Vec<u8>,
    idx: Vec<u8>,
    words: Vec<u8>,
}

/// The four tables of a word list of short lines, made with the standard library's sort
/// and map and with the crates that own the formats.
fn tables_of(lines: &[(&str, &str, &str)]) -> Tables {
    let mut rows: Vec<(&str, &str, &str)> = lines.to_vec();
    rows.sort_by_key(|row| row.0);

    let mut groups: BTreeMap<String, Vec<CoreEntry>> = BTreeMap::new();
    for (id, row) in rows.iter().enumerate() {
        groups.entry(row.0.to_string()).or_insert_with(Vec::new).push(CoreEntry {
            word_id: CoreId(id as u32, false),
            word_cost: -10000,
            cost_id: 0,
        });
    }

    let mut words = Vec::new();
    let mut idx = Vec::new();
    for row in rows.iter() {
        let star = "*".to_string();
        let record: Vec<String> = vec![
            row.1.to_string(),
            star.clone(),
            star.clone(),
            star.clone(),
            star.clone(),
            star.clone(),
            row.0.to_string(),
            row.2.to_string(),
            star,
        ];
        idx.write_u32::<LittleEndian>(words.len() as u32).unwrap();
        bincode::serialize_into(&mut words, &record).unwrap();
    }

    let mut keys: Vec<(&[u8], u32)> = Vec::new();
    let mut first = 0u32;
    for (key, entries) in groups.iter() {
        let len = entries.len() as u32;
        keys.push((key.as_bytes(), (first << 5) | len));
        first += len;
    }
    let da = DoubleArrayBuilder::build(&keys).unwrap();

    let mut vals = Vec::new();
    for entries in groups.values() {
        for entry in entries.iter() {
            entry.serialize(&mut vals).unwrap();
        }
    }
    Tables { da, vals, idx, words }
}

fn same_tables(lines: &[(&str, &str, &str)]) {
    let text: String = lines.iter().map(|l| format!("{},{},{}\n", l.0, l.1, l.2)).collect();
    let dict = build_user_dict(&text).unwrap();
    let expected = tables_of(lines);
    assert_eq!(dict.dict.da, expected.da);
    assert_eq!(dict.dict.vals_data, expected.vals);
    assert_eq!(dict.words_idx_data, expected.idx);
    assert_eq!(dict.words_data, expected.words);
}

#[test]
fn the_tables_are_those_made_by_hand() {
    same_tables(&[("すし", "1", "スシ"), ("すし", "2", "すし")]);
    same_tables(&[("b", "x", "y"), ("a", "z", "w"), ("b", "u", "v"), ("", "", "")]);
    same_tables(&[("東京", "名詞", "トウキョウ"), ("東", "名詞", "ヒガシ"), ("京", "名詞", "キョウ")]);
}

#[test]
fn the_tables_of_many_lines_are_those_made_by_hand() {
    let mut seed: u32 = 7;
    let mut texts: Vec<(String, String, String)> = Vec::new();
    for i in 0..400 {
        seed = seed.wrapping_mul(1103515245).wrapping_add(12345);
        let len = 1 + (seed >> 28) % 3;
        let mut surface = String::new();
        for j in 0..len {
            let pick = (seed >> (3 * j)) % 5;
            surface.push(['a', 'b', 'あ', '京', 'z'][pick as usize]);
        }
        texts.push((surface, format!("pos{}", i), format!("r{}", seed % 17)));
    }
    let lines: Vec<(&str, &str, &str)> =
        texts.iter().map(|t| (t.0.as_str(), t.1.as_str(), t.2.as_str())).collect();
    // no surface form may stand in 32 lines or more
    let mut counts: BTreeMap<&str, usize> = BTreeMap::new();
    for line in lines.iter() {
        *counts.entry(line.0).or_insert(0) += 1;
    }
    let kept: Vec<(&str, &str, &str)> =
        lines.iter().filter(|l| counts[l.0] < 32).cloned().collect();
    assert!(kept.len() > 100);
    same_tables(&kept);
}
