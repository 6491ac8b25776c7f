use lindera_core::prefix_dict::PrefixDict as CorePrefixDict;
use lindera_core::word_entry::{WordEntry as CoreEntry, WordId as CoreId};
use lindera_dictionary::details::detail_record;
use lindera_dictionary::{
    build_user_dict, compile_rows, BuildError, Column, CsvRow, ErrorClass, RowError,
    UserDictionary, WordEntry, WordId,
};
use yada::DoubleArray;

const TOKYO: &str = "東京,2,6,500,名詞,固有名詞,地名,一般,*,*,東京,トウキョウ,トーキョー";

fn strings(texts: &[&str]) -> Vec<String> {
    texts.iter().map(|t| t.to_string()).collect()
}

fn entries(dict: &UserDictionary) -> Vec<WordEntry> {
    dict.dict.vals_data.chunks(8).map(|c| WordEntry::deserialize(c, dict.dict.is_system)).collect()
}

fn offsets(dict: &UserDictionary) -> Vec<u32> {
    dict.words_idx_data
        .chunks(4)
        .map(|c| u32::from_le_bytes([c[0], c[1], c[2], c[3]]))
        .collect()
}

fn core_dict(dict: &UserDictionary) -> CorePrefixDict {
    CorePrefixDict {
        da: DoubleArray::new(dict.dict.da.clone()),
        vals_data: dict.dict.vals_data.clone(),
        is_system: dict.dict.is_system,
    }
}

#[test]
fn two_short_lines_share_a_surface_form() {
    let dict = build_user_dict("すし,1,スシ\nすし,2,すし\n").unwrap();
    assert!(!dict.dict.is_system);

    let da = DoubleArray::new(dict.dict.da.clone());
    assert_eq!(da.exact_match_search("すし"), Some(2));
    assert_eq!(da.exact_match_search("す"), None);

    assert_eq!(
        entries(&dict),
        vec![
            WordEntry { word_id: WordId(0, false), word_cost: -10000, cost_id: 0 },
            WordEntry { word_id: WordId(1, false), word_cost: -10000, cost_id: 0 },
        ]
    );
    assert_eq!(dict.words_idx_data.len(), 8);
    assert_eq!(
        dict.word_details(0),
        Some(strings(&["1", "*", "*", "*", "*", "*", "すし", "スシ", "*"]))
    );
    assert_eq!(
        dict.word_details(1),
        Some(strings(&["2", "*", "*", "*", "*", "*", "すし", "すし", "*"]))
    );
    assert_eq!(dict.word_details(2), None);
}

#[test]
fn one_full_line() {
    let dict = build_user_dict(TOKYO).unwrap();
    let da = DoubleArray::new(dict.dict.da.clone());
    assert_eq!(da.exact_match_search("東京"), Some(1));
    assert_eq!(
        entries(&dict),
        vec![WordEntry { word_id: WordId(0, false), word_cost: 500, cost_id: 2 }]
    );
    assert_eq!(dict.words_idx_data, vec![0, 0, 0, 0]);
    assert_eq!(
        dict.word_details(0),
        Some(strings(&[
            "名詞", "固有名詞", "地名", "一般", "*", "*", "東京", "トウキョウ", "トーキョー"
        ]))
    );
    assert_eq!(
        detail_record(&dict.words_idx_data, &dict.words_data, 0),
        dict.word_details(0)
    );
}

#[test]
fn rows_are_compiled_in_sorted_order() {
    let text = "c,3,C\r\nb,2,B\r\na,1,A\r\nb,4,D\r\n";
    let dict = build_user_dict(text).unwrap();
    let da = DoubleArray::new(dict.dict.da.clone());
    assert_eq!(da.exact_match_search("a"), Some((0 << 5) | 1));
    assert_eq!(da.exact_match_search("b"), Some((1 << 5) | 2));
    assert_eq!(da.exact_match_search("c"), Some((3 << 5) | 1));
    let ids: Vec<u32> = entries(&dict).iter().map(|e| e.word_id.0).collect();
    assert_eq!(ids, vec![0, 1, 2, 3]);
    let readings: Vec<String> =
        (0..4).map(|id| dict.word_details(id).unwrap()[7].clone()).collect();
    assert_eq!(readings, strings(&["A", "B", "D", "C"]));
    let bases: Vec<String> = (0..4).map(|id| dict.word_details(id).unwrap()[6].clone()).collect();
    assert_eq!(bases, strings(&["a", "b", "b", "c"]));
}

#[test]
fn offsets_ascend_one_for_each_row() {
    let dict = build_user_dict("b,x,y\na,longer,reading\nc,,\n").unwrap();
    let found = offsets(&dict);
    let base = 8 + 9 * 8;
    let first = base + "longer*****areading*".len();
    let second = base + "x*****by*".len();
    let third = base + "*****c*".len();
    assert_eq!(found, vec![0, first as u32, (first + second) as u32]);
    assert_eq!(dict.words_data.len(), first + second + third);
    assert_eq!(dict.dict.vals_data.len(), 3 * 8);
}

#[test]
fn cost_and_class_keep_their_low_16_bits() {
    let dict = build_user_dict("a,65538,0,40000,b,c,d,e,f,g,h,i,j").unwrap();
    assert_eq!(
        entries(&dict),
        vec![WordEntry { word_id: WordId(0, false), word_cost: -25536, cost_id: 2 }]
    );
}

#[test]
fn lindera_core_reads_the_compiled_dictionary() {
    let text = format!("すし,1,スシ\n{}\nすし,2,すし\n東,3,ヒガシ\n", TOKYO);
    let dict = build_user_dict(&text).unwrap();
    let core = core_dict(&dict);
    let found: Vec<(usize, CoreEntry)> = core.prefix("東京へ").collect();
    assert_eq!(
        found,
        vec![
            (3, CoreEntry { word_id: CoreId(2, false), word_cost: -10000, cost_id: 0 }),
            (6, CoreEntry { word_id: CoreId(3, false), word_cost: 500, cost_id: 2 }),
        ]
    );
    let found: Vec<(usize, CoreEntry)> = core.prefix("すしを食べる").collect();
    assert_eq!(
        found,
        vec![
            (6, CoreEntry { word_id: CoreId(0, false), word_cost: -10000, cost_id: 0 }),
            (6, CoreEntry { word_id: CoreId(1, false), word_cost: -10000, cost_id: 0 }),
        ]
    );
    assert_eq!(dict.word_details(2).unwrap()[7], "ヒガシ");
    assert_eq!(dict.word_details(3).unwrap()[7], "トウキョウ");
    assert_eq!(core.prefix("寿司").count(), 0);
}

#[test]
fn every_surface_form_is_a_key_that_counts_its_rows() {
    let surfaces = ["b", "a", "c", "b", "b", "a", "d"];
    let text: String = surfaces.iter().map(|s| format!("{},x,y\n", s)).collect();
    let dict = build_user_dict(&text).unwrap();
    let da = DoubleArray::new(dict.dict.da.clone());
    let all = entries(&dict);
    for surface in surfaces.iter() {
        let count = surfaces.iter().filter(|s| *s == surface).count();
        let before = surfaces.iter().filter(|s| *s < surface).count();
        let value = da.exact_match_search(surface).unwrap();
        assert_eq!((value & 31) as usize, count);
        assert_eq!((value >> 5) as usize, before);
        for k in before..before + count {
            assert_eq!(all[k].word_id, WordId(k as u32, false));
            assert_eq!(dict.word_details(k as u32).unwrap()[6], *surface);
        }
    }
}

#[test]
fn thirty_one_homonyms_are_compiled() {
    let text: String = (0..31).map(|i| format!("同音,{},ドウオン\n", i)).collect();
    let dict = build_user_dict(&text).unwrap();
    let da = DoubleArray::new(dict.dict.da.clone());
    assert_eq!(da.exact_match_search("同音"), Some(31));
    assert_eq!(entries(&dict).len(), 31);
    assert_eq!(dict.word_details(30).unwrap()[0], "30");
}

#[test]
fn thirty_two_homonyms_are_not() {
    let mut text: String = (0..32).map(|i| format!("同音,{},ドウオン\n", i)).collect();
    text.push_str("a,b,c\n");
    let error = build_user_dict(&text).unwrap_err();
    assert_eq!(error, BuildError::Homonyms { row: 1, count: 32, first_line: 0 });
    assert_eq!(error.kind(), ErrorClass::Homonyms);
}

#[test]
fn a_line_with_other_columns_stops_the_build() {
    let error = build_user_dict("a,b,c\na,b\na,b,c,d\n").unwrap_err();
    assert_eq!(error, BuildError::Line { line: 1, error: RowError::FieldCount(2) });
    assert_eq!(error.kind(), ErrorClass::Content);
    assert_eq!(error.message(), "user dictionary should be a CSV with 3 or 13 fields");
    let error = build_user_dict("a,b,c\n\na,b,c\n").unwrap_err();
    assert_eq!(error, BuildError::Line { line: 1, error: RowError::FieldCount(1) });
}

#[test]
fn a_bad_number_stops_the_build() {
    let text = format!("{}\na,1,2,x,b,c,d,e,f,g,h,i,j\na,b\n", TOKYO);
    let error = build_user_dict(&text).unwrap_err();
    assert_eq!(error, BuildError::Line { line: 1, error: RowError::Number(Column::WordCost) });
    assert_eq!(error.kind(), ErrorClass::Parse);
    assert_eq!(error.message(), "failed to parse word_cost");
}

#[test]
fn a_bad_line_goes_before_too_many_homonyms() {
    let mut text: String = (0..40).map(|i| format!("a,{},b\n", i)).collect();
    text.push_str("a,b\n");
    let error = build_user_dict(&text).unwrap_err();
    assert_eq!(error, BuildError::Line { line: 40, error: RowError::FieldCount(2) });
}

#[test]
fn an_empty_word_list_has_no_trie() {
    let error = build_user_dict("").unwrap_err();
    assert_eq!(error, BuildError::Trie);
    assert_eq!(error.kind(), ErrorClass::Io);
    assert_eq!(compile_rows(&Vec::new()).unwrap_err(), BuildError::Trie);
}

#[test]
fn a_zero_byte_in_a_surface_form_is_refused() {
    assert_eq!(build_user_dict("a\0b,c,d").unwrap_err(), BuildError::Trie);
    assert!(build_user_dict("ab,c\0,d").is_ok());
}

#[test]
fn an_empty_surface_form_is_a_key() {
    let dict = build_user_dict(",b,c\na,b,c").unwrap();
    let da = DoubleArray::new(dict.dict.da.clone());
    assert_eq!(da.exact_match_search(""), Some(1));
    assert_eq!(da.exact_match_search("a"), Some(33));
}

#[test]
fn compile_rows_takes_rows_in_line_order() {
    let rows = vec![
        CsvRow::from_line_user_dict("b,x,y").unwrap(),
        CsvRow::from_line_user_dict(TOKYO).unwrap(),
        CsvRow::from_line_user_dict("b,z,w").unwrap(),
    ];
    let dict = compile_rows(&rows).unwrap();
    let same = build_user_dict(&format!("b,x,y\n{}\nb,z,w", TOKYO)).unwrap();
    assert_eq!(dict.dict.da, same.dict.da);
    assert_eq!(dict.dict.vals_data, same.dict.vals_data);
    assert_eq!(dict.words_idx_data, same.words_idx_data);
    assert_eq!(dict.words_data, same.words_data);
    assert_eq!(dict.word_details(0).unwrap()[0], "x");
    assert_eq!(dict.word_details(1).unwrap()[0], "z");
    assert_eq!(dict.word_details(2).unwrap()[0], "名詞");
}

#[test]
fn many_rows_are_compiled() {
    let mut text = String::new();
    for i in 0..3000u32 {
        text.push_str(&format!("w{:04},{},0,{},p,*,*,*,*,*,b{},r,*\n", (i * 7919) % 3000, i, i, i));
    }
    let dict = build_user_dict(&text).unwrap();
    let da = DoubleArray::new(dict.dict.da.clone());
    let all = entries(&dict);
    assert_eq!(all.len(), 3000);
    for k in [0u32, 1, 1499, 2999].iter() {
        let value = da.exact_match_search(format!("w{:04}", k)).unwrap();
        assert_eq!(value, (k << 5) | 1);
        let entry = all[*k as usize];
        assert_eq!(entry.word_id, WordId(*k, false));
        let details = dict.word_details(*k).unwrap();
        // row i has the surface form w(7919 i mod 3000), and writes i in its base form
        let line: u32 = details[6][1..].parse().unwrap();
        assert_eq!((line * 7919) % 3000, *k);
        assert_eq!(entry.cost_id as u32, line);
        assert_eq!(entry.word_cost as u32, line);
    }
}

#[test]
fn a_value_stands_for_its_group() {
    let dict = build_user_dict("b,x,y\na,1,2,3,p,q,r,s,t,u,v,w,z\nb,z,w\n").unwrap();
    let a = WordEntry { word_id: WordId(0, false), word_cost: 3, cost_id: 1 };
    let b1 = WordEntry { word_id: WordId(1, false), word_cost: -10000, cost_id: 0 };
    let b2 = WordEntry { word_id: WordId(2, false), word_cost: -10000, cost_id: 0 };
    assert_eq!(dict.dict.group_entries((0 << 5) | 1), Some(vec![a]));
    assert_eq!(dict.dict.group_entries((1 << 5) | 2), Some(vec![b1, b2]));
    assert_eq!(dict.dict.group_entries((0 << 5) | 3), Some(vec![a, b1, b2]));
    assert_eq!(dict.dict.group_entries(3 << 5), Some(Vec::new()));
    // the table ends before the group does
    assert_eq!(dict.dict.group_entries((2 << 5) | 2), None);
    assert_eq!(dict.dict.group_entries(4 << 5), None);
    assert_eq!(dict.dict.group_entries(u32::MAX), None);
    let da = DoubleArray::new(dict.dict.da.clone());
    let found = dict.dict.group_entries(da.exact_match_search("b").unwrap()).unwrap();
    assert_eq!(found, vec![b1, b2]);
}

#[test]
fn a_system_dictionary_marks_its_entries() {
    let mut vals = Vec::new();
    WordEntry { word_id: WordId(9, false), word_cost: 1, cost_id: 2 }.serialize(&mut vals);
    let dict = lindera_dictionary::prefix_dict(&[], &vals);
    assert_eq!(
        dict.group_entries(1),
        Some(vec![WordEntry { word_id: WordId(9, true), word_cost: 1, cost_id: 2 }])
    );
}

#[test]
fn too_many_homonyms_name_their_first_line() {
    let mut text = String::from("z,b,c\n");
    for i in 0..35 {
        text.push_str(&format!("m,{},x\n", i));
        text.push_str(&format!("k{},b,c\n", i));
    }
    let error = build_user_dict(&text).unwrap_err();
    // sorted, the rows k0..k34 come first, then the 35 rows of m, then z
    assert_eq!(error, BuildError::Homonyms { row: 35, count: 35, first_line: 1 });
    assert_eq!(text.lines().nth(1).unwrap().split(',').next(), Some("m"));
}
