use byteorder::{LittleEndian, WriteBytesExt};
use lindera_core::word_entry::{WordEntry as CoreEntry, WordId as CoreId};
use lindera_dictionary::codec::{
    decode_record, encode_record, push_u16_le, push_u32_le, read_u16_le, read_u32_le,
    truncate_i16, truncate_u16, SERIALIZED_LEN,
};
use lindera_dictionary::{WordEntry, WordId};

fn strings(texts: &[&str]) -> Vec<String> {
    texts.iter().map(|t| t.to_string()).collect()
}

#[test]
fn numbers_are_written_low_byte_first() {
    let mut out = vec![9u8];
    push_u16_le(&mut out, 0x1234);
    push_u32_le(&mut out, 0x89abcdef);
    assert_eq!(out, vec![9, 0x34, 0x12, 0xef, 0xcd, 0xab, 0x89]);
    assert_eq!(read_u16_le(&out, 1), 0x1234);
    assert_eq!(read_u32_le(&out, 3), 0x89abcdef);
    assert_eq!(read_u32_le(&[0xff, 0xff, 0xff, 0xff], 0), u32::MAX);
}

#[test]
fn numbers_are_written_as_byteorder_writes_them() {
    for v in [0u32, 1, 0xff, 0x100, 0x1234_5678, 0x8000_0000, u32::MAX].iter() {
        let mut ours = Vec::new();
        push_u32_le(&mut ours, *v);
        push_u16_le(&mut ours, *v as u16);
        let mut theirs = Vec::new();
        theirs.write_u32::<LittleEndian>(*v).unwrap();
        theirs.write_u16::<LittleEndian>(*v as u16).unwrap();
        assert_eq!(ours, theirs);
    }
}

#[test]
fn truncation_keeps_the_low_16_bits() {
    assert_eq!(truncate_u16(0), 0);
    assert_eq!(truncate_u16(65535), 65535);
    assert_eq!(truncate_u16(65536), 0);
    assert_eq!(truncate_u16(65537 + 65536), 1);
    assert_eq!(truncate_u16(u32::MAX), u16::MAX);
    assert_eq!(truncate_i16(0), 0);
    assert_eq!(truncate_i16(-10000), -10000);
    assert_eq!(truncate_i16(32767), 32767);
    assert_eq!(truncate_i16(32768), -32768);
    assert_eq!(truncate_i16(-32768), -32768);
    assert_eq!(truncate_i16(-32769), 32767);
    assert_eq!(truncate_i16(65536), 0);
    assert_eq!(truncate_i16(i32::MAX), -1);
    assert_eq!(truncate_i16(i32::MIN), 0);
    for v in [-100000i32, -65537, -1, 1, 40000, 70000, 123456789].iter() {
        assert_eq!(truncate_i16(*v), *v as i16);
        assert_eq!(truncate_u16(*v as u32), *v as u32 as u16);
    }
}

#[test]
fn word_entry_has_eight_bytes() {
    let entry = WordEntry { word_id: WordId(258, false), word_cost: -2, cost_id: 3 };
    let mut out = Vec::new();
    entry.serialize(&mut out);
    assert_eq!(out, vec![2, 1, 0, 0, 0xfe, 0xff, 3, 0]);
    assert_eq!(out.len(), SERIALIZED_LEN);
    assert_eq!(WordEntry::deserialize(&out, false), entry);
    assert_eq!(
        WordEntry::deserialize(&out, true),
        WordEntry { word_id: WordId(258, true), word_cost: -2, cost_id: 3 }
    );
}

#[test]
fn word_entry_is_written_after_what_is_there() {
    let entry = WordEntry { word_id: WordId(1, true), word_cost: -17, cost_id: 1411 };
    let mut out = vec![7u8, 7u8];
    entry.serialize(&mut out);
    assert_eq!(out.len(), 10);
    assert_eq!(&out[..2], &[7, 7]);
    assert_eq!(WordEntry::deserialize(&out[2..], true), entry);
}

#[test]
fn word_entry_reads_only_its_eight_bytes() {
    let data = [0xff, 0xff, 0xff, 0xff, 0x00, 0x80, 0xff, 0xff, 1, 2, 3];
    assert_eq!(
        WordEntry::deserialize(&data, true),
        WordEntry { word_id: WordId(u32::MAX, true), word_cost: i16::MIN, cost_id: u16::MAX }
    );
}

#[test]
fn word_entry_is_the_entry_of_lindera_core() {
    let samples: [(u32, i16, u16); 6] = [
        (0, 0, 0),
        (1, -17, 1411),
        (u32::MAX, i16::MIN, u16::MAX),
        (0x01020304, i16::MAX, 0x0506),
        (77, -10000, 0),
        (5, 500, 2),
    ];
    for (id, cost, class) in samples.iter() {
        let ours = WordEntry { word_id: WordId(*id, false), word_cost: *cost, cost_id: *class };
        let theirs =
            CoreEntry { word_id: CoreId(*id, false), word_cost: *cost, cost_id: *class };
        let mut our_bytes = Vec::new();
        ours.serialize(&mut our_bytes);
        let mut their_bytes = Vec::new();
        theirs.serialize(&mut their_bytes).unwrap();
        assert_eq!(our_bytes, their_bytes);
        assert_eq!(CoreEntry::deserialize(&our_bytes, false), theirs);
        assert_eq!(WordEntry::deserialize(&their_bytes, false), ours);
    }
}

#[test]
fn record_is_count_then_each_text_with_its_length() {
    let mut out = vec![0xaau8];
    encode_record(&mut out, &strings(&["ab", "", "す"]));
    let expected: Vec<u8> = vec![
        0xaa, // what was there
        3, 0, 0, 0, 0, 0, 0, 0, // three texts
        2, 0, 0, 0, 0, 0, 0, 0, b'a', b'b', // "ab"
        0, 0, 0, 0, 0, 0, 0, 0, // ""
        3, 0, 0, 0, 0, 0, 0, 0, 0xe3, 0x81, 0x99, // "す"
    ];
    assert_eq!(out, expected);
}

#[test]
fn empty_record_is_its_count() {
    let mut out = Vec::new();
    encode_record(&mut out, &Vec::new());
    assert_eq!(out, vec![0, 0, 0, 0, 0, 0, 0, 0]);
    assert_eq!(decode_record(&out), Some(Vec::new()));
}

#[test]
fn record_that_was_written_is_read_back() {
    let fields = strings(&["名詞", "固有名詞", "地名", "一般", "*", "*", "東京", "トウキョウ", "トーキョー"]);
    let mut out = Vec::new();
    encode_record(&mut out, &fields);
    assert_eq!(decode_record(&out), Some(fields.clone()));
    out.extend_from_slice(&[1, 2, 3, 4, 5]);
    assert_eq!(decode_record(&out), Some(fields));
}

#[test]
fn record_is_what_bincode_reads() {
    let fields = strings(&["a", "bc", "寿司"]);
    let mut out = Vec::new();
    encode_record(&mut out, &fields);
    let read: Vec<String> = bincode::deserialize(&out).unwrap();
    assert_eq!(read, fields);
    assert_eq!(decode_record(&bincode::serialize(&fields).unwrap()), Some(fields));
}

#[test]
fn broken_records_are_not_read() {
    assert_eq!(decode_record(&[]), None);
    assert_eq!(decode_record(&[1, 0, 0, 0, 0, 0, 0]), None);
    // one text is announced, none follows
    assert_eq!(decode_record(&[1, 0, 0, 0, 0, 0, 0, 0]), None);
    // the text is cut short
    assert_eq!(decode_record(&[1, 0, 0, 0, 0, 0, 0, 0, 2, 0, 0, 0, 0, 0, 0, 0, b'a']), None);
    // the text is no UTF-8
    assert_eq!(decode_record(&[1, 0, 0, 0, 0, 0, 0, 0, 1, 0, 0, 0, 0, 0, 0, 0, 0xff]), None);
    // far more texts are announced than there are bytes
    assert_eq!(decode_record(&[0xff; 8]), None);
}

#[test]
fn what_is_read_is_what_the_bytes_begin_with() {
    let mut inputs: Vec<Vec<u8>> = Vec::new();
    for fields in [
        strings(&[]),
        strings(&[""]),
        strings(&["", "", ""]),
        strings(&["a", "", "すし", "\0", "a,b\nc"]),
    ]
    .iter()
    {
        let mut bytes = Vec::new();
        encode_record(&mut bytes, fields);
        inputs.push(bytes.clone());
        bytes.extend_from_slice(&[0, 1, 2, 0xff]);
        inputs.push(bytes);
    }
    inputs.push(vec![0; 7]);
    inputs.push(vec![0; 9]);
    inputs.push(vec![2, 0, 0, 0, 0, 0, 0, 0, 0, 0, 0, 0, 0, 0, 0, 0]);
    for input in inputs.iter() {
        if let Some(fields) = decode_record(input) {
            let mut again = Vec::new();
            encode_record(&mut again, &fields);
            assert!(input.starts_with(&again), "{:?}", input);
        }
    }
    assert_eq!(decode_record(&vec![0; 9]), Some(Vec::new()));
    assert_eq!(decode_record(&vec![0; 7]), None);
}
