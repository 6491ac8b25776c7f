use lindera_dictionary::details::{detail_record, detail_tables};
use lindera_dictionary::{BuildError, CsvRow};

fn strings(texts: &[&str]) -> Vec<String> {
    texts.iter().map(|t| t.to_string()).collect()
}

#[test]
fn detail_tables_of_nothing() {
    let (table, blob) = detail_tables(&Vec::new(), &Vec::new()).unwrap();
    assert!(table.is_empty());
    assert!(blob.is_empty());
    assert_eq!(detail_record(&table, &blob, 0), None);
}

#[test]
fn detail_tables_follow_the_order() {
    let rows = vec![
        CsvRow::from_line_user_dict("b,x,y").unwrap(),
        CsvRow::from_line_user_dict("a,1,2,3,n1,n2,n3,n4,ct,cf,base,read,pron").unwrap(),
    ];
    let (table, blob) = detail_tables(&rows, &vec![1, 0]).unwrap();
    // the record of "a": 8 bytes for the count, 8 for each length, and the texts
    let first_len = 8 + 9 * 8 + "n1n2n3n4ctcfbasereadpron".len();
    let second_len = 8 + 9 * 8 + "x*****by*".len();
    assert_eq!(table, vec![0, 0, 0, 0, first_len as u8, 0, 0, 0]);
    assert_eq!(blob.len(), first_len + second_len);
    assert_eq!(
        detail_record(&table, &blob, 0),
        Some(strings(&["n1", "n2", "n3", "n4", "ct", "cf", "base", "read", "pron"]))
    );
    assert_eq!(
        detail_record(&table, &blob, 1),
        Some(strings(&["x", "*", "*", "*", "*", "*", "b", "y", "*"]))
    );
    assert_eq!(detail_record(&table, &blob, 2), None);
    assert_eq!(detail_record(&table, &blob, u32::MAX), None);
}

#[test]
fn detail_tables_may_name_a_row_twice() {
    let rows = vec![CsvRow::from_line_user_dict("a,b,c").unwrap()];
    let (table, blob) = detail_tables(&rows, &vec![0, 0]).unwrap();
    assert_eq!(table.len(), 8);
    assert_eq!(detail_record(&table, &blob, 0), detail_record(&table, &blob, 1));
    assert_eq!(blob.len(), 2 * (8 + 9 * 8 + "b*****ac*".len()));
}

#[test]
fn detail_record_checks_the_offset() {
    let rows = vec![CsvRow::from_line_user_dict("a,b,c").unwrap()];
    let (table, blob) = detail_tables(&rows, &vec![0]).unwrap();
    // an offset beyond the blob
    assert_eq!(detail_record(&[0xff, 0xff, 0, 0], &blob, 0), None);
    // an offset at the end of the blob: nothing is there
    assert_eq!(detail_record(&[blob.len() as u8, 0, 0, 0], &blob, 0), None);
    // a table cut short
    assert_eq!(detail_record(&table[..3], &blob, 0), None);
    // an offset into the middle of a record
    assert_eq!(detail_record(&[1, 0, 0, 0], &blob, 0), None);
}

#[test]
fn detail_tables_have_no_other_errors() {
    let rows = vec![CsvRow::from_line_user_dict("a,b,c").unwrap()];
    match detail_tables(&rows, &vec![0]) {
        Ok(_) => {}
        Err(BuildError::Offset { .. }) => panic!("refused"),
        Err(_) => unreachable!(),
    }
}
