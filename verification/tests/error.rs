use lindera_dictionary::{BuildError, Column, ErrorClass, RowError};

#[test]
fn every_error_has_its_class() {
    assert_eq!(RowError::Number(Column::LeftId).kind(), ErrorClass::Parse);
    assert_eq!(RowError::Number(Column::RightId).kind(), ErrorClass::Parse);
    assert_eq!(RowError::Number(Column::WordCost).kind(), ErrorClass::Parse);
    assert_eq!(RowError::FieldCount(0).kind(), ErrorClass::Content);
    let line = BuildError::Line { line: 3, error: RowError::FieldCount(5) };
    assert_eq!(line.kind(), ErrorClass::Content);
    let number = BuildError::Line { line: 0, error: RowError::Number(Column::RightId) };
    assert_eq!(number.kind(), ErrorClass::Parse);
    assert_eq!(BuildError::Offset { row: 1 }.kind(), ErrorClass::Serialize);
    assert_eq!(BuildError::Homonyms { row: 0, count: 32, first_line: 0 }.kind(), ErrorClass::Homonyms);
    assert_eq!(BuildError::Trie.kind(), ErrorClass::Io);
}

#[test]
fn every_error_has_its_message() {
    assert_eq!(RowError::Number(Column::LeftId).message(), "failed to parse left_id");
    assert_eq!(RowError::Number(Column::RightId).message(), "failed to parse right_id");
    assert_eq!(RowError::Number(Column::WordCost).message(), "failed to parse word_cost");
    assert_eq!(
        RowError::FieldCount(7).message(),
        "user dictionary should be a CSV with 3 or 13 fields"
    );
    let number = BuildError::Line { line: 9, error: RowError::Number(Column::RightId) };
    assert_eq!(number.message(), "failed to parse right_id");
    assert_eq!(
        BuildError::Offset { row: 1 }.message(),
        "the detail records are larger than 32 bits address"
    );
    assert_eq!(
        BuildError::Homonyms { row: 0, count: 32, first_line: 0 }.message(),
        "a surface form has 32 rows or more"
    );
    assert_eq!(BuildError::Trie.message(), "DoubleArray build error for user dict.");
}
