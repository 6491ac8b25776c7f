//! What can go wrong while a word list is compiled.

use vstd::prelude::*;

verus! {

/// The class of an error.
#[derive(Clone, Copy, Debug, PartialEq, Eq, Structural)]
pub enum ErrorClass {
    /// The trie builder cannot take the key set.
    Io,
    /// A numeric column does not hold a number.
    Parse,
    /// A line has the wrong number of columns.
    Content,
    /// A detail record starts beyond what the four bytes of its offset can say.
    Serialize,
    /// Too many rows share one surface form: the build cannot go on.
    Homonyms,
}

/// The numeric columns of a full line.
#[derive(Clone, Copy, Debug, PartialEq, Eq, Structural)]
pub enum Column {
    LeftId,
    RightId,
    WordCost,
}

/// Why one line of a word list is not a row.
#[derive(Clone, Copy, Debug, PartialEq, Eq, Structural)]
pub enum RowError {
    /// The column does not hold a decimal number of its type.
    Number(Column),
    /// The line has this many columns, which is neither 3 nor 13.
    FieldCount(usize),
}

/// Why a word list was not compiled.
#[derive(Clone, Copy, Debug, PartialEq, Eq, Structural)]
pub enum BuildError {
    /// Line `line`, counted from 0, is not a row.
    Line { line: usize, error: RowError },
    /// The detail record of row `row` of the sorted list starts beyond what 32 bits address.
    Offset { row: usize },
    /// The group of rows that starts at row `row` of the sorted list has `count` members,
    /// more than the 5 bits of a packed value can count. That row is line `first_line` of the
    /// word list, counted from 0: the first line with the group's surface form.
    Homonyms { row: usize, count: usize, first_line: usize },
    /// The key set is outside what the trie builder takes.
    Trie,
}

impl RowError {
    /// The class of this error.
    pub open spec fn spec_kind(self) -> ErrorClass {
        match self {
            RowError::Number(_) => ErrorClass::Parse,
            RowError::FieldCount(_) => ErrorClass::Content,
        }
    }

    /// The class of this error.
    #[verifier::when_used_as_spec(spec_kind)]
    pub fn kind(self) -> (kind: ErrorClass)
        ensures
            kind == self.spec_kind(),
    {
        match self {
            RowError::Number(_) => ErrorClass::Parse,
            RowError::FieldCount(_) => ErrorClass::Content,
        }
    }

    /// A sentence for the user.
    pub fn message(self) -> (text: String)
        ensures
            text@ == match self {
                RowError::Number(Column::LeftId) => "failed to parse left_id"@,
                RowError::Number(Column::RightId) => "failed to parse right_id"@,
                RowError::Number(Column::WordCost) => "failed to parse word_cost"@,
                RowError::FieldCount(_) => "user dictionary should be a CSV with 3 or 13 fields"@,
            },
    {
        match self {
            RowError::Number(Column::LeftId) => "failed to parse left_id".to_owned(),
            RowError::Number(Column::RightId) => "failed to parse right_id".to_owned(),
            RowError::Number(Column::WordCost) => "failed to parse word_cost".to_owned(),
            RowError::FieldCount(_) => "user dictionary should be a CSV with 3 or 13 fields".to_owned(),
        }
    }
}

impl BuildError {
    /// The class of this error.
    pub open spec fn spec_kind(self) -> ErrorClass {
        match self {
            BuildError::Line { line, error } => error.spec_kind(),
            BuildError::Offset { .. } => ErrorClass::Serialize,
            BuildError::Homonyms { .. } => ErrorClass::Homonyms,
            BuildError::Trie => ErrorClass::Io,
        }
    }

    /// The class of this error.
    #[verifier::when_used_as_spec(spec_kind)]
    pub fn kind(self) -> (kind: ErrorClass)
        ensures
            kind == self.spec_kind(),
    {
        match self {
            BuildError::Line { line, error } => error.kind(),
            BuildError::Offset { .. } => ErrorClass::Serialize,
            BuildError::Homonyms { .. } => ErrorClass::Homonyms,
            BuildError::Trie => ErrorClass::Io,
        }
    }

    /// A sentence for the user.
    pub fn message(self) -> (text: String)
        ensures
            text@ == match self {
                BuildError::Line { line, error: RowError::Number(Column::LeftId) } => "failed to parse left_id"@,
                BuildError::Line { line, error: RowError::Number(Column::RightId) } => "failed to parse right_id"@,
                BuildError::Line { line, error: RowError::Number(Column::WordCost) } => "failed to parse word_cost"@,
                BuildError::Line { line, error: RowError::FieldCount(_) } => "user dictionary should be a CSV with 3 or 13 fields"@,
                BuildError::Offset { .. } => "the detail records are larger than 32 bits address"@,
                BuildError::Homonyms { .. } => "a surface form has 32 rows or more"@,
                BuildError::Trie => "DoubleArray build error for user dict."@,
            },
    {
        match self {
            BuildError::Line { line, error } => error.message(),
            BuildError::Offset { .. } => "the detail records are larger than 32 bits address".to_owned(),
            BuildError::Homonyms { .. } => "a surface form has 32 rows or more".to_owned(),
            BuildError::Trie => "DoubleArray build error for user dict.".to_owned(),
        }
    }
}

} // verus!
