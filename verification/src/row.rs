//! One line of a word list, read into a row.

use crate::bytes::{bytes_of, lemma_split_valid, split, split_text};
use crate::codec::{all_utf8, texts_of};
use crate::error::{Column, RowError};
use crate::number::{decimal_i32, decimal_u32, parse_i32, parse_u32};
use vstd::prelude::*;
use vstd::string::StringSliceAdditionalSpecFns;
use vstd::utf8::*;

verus! {

/// The byte that separates the columns of a line: a comma.
pub const DELIMITER: u8 = 0x2c;

/// The number of columns of a short line: surface form, part of speech, reading.
pub const SIMPLE_USERDIC_FIELDS_NUM: usize = 3;

/// The number of columns of a full line.
pub const DETAILED_USERDIC_FIELDS_NUM: usize = 13;

/// The word cost that a short line gets.
pub const SIMPLE_WORD_COST: i32 = -10000;

/// What a row says, with every text as its UTF-8 bytes.
pub struct Row {
    pub surface: Seq<u8>,
    pub left_id: u32,
    pub right_id: u32,
    pub word_cost: i32,
    /// The four part-of-speech levels, the conjugation type, the conjugate form, the base
    /// form, the reading and the pronunciation, in this order.
    pub details: Seq<Seq<u8>>,
}

/// A row of a word list. The texts are parts of the line that it was read from.
#[derive(Debug, Clone, Copy)]
pub struct CsvRow<'a> {
    pub surface_form: &'a str,
    pub left_id: u32,
    pub right_id: u32,
    pub word_cost: i32,
    pub pos_level1: &'a str,
    pub pos_level2: &'a str,
    pub pos_level3: &'a str,
    pub pos_level4: &'a str,
    pub conjugation_type: &'a str,
    pub conjugate_form: &'a str,
    pub base_form: &'a str,
    pub reading: &'a str,
    pub pronunciation: &'a str,
}

impl<'a> View for CsvRow<'a> {
    type V = Row;

    open spec fn view(&self) -> Row {
        Row {
            surface: self.surface_form.spec_bytes(),
            left_id: self.left_id,
            right_id: self.right_id,
            word_cost: self.word_cost,
            details: seq![
                self.pos_level1.spec_bytes(),
                self.pos_level2.spec_bytes(),
                self.pos_level3.spec_bytes(),
                self.pos_level4.spec_bytes(),
                self.conjugation_type.spec_bytes(),
                self.conjugate_form.spec_bytes(),
                self.base_form.spec_bytes(),
                self.reading.spec_bytes(),
                self.pronunciation.spec_bytes(),
            ],
        }
    }
}

/// The wildcard that stands where a short line says nothing: `*`.
pub open spec fn wildcard() -> Seq<u8> {
    seq![0x2au8]
}

/// The row of a full line with the columns `f`, or the first numeric column that holds no
/// number. Columns after the thirteenth are not read.
pub open spec fn detailed_row(f: Seq<Seq<u8>>) -> Result<Row, RowError>
    recommends
        f.len() >= 13,
{
    if decimal_u32(f[1]) is None {
        Err(RowError::Number(Column::LeftId))
    } else if decimal_u32(f[2]) is None {
        Err(RowError::Number(Column::RightId))
    } else if decimal_i32(f[3]) is None {
        Err(RowError::Number(Column::WordCost))
    } else {
        Ok(
            Row {
                surface: f[0],
                left_id: decimal_u32(f[1])->0,
                right_id: decimal_u32(f[2])->0,
                word_cost: decimal_i32(f[3])->0,
                details: f.subrange(4, 13),
            },
        )
    }
}

/// The row of a short line with the columns `f`: what the line does not say is 0, the
/// wildcard, or the surface form as base form, and the cost is -10000.
pub open spec fn simple_row(f: Seq<Seq<u8>>) -> Row
    recommends
        f.len() == 3,
{
    Row {
        surface: f[0],
        left_id: 0,
        right_id: 0,
        word_cost: SIMPLE_WORD_COST,
        details: seq![
            f[1],
            wildcard(),
            wildcard(),
            wildcard(),
            wildcard(),
            wildcard(),
            f[0],
            f[2],
            wildcard(),
        ],
    }
}

/// The row of a line of a user's word list: a short line of 3 columns or a full line of 13.
pub open spec fn user_row(line: Seq<u8>) -> Result<Row, RowError> {
    let f = split(line, DELIMITER);
    if f.len() == 3 {
        Ok(simple_row(f))
    } else if f.len() == 13 {
        detailed_row(f)
    } else {
        Err(RowError::FieldCount(f.len() as usize))
    }
}

/// The row has what a short line does not say as a short line gets it: the connection
/// classes are 0, the cost is -10000, the base form is the surface form, and the second to
/// fourth part-of-speech level, the conjugation type, the conjugate form and the
/// pronunciation are the text `*`.
pub open spec fn has_defaults(row: CsvRow) -> bool {
    &&& row.left_id == 0
    &&& row.right_id == 0
    &&& row.word_cost == -10000
    &&& row.base_form@ == row.surface_form@
    &&& row.pos_level2@ == "*"@
    &&& row.pos_level3@ == "*"@
    &&& row.pos_level4@ == "*"@
    &&& row.conjugation_type@ == "*"@
    &&& row.conjugate_form@ == "*"@
    &&& row.pronunciation@ == "*"@
}

/// What a result says, with the row as its view.
pub open spec fn row_result<'a>(r: Result<CsvRow<'a>, RowError>) -> Result<Row, RowError> {
    match r {
        Ok(row) => Ok(row@),
        Err(e) => Err(e),
    }
}

/// Every text of the row is valid UTF-8.
pub open spec fn is_text_row(row: Row) -> bool {
    valid_utf8(row.surface) && all_utf8(row.details)
}

/// The row of a line of valid UTF-8 holds texts.
pub proof fn lemma_user_row_is_text(line: Seq<u8>)
    requires
        valid_utf8(line),
    ensures
        user_row(line) matches Ok(row) ==> is_text_row(row),
{
    lemma_split_valid(line, DELIMITER);
    lemma_wildcard_bytes();
    encode_utf8_valid_utf8("*"@);
    let f = split(line, DELIMITER);
    if f.len() == 13 {
        assert forall|i: int| 0 <= i < 9 implies valid_utf8(#[trigger] f.subrange(4, 13)[i]) by {
            assert(valid_utf8(f[i + 4]));
        }
    }
    if f.len() == 3 {
        assert(valid_utf8(f[0]) && valid_utf8(f[1]) && valid_utf8(f[2]));
    }
}

/// The bytes of the text `*`.
pub proof fn lemma_wildcard_bytes()
    ensures
        "*".spec_bytes() == wildcard(),
{
    reveal_strlit("*");
    let chars = "*"@;
    assert(chars.len() == 1);
    assert(chars[0] == '*');
    assert(is_ascii_chars(chars));
    is_ascii_chars_encode_utf8(chars);
    assert(encode_utf8(chars) =~= wildcard());
}

impl<'a> CsvRow<'a> {
    /// Reads a full line: the surface form, the left and right connection class, the word
    /// cost, and the nine texts of the detail record.
    pub fn from_line(line: &'a str) -> (row: Result<CsvRow<'a>, RowError>)
        requires
            split(line.spec_bytes(), DELIMITER).len() >= 13,
        ensures
            row_result(row) == detailed_row(split(line.spec_bytes(), DELIMITER)),
    {
        let fields = split_text(line, DELIMITER);
        Self::from_fields(&fields)
    }

    /// Reads a line of a user's word list: a short line of 3 columns or a full line of 13.
    pub fn from_line_user_dict(line: &'a str) -> (row: Result<CsvRow<'a>, RowError>)
        ensures
            row_result(row) == user_row(line.spec_bytes()),
            split(line.spec_bytes(), DELIMITER).len() == SIMPLE_USERDIC_FIELDS_NUM ==> row is Ok
                && has_defaults(row->Ok_0),
    {
        let fields = split_text(line, DELIMITER);
        let ghost f = split(line.spec_bytes(), DELIMITER);
        assert(forall|i: int| 0 <= i < f.len() ==> f[i] == (#[trigger] fields@[i]).spec_bytes());
        if fields.len() == SIMPLE_USERDIC_FIELDS_NUM {
            proof {
                lemma_wildcard_bytes();
            }
            let row = CsvRow {
                surface_form: fields[0],
                left_id: 0,
                right_id: 0,
                word_cost: SIMPLE_WORD_COST,
                pos_level1: fields[1],
                pos_level2: "*",
                pos_level3: "*",
                pos_level4: "*",
                conjugation_type: "*",
                conjugate_form: "*",
                base_form: fields[0],
                reading: fields[2],
                pronunciation: "*",
            };
            assert(row@.details =~= simple_row(f).details);
            Ok(row)
        } else if fields.len() == DETAILED_USERDIC_FIELDS_NUM {
            Self::from_fields(&fields)
        } else {
            Err(RowError::FieldCount(fields.len()))
        }
    }

    /// The nine texts of the row's detail record: the four part-of-speech levels, the
    /// conjugation type, the conjugate form, the base form, the reading and the pronunciation.
    pub fn detail_fields(&self) -> (fields: Vec<String>)
        ensures
            texts_of(fields@) == self@.details,
    {
        let mut fields: Vec<String> = Vec::new();
        fields.push(self.pos_level1.to_owned());
        fields.push(self.pos_level2.to_owned());
        fields.push(self.pos_level3.to_owned());
        fields.push(self.pos_level4.to_owned());
        fields.push(self.conjugation_type.to_owned());
        fields.push(self.conjugate_form.to_owned());
        fields.push(self.base_form.to_owned());
        fields.push(self.reading.to_owned());
        fields.push(self.pronunciation.to_owned());
        assert(texts_of(fields@) =~= self@.details);
        fields
    }

    /// The row of a full line that was split into its columns.
    fn from_fields(fields: &Vec<&'a str>) -> (row: Result<CsvRow<'a>, RowError>)
        requires
            fields@.len() >= 13,
        ensures
            row_result(row) == detailed_row(bytes_of(fields@)),
    {
        let ghost f = bytes_of(fields@);
        assert(forall|i: int| 0 <= i < f.len() ==> f[i] == (#[trigger] fields@[i]).spec_bytes());
        let left_id = match parse_u32(fields[1].as_bytes()) {
            Some(v) => v,
            None => { return Err(RowError::Number(Column::LeftId)); },
        };
        let right_id = match parse_u32(fields[2].as_bytes()) {
            Some(v) => v,
            None => { return Err(RowError::Number(Column::RightId)); },
        };
        let word_cost = match parse_i32(fields[3].as_bytes()) {
            Some(v) => v,
            None => { return Err(RowError::Number(Column::WordCost)); },
        };
        let row = CsvRow {
            surface_form: fields[0],
            left_id,
            right_id,
            word_cost,
            pos_level1: fields[4],
            pos_level2: fields[5],
            pos_level3: fields[6],
            pos_level4: fields[7],
            conjugation_type: fields[8],
            conjugate_form: fields[9],
            base_form: fields[10],
            reading: fields[11],
            pronunciation: fields[12],
        };
        assert(row@.details =~= f.subrange(4, 13));
        Ok(row)
    }
}

} // verus!
