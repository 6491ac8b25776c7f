//! The lines of a word list, and the rows that they give.

use crate::bytes::{
    bytes_of, concat, lemma_split_len, lemma_split_nonempty, lemma_split_valid,
    lemma_subrange_valid, slice_between, split, split_text,
};
use crate::error::{BuildError, RowError};
use crate::row::{is_text_row, lemma_user_row_is_text, user_row, CsvRow, Row};
use vstd::prelude::*;
use vstd::string::StringSliceAdditionalSpecFns;
use vstd::utf8::*;

verus! {

/// The byte that ends a line.
pub const LINE_FEED: u8 = 0x0a;

/// The byte that may stand before the line feed and is then part of the line's end.
pub const CARRIAGE_RETURN: u8 = 0x0d;

/// A line without the carriage return at its end, if it has one.
pub open spec fn strip_cr(line: Seq<u8>) -> Seq<u8> {
    if line.len() > 0 && line.last() == CARRIAGE_RETURN {
        line.drop_last()
    } else {
        line
    }
}

/// The lines of a text. A line ends with a line feed, or with a carriage return and a line
/// feed, neither of which is part of the line. What follows the last line feed is a line
/// too, unless it is empty, and is kept as it is.
pub open spec fn lines_of(text: Seq<u8>) -> Seq<Seq<u8>> {
    let pieces = split(text, LINE_FEED);
    let ended = Seq::new((pieces.len() - 1) as nat, |i: int| strip_cr(pieces[i]));
    if pieces.last().len() == 0 {
        ended
    } else {
        ended.push(pieces.last())
    }
}

/// The rows of the lines, or the first line that is no row, with the reason.
pub open spec fn rows_of(lines: Seq<Seq<u8>>) -> Result<Seq<Row>, BuildError>
    decreases lines.len(),
{
    if lines.len() == 0 {
        Ok(Seq::empty())
    } else {
        match rows_of(lines.drop_last()) {
            Err(e) => Err(e),
            Ok(rows) => match user_row(lines.last()) {
                Ok(row) => Ok(rows.push(row)),
                Err(error) => Err(BuildError::Line { line: (lines.len() - 1) as usize, error }),
            },
        }
    }
}

/// What each row says.
pub open spec fn row_views(rows: Seq<CsvRow>) -> Seq<Row> {
    Seq::new(rows.len(), |i: int| rows[i]@)
}

/// The lines of `text`, as `str::lines` gives them.
pub fn split_lines<'a>(text: &'a str) -> (lines: Vec<&'a str>)
    ensures
        bytes_of(lines@) == lines_of(text.spec_bytes()),
{
    let pieces = split_text(text, LINE_FEED);
    let ghost parts = split(text.spec_bytes(), LINE_FEED);
    proof {
        lemma_split_nonempty(text.spec_bytes(), LINE_FEED);
        assert(forall|i: int| 0 <= i < parts.len() ==> parts[i] == (#[trigger] pieces@[i]).spec_bytes());
    }
    let ghost ended = Seq::new((parts.len() - 1) as nat, |i: int| strip_cr(parts[i]));
    let mut lines: Vec<&'a str> = Vec::new();
    let last = pieces.len() - 1;
    let mut i: usize = 0;
    while i < last
        invariant
            i <= last,
            last == pieces@.len() - 1,
            parts.len() == pieces@.len(),
            forall|k: int| 0 <= k < parts.len() ==> parts[k] == (#[trigger] pieces@[k]).spec_bytes(),
            ended == Seq::new((parts.len() - 1) as nat, |k: int| strip_cr(parts[k])),
            bytes_of(lines@) == ended.take(i as int),
        decreases last - i,
    {
        let piece = pieces[i];
        let bytes = piece.as_bytes();
        let n = bytes.len();
        let ghost before = bytes_of(lines@);
        assert(bytes@ == parts[i as int]);
        let line = if n > 0 && bytes[n - 1] == CARRIAGE_RETURN {
            proof {
                encode_utf8_valid_utf8(piece@);
                is_char_boundary_start_end_of_seq(bytes@);
                is_char_boundary_iff_not_is_continuation_byte(bytes@, n - 1);
            }
            let line = slice_between(piece, 0, n - 1);
            assert(line.spec_bytes() =~= strip_cr(parts[i as int]));
            line
        } else {
            piece
        };
        lines.push(line);
        assert(bytes_of(lines@) =~= before.push(line.spec_bytes()));
        assert(ended.take(i + 1) =~= ended.take(i as int).push(ended[i as int]));
        i += 1;
    }
    assert(ended.take(i as int) =~= ended);
    let ghost before = bytes_of(lines@);
    let tail = pieces[last];
    assert(tail.spec_bytes() == parts.last());
    if tail.as_bytes().len() > 0 {
        lines.push(tail);
        assert(bytes_of(lines@) =~= before.push(tail.spec_bytes()));
    }
    lines
}

/// Reads every line as a row of a user's word list, and stops at the first that is none.
pub fn parse_rows<'a>(lines: &Vec<&'a str>) -> (rows: Result<Vec<CsvRow<'a>>, BuildError>)
    ensures
        match rows {
            Ok(rows) => rows_of(bytes_of(lines@)) == Ok::<Seq<Row>, BuildError>(row_views(rows@)),
            Err(e) => rows_of(bytes_of(lines@)) == Err::<Seq<Row>, BuildError>(e),
        },
{
    let ghost all = bytes_of(lines@);
    let mut rows: Vec<CsvRow<'a>> = Vec::new();
    let mut i: usize = 0;
    assert(all.take(0) =~= Seq::<Seq<u8>>::empty());
    assert(row_views(rows@) =~= Seq::<Row>::empty());
    while i < lines.len()
        invariant
            i <= lines@.len(),
            all == bytes_of(lines@),
            rows_of(all.take(i as int)) == Ok::<Seq<Row>, BuildError>(row_views(rows@)),
        decreases lines@.len() - i,
    {
        let ghost before = row_views(rows@);
        proof {
            assert(all.take(i + 1).drop_last() =~= all.take(i as int));
            assert(all.take(i + 1).last() == lines@[i as int].spec_bytes());
        }
        match CsvRow::from_line_user_dict(lines[i]) {
            Ok(row) => {
                rows.push(row);
                assert(row_views(rows@) =~= before.push(row@));
            },
            Err(error) => {
                proof {
                    lemma_rows_of_stops(all, i + 1);
                }
                return Err(BuildError::Line { line: i, error });
            },
        }
        i += 1;
    }
    assert(all.take(i as int) =~= all);
    Ok(rows)
}

/// The lines of valid UTF-8 are valid UTF-8.
pub proof fn lemma_lines_valid(text: Seq<u8>)
    requires
        valid_utf8(text),
    ensures
        forall|i: int| 0 <= i < lines_of(text).len() ==> valid_utf8(#[trigger] lines_of(text)[i]),
{
    lemma_split_valid(text, LINE_FEED);
    lemma_split_nonempty(text, LINE_FEED);
    let pieces = split(text, LINE_FEED);
    assert forall|i: int| 0 <= i < lines_of(text).len() implies valid_utf8(
        #[trigger] lines_of(text)[i],
    ) by {
        let piece = pieces[i];
        assert(valid_utf8(piece));
        if i < pieces.len() - 1 && piece.len() > 0 && piece.last() == CARRIAGE_RETURN {
            let end = piece.len() - 1;
            is_char_boundary_start_end_of_seq(piece);
            is_char_boundary_iff_not_is_continuation_byte(piece, end);
            lemma_subrange_valid(piece, 0, end);
            assert(piece.subrange(0, end) =~= piece.drop_last());
        }
    }
}

/// The rows of lines of valid UTF-8 hold texts.
pub proof fn lemma_rows_are_text(lines: Seq<Seq<u8>>)
    requires
        forall|i: int| 0 <= i < lines.len() ==> valid_utf8(#[trigger] lines[i]),
    ensures
        rows_of(lines) matches Ok(rows) ==> forall|i: int|
            0 <= i < rows.len() ==> is_text_row(#[trigger] rows[i]),
    decreases lines.len(),
{
    if lines.len() > 0 {
        let before = lines.drop_last();
        assert forall|i: int| 0 <= i < before.len() implies valid_utf8(#[trigger] before[i]) by {
            assert(valid_utf8(lines[i]));
        }
        lemma_rows_are_text(before);
        assert(valid_utf8(lines[lines.len() - 1]));
        lemma_user_row_is_text(lines.last());
    }
}

/// A text has no more lines than bytes.
pub proof fn lemma_lines_len(text: Seq<u8>)
    ensures
        lines_of(text).len() <= text.len(),
{
    lemma_split_len(text, LINE_FEED);
    lemma_split_nonempty(text, LINE_FEED);
    let pieces = split(text, LINE_FEED);
    assert(concat(pieces).len() >= pieces.last().len());
}

/// The line that `rows_of` stops at is the first that is no row, and the reason is that
/// line's.
pub proof fn lemma_rows_of_error(lines: Seq<Seq<u8>>)
    requires
        lines.len() <= usize::MAX,
    ensures
        match rows_of(lines) {
            Ok(rows) => {
                &&& rows.len() == lines.len()
                &&& forall|i: int|
                    0 <= i < lines.len() ==> user_row(#[trigger] lines[i]) == Ok::<Row, RowError>(
                        rows[i],
                    )
            },
            Err(BuildError::Line { line, error }) => {
                &&& line < lines.len()
                &&& user_row(lines[line as int]) == Err::<Row, RowError>(error)
                &&& forall|i: int| 0 <= i < line ==> user_row(#[trigger] lines[i]) is Ok
            },
            Err(_) => false,
        },
    decreases lines.len(),
{
    if lines.len() > 0 {
        let before = lines.drop_last();
        lemma_rows_of_error(before);
        assert forall|i: int| 0 <= i < before.len() implies before[i] == lines[i] by {}
        match rows_of(before) {
            Ok(rows) => {
                match user_row(lines.last()) {
                    Ok(row) => {
                        assert forall|i: int| 0 <= i < lines.len() implies user_row(
                            #[trigger] lines[i],
                        ) == Ok::<Row, RowError>(rows.push(row)[i]) by {
                            if i < before.len() {
                                assert(user_row(before[i]) == Ok::<Row, RowError>(rows[i]));
                            }
                        }
                    },
                    Err(error) => {
                        assert forall|i: int| 0 <= i < lines.len() - 1 implies user_row(
                            #[trigger] lines[i],
                        ) is Ok by {
                            assert(user_row(before[i]) == Ok::<Row, RowError>(rows[i]));
                        }
                    },
                }
            },
            Err(BuildError::Line { line, error }) => {
                assert(lines[line as int] == before[line as int]);
                assert forall|i: int| 0 <= i < line implies user_row(#[trigger] lines[i]) is Ok by {
                    assert(user_row(before[i]) is Ok);
                }
            },
            Err(_) => {},
        }
    }
}

/// Where the first lines hold one that is no row, so do all the lines, with the same reason.
pub proof fn lemma_rows_of_stops(lines: Seq<Seq<u8>>, n: int)
    requires
        0 <= n <= lines.len(),
        rows_of(lines.take(n)) is Err,
    ensures
        rows_of(lines) == rows_of(lines.take(n)),
    decreases lines.len() - n,
{
    if n == lines.len() {
        assert(lines.take(n) =~= lines);
    } else {
        assert(lines.drop_last().take(n) =~= lines.take(n));
        lemma_rows_of_stops(lines.drop_last(), n);
    }
}

} // verus!
