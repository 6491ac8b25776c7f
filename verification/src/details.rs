//! The detail records of a lexicon: one record per row, laid end to end, and the table that
//! says where each record starts.

use crate::bytes::{concat, lemma_concat_fixed, lemma_concat_part, lemma_concat_push};
use crate::codec::{
    all_utf8, decode_record, encode_record, le_u32, lemma_le_u32_of_bytes, push_u32_le,
    read_u32_le, record_bytes, texts_of, u32_le,
};
use crate::error::BuildError;
use crate::lines::row_views;
use crate::row::{CsvRow, Row};
use crate::sort::{arrange, total};
use vstd::prelude::*;
use vstd::slice::slice_subrange;

verus! {

/// The detail record of each row, in its binary form.
pub open spec fn records(rows: Seq<Row>) -> Seq<Seq<u8>> {
    Seq::new(rows.len(), |k: int| record_bytes(rows[k].details))
}

/// Where record `k` starts when the records are laid end to end.
pub open spec fn offset(records: Seq<Seq<u8>>, k: int) -> nat {
    concat(records.take(k)).len()
}

/// The table of the records' offsets: four bytes for each record, the lowest first.
pub open spec fn offset_table(records: Seq<Seq<u8>>) -> Seq<u8> {
    concat(Seq::new(records.len(), |k: int| u32_le(offset(records, k) as u32)))
}

/// Every record starts within what four bytes can say.
pub open spec fn offsets_fit(records: Seq<Seq<u8>>) -> bool {
    forall|k: int| 0 <= k < records.len() ==> #[trigger] offset(records, k) <= u32::MAX
}

/// Why the record of row `k` is not written after the records before it, if it is not: it
/// starts beyond what four bytes can say.
pub open spec fn record_fault(rows: Seq<Row>, k: int) -> Option<BuildError> {
    if offset(records(rows), k) > u32::MAX {
        Some(BuildError::Offset { row: k as usize })
    } else {
        None
    }
}

/// The fault of the first row whose record is not written.
pub open spec fn first_record_fault(rows: Seq<Row>) -> Option<BuildError>
    decreases rows.len(),
{
    if rows.len() == 0 {
        None
    } else {
        match first_record_fault(rows.drop_last()) {
            Some(e) => Some(e),
            None => record_fault(rows, rows.len() - 1),
        }
    }
}

/// The offset that the table holds for word `word_id`, if it holds one.
pub open spec fn record_start(table: Seq<u8>, word_id: u32) -> Option<u32> {
    if 4 * word_id + 4 <= table.len() {
        Some(le_u32(table.subrange(4 * word_id, 4 * word_id + 4)))
    } else {
        None
    }
}

/// What the detail blob holds from the start of the record of word `word_id` on, if the
/// table holds an offset for it that lies in the blob.
pub open spec fn record_tail(table: Seq<u8>, blob: Seq<u8>, word_id: u32) -> Option<Seq<u8>> {
    match record_start(table, word_id) {
        Some(start) => if start <= blob.len() {
            Some(blob.skip(start as int))
        } else {
            None
        },
        None => None,
    }
}

/// What reading a detail record from `tail` gives: nothing where there is no tail; else
/// strings whose record the tail begins with; and where the tail begins with the record of
/// any texts in valid UTF-8, these texts.
pub open spec fn is_record_read(tail: Option<Seq<u8>>, fields: Option<Vec<String>>) -> bool {
    match tail {
        Some(tail) => {
            &&& fields matches Some(strings) ==> record_bytes(texts_of(strings@)).is_prefix_of(
                tail,
            )
            &&& forall|texts: Seq<Seq<u8>>|
                all_utf8(texts) && #[trigger] record_bytes(texts).is_prefix_of(tail) ==> fields
                    is Some && texts_of(fields->Some_0@) == texts
        },
        None => fields is None,
    }
}

/// Writes the detail record of every row, in the given order, and the table of where each
/// record starts. Fails at the first record that starts beyond what four bytes can say.
pub fn detail_tables(rows: &Vec<CsvRow>, order: &Vec<usize>) -> (tables: Result<
    (Vec<u8>, Vec<u8>),
    BuildError,
>)
    requires
        forall|k: int| 0 <= k < order@.len() ==> #[trigger] order@[k] < rows@.len(),
    ensures
        ({
            let sorted = arrange(row_views(rows@), order@);
            match tables {
                Ok((table, blob)) => {
                    &&& first_record_fault(sorted) is None
                    &&& table@ == offset_table(records(sorted))
                    &&& blob@ == concat(records(sorted))
                },
                Err(e) => first_record_fault(sorted) == Some(e),
            }
        }),
{
    let ghost sorted = arrange(row_views(rows@), order@);
    let ghost all = records(sorted);
    let mut table: Vec<u8> = Vec::new();
    let mut blob: Vec<u8> = Vec::new();
    let mut k: usize = 0;
    proof {
        assert(all.take(0) =~= Seq::<Seq<u8>>::empty());
        assert(offset_table(all.take(0)) =~= Seq::<u8>::empty());
    }
    while k < order.len()
        invariant
            k <= order@.len(),
            forall|j: int| 0 <= j < order@.len() ==> #[trigger] order@[j] < rows@.len(),
            sorted == arrange(row_views(rows@), order@),
            all == records(sorted),
            first_record_fault(sorted.take(k as int)) is None,
            table@ == offset_table(all.take(k as int)),
            blob@ == concat(all.take(k as int)),
        decreases order@.len() - k,
    {
        let ghost upto = sorted.take(k + 1);
        proof {
            assert(upto.drop_last() =~= sorted.take(k as int));
            assert(records(upto).take(k as int) =~= all.take(k as int));
            assert(all.take(k + 1) =~= all.take(k as int).push(all[k as int]));
            lemma_offset_table_push(all.take(k as int), all[k as int]);
            lemma_concat_push(all.take(k as int), all[k as int]);
        }
        let start = blob.len();
        if start > u32::MAX as usize {
            proof {
                lemma_first_record_fault_stops(sorted, k + 1);
            }
            return Err(BuildError::Offset { row: k });
        }
        push_u32_le(&mut table, start as u32);
        assert(order@[k as int] < rows@.len());
        let fields = rows[order[k]].detail_fields();
        encode_record(&mut blob, &fields);
        k += 1;
    }
    assert(all.take(k as int) =~= all);
    assert(sorted.take(k as int) =~= sorted);
    Ok((table, blob))
}

/// Reads the detail record of word `word_id`: the texts that start in the blob at the
/// offset that the table holds for the word. `None` where the table holds no offset for
/// the word, the offset lies beyond the blob, or no record starts there.
pub fn detail_record(words_idx_data: &[u8], words_data: &[u8], word_id: u32) -> (fields: Option<
    Vec<String>,
>)
    ensures
        is_record_read(record_tail(words_idx_data@, words_data@, word_id), fields),
{
    if words_idx_data.len() / 4 <= word_id as usize {
        return None;
    }
    let at: usize = 4 * (word_id as usize);
    let start = read_u32_le(words_idx_data, at) as usize;
    if start > words_data.len() {
        return None;
    }
    let tail = slice_subrange(words_data, start, words_data.len());
    assert(tail@ =~= words_data@.skip(start as int));
    decode_record(tail)
}

/// One record more adds its offset to the table.
pub proof fn lemma_offset_table_push(records: Seq<Seq<u8>>, record: Seq<u8>)
    ensures
        offset_table(records.push(record)) == offset_table(records) + u32_le(
            concat(records).len() as u32,
        ),
{
    let more = records.push(record);
    let n = records.len() as int;
    let entries = Seq::new(more.len(), |k: int| u32_le(offset(more, k) as u32));
    let before = Seq::new(records.len(), |k: int| u32_le(offset(records, k) as u32));
    assert forall|k: int| 0 <= k <= n implies more.take(k) == records.take(k) by {
        assert(more.take(k) =~= records.take(k));
    }
    assert(records.take(n) =~= records);
    assert(entries.drop_last() =~= before);
}

/// Where the record of one of the first rows is not written, it is the first of all that is
/// not.
pub proof fn lemma_first_record_fault_stops(rows: Seq<Row>, n: int)
    requires
        0 <= n <= rows.len(),
        first_record_fault(rows.take(n)) is Some,
    ensures
        first_record_fault(rows) == first_record_fault(rows.take(n)),
    decreases rows.len() - n,
{
    if n == rows.len() {
        assert(rows.take(n) =~= rows);
    } else {
        assert(rows.drop_last().take(n) =~= rows.take(n));
        lemma_first_record_fault_stops(rows.drop_last(), n);
    }
}

/// Where every record is written, no row has a fault: no record starts too far.
pub proof fn lemma_no_record_fault(rows: Seq<Row>)
    requires
        first_record_fault(rows) is None,
    ensures
        forall|k: int| 0 <= k < rows.len() ==> record_fault(rows, k) is None,
        offsets_fit(records(rows)),
    decreases rows.len(),
{
    if rows.len() > 0 {
        let before = rows.drop_last();
        lemma_no_record_fault(before);
        assert forall|k: int| 0 <= k < rows.len() implies record_fault(rows, k) is None by {
            if k < before.len() {
                assert(records(before).take(k) =~= records(rows).take(k));
                assert(record_fault(before, k) is None);
            }
        }
        assert forall|k: int| 0 <= k < rows.len() implies #[trigger] offset(records(rows), k)
            <= u32::MAX by {
            assert(record_fault(rows, k) is None);
        }
    }
}

/// The tables of a lexicon say where each record is: the offset table has four bytes for
/// each record, which give the record's offset; at that offset the blob holds the record;
/// and the next record starts where this one ends, so that the offsets never descend.
pub proof fn lemma_record_in_tables(records: Seq<Seq<u8>>, word_id: u32)
    requires
        offsets_fit(records),
        word_id < records.len(),
    ensures
        offset_table(records).len() == 4 * records.len(),
        offset(records, word_id as int) <= u32::MAX,
        record_start(offset_table(records), word_id) == Some(
            offset(records, word_id as int) as u32,
        ),
        record_tail(offset_table(records), concat(records), word_id) == Some(
            concat(records).skip(offset(records, word_id as int) as int),
        ),
        records[word_id as int].is_prefix_of(
            concat(records).skip(offset(records, word_id as int) as int),
        ),
        offset(records, word_id + 1) == offset(records, word_id as int) + records[word_id as int].len(),
{
    let k = word_id as int;
    let n = records.len() as int;
    let entries = Seq::new(records.len(), |i: int| u32_le(offset(records, i) as u32));
    assert(offset(records, k) <= u32::MAX);
    lemma_concat_fixed(entries, 4, n);
    lemma_concat_fixed(entries, 4, k);
    assert(entries.take(n) =~= entries);
    lemma_concat_part(entries, k);
    let table = offset_table(records);
    assert(table.subrange(4 * k, 4 * k + 4) =~= table.skip(4 * k).subrange(0, 4));
    assert(table.subrange(4 * k, 4 * k + 4) == entries[k]);
    lemma_le_u32_of_bytes(offset(records, k) as u32);
    lemma_concat_part(records, k);
}

/// A detail record has eight bytes at least, so that the records of a word list start at
/// ascending offsets.
pub proof fn lemma_detail_offsets_ascend(rows: Seq<Row>, k: int)
    requires
        0 <= k < rows.len(),
    ensures
        offset(records(rows), k) < offset(records(rows), k + 1),
{
    lemma_concat_part(records(rows), k);
    assert(records(rows)[k].len() >= 8);
}

/// The number of bytes of each part.
pub open spec fn lens(parts: Seq<Seq<u8>>) -> Seq<nat> {
    Seq::new(parts.len(), |k: int| parts[k].len())
}

/// The parts laid end to end have the bytes of all parts.
pub proof fn lemma_concat_len(parts: Seq<Seq<u8>>)
    ensures
        concat(parts).len() == total(lens(parts)),
    decreases parts.len(),
{
    if parts.len() > 0 {
        lemma_concat_len(parts.drop_last());
        assert(lens(parts).drop_last() =~= lens(parts.drop_last()));
    }
}

/// Where the records together have no more bytes than four bytes can say, the record of
/// every row is written.
pub proof fn lemma_small_blob_is_written(rows: Seq<Row>)
    requires
        concat(records(rows)).len() <= u32::MAX,
    ensures
        first_record_fault(rows) is None,
    decreases rows.len(),
{
    if rows.len() > 0 {
        let before = rows.drop_last();
        let n = rows.len() as int;
        assert(records(rows).drop_last() =~= records(before));
        assert(records(rows).take(n - 1) =~= records(before));
        lemma_small_blob_is_written(before);
    }
}

/// A record fault is a record that starts too far.
pub proof fn lemma_record_fault_kind(rows: Seq<Row>)
    ensures
        first_record_fault(rows) is Some ==> first_record_fault(rows)->0 is Offset,
    decreases rows.len(),
{
    if rows.len() > 0 {
        lemma_record_fault_kind(rows.drop_last());
    }
}

} // verus!
