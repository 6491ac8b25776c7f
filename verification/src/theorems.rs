//! What holds of every compiled word list: its keys, its groups, its entries and its detail
//! records.

use crate::bytes::{
    concat, lemma_concat_fixed, lemma_concat_part, lemma_split_whole, lex_lt, split,
};
use crate::codec::{
    lemma_entry_round_trip, record_bytes, u32_le, WordEntry, WordId, SERIALIZED_LEN,
};
use crate::details::{
    first_record_fault, lemma_concat_len, lemma_detail_offsets_ascend, lemma_no_record_fault,
    lemma_record_fault_kind, lemma_record_in_tables, lemma_small_blob_is_written, lens, offset, offset_table,
    offsets_fit, record_start, record_tail, records,
};
use crate::error::{BuildError, ErrorClass, RowError};
use crate::groups::{
    first_fault, group_fault, groups, key_set, lemma_first_fault_at, lemma_first_fault_kind,
    Group, MAX_GROUP_LEN, MAX_ROWS,
};
use crate::lines::{
    lemma_lines_len, lemma_lines_valid, lemma_rows_are_text, lemma_rows_of_error, lines_of,
    rows_of, strip_cr, LINE_FEED,
};
use crate::row::{
    is_text_row, user_row, Row, DELIMITER, DETAILED_USERDIC_FIELDS_NUM,
    SIMPLE_USERDIC_FIELDS_NUM,
};
use crate::runs::{
    is_run, lemma_group_counts, lemma_group_keys_ascend, lemma_group_of_row,
    lemma_groups_span, lemma_groups_tile, lemma_occurrence_row, lemma_sorted_keys_count,
    lemma_sorted_keys_sorted, non_descending, occurrences,
};
use crate::sort::{
    arrange, is_stable_order, lemma_arrange_total, lemma_stable_order_covers,
    lemma_stable_order_exists, stable_order_of, total,
};
use crate::trie::{ascending, double_array_bytes, entry_fits, trie_takes, trie_units};
use crate::user_dict::{
    compiled, entries, entry_of, is_compilable, outcome, sorted, surface_fits, surfaces, unpack,
};
use vstd::prelude::*;
use vstd::utf8::valid_utf8;

verus! {

/// What a compiled word list says of its tables.
pub proof fn lemma_compiled_tables(rows: Seq<Row>)
    requires
        compiled(rows) is Ok,
    ensures
        first_record_fault(sorted(rows)) is None,
        offsets_fit(records(sorted(rows))),
        compiled(rows)->Ok_0.vals_data == concat(entries(sorted(rows))),
        compiled(rows)->Ok_0.words_idx_data == offset_table(records(sorted(rows))),
        compiled(rows)->Ok_0.words_data == concat(records(sorted(rows))),
{
    reveal(compiled);
    lemma_no_record_fault(sorted(rows));
}

/// What a compiled word list says of its key set.
pub proof fn lemma_compiled_keys(rows: Seq<Row>)
    requires
        compiled(rows) is Ok,
    ensures
        first_fault(groups(surfaces(sorted(rows))), stable_order_of(surfaces(rows))) is None,
        trie_takes(key_set(groups(surfaces(sorted(rows))))),
        double_array_bytes(key_set(groups(surfaces(sorted(rows))))) == compiled(rows)->Ok_0.da,
        !compiled(rows)->Ok_0.is_system,
{
    reveal(compiled);
}

/// Why a word list is not compiled.
pub proof fn lemma_compiled_error(rows: Seq<Row>)
    requires
        compiled(rows) is Err,
    ensures
        ({
            let refused = first_record_fault(sorted(rows));
            let fault = first_fault(
                groups(surfaces(sorted(rows))),
                stable_order_of(surfaces(rows)),
            );
            compiled(rows)->Err_0 == if refused is Some {
                refused->0
            } else if fault is Some {
                fault->0
            } else {
                BuildError::Trie
            }
        }),
{
    reveal(compiled);
}

/// A line that has neither 3 nor 13 columns stops the compilation: nothing is compiled, and
/// the reason is the first line that is no row. Where that is this line, the reason is of
/// the class `Content`, and says how many columns the line has.
pub proof fn theorem_wrong_field_count(text: Seq<u8>, line: int)
    requires
        text.len() <= usize::MAX,
        0 <= line < lines_of(text).len(),
        split(lines_of(text)[line], DELIMITER).len() != SIMPLE_USERDIC_FIELDS_NUM,
        split(lines_of(text)[line], DELIMITER).len() != DETAILED_USERDIC_FIELDS_NUM,
    ensures
        outcome(text) is Err,
        outcome(text)->Err_0 is Line,
        outcome(text)->Err_0->line <= line,
        (forall|i: int| 0 <= i < line ==> user_row(#[trigger] lines_of(text)[i]) is Ok) ==> {
            &&& outcome(text)->Err_0 == BuildError::Line {
                line: line as usize,
                error: RowError::FieldCount(
                    split(lines_of(text)[line], DELIMITER).len() as usize,
                ),
            }
            &&& outcome(text)->Err_0.spec_kind() == ErrorClass::Content
        },
{
    lemma_lines_len(text);
    lemma_rows_of_error(lines_of(text));
    let lines = lines_of(text);
    assert(user_row(lines[line]) is Err);
    match rows_of(lines) {
        Ok(rows) => {
            assert(user_row(lines[line]) == Ok::<Row, RowError>(rows[line]));
        },
        Err(BuildError::Line { line: first, error }) => {
            if first > line {
                assert(user_row(lines[line]) is Ok);
            }
        },
        Err(_) => {},
    }
}

/// The sorted list holds the rows of the word list, each once, and no surface form comes
/// before an earlier one. Returns the place of row `row` in the sorted list.
pub proof fn theorem_sorted_rows(rows: Seq<Row>, row: int) -> (at: int)
    requires
        rows.len() <= usize::MAX,
        0 <= row < rows.len(),
    ensures
        sorted(rows).len() == rows.len(),
        is_stable_order(surfaces(rows), stable_order_of(surfaces(rows))),
        non_descending(surfaces(sorted(rows))),
        0 <= at < rows.len(),
        sorted(rows)[at] == rows[row],
        stable_order_of(surfaces(rows))[at] == row,
{
    let keys = surfaces(rows);
    let order = lemma_stable_order_exists(keys);
    assert(surfaces(sorted(rows)) =~= arrange(keys, order));
    lemma_sorted_keys_sorted(keys, order);
    lemma_stable_order_covers(keys, order, 0, keys.len() as int, row)
}

/// Every surface form of a compiled word list is a key of the key set that the trie was
/// built from, and the key's value says which rows of the sorted list have it: the low five
/// bits are the number of rows of the word list that share the surface form, and the bits
/// above are the row at which they start. Returns the key's place in the key set.
pub proof fn theorem_surface_forms_are_keys(rows: Seq<Row>, row: int) -> (at: int)
    requires
        compiled(rows) is Ok,
        rows.len() <= usize::MAX,
        0 <= row < rows.len(),
    ensures
        ({
            let runs = groups(surfaces(sorted(rows)));
            let set = key_set(runs);
            &&& double_array_bytes(set) == compiled(rows)->Ok_0.da
            &&& ascending(set)
            &&& 0 <= at < set.len()
            &&& set[at].0 == rows[row].surface
            &&& set[at].1 % 32 == occurrences(surfaces(rows), rows[row].surface)
            &&& set[at].1 / 32 == runs[at].first
            &&& runs[at].len == occurrences(surfaces(rows), rows[row].surface)
            &&& is_run(surfaces(sorted(rows)), runs[at])
        }),
{
    lemma_compiled_keys(rows);
    let keys = surfaces(rows);
    let order = stable_order_of(keys);
    let place = theorem_sorted_rows(rows, row);
    let list = surfaces(sorted(rows));
    let runs = groups(list);
    assert(list =~= arrange(keys, order));
    lemma_groups_tile(list);
    let at = lemma_group_of_row(list, runs, place, runs.len() - 1);
    assert(is_run(list, runs[at]));
    assert(list[place] == runs[at].key);
    lemma_group_counts(list, runs, at);
    lemma_sorted_keys_count(keys, order, runs[at].key);
    lemma_first_fault_kind(runs, stable_order_of(surfaces(rows)));
    assert(group_fault(runs[at], stable_order_of(surfaces(rows))) is None);
    at
}

/// A word list in which 32 rows or more share a surface form is not compiled. Unless a
/// detail record is not written, or the word list has more than `MAX_ROWS` rows, the reason
/// is `BuildError::Homonyms`.
pub proof fn theorem_too_many_homonyms(rows: Seq<Row>, surface: Seq<u8>)
    requires
        rows.len() <= usize::MAX,
        occurrences(surfaces(rows), surface) > MAX_GROUP_LEN,
    ensures
        compiled(rows) is Err,
        first_record_fault(sorted(rows)) is None && rows.len() <= MAX_ROWS ==> compiled(
            rows,
        )->Err_0 is Homonyms,
{
    let row = lemma_occurrence_row(surfaces(rows), surface);
    assert(rows[row].surface == surface);
    if compiled(rows) is Ok {
        let at = theorem_surface_forms_are_keys(rows, row);
    }
    lemma_compiled_error(rows);
    let list = surfaces(sorted(rows));
    let runs = groups(list);
    if first_record_fault(sorted(rows)) is None && rows.len() <= MAX_ROWS {
        // some group has a fault, and with so few rows no value is too large
        let place = theorem_sorted_rows(rows, row);
        lemma_groups_tile(list);
        if first_fault(runs, stable_order_of(surfaces(rows))) is None {
            lemma_first_fault_kind(runs, stable_order_of(surfaces(rows)));
            let at = lemma_group_of_row(list, runs, place, runs.len() - 1);
            assert(is_run(list, runs[at]));
            assert(list[place] == surface);
            assert(runs[at].key == surface);
            assert(list =~= arrange(surfaces(rows), stable_order_of(surfaces(rows))));
            lemma_group_counts(list, runs, at);
            lemma_sorted_keys_count(surfaces(rows), stable_order_of(surfaces(rows)), surface);
            assert(runs[at].len > MAX_GROUP_LEN);
            assert(group_fault(runs[at], stable_order_of(surfaces(rows))) is None);
        }
        let first = lemma_first_fault_at(runs, stable_order_of(surfaces(rows)));
        assert(is_run(list, runs[first]));
    }
}

/// The tables of a compiled word list: the offset table has four bytes for each row, in the
/// order of the sorted list; they give the offset of the row's detail record, and at its
/// offset the blob holds the record of the row's nine texts. The first record starts at 0,
/// each next record where the one before it ends, and the last record ends the blob.
pub proof fn theorem_detail_tables(rows: Seq<Row>, word_id: u32)
    requires
        compiled(rows) is Ok,
        rows.len() <= usize::MAX,
        word_id < rows.len(),
    ensures
        ({
            let lexicon = compiled(rows)->Ok_0;
            let start = record_start(lexicon.words_idx_data, word_id);
            &&& lexicon.words_idx_data.len() == 4 * rows.len()
            &&& start == Some(offset(records(sorted(rows)), word_id as int) as u32)
            &&& record_tail(lexicon.words_idx_data, lexicon.words_data, word_id) is Some
            &&& record_bytes(sorted(rows)[word_id as int].details).is_prefix_of(
                record_tail(lexicon.words_idx_data, lexicon.words_data, word_id)->0,
            )
            &&& offset(records(sorted(rows)), 0) == 0
            &&& offset(records(sorted(rows)), word_id + 1) == offset(
                records(sorted(rows)),
                word_id as int,
            ) + record_bytes(sorted(rows)[word_id as int].details).len()
            &&& offset(records(sorted(rows)), rows.len() as int) == lexicon.words_data.len()
        }),
{
    lemma_compiled_tables(rows);
    let at = theorem_sorted_rows(rows, 0);
    let all = records(sorted(rows));
    lemma_record_in_tables(all, word_id);
    assert(all.take(0) =~= Seq::<Seq<u8>>::empty());
    assert(all.take(rows.len() as int) =~= all);
}

/// The offsets in the offset table of a compiled word list ascend from each row of the
/// sorted list to the next.
pub proof fn theorem_offsets_ascend(rows: Seq<Row>, word_id: u32, next: u32)
    requires
        compiled(rows) is Ok,
        rows.len() <= usize::MAX,
        next == word_id + 1,
        next < rows.len(),
    ensures
        record_start(compiled(rows)->Ok_0.words_idx_data, word_id) is Some,
        record_start(compiled(rows)->Ok_0.words_idx_data, next) is Some,
        record_start(compiled(rows)->Ok_0.words_idx_data, word_id)->0 < record_start(
            compiled(rows)->Ok_0.words_idx_data,
            next,
        )->0,
{
    lemma_compiled_tables(rows);
    let at = theorem_sorted_rows(rows, 0);
    let all = records(sorted(rows));
    lemma_record_in_tables(all, word_id);
    lemma_record_in_tables(all, next);
    lemma_detail_offsets_ascend(sorted(rows), word_id as int);
}

/// The value of a key of a compiled word list stands for the group of the rows that have
/// the key as their surface form: unpacked, it gives the rows of the sorted list that have
/// the surface form of row `row` of the word list, and at their places stand their entries.
pub proof fn theorem_value_is_group(rows: Seq<Row>, row: int, i: int) -> (at: int)
    requires
        compiled(rows) is Ok,
        rows.len() <= usize::MAX,
        0 <= row < rows.len(),
        0 <= i < occurrences(surfaces(rows), rows[row].surface),
    ensures
        ({
            let set = key_set(groups(surfaces(sorted(rows))));
            let (first, len) = unpack(set[at].1);
            &&& 0 <= at < set.len()
            &&& set[at].0 == rows[row].surface
            &&& len == occurrences(surfaces(rows), rows[row].surface)
            &&& 0 <= first
            &&& first + len <= rows.len()
            &&& sorted(rows)[first + i].surface == rows[row].surface
            &&& WordEntry::of_bytes(
                compiled(rows)->Ok_0.vals_data.skip(SERIALIZED_LEN * (first + i)),
                false,
            ) == entry_of(sorted(rows), first + i)
            &&& entry_of(sorted(rows), first + i).word_id == WordId((first + i) as u32, false)
        }),
{
    let at = theorem_surface_forms_are_keys(rows, row);
    let place = theorem_sorted_rows(rows, row);
    let runs = groups(surfaces(sorted(rows)));
    assert(is_run(surfaces(sorted(rows)), runs[at]));
    assert(surfaces(sorted(rows))[runs[at].first + i] == runs[at].key);
    theorem_entry_table(rows, runs[at].first + i);
    at
}

/// The entries of a compiled word list: eight bytes for each row, in the order of the sorted
/// list. The entry at place `k` is that of row `k` of the sorted list, and its number is
/// `k`, the number of the row's detail record.
pub proof fn theorem_entry_table(rows: Seq<Row>, k: int)
    requires
        compiled(rows) is Ok,
        rows.len() <= usize::MAX,
        0 <= k < rows.len(),
    ensures
        ({
            let lexicon = compiled(rows)->Ok_0;
            &&& lexicon.vals_data.len() == SERIALIZED_LEN * rows.len()
            &&& WordEntry::of_bytes(lexicon.vals_data.skip(SERIALIZED_LEN * k), false)
                == entry_of(sorted(rows), k)
            &&& entry_of(sorted(rows), k).word_id == WordId(k as u32, false)
            &&& k <= u32::MAX
        }),
{
    lemma_compiled_tables(rows);
    lemma_compiled_keys(rows);
    let at = theorem_sorted_rows(rows, 0);
    let list = surfaces(sorted(rows));
    let n = rows.len() as int;
    // the last group ends with the last row, and its value is none too large
    lemma_groups_span(list);
    lemma_first_fault_kind(groups(list), stable_order_of(surfaces(rows)));
    assert(group_fault(groups(list).last(), stable_order_of(surfaces(rows))) is None);
    let all = entries(sorted(rows));
    assert forall|i: int| 0 <= i < all.len() implies (#[trigger] all[i]).len() == 8 by {}
    lemma_concat_fixed(all, 8, n);
    lemma_concat_fixed(all, 8, k);
    assert(all.take(n) =~= all);
    lemma_concat_part(all, k);
    let table = concat(all);
    let rest = table.skip(8 * k).skip(8);
    assert(table.skip(8 * k) =~= all[k] + rest);
    lemma_entry_round_trip(entry_of(sorted(rows), k), rest);
}

/// The key set of a word list has every surface form once, and in ascending order: the
/// order in which the groups stand in the sorted list is the order of the trie's keys.
pub proof fn theorem_key_set_ascends(rows: Seq<Row>)
    requires
        rows.len() <= usize::MAX,
    ensures
        ascending(key_set(groups(surfaces(sorted(rows))))),
{
    let list = surfaces(sorted(rows));
    let runs = groups(list);
    let set = key_set(runs);
    if rows.len() > 0 {
        let at = theorem_sorted_rows(rows, 0);
    } else {
        let order = lemma_stable_order_exists(surfaces(rows));
        assert(list =~= Seq::<Seq<u8>>::empty());
    }
    lemma_groups_tile(list);
    assert forall|i: int, j: int| 0 <= i < j < set.len() implies lex_lt(set[i].0, set[j].0) by {
        lemma_group_keys_ascend(list, runs, i, j);
    }
}

/// A lexicon that was compiled from a text of valid UTF-8 was compiled from rows that hold
/// texts.
pub proof fn lemma_compiled_from_text(text: Seq<u8>, k: int)
    requires
        outcome(text) is Ok,
        valid_utf8(text),
        text.len() <= usize::MAX,
        0 <= k < lines_of(text).len(),
    ensures
        rows_of(lines_of(text)) is Ok,
        compiled(rows_of(lines_of(text))->Ok_0) == outcome(text),
        rows_of(lines_of(text))->Ok_0.len() == lines_of(text).len(),
        lines_of(text).len() <= usize::MAX,
        is_text_row(sorted(rows_of(lines_of(text))->Ok_0)[k]),
{
    let lines = lines_of(text);
    let rows = rows_of(lines)->Ok_0;
    lemma_lines_len(text);
    lemma_rows_of_error(lines);
    lemma_lines_valid(text);
    lemma_rows_are_text(lines);
    let at = theorem_sorted_rows(rows, 0);
    let order = stable_order_of(surfaces(rows));
    assert(0 <= order[k] < rows.len());
    assert(is_text_row(rows[order[k] as int]));
}

/// A compilable word list is compiled: the builds of `compile_rows` and `build_user_dict`
/// succeed on it.
pub proof fn theorem_compiles(rows: Seq<Row>)
    requires
        is_compilable(rows),
    ensures
        compiled(rows) is Ok,
{
    reveal(compiled);
    let keys = surfaces(rows);
    let order = lemma_stable_order_exists(keys);
    let list = surfaces(sorted(rows));
    assert(list =~= arrange(keys, order));
    // the records are written
    let all = records(sorted(rows));
    lemma_concat_len(all);
    assert(lens(all) =~= arrange(lens(records(rows)), order));
    lemma_arrange_total(keys, order, lens(records(rows)));
    lemma_small_blob_is_written(sorted(rows));
    // no group has a fault
    let runs = groups(list);
    lemma_sorted_keys_sorted(keys, order);
    lemma_groups_tile(list);
    assert forall|g: int| 0 <= g < runs.len() implies group_fault(#[trigger] runs[g], stable_order_of(surfaces(rows))) is None
        && surface_fits(runs[g].key) by {
        assert(is_run(list, runs[g]));
        lemma_group_counts(list, runs, g);
        lemma_sorted_keys_count(keys, order, runs[g].key);
        let row = order[runs[g].first] as int;
        assert(list[runs[g].first] == runs[g].key);
        assert(rows[row].surface == runs[g].key);
    }
    if first_fault(runs, stable_order_of(surfaces(rows))) is Some {
        let at = lemma_first_fault_at(runs, stable_order_of(surfaces(rows)));
    }
    // the trie builder takes the key set
    let set = key_set(runs);
    theorem_key_set_ascends(rows);
    assert forall|i: int| 0 <= i < set.len() implies entry_fits(#[trigger] set[i]) by {
        assert(group_fault(runs[i], stable_order_of(surfaces(rows))) is None && surface_fits(runs[i].key));
    }
}

/// Where a word list is not compiled for too many homonyms, the error names a line of the
/// word list whose surface form stands in as many rows as the error says, more than a group
/// can have.
pub proof fn theorem_homonyms_line(rows: Seq<Row>)
    requires
        rows.len() <= usize::MAX,
        compiled(rows) is Err,
        compiled(rows)->Err_0 is Homonyms,
    ensures
        compiled(rows)->Err_0->first_line < rows.len(),
        compiled(rows)->Err_0->count > MAX_GROUP_LEN,
        occurrences(surfaces(rows), rows[compiled(rows)->Err_0->first_line as int].surface)
            == compiled(rows)->Err_0->count,
{
    lemma_compiled_error(rows);
    lemma_record_fault_kind(sorted(rows));
    let keys = surfaces(rows);
    let order = lemma_stable_order_exists(keys);
    let list = surfaces(sorted(rows));
    let runs = groups(list);
    assert(list =~= arrange(keys, order));
    assert(first_fault(runs, order) is Some);
    lemma_sorted_keys_sorted(keys, order);
    lemma_groups_tile(list);
    let at = lemma_first_fault_at(runs, order);
    let group = runs[at];
    assert(group_fault(group, order) == Some(compiled(rows)->Err_0));
    assert(is_run(list, group));
    assert(list[group.first] == group.key);
    assert(rows[order[group.first] as int].surface == group.key);
    lemma_group_counts(list, runs, at);
    lemma_sorted_keys_count(keys, order, group.key);
}

/// Every key of the key set of a word list is the surface form of one of its rows: what is
/// the surface form of no row is no key. Returns such a row.
pub proof fn theorem_keys_are_surface_forms(rows: Seq<Row>, at: int) -> (row: int)
    requires
        rows.len() <= usize::MAX,
        0 <= at < key_set(groups(surfaces(sorted(rows)))).len(),
    ensures
        0 <= row < rows.len(),
        rows[row].surface == key_set(groups(surfaces(sorted(rows))))[at].0,
{
    let keys = surfaces(rows);
    let order = lemma_stable_order_exists(keys);
    let list = surfaces(sorted(rows));
    let runs = groups(list);
    assert(list =~= arrange(keys, order));
    lemma_groups_tile(list);
    assert(is_run(list, runs[at]));
    assert(list[runs[at].first] == runs[at].key);
    order[runs[at].first] as int
}

/// A word list of one row is compiled, if the trie builder takes its surface form as a key
/// and its detail record has no more bytes than four bytes can say. The offset table is
/// the offset 0, the blob is the record of the row's nine texts and no more, and the one
/// entry is the row's.
pub proof fn theorem_one_row(row: Row)
    requires
        surface_fits(row.surface),
        record_bytes(row.details).len() <= u32::MAX,
    ensures
        compiled(seq![row]) is Ok,
        compiled(seq![row])->Ok_0.words_idx_data == seq![0u8, 0u8, 0u8, 0u8],
        compiled(seq![row])->Ok_0.words_data == record_bytes(row.details),
        compiled(seq![row])->Ok_0.vals_data == entry_of(seq![row], 0).bytes(),
{
    let rows = seq![row];
    let at = theorem_sorted_rows(rows, 0);
    assert(sorted(rows) =~= rows);
    let keys = surfaces(rows);
    assert(keys =~= seq![row.surface]);
    reveal_with_fuel(occurrences, 2);
    reveal_with_fuel(groups, 2);
    reveal_with_fuel(trie_units, 2);
    reveal_with_fuel(total, 2);
    reveal_with_fuel(concat, 2);
    assert(keys.drop_last() =~= Seq::<Seq<u8>>::empty());
    let runs = groups(keys);
    assert(runs =~= seq![Group { key: row.surface, first: 0, len: 1 }]);
    let set = key_set(runs);
    assert(set.drop_last() =~= Seq::<(Seq<u8>, u32)>::empty());
    let all = records(rows);
    assert(all =~= seq![record_bytes(row.details)]);
    assert(all.drop_last() =~= Seq::<Seq<u8>>::empty());
    assert(lens(all).drop_last() =~= Seq::<nat>::empty());
    assert(concat(all) =~= record_bytes(row.details));
    theorem_compiles(rows);
    lemma_compiled_tables(rows);
    let offsets = Seq::new(all.len(), |k: int| u32_le(offset(all, k) as u32));
    assert(all.take(0) =~= Seq::<Seq<u8>>::empty());
    assert(offsets =~= seq![u32_le(0u32)]);
    assert(offsets.drop_last() =~= Seq::<Seq<u8>>::empty());
    assert(offset_table(all) =~= seq![0u8, 0u8, 0u8, 0u8]);
    let written = entries(rows);
    assert(written =~= seq![entry_of(rows, 0).bytes()]);
    assert(written.drop_last() =~= Seq::<Seq<u8>>::empty());
    assert(concat(written) =~= entry_of(rows, 0).bytes());
}

/// A word list of one line that is a row is compiled as that row is.
pub proof fn theorem_one_line(line: Seq<u8>)
    requires
        line.len() > 0,
        !line.contains(LINE_FEED),
        user_row(line) is Ok,
        surface_fits(user_row(line)->Ok_0.surface),
        record_bytes(user_row(line)->Ok_0.details).len() <= u32::MAX,
    ensures
        lines_of(line) == seq![line],
        outcome(line) == compiled(seq![user_row(line)->Ok_0]),
        outcome(line) is Ok,
        outcome(line)->Ok_0.words_idx_data == seq![0u8, 0u8, 0u8, 0u8],
        outcome(line)->Ok_0.words_data == record_bytes(user_row(line)->Ok_0.details),
{
    lemma_split_whole(line, LINE_FEED);
    let pieces = split(line, LINE_FEED);
    let ended = Seq::new((pieces.len() - 1) as nat, |i: int| strip_cr(pieces[i]));
    assert(ended.push(pieces.last()) =~= seq![line]);
    let lines = seq![line];
    reveal_with_fuel(rows_of, 2);
    assert(lines.drop_last() =~= Seq::<Seq<u8>>::empty());
    assert(lines.last() == line);
    let row = user_row(line)->Ok_0;
    assert(Seq::<Row>::empty().push(row) =~= seq![row]);
    theorem_one_row(row);
}

} // verus!
