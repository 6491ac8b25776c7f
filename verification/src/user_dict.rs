//! The compiler of a user's word list: from the text to the trie, the word entries, and the
//! detail records with their offsets.

use crate::bytes::{concat, lemma_concat_push};
use crate::codec::{
    low_i16, low_u16, texts_of, truncate_i16, truncate_u16, WordEntry, WordId, SERIALIZED_LEN,
};
use crate::details::{
    detail_record, detail_tables, first_record_fault, is_record_read, lens, offset_table,
    record_tail, records,
};
use crate::error::BuildError;
use crate::groups::{
    first_fault, group_fault, groups, key_set, key_set_of, MAX_GROUP_LEN, MAX_ROWS,
};
use crate::lines::{lines_of, parse_rows, row_views, rows_of, split_lines};
use crate::row::{is_text_row, CsvRow, Row};
use crate::runs::{lemma_groups_span, occurrences};
use crate::sort::{arrange, key_bytes, stable_order, stable_order_of, total};
use crate::theorems::{lemma_compiled_from_text, theorem_compiles, theorem_detail_tables};
use crate::trie::{
    build_trie, double_array_bytes, trie_takes, trie_units, MAX_KEY_LEN, MAX_TRIE_UNITS,
};
use vstd::prelude::*;
use vstd::slice::slice_subrange;
use vstd::string::StringSliceAdditionalSpecFns;
use vstd::utf8::valid_utf8;

verus! {

/// The trie over the surface forms, with the word entries that its values point into.
#[derive(Debug, Clone)]
pub struct PrefixDict {
    /// The bytes of the double array.
    pub da: Vec<u8>,
    /// The word entries, eight bytes each, group after group.
    pub vals_data: Vec<u8>,
    /// Whether the words are those of the system dictionary.
    pub is_system: bool,
}

/// A compiled word list of a user.
#[derive(Debug, Clone)]
pub struct UserDictionary {
    pub dict: PrefixDict,
    /// The offset of each word's detail record, four bytes each.
    pub words_idx_data: Vec<u8>,
    /// The detail records, laid end to end.
    pub words_data: Vec<u8>,
}

/// The four tables of a lexicon, and whether it is that of the system dictionary.
pub struct Lexicon {
    pub da: Seq<u8>,
    pub vals_data: Seq<u8>,
    pub is_system: bool,
    pub words_idx_data: Seq<u8>,
    pub words_data: Seq<u8>,
}

impl View for UserDictionary {
    type V = Lexicon;

    open spec fn view(&self) -> Lexicon {
        Lexicon {
            da: self.dict.da@,
            vals_data: self.dict.vals_data@,
            is_system: self.dict.is_system,
            words_idx_data: self.words_idx_data@,
            words_data: self.words_data@,
        }
    }
}

/// The group that a packed value stands for: the place of its first entry, and the number
/// of its entries.
pub open spec fn unpack(value: u32) -> (int, int) {
    (value as int / 32, value as int % 32)
}

impl PrefixDict {
    /// The entries of the group that a value of the trie stands for, in their order. `None`
    /// where the table of entries ends before the group does.
    pub fn group_entries(&self, value: u32) -> (entries: Option<Vec<WordEntry>>)
        ensures
            ({
                let (first, len) = unpack(value);
                if SERIALIZED_LEN * (first + len) <= self.vals_data@.len() {
                    &&& entries is Some
                    &&& entries->Some_0@.len() == len
                    &&& forall|i: int|
                        0 <= i < len ==> (#[trigger] entries->Some_0@[i]) == WordEntry::of_bytes(
                            self.vals_data@.skip(SERIALIZED_LEN * (first + i)),
                            self.is_system,
                        )
                } else {
                    entries is None
                }
            }),
    {
        let first = (value / 32) as usize;
        let len = (value % 32) as usize;
        if self.vals_data.len() / SERIALIZED_LEN < first + len {
            return None;
        }
        let mut entries: Vec<WordEntry> = Vec::new();
        let mut i: usize = 0;
        while i < len
            invariant
                i <= len,
                first == value as int / 32,
                len == value as int % 32,
                SERIALIZED_LEN * (first + len) <= self.vals_data@.len(),
                entries@.len() == i,
                forall|j: int|
                    0 <= j < i ==> (#[trigger] entries@[j]) == WordEntry::of_bytes(
                        self.vals_data@.skip(SERIALIZED_LEN * (first + j)),
                        self.is_system,
                    ),
            decreases len - i,
        {
            let at = SERIALIZED_LEN * (first + i);
            let tail = slice_subrange(self.vals_data.as_slice(), at, self.vals_data.len());
            assert(tail@ =~= self.vals_data@.skip(at as int));
            entries.push(WordEntry::deserialize(tail, self.is_system));
            i += 1;
        }
        Some(entries)
    }
}

/// The surface form of each row.
pub open spec fn surfaces(rows: Seq<Row>) -> Seq<Seq<u8>> {
    Seq::new(rows.len(), |i: int| rows[i].surface)
}

/// The entry of row `k` of a sorted word list: the word's number is the row's, which is
/// also the number of its detail record; the cost and the connection class are the low 16
/// bits of the row's cost and of its left connection class.
pub open spec fn entry_of(rows: Seq<Row>, k: int) -> WordEntry {
    WordEntry {
        word_id: WordId(k as u32, false),
        word_cost: low_i16(rows[k].word_cost),
        cost_id: low_u16(rows[k].left_id),
    }
}

/// The entries of the rows of a sorted word list, in their binary form.
pub open spec fn entries(rows: Seq<Row>) -> Seq<Seq<u8>> {
    Seq::new(rows.len(), |k: int| entry_of(rows, k).bytes())
}

/// The rows in the order in which they are compiled: by surface form, in the lexicographic
/// order of bytes, and rows of one surface form in the order of their lines.
pub open spec fn sorted(rows: Seq<Row>) -> Seq<Row> {
    arrange(rows, stable_order_of(surfaces(rows)))
}

/// The lexicon of the rows of a word list, or why there is none. Row `k` of the sorted list
/// is word `k`: its detail record is record `k`, and its entry stands at place `k` of the
/// entries. The trie is built from the key set of the groups of the sorted list. The words
/// are a user's, not those of the system dictionary.
#[verifier::opaque]
pub open spec fn compiled(rows: Seq<Row>) -> Result<Lexicon, BuildError> {
    let order = stable_order_of(surfaces(rows));
    let rows = sorted(rows);
    let set = key_set(groups(surfaces(rows)));
    if first_record_fault(rows) is Some {
        Err(first_record_fault(rows)->0)
    } else if first_fault(groups(surfaces(rows)), order) is Some {
        Err(first_fault(groups(surfaces(rows)), order)->0)
    } else if !trie_takes(set) {
        Err(BuildError::Trie)
    } else {
        Ok(
            Lexicon {
                da: double_array_bytes(set),
                vals_data: concat(entries(rows)),
                is_system: false,
                words_idx_data: offset_table(records(rows)),
                words_data: concat(records(rows)),
            },
        )
    }
}

/// A surface form that the trie builder takes as a key: no byte 0, and at most
/// `MAX_KEY_LEN` bytes.
pub open spec fn surface_fits(surface: Seq<u8>) -> bool {
    !surface.contains(0u8) && surface.len() <= MAX_KEY_LEN
}

/// A word list that is compiled for certain: it has a row and at most `MAX_ROWS`; every
/// surface form is one that the trie builder takes as a key, and stands in at most
/// `MAX_GROUP_LEN` rows; the trie of the surface forms has at most `MAX_TRIE_UNITS` units;
/// and the detail records have no more bytes together than four bytes can say.
pub open spec fn is_compilable(rows: Seq<Row>) -> bool {
    &&& 0 < rows.len() <= MAX_ROWS
    &&& forall|r: int| 0 <= r < rows.len() ==> surface_fits(#[trigger] rows[r].surface)
    &&& forall|r: int|
        0 <= r < rows.len() ==> occurrences(surfaces(rows), #[trigger] rows[r].surface)
            <= MAX_GROUP_LEN
    &&& trie_units(key_set(groups(surfaces(sorted(rows))))) <= MAX_TRIE_UNITS
    &&& total(lens(records(rows))) <= u32::MAX
}

/// The lexicon of a word list, or why there is none.
pub open spec fn outcome(text: Seq<u8>) -> Result<Lexicon, BuildError> {
    match rows_of(lines_of(text)) {
        Ok(rows) => compiled(rows),
        Err(e) => Err(e),
    }
}

/// The surface form of every row, as bytes.
fn surface_keys<'a>(rows: &Vec<CsvRow<'a>>) -> (keys: Vec<&'a [u8]>)
    ensures
        key_bytes(keys@) == surfaces(row_views(rows@)),
{
    let mut keys: Vec<&'a [u8]> = Vec::new();
    let mut i: usize = 0;
    while i < rows.len()
        invariant
            i <= rows@.len(),
            keys@.len() == i,
            forall|j: int| 0 <= j < i ==> (#[trigger] keys@[j])@ == rows@[j]@.surface,
        decreases rows@.len() - i,
    {
        keys.push(rows[i].surface_form.as_bytes());
        i += 1;
    }
    assert(key_bytes(keys@) =~= surfaces(row_views(rows@)));
    keys
}

/// The entries of the rows in the given order, in their binary form, end to end.
fn entry_table(rows: &Vec<CsvRow>, order: &Vec<usize>) -> (table: Vec<u8>)
    requires
        forall|k: int| 0 <= k < order@.len() ==> #[trigger] order@[k] < rows@.len(),
        order@.len() <= u32::MAX,
    ensures
        table@ == concat(entries(arrange(row_views(rows@), order@))),
{
    let ghost sorted = arrange(row_views(rows@), order@);
    let ghost all = entries(sorted);
    let mut table: Vec<u8> = Vec::new();
    let mut k: usize = 0;
    assert(all.take(0) =~= Seq::<Seq<u8>>::empty());
    while k < order.len()
        invariant
            k <= order@.len(),
            order@.len() <= u32::MAX,
            forall|j: int| 0 <= j < order@.len() ==> #[trigger] order@[j] < rows@.len(),
            sorted == arrange(row_views(rows@), order@),
            all == entries(sorted),
            table@ == concat(all.take(k as int)),
        decreases order@.len() - k,
    {
        assert(order@[k as int] < rows@.len());
        let row = &rows[order[k]];
        let entry = WordEntry {
            word_id: WordId(k as u32, false),
            word_cost: truncate_i16(row.word_cost),
            cost_id: truncate_u16(row.left_id),
        };
        proof {
            assert(entry == entry_of(sorted, k as int));
            assert(all.take(k + 1) =~= all.take(k as int).push(all[k as int]));
            lemma_concat_push(all.take(k as int), all[k as int]);
        }
        entry.serialize(&mut table);
        k += 1;
    }
    assert(all.take(k as int) =~= all);
    table
}

/// Compiles the rows of a word list, given in the order of their lines.
///
/// The rows are sorted by surface form. Then the detail records are written, the key set is
/// made from the groups of rows with one surface form, the trie is built from it, and the
/// entries are written. What comes back is the lexicon that `compiled` describes, or the
/// reason that it gives. A compilable word list is compiled.
pub fn compile_rows(rows: &Vec<CsvRow>) -> (dict: Result<UserDictionary, BuildError>)
    ensures
        match dict {
            Ok(dict) => compiled(row_views(rows@)) == Ok::<Lexicon, BuildError>(dict@),
            Err(e) => compiled(row_views(rows@)) == Err::<Lexicon, BuildError>(e),
        },
        is_compilable(row_views(rows@)) ==> dict is Ok,
{
    proof {
        if is_compilable(row_views(rows@)) {
            theorem_compiles(row_views(rows@));
        }
    }
    let keys = surface_keys(rows);
    let order = stable_order(&keys);
    let ghost sorted = sorted(row_views(rows@));
    proof {
        reveal(compiled);
        assert(sorted == arrange(row_views(rows@), order@));
        assert(surfaces(sorted) =~= arrange(key_bytes(keys@), order@));
    }
    let (words_idx_data, words_data) = match detail_tables(rows, &order) {
        Ok(tables) => tables,
        Err(e) => { return Err(e); },
    };
    let set = match key_set_of(&keys, &order) {
        Ok(set) => set,
        Err(e) => { return Err(e); },
    };
    let da = match build_trie(&set) {
        Ok(da) => da,
        Err(e) => { return Err(e); },
    };
    proof {
        lemma_groups_span(surfaces(sorted));
        let last = groups(surfaces(sorted)).last();
        assert(groups(surfaces(sorted)).drop_last().push(last) =~= groups(surfaces(sorted)));
        assert(group_fault(last, order@) is None);
    }
    let vals_data = entry_table(rows, &order);
    Ok(
        UserDictionary {
            dict: PrefixDict { da, vals_data, is_system: false },
            words_idx_data,
            words_data,
        },
    )
}

/// Compiles a user's word list: a text of lines with 3 or 13 columns each, which commas
/// separate.
///
/// What comes back is the lexicon that `outcome` describes, or the reason that it gives.
/// Nothing of a word list is compiled unless all of it is. A word list whose lines are all
/// rows, and compilable, is compiled.
pub fn build_user_dict(data: &str) -> (dict: Result<UserDictionary, BuildError>)
    ensures
        match dict {
            Ok(dict) => outcome(data.spec_bytes()) == Ok::<Lexicon, BuildError>(dict@),
            Err(e) => outcome(data.spec_bytes()) == Err::<Lexicon, BuildError>(e),
        },
        rows_of(lines_of(data.spec_bytes())) is Ok && is_compilable(
            rows_of(lines_of(data.spec_bytes()))->Ok_0,
        ) ==> dict is Ok,
{
    let lines = split_lines(data);
    let rows = match parse_rows(&lines) {
        Ok(rows) => rows,
        Err(e) => { return Err(e); },
    };
    compile_rows(&rows)
}

impl UserDictionary {
    /// Reads the detail record of word `word_id`. In a compiled word list this is the record
    /// of the nine texts of row `word_id` of the sorted list: what was written is read back.
    pub fn word_details(&self, word_id: u32) -> (fields: Option<Vec<String>>)
        ensures
            is_record_read(record_tail(self@.words_idx_data, self@.words_data, word_id), fields),
            forall|rows: Seq<Row>|
                #[trigger] compiled(rows) == Ok::<Lexicon, BuildError>(self@) && rows.len()
                    <= usize::MAX && word_id < rows.len() && is_text_row(
                    sorted(rows)[word_id as int],
                ) ==> fields is Some && texts_of(fields->Some_0@) == sorted(
                    rows,
                )[word_id as int].details,
            forall|text: Seq<u8>|
                #[trigger] outcome(text) == Ok::<Lexicon, BuildError>(self@) && valid_utf8(text)
                    && text.len() <= usize::MAX && word_id < lines_of(text).len() ==> fields
                    is Some && texts_of(fields->Some_0@) == sorted(
                    rows_of(lines_of(text))->Ok_0,
                )[word_id as int].details,
    {
        let fields = detail_record(&self.words_idx_data, &self.words_data, word_id);
        assert forall|rows: Seq<Row>|
            #[trigger] compiled(rows) == Ok::<Lexicon, BuildError>(self@) && rows.len()
                <= usize::MAX && word_id < rows.len() && is_text_row(
                sorted(rows)[word_id as int],
            ) implies fields is Some && texts_of(fields->Some_0@) == sorted(
            rows,
        )[word_id as int].details by {
            theorem_detail_tables(rows, word_id);
        }
        assert forall|text: Seq<u8>|
            #[trigger] outcome(text) == Ok::<Lexicon, BuildError>(self@) && valid_utf8(text)
                && text.len() <= usize::MAX && word_id < lines_of(text).len() implies fields
            is Some && texts_of(fields->Some_0@) == sorted(
            rows_of(lines_of(text))->Ok_0,
        )[word_id as int].details by {
            lemma_compiled_from_text(text, word_id as int);
            theorem_detail_tables(rows_of(lines_of(text))->Ok_0, word_id);
        }
        fields
    }
}

} // verus!
