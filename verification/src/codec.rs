//! The binary forms of the two records of a lexicon: the word entry, of fixed width, and the
//! detail record, a list of texts, which the `bincode` crate writes and reads.

use crate::bytes::concat;
use vstd::prelude::*;
use vstd::utf8::*;

verus! {

/// The two bytes of `v`, the low one first.
pub open spec fn u16_le(v: u16) -> Seq<u8> {
    seq![(v % 256) as u8, (v / 256) as u8]
}

/// The four bytes of `v`, the lowest first.
pub open spec fn u32_le(v: u32) -> Seq<u8> {
    seq![
        (v % 256) as u8,
        (v / 0x100 % 256) as u8,
        (v / 0x1_0000 % 256) as u8,
        (v / 0x100_0000) as u8,
    ]
}

/// The eight bytes of `v`, the lowest first.
pub open spec fn u64_le(v: u64) -> Seq<u8> {
    seq![
        (v % 256) as u8,
        (v / 0x100 % 256) as u8,
        (v / 0x1_0000 % 256) as u8,
        (v / 0x100_0000 % 256) as u8,
        (v / 0x1_0000_0000 % 256) as u8,
        (v / 0x100_0000_0000 % 256) as u8,
        (v / 0x1_0000_0000_0000 % 256) as u8,
        (v / 0x100_0000_0000_0000) as u8,
    ]
}

/// The number that two bytes write, the low one first.
pub open spec fn le_u16(b: Seq<u8>) -> u16
    recommends
        b.len() == 2,
{
    (b[0] + 0x100 * b[1]) as u16
}

/// The number that four bytes write, the lowest first.
pub open spec fn le_u32(b: Seq<u8>) -> u32
    recommends
        b.len() == 4,
{
    (b[0] + 0x100 * b[1] + 0x1_0000 * b[2] + 0x100_0000 * b[3]) as u32
}

/// The 16 bits of a signed number, read as an unsigned one.
pub open spec fn bits_of_i16(v: i16) -> u16 {
    if v < 0 {
        (v + 0x1_0000) as u16
    } else {
        v as u16
    }
}

/// The signed number that 16 bits stand for.
pub open spec fn i16_of_bits(v: u16) -> i16 {
    if v >= 0x8000 {
        (v - 0x1_0000) as i16
    } else {
        v as i16
    }
}

/// The low 16 bits of `v`.
pub open spec fn low_u16(v: u32) -> u16 {
    (v % 0x1_0000) as u16
}

/// The low 16 bits of `v`, as a signed number.
pub open spec fn low_i16(v: i32) -> i16 {
    i16_of_bits(((v as int) % 0x1_0000) as u16)
}

/// Appends the two bytes of `v`, the low one first.
pub fn push_u16_le(out: &mut Vec<u8>, v: u16)
    ensures
        final(out)@ == old(out)@ + u16_le(v),
{
    out.push((v % 256) as u8);
    out.push((v / 256) as u8);
    assert(out@ =~= old(out)@ + u16_le(v));
}

/// Appends the four bytes of `v`, the lowest first.
pub fn push_u32_le(out: &mut Vec<u8>, v: u32)
    ensures
        final(out)@ == old(out)@ + u32_le(v),
{
    out.push((v % 256) as u8);
    out.push((v / 0x100 % 256) as u8);
    out.push((v / 0x1_0000 % 256) as u8);
    out.push((v / 0x100_0000) as u8);
    assert(out@ =~= old(out)@ + u32_le(v));
}

/// Reads two bytes at `at` as a number, the low byte first.
pub fn read_u16_le(bytes: &[u8], at: usize) -> (v: u16)
    requires
        at + 2 <= bytes@.len(),
    ensures
        v == le_u16(bytes@.subrange(at as int, at + 2)),
{
    bytes[at] as u16 + 0x100 * (bytes[at + 1] as u16)
}

/// Reads four bytes at `at` as a number, the lowest byte first.
pub fn read_u32_le(bytes: &[u8], at: usize) -> (v: u32)
    requires
        at + 4 <= bytes@.len(),
    ensures
        v == le_u32(bytes@.subrange(at as int, at + 4)),
{
    bytes[at] as u32 + 0x100 * (bytes[at + 1] as u32) + 0x1_0000 * (bytes[at + 2] as u32)
        + 0x100_0000 * (bytes[at + 3] as u32)
}

/// The low 16 bits of a connection class.
pub fn truncate_u16(v: u32) -> (low: u16)
    ensures
        low == low_u16(v),
{
    (v % 0x1_0000) as u16
}

/// The low 16 bits of a word cost, as a signed number.
pub fn truncate_i16(v: i32) -> (low: i16)
    ensures
        low == low_i16(v),
        i16::MIN <= v <= i16::MAX ==> low == v,
{
    let wide: i64 = v as i64 + 0x1_0000_0000;
    let bits: u64 = (wide as u64) % 0x1_0000;
    assert(bits == (v as int) % 0x1_0000);
    if bits >= 0x8000 {
        (bits as i32 - 0x1_0000) as i16
    } else {
        bits as i16
    }
}

/// Four bytes that were written from a number read as that number.
pub proof fn lemma_le_u32_of_bytes(v: u32)
    ensures
        le_u32(u32_le(v)) == v,
{
}

/// The number of bytes of a word entry in its binary form.
pub const SERIALIZED_LEN: usize = 8;

/// The number of a word: the row of its detail record, and whether it is a word of the
/// system dictionary or of a user's.
#[derive(Clone, Copy, Debug, PartialEq, Eq, Structural)]
pub struct WordId(pub u32, pub bool);

/// The entry of one word in the table that the trie's values point into.
#[derive(Clone, Copy, Debug, PartialEq, Eq, Structural)]
pub struct WordEntry {
    pub word_id: WordId,
    pub word_cost: i16,
    pub cost_id: u16,
}

impl WordEntry {
    /// The eight bytes of the entry: the word's number, its cost and its connection class,
    /// each with the low byte first. Which dictionary the word is of is not written.
    pub open spec fn bytes(self) -> Seq<u8> {
        u32_le(self.word_id.0) + u16_le(bits_of_i16(self.word_cost)) + u16_le(self.cost_id)
    }

    /// The entry that eight bytes stand for, in a dictionary of the given kind.
    pub open spec fn of_bytes(b: Seq<u8>, is_system_entry: bool) -> WordEntry
        recommends
            b.len() >= 8,
    {
        WordEntry {
            word_id: WordId(le_u32(b.subrange(0, 4)), is_system_entry),
            word_cost: i16_of_bits(le_u16(b.subrange(4, 6))),
            cost_id: le_u16(b.subrange(6, 8)),
        }
    }

    /// Appends the entry in its binary form.
    pub fn serialize(&self, out: &mut Vec<u8>)
        ensures
            final(out)@ == old(out)@ + self.bytes(),
    {
        push_u32_le(out, self.word_id.0);
        let cost_bits: u16 = if self.word_cost < 0 {
            (self.word_cost as i32 + 0x1_0000) as u16
        } else {
            self.word_cost as u16
        };
        push_u16_le(out, cost_bits);
        push_u16_le(out, self.cost_id);
        assert(out@ =~= old(out)@ + self.bytes());
    }

    /// Reads the entry that `data` begins with.
    pub fn deserialize(data: &[u8], is_system_entry: bool) -> (entry: WordEntry)
        requires
            data@.len() >= 8,
        ensures
            entry == WordEntry::of_bytes(data@, is_system_entry),
    {
        assert(data@.subrange(0, 4) =~= data@.subrange(0int, 0int + 4));
        let id = read_u32_le(data, 0);
        let cost_bits = read_u16_le(data, 4);
        let cost_id = read_u16_le(data, 6);
        let word_cost: i16 = if cost_bits >= 0x8000 {
            (cost_bits as i32 - 0x1_0000) as i16
        } else {
            cost_bits as i16
        };
        WordEntry { word_id: WordId(id, is_system_entry), word_cost, cost_id }
    }
}

/// An entry that is written and read again is the same entry, whatever follows it.
pub proof fn lemma_entry_round_trip(entry: WordEntry, rest: Seq<u8>)
    ensures
        entry.bytes().len() == SERIALIZED_LEN,
        WordEntry::of_bytes(entry.bytes() + rest, entry.word_id.1) == entry,
{
    let b = entry.bytes() + rest;
    assert(b.subrange(0, 4) =~= u32_le(entry.word_id.0));
    assert(b.subrange(4, 6) =~= u16_le(bits_of_i16(entry.word_cost)));
    assert(b.subrange(6, 8) =~= u16_le(entry.cost_id));
}

/// The binary form of one text: the number of its bytes, in eight bytes with the lowest
/// first, and then the bytes.
pub open spec fn text_bytes(text: Seq<u8>) -> Seq<u8> {
    u64_le(text.len() as u64) + text
}

/// The binary form of a list of texts: the number of texts, in eight bytes with the lowest
/// first, and then each text in its binary form.
pub open spec fn record_bytes(texts: Seq<Seq<u8>>) -> Seq<u8> {
    u64_le(texts.len() as u64) + concat(Seq::new(texts.len(), |i: int| text_bytes(texts[i])))
}

/// The UTF-8 bytes of each string.
pub open spec fn texts_of(strings: Seq<String>) -> Seq<Seq<u8>> {
    Seq::new(strings.len(), |i: int| encode_utf8(strings[i]@))
}

/// Every text is valid UTF-8.
pub open spec fn all_utf8(texts: Seq<Seq<u8>>) -> bool {
    forall|i: int| 0 <= i < texts.len() ==> valid_utf8(#[trigger] texts[i])
}

/// The error of `bincode`, of which this library reads nothing.
#[verifier::external_type_specification]
#[verifier::external_body]
pub struct ExBincodeErrorKind(bincode::ErrorKind);

/// `bincode::serialize_into`, on a list of strings and a vector to write to. It appends the
/// list's binary form to `out`: in bincode's default configuration a length is eight bytes
/// with the lowest first, a sequence is its length and then its items, and a string is the
/// length of its UTF-8 bytes and then these bytes. It always succeeds: the configuration
/// sets no limit to the size, a list knows its length, and a vector takes every byte.
#[verifier::external_body]
fn bincode_write(out: &mut Vec<u8>, fields: &Vec<String>) -> (done: Result<
    (),
    Box<bincode::ErrorKind>,
>)
    ensures
        done is Ok,
        final(out)@ == old(out)@ + record_bytes(texts_of(fields@)),
{
    bincode::serialize_into(out, fields)
}

/// `bincode::deserialize`, to a list of strings. What it returns is a list whose binary form
/// `bytes` begins with; and where `bytes` begins with the binary form of a list of texts in
/// valid UTF-8, it returns that list. What follows the list in `bytes` is not read.
#[verifier::external_body]
fn bincode_read(bytes: &[u8]) -> (fields: Result<Vec<String>, Box<bincode::ErrorKind>>)
    ensures
        fields matches Ok(strings) ==> record_bytes(texts_of(strings@)).is_prefix_of(bytes@),
        forall|texts: Seq<Seq<u8>>|
            all_utf8(texts) && #[trigger] record_bytes(texts).is_prefix_of(bytes@) ==> fields is Ok
                && texts_of(fields->Ok_0@) == texts,
{
    bincode::deserialize(bytes)
}

/// Appends the binary form of a detail record to `out`.
pub fn encode_record(out: &mut Vec<u8>, fields: &Vec<String>)
    ensures
        final(out)@ == old(out)@ + record_bytes(texts_of(fields@)),
{
    let _done = bincode_write(out, fields);
}

/// Reads the detail record that `bytes` begins with. What comes back, written again, is
/// what `bytes` begins with; and every record that was written is read back: if `bytes`
/// begins with the binary form of a list of texts, these texts are returned, in order.
pub fn decode_record(bytes: &[u8]) -> (fields: Option<Vec<String>>)
    ensures
        fields matches Some(strings) ==> record_bytes(texts_of(strings@)).is_prefix_of(bytes@),
        forall|texts: Seq<Seq<u8>>|
            all_utf8(texts) && #[trigger] record_bytes(texts).is_prefix_of(bytes@) ==> (
            fields matches Some(strings) && texts_of(strings@) == texts),
{
    match bincode_read(bytes) {
        Ok(strings) => Some(strings),
        Err(_) => None,
    }
}

} // verus!
