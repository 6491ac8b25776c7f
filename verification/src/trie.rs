//! The trie over the surface forms: a double array, built by the `yada` crate from the key
//! set of the groups.

use crate::bytes::{bytes_lt, lemma_lex_lt_transitive, lex_lt};
use crate::error::BuildError;
use crate::groups::{key_set_view, MAX_VALUE};
use vstd::prelude::*;
use yada::builder::DoubleArrayBuilder;

verus! {

/// The most units that the trie of a key set may have besides its root.
///
/// The builder lays the units of the array out in blocks of 256, and this library keeps it
/// within 8192 blocks. Within them the first node that is placed in a block puts a child
/// on the block's unit 0, and the builder's walk over the free units of a block, which
/// takes a free unit 0 for its start, comes to an end. Beyond them the builder admits only
/// one place of a block for a node, unit 0 can stay free, and the walk may never end.
///
/// The builder opens a block only when the children of a node, `c` of them, fit in none of
/// the last blocks. Of the 256 places of a block for the children, a unit in use rules out
/// at most `c` by standing where a child would stand, and one more where it belongs to a
/// node that has taken the place. So the last block then holds `256 / (c + 1)` units or
/// more, and the new block gets the `c` children: any two neighbouring blocks hold 31 units
/// or more. A trie of `n` units and the root stands in at most `2 (n + 1) / 31 + 1`
/// blocks, which is 8191 for `MAX_TRIE_UNITS` units.
///
/// The builder may well build a larger trie in fewer blocks. But only placing the units as
/// the builder does would say how many blocks a trie takes, so that a key set with a larger
/// trie is one on which nothing says that the builder returns, and this library does not
/// hand it over.
pub const MAX_TRIE_UNITS: usize = 126_959;

/// The most bytes that one key may have. The builder descends by one call for each byte of a
/// key, and a call was measured to take less than 256 bytes of the stack in a build without
/// optimisation: keys of this length keep the calls within 1 MiB, half of the stack that a
/// thread has unless it was given another.
pub const MAX_KEY_LEN: usize = 4096;

/// The number of bytes that two keys begin with alike.
pub open spec fn common_prefix(a: Seq<u8>, b: Seq<u8>) -> nat
    decreases a.len(),
{
    if a.len() == 0 || b.len() == 0 || a[0] != b[0] {
        0
    } else {
        1 + common_prefix(a.drop_first(), b.drop_first())
    }
}

/// The units that key `i` adds to the trie of the keys before it: one for each of its bytes
/// after those that it shares with the key before it, and one for its end. In a sorted key
/// set what a key shares with any earlier key it shares with the key before it.
pub open spec fn added_units(set: Seq<(Seq<u8>, u32)>, i: int) -> nat {
    if i == 0 {
        set[0].0.len() + 1
    } else {
        (set[i].0.len() - common_prefix(set[i - 1].0, set[i].0)) as nat + 1
    }
}

/// The number of units of the trie of a sorted key set, besides its root: one for each
/// beginning of a key, counted once for all keys that share it, and one for each key.
pub open spec fn trie_units(set: Seq<(Seq<u8>, u32)>) -> nat
    decreases set.len(),
{
    if set.len() == 0 {
        0
    } else {
        trie_units(set.drop_last()) + added_units(set, set.len() - 1)
    }
}

/// Every key comes before the next, in the lexicographic order of bytes: the keys are
/// sorted, and no key stands twice.
pub open spec fn ascending(set: Seq<(Seq<u8>, u32)>) -> bool {
    forall|i: int, j: int| 0 <= i < j < set.len() ==> lex_lt(set[i].0, set[j].0)
}

/// A key and its value that the trie builder takes: no byte 0 in the key, at most
/// `MAX_KEY_LEN` bytes, and a value of at most 31 bits.
pub open spec fn entry_fits(entry: (Seq<u8>, u32)) -> bool {
    &&& !entry.0.contains(0u8)
    &&& entry.0.len() <= MAX_KEY_LEN
    &&& entry.1 <= MAX_VALUE
}

/// The key sets that the trie builder takes: at least one key; the keys sorted, each once;
/// every key with its value one that the builder takes; and a trie of at most
/// `MAX_TRIE_UNITS` units.
pub open spec fn trie_takes(set: Seq<(Seq<u8>, u32)>) -> bool {
    &&& set.len() > 0
    &&& ascending(set)
    &&& forall|i: int| 0 <= i < set.len() ==> entry_fits(#[trigger] set[i])
    &&& trie_units(set) <= MAX_TRIE_UNITS
}

/// The bytes of the double array that `yada` builds from a key set.
pub uninterp spec fn double_array_bytes(set: Seq<(Seq<u8>, u32)>) -> Seq<u8>;

/// `yada::builder::DoubleArrayBuilder::build`. The builder works on the key set alone, so
/// that one key set always gives the same bytes, and it has no way to end without an array
/// but to stop the program. It stops the program on a key set without keys, on keys that
/// are not sorted or stand twice, on a byte 0 in a key, and where a key is so long that the
/// calls for its bytes use up the stack; in an array of more than 8192 blocks it may never
/// return; a value of more than 31 bits it would cut. `trie_takes` leaves all of these out.
#[verifier::external_body]
fn double_array(set: &Vec<(&[u8], u32)>) -> (bytes: Option<Vec<u8>>)
    requires
        trie_takes(key_set_view(set@)),
    ensures
        bytes is Some,
        bytes->Some_0@ == double_array_bytes(key_set_view(set@)),
{
    DoubleArrayBuilder::build(set.as_slice())
}

/// Two keys begin alike with no more bytes than either has.
pub proof fn lemma_common_prefix_bound(a: Seq<u8>, b: Seq<u8>)
    ensures
        common_prefix(a, b) <= a.len(),
        common_prefix(a, b) <= b.len(),
    decreases a.len(),
{
    if a.len() > 0 && b.len() > 0 && a[0] == b[0] {
        lemma_common_prefix_bound(a.drop_first(), b.drop_first());
    }
}

/// Two keys that agree on their first `n` bytes and not on the next, or of which one ends
/// there, begin alike with `n` bytes.
pub proof fn lemma_common_prefix_at(a: Seq<u8>, b: Seq<u8>, n: int)
    requires
        0 <= n <= a.len(),
        n <= b.len(),
        a.take(n) == b.take(n),
        n == a.len() || n == b.len() || a[n] != b[n],
    ensures
        common_prefix(a, b) == n,
    decreases n,
{
    if n > 0 {
        assert(a[0] == a.take(n)[0]);
        assert(b[0] == b.take(n)[0]);
        assert(a.drop_first().take(n - 1) =~= a.take(n).drop_first());
        assert(b.drop_first().take(n - 1) =~= b.take(n).drop_first());
        lemma_common_prefix_at(a.drop_first(), b.drop_first(), n - 1);
    }
}

/// The trie of more keys never has fewer units.
pub proof fn lemma_trie_units_grow(set: Seq<(Seq<u8>, u32)>, n: int)
    requires
        0 <= n <= set.len(),
    ensures
        trie_units(set.take(n)) <= trie_units(set),
    decreases set.len() - n,
{
    if n == set.len() {
        assert(set.take(n) =~= set);
    } else {
        assert(set.drop_last().take(n) =~= set.take(n));
        lemma_trie_units_grow(set.drop_last(), n);
    }
}

/// The number of bytes that two keys begin with alike.
pub fn shared_len(a: &[u8], b: &[u8]) -> (n: usize)
    ensures
        n == common_prefix(a@, b@),
{
    let mut i: usize = 0;
    while i < a.len() && i < b.len() && a[i] == b[i]
        invariant
            i <= a@.len(),
            i <= b@.len(),
            a@.take(i as int) == b@.take(i as int),
        decreases a@.len() - i,
    {
        assert(a@.take(i + 1) =~= a@.take(i as int).push(a@[i as int]));
        assert(b@.take(i + 1) =~= b@.take(i as int).push(b@[i as int]));
        i += 1;
    }
    proof {
        lemma_common_prefix_at(a@, b@, i as int);
    }
    i
}

/// Whether a key holds the byte 0.
fn holds_zero(key: &[u8]) -> (found: bool)
    ensures
        found == key@.contains(0u8),
{
    let mut i: usize = 0;
    while i < key.len()
        invariant
            i <= key@.len(),
            forall|j: int| 0 <= j < i ==> key@[j] != 0,
        decreases key@.len() - i,
    {
        if key[i] == 0 {
            return true;
        }
        i += 1;
    }
    false
}

/// Whether the trie builder takes the key set.
pub fn takes(set: &Vec<(&[u8], u32)>) -> (ok: bool)
    ensures
        ok == trie_takes(key_set_view(set@)),
{
    let ghost view = key_set_view(set@);
    if set.len() == 0 {
        return false;
    }
    let mut total: usize = 0;
    let mut i: usize = 0;
    assert(view.take(0) =~= Seq::<(Seq<u8>, u32)>::empty());
    while i < set.len()
        invariant
            i <= set@.len(),
            view == key_set_view(set@),
            ascending(view.take(i as int)),
            forall|j: int| 0 <= j < i ==> entry_fits(#[trigger] view[j]),
            total == trie_units(view.take(i as int)),
            total <= MAX_TRIE_UNITS,
        decreases set@.len() - i,
    {
        let key = set[i].0;
        assert(view[i as int] == (key@, set@[i as int].1));
        proof {
            assert(view.take(i + 1).drop_last() =~= view.take(i as int));
            assert(view.take(i + 1).last() == view[i as int]);
            lemma_trie_units_grow(view, i + 1);
        }
        if set[i].1 > MAX_VALUE || key.len() > MAX_KEY_LEN || holds_zero(key) {
            return false;
        }
        let mut added: usize = key.len() + 1;
        if i > 0 {
            let previous = set[i - 1].0;
            assert(view[i - 1] == (previous@, set@[i - 1].1));
            if !bytes_lt(previous, key) {
                return false;
            }
            proof {
                lemma_common_prefix_bound(previous@, key@);
            }
            added = key.len() - shared_len(previous, key) + 1;
            proof {
                let next = view.take(i + 1);
                assert forall|a: int, b: int| 0 <= a < b < next.len() implies lex_lt(
                    next[a].0,
                    next[b].0,
                ) by {
                    if b < i {
                        assert(lex_lt(view.take(i as int)[a].0, view.take(i as int)[b].0));
                    } else if a < i - 1 {
                        assert(lex_lt(view.take(i as int)[a].0, view.take(i as int)[i - 1].0));
                        lemma_lex_lt_transitive(view[a].0, view[i - 1].0, view[i as int].0);
                    }
                }
            }
        }
        assert(added == added_units(view.take(i + 1), i as int));
        if added > MAX_TRIE_UNITS - total {
            return false;
        }
        total = total + added;
        i += 1;
    }
    assert(view.take(i as int) =~= view);
    true
}

/// Builds the trie of a key set. Fails where the key set is none that the builder takes.
pub fn build_trie(set: &Vec<(&[u8], u32)>) -> (trie: Result<Vec<u8>, BuildError>)
    ensures
        match trie {
            Ok(bytes) => {
                &&& trie_takes(key_set_view(set@))
                &&& bytes@ == double_array_bytes(key_set_view(set@))
            },
            Err(e) => e == BuildError::Trie && !trie_takes(key_set_view(set@)),
        },
{
    if !takes(set) {
        return Err(BuildError::Trie);
    }
    Ok(double_array(set).unwrap())
}

} // verus!
