//! The groups of a sorted word list: the rows of one surface form stand together, and the
//! trie holds for the surface form where its group starts and how many rows it has.

use crate::bytes::bytes_eq;
use crate::error::BuildError;
use crate::sort::{arrange, key_bytes};
use vstd::prelude::*;

verus! {

/// The number of bits of a packed value that count the rows of a group.
pub const COUNT_BITS: u32 = 5;

/// The largest number of rows that a group can have.
pub const MAX_GROUP_LEN: usize = 31;

/// The largest value that the trie can hold for a key.
pub const MAX_VALUE: u32 = 0x7fff_ffff;

/// The most rows that a word list can have so that the value of every group of at most
/// `MAX_GROUP_LEN` rows is one that the trie can hold.
pub const MAX_ROWS: usize = 0x400_0000;

/// A run of rows with one key: the key, the first row, and the number of rows.
pub struct Group {
    pub key: Seq<u8>,
    pub first: int,
    pub len: int,
}

/// The runs of equal keys, from the first row to the last.
pub open spec fn groups(keys: Seq<Seq<u8>>) -> Seq<Group>
    decreases keys.len(),
{
    if keys.len() == 0 {
        Seq::empty()
    } else {
        let before = groups(keys.drop_last());
        if before.len() > 0 && before.last().key == keys.last() {
            before.update(
                before.len() - 1,
                Group { key: before.last().key, first: before.last().first, len: before.last().len + 1 },
            )
        } else {
            before.push(Group { key: keys.last(), first: keys.len() - 1, len: 1 })
        }
    }
}

/// The value that the trie holds for a group: the first row in the bits above the low five,
/// the number of rows in the low five.
pub open spec fn packed_value(group: Group) -> int {
    group.first * 32 + group.len
}

/// Why a group cannot stand in the key set, if it cannot: it has more rows than five bits
/// count, or its value is larger than the trie holds. `order` says which line each row of
/// the sorted list is.
pub open spec fn group_fault(group: Group, order: Seq<usize>) -> Option<BuildError> {
    if group.len > MAX_GROUP_LEN {
        Some(
            BuildError::Homonyms {
                row: group.first as usize,
                count: group.len as usize,
                first_line: order[group.first],
            },
        )
    } else if packed_value(group) > MAX_VALUE {
        Some(BuildError::Trie)
    } else {
        None
    }
}

/// The fault of the first group that has one.
pub open spec fn first_fault(groups: Seq<Group>, order: Seq<usize>) -> Option<BuildError>
    decreases groups.len(),
{
    if groups.len() == 0 {
        None
    } else {
        match first_fault(groups.drop_last(), order) {
            Some(e) => Some(e),
            None => group_fault(groups.last(), order),
        }
    }
}

/// The key set of the groups: each group's key with its packed value.
pub open spec fn key_set(groups: Seq<Group>) -> Seq<(Seq<u8>, u32)> {
    Seq::new(groups.len(), |i: int| (groups[i].key, packed_value(groups[i]) as u32))
}

/// What a key set holds.
pub open spec fn key_set_view(set: Seq<(&[u8], u32)>) -> Seq<(Seq<u8>, u32)> {
    Seq::new(set.len(), |i: int| (set[i].0@, set[i].1))
}

/// A first fault is a group with too many rows or too large a value; where there is none,
/// no group has a fault.
pub proof fn lemma_first_fault_kind(groups: Seq<Group>, order: Seq<usize>)
    ensures
        match first_fault(groups, order) {
            Some(BuildError::Homonyms { row, count, first_line }) => true,
            Some(BuildError::Trie) => true,
            Some(_) => false,
            None => forall|i: int|
                0 <= i < groups.len() ==> group_fault(#[trigger] groups[i], order) is None,
        },
    decreases groups.len(),
{
    if groups.len() > 0 {
        let before = groups.drop_last();
        lemma_first_fault_kind(before, order);
        if first_fault(groups, order) is None {
            assert forall|i: int| 0 <= i < groups.len() implies group_fault(
                #[trigger] groups[i],
                order,
            ) is None by {
                if i < before.len() {
                    assert(group_fault(before[i], order) is None);
                }
            }
        }
    }
}

/// The first fault is the fault of a group before which no group has one.
pub proof fn lemma_first_fault_at(groups: Seq<Group>, order: Seq<usize>) -> (at: int)
    requires
        first_fault(groups, order) is Some,
    ensures
        0 <= at < groups.len(),
        group_fault(groups[at], order) == first_fault(groups, order),
        forall|i: int| 0 <= i < at ==> group_fault(#[trigger] groups[i], order) is None,
    decreases groups.len(),
{
    let before = groups.drop_last();
    if first_fault(before, order) is Some {
        let at = lemma_first_fault_at(before, order);
        assert forall|i: int| 0 <= i < at implies group_fault(#[trigger] groups[i], order) is None by {
            assert(group_fault(before[i], order) is None);
        }
        at
    } else {
        lemma_first_fault_kind(before, order);
        assert forall|i: int| 0 <= i < before.len() implies group_fault(#[trigger] groups[i], order)
            is None by {
            assert(group_fault(before[i], order) is None);
        }
        groups.len() - 1
    }
}

/// Where one of the first groups has a fault, it is the first fault of all.
pub proof fn lemma_first_fault_stops(groups: Seq<Group>, order: Seq<usize>, n: int)
    requires
        0 <= n <= groups.len(),
        first_fault(groups.take(n), order) is Some,
    ensures
        first_fault(groups, order) == first_fault(groups.take(n), order),
    decreases groups.len() - n,
{
    if n == groups.len() {
        assert(groups.take(n) =~= groups);
    } else {
        assert(groups.drop_last().take(n) =~= groups.take(n));
        lemma_first_fault_stops(groups.drop_last(), order, n);
    }
}

/// The packed value of a group that starts at row `first` and has `len` rows.
fn pack(first: usize, len: usize) -> (value: u32)
    requires
        len <= MAX_GROUP_LEN,
        first * 32 + len <= MAX_VALUE,
    ensures
        value == first * 32 + len,
{
    let base = first as u32;
    let count = len as u32;
    assert((base << 5) | count == base * 32 + count) by (bit_vector)
        requires
            base < 0x400_0000,
            count < 32,
    ;
    (base << COUNT_BITS) | count
}

/// Adds the group of the rows `first..end` to the key set, unless it has a fault.
fn close_group<'a>(
    set: &mut Vec<(&'a [u8], u32)>,
    key: &'a [u8],
    first: usize,
    end: usize,
    line: usize,
    Ghost(done): Ghost<Seq<Group>>,
    Ghost(order): Ghost<Seq<usize>>,
) -> (fault: Option<BuildError>)
    requires
        first < end,
        line == order[first as int],
        first_fault(done, order) is None,
        key_set_view(old(set)@) == key_set(done),
    ensures
        ({
            let group = Group { key: key@, first: first as int, len: end - first };
            &&& fault == first_fault(done.push(group), order)
            &&& fault is None ==> key_set_view(final(set)@) == key_set(done.push(group))
        }),
{
    let ghost group = Group { key: key@, first: first as int, len: end - first };
    assert(done.push(group).drop_last() =~= done);
    let len = end - first;
    if len > MAX_GROUP_LEN {
        return Some(BuildError::Homonyms { row: first, count: len, first_line: line });
    }
    if first > (MAX_VALUE as usize - len) / 32 {
        return Some(BuildError::Trie);
    }
    let value = pack(first, len);
    assert(old(set)@.len() == key_set_view(old(set)@).len() == key_set(done).len() == done.len());
    set.push((key, value));
    assert forall|i: int| 0 <= i < done.len() implies key_set_view(set@)[i] == key_set(
        done.push(group),
    )[i] by {
        assert(key_set_view(old(set)@)[i] == key_set(done)[i]);
    }
    assert(key_set_view(set@) =~= key_set(done.push(group)));
    None
}

/// The key set of the rows in the given order: one key for each run of rows with one key,
/// with the packed value of the run. Fails at the first run that has more than 31 rows or
/// whose value the trie cannot hold; for a run of too many rows the error names its first
/// row, and the line that this row is.
pub fn key_set_of<'a>(keys: &Vec<&'a [u8]>, order: &Vec<usize>) -> (set: Result<
    Vec<(&'a [u8], u32)>,
    BuildError,
>)
    requires
        forall|k: int| 0 <= k < order@.len() ==> #[trigger] order@[k] < keys@.len(),
    ensures
        ({
            let all = groups(arrange(key_bytes(keys@), order@));
            match set {
                Ok(set) => first_fault(all, order@) is None && key_set_view(set@) == key_set(all),
                Err(e) => first_fault(all, order@) == Some(e),
            }
        }),
{
    let ghost sorted = arrange(key_bytes(keys@), order@);
    let mut set: Vec<(&'a [u8], u32)> = Vec::new();
    if order.len() == 0 {
        assert(key_set_view(set@) =~= key_set(groups(sorted)));
        return Ok(set);
    }
    let ghost mut done: Seq<Group> = Seq::empty();
    let mut first: usize = 0;
    let mut k: usize = 1;
    proof {
        reveal_with_fuel(groups, 2);
        assert(sorted.take(1).drop_last() =~= Seq::<Seq<u8>>::empty());
        assert(sorted.take(1).last() == sorted[0]);
        assert(groups(sorted.take(1)) =~= done.push(
            Group { key: sorted[0], first: 0, len: 1 },
        ));
        assert(key_set_view(set@) =~= key_set(done));
    }
    while k < order.len()
        invariant
            first < k <= order@.len(),
            forall|j: int| 0 <= j < order@.len() ==> #[trigger] order@[j] < keys@.len(),
            sorted == arrange(key_bytes(keys@), order@),
            groups(sorted.take(k as int)) == done.push(
                Group { key: sorted[first as int], first: first as int, len: k - first },
            ),
            sorted[k - 1] == sorted[first as int],
            first_fault(done, order@) is None,
            key_set_view(set@) == key_set(done),
        decreases order@.len() - k,
    {
        let ghost open = Group { key: sorted[first as int], first: first as int, len: k - first };
        proof {
            assert(sorted.take(k + 1).drop_last() =~= sorted.take(k as int));
            assert(sorted.take(k + 1).last() == sorted[k as int]);
            assert(done.push(open).last() == open);
        }
        assert(order@[k as int] < keys@.len() && order@[k - 1] < keys@.len());
        assert(order@[first as int] < keys@.len());
        if !bytes_eq(keys[order[k]], keys[order[k - 1]]) {
            match close_group(
                &mut set,
                keys[order[first]],
                first,
                k,
                order[first],
                Ghost(done),
                Ghost(order@),
            ) {
                Some(e) => {
                    proof {
                        lemma_groups_grow(sorted, k as int);
                        lemma_first_fault_stops(groups(sorted), order@, done.len() as int + 1);
                    }
                    return Err(e);
                },
                None => {},
            }
            proof {
                done = done.push(open);
            }
            first = k;
        } else {
            proof {
                assert(done.push(open).update(
                    done.len() as int,
                    Group { key: open.key, first: open.first, len: open.len + 1 },
                ) =~= done.push(Group { key: open.key, first: open.first, len: open.len + 1 }));
            }
        }
        k += 1;
    }
    assert(sorted.take(k as int) =~= sorted);
    assert(order@[first as int] < keys@.len());
    match close_group(
                &mut set,
                keys[order[first]],
                first,
                k,
                order[first],
                Ghost(done),
                Ghost(order@),
            ) {
        Some(e) => Err(e),
        None => Ok(set),
    }
}

/// The groups of the first `n` rows, but for the last of them, are groups of all the rows.
pub proof fn lemma_groups_grow(keys: Seq<Seq<u8>>, n: int)
    requires
        0 < n <= keys.len(),
    ensures
        groups(keys.take(n)).len() >= 1,
        groups(keys).len() >= groups(keys.take(n)).len(),
        groups(keys).take(groups(keys.take(n)).len() - 1) == groups(keys.take(n)).drop_last(),
        n < keys.len() && keys[n] != keys[n - 1] ==> groups(keys).take(
            groups(keys.take(n)).len() as int,
        ) == groups(keys.take(n)),
    decreases keys.len() - n,
{
    let part = groups(keys.take(n));
    assert(keys.take(n).drop_last() =~= keys.take(n - 1));
    if n == keys.len() {
        assert(keys.take(n) =~= keys);
        assert(groups(keys).take(part.len() - 1) =~= part.drop_last());
    } else {
        assert(keys.take(n + 1).drop_last() =~= keys.take(n));
        assert(keys.take(n + 1).last() == keys[n]);
        assert(keys.take(n).last() == keys[n - 1]);
        lemma_groups_last(keys.take(n));
        lemma_groups_grow(keys, n + 1);
        let next = groups(keys.take(n + 1));
        assert(next.drop_last().take(part.len() - 1) =~= part.drop_last());
        assert(groups(keys).take(next.len() - 1).take(part.len() - 1) =~= groups(keys).take(
            part.len() - 1,
        ));
        if keys[n] != keys[n - 1] {
            assert(next =~= part.push(Group { key: keys[n], first: n, len: 1 }));
            assert(next.drop_last() =~= part);
            assert(groups(keys).take(next.len() - 1) == part);
        }
    }
}

/// The last group holds the last row.
pub proof fn lemma_groups_last(keys: Seq<Seq<u8>>)
    requires
        keys.len() > 0,
    ensures
        groups(keys).len() >= 1,
        groups(keys).last().key == keys.last(),
    decreases keys.len(),
{
    if keys.len() > 1 {
        lemma_groups_last(keys.drop_last());
    }
}

} // verus!
