//! What the groups of a sorted word list are: the runs of rows with one surface form, from
//! the first row to the last, each with as many rows as the word list has of its surface
//! form.

use crate::bytes::{lemma_lex_lt_irreflexive, lemma_lex_lt_transitive, lemma_lex_total, lex_lt};
use crate::groups::{groups, Group};
use crate::sort::{
    arrange, is_stable_order, lemma_order_without_last, lemma_ranks_before_asymmetric,
    ranks_before,
};
use vstd::prelude::*;

verus! {

/// The number of rows with the given key.
pub open spec fn occurrences(keys: Seq<Seq<u8>>, key: Seq<u8>) -> nat
    decreases keys.len(),
{
    if keys.len() == 0 {
        0
    } else {
        occurrences(keys.drop_last(), key) + if keys.last() == key {
            1nat
        } else {
            0nat
        }
    }
}

/// Row `b` does not come before row `a`.
pub open spec fn in_order(keys: Seq<Seq<u8>>, a: int, b: int) -> bool {
    !lex_lt(keys[b], keys[a])
}

/// No key comes before an earlier one.
pub open spec fn non_descending(keys: Seq<Seq<u8>>) -> bool {
    forall|a: int, b: int| 0 <= a < b < keys.len() ==> in_order(keys, a, b)
}

/// Group `i + 1` starts where group `i` ends.
pub open spec fn adjoin(groups: Seq<Group>, i: int) -> bool {
    groups[i].first + groups[i].len == groups[i + 1].first
}

/// The rows of the group are rows of the list, they all have the group's key, and the row
/// before the group has another.
pub open spec fn is_run(keys: Seq<Seq<u8>>, group: Group) -> bool {
    &&& 0 <= group.first
    &&& 1 <= group.len
    &&& group.first + group.len <= keys.len()
    &&& forall|k: int| group.first <= k < group.first + group.len ==> #[trigger] keys[k] == group.key
    &&& group.first > 0 ==> keys[group.first - 1] != group.key
}

/// The groups are runs that follow one another from the first row to the last.
pub open spec fn tiles(keys: Seq<Seq<u8>>, groups: Seq<Group>) -> bool {
    &&& forall|i: int| 0 <= i < groups.len() ==> is_run(keys, #[trigger] groups[i])
    &&& forall|i: int| 0 <= i < groups.len() - 1 ==> adjoin(groups, i)
    &&& keys.len() > 0 ==> groups.len() > 0
    &&& groups.len() > 0 ==> groups[0].first == 0 && groups.last().first + groups.last().len
        == keys.len()
}

/// The groups of a list are its runs of equal keys.
pub proof fn lemma_groups_tile(keys: Seq<Seq<u8>>)
    ensures
        tiles(keys, groups(keys)),
    decreases keys.len(),
{
    if keys.len() > 0 {
        let shorter = keys.drop_last();
        let before = groups(shorter);
        let all = groups(keys);
        let n = keys.len() as int;
        lemma_groups_tile(shorter);
        assert forall|k: int| 0 <= k < n - 1 implies shorter[k] == keys[k] by {}
        if before.len() > 0 && before.last().key == keys.last() {
            let last = before.len() - 1;
            assert(is_run(shorter, before[last]));
            assert forall|i: int| 0 <= i < all.len() implies is_run(keys, #[trigger] all[i]) by {
                assert(is_run(shorter, before[i]));
                assert forall|k: int| all[i].first <= k < all[i].first + all[i].len implies keys[k]
                    == all[i].key by {
                    if k < n - 1 {
                        assert(shorter[k] == before[i].key);
                    }
                }
            }
            assert forall|i: int| 0 <= i < all.len() - 1 implies adjoin(all, i) by {
                assert(adjoin(before, i));
            }
        } else {
            assert forall|i: int| 0 <= i < all.len() implies is_run(keys, #[trigger] all[i]) by {
                if i < before.len() {
                    assert(is_run(shorter, before[i]));
                    assert forall|k: int|
                        all[i].first <= k < all[i].first + all[i].len implies keys[k]
                        == all[i].key by {
                        assert(shorter[k] == before[i].key);
                    }
                } else if before.len() > 0 {
                    let last = before.len() - 1;
                    assert(is_run(shorter, before[last]));
                    assert(shorter[n - 2] == before[last].key);
                }
            }
            assert forall|i: int| 0 <= i < all.len() - 1 implies adjoin(all, i) by {
                if i < before.len() - 1 {
                    assert(adjoin(before, i));
                }
            }
        }
    }
}

/// Later groups start later.
pub proof fn lemma_groups_start_later(keys: Seq<Seq<u8>>, groups: Seq<Group>, i: int, j: int)
    requires
        tiles(keys, groups),
        0 <= i < j < groups.len(),
    ensures
        groups[i].first + groups[i].len <= groups[j].first,
    decreases j - i,
{
    assert(is_run(keys, groups[j - 1]));
    assert(adjoin(groups, j - 1));
    if i < j - 1 {
        lemma_groups_start_later(keys, groups, i, j - 1);
    }
}

/// Every row stands in a group.
pub proof fn lemma_group_of_row(keys: Seq<Seq<u8>>, groups: Seq<Group>, row: int, upto: int) -> (at: int)
    requires
        tiles(keys, groups),
        0 <= upto < groups.len(),
        0 <= row < groups[upto].first + groups[upto].len,
    ensures
        0 <= at <= upto,
        groups[at].first <= row < groups[at].first + groups[at].len,
    decreases upto,
{
    if row >= groups[upto].first {
        upto
    } else {
        assert(upto > 0);
        assert(adjoin(groups, upto - 1));
        lemma_group_of_row(keys, groups, row, upto - 1)
    }
}

/// In a sorted list the row after a group has a larger key, and the row before it a
/// smaller one.
pub proof fn lemma_run_borders(keys: Seq<Seq<u8>>, groups: Seq<Group>, g: int)
    requires
        non_descending(keys),
        tiles(keys, groups),
        0 <= g < groups.len(),
    ensures
        groups[g].first > 0 ==> lex_lt(keys[groups[g].first - 1], groups[g].key),
        groups[g].first + groups[g].len < keys.len() ==> lex_lt(
            groups[g].key,
            keys[groups[g].first + groups[g].len],
        ),
{
    let group = groups[g];
    assert(is_run(keys, group));
    assert(keys[group.first] == group.key);
    if group.first > 0 {
        assert(in_order(keys, group.first - 1, group.first));
        lemma_lex_total(keys[group.first - 1], keys[group.first]);
    }
    let end = group.first + group.len;
    assert(keys[end - 1] == group.key);
    if end < keys.len() {
        assert(g < groups.len() - 1);
        assert(adjoin(groups, g));
        assert(is_run(keys, groups[g + 1]));
        assert(keys[end] == groups[g + 1].key);
        assert(in_order(keys, end - 1, end));
        lemma_lex_total(keys[end - 1], keys[end]);
    }
}

/// In a sorted list the rows with the key of a group are the rows of the group.
pub proof fn lemma_group_counts(keys: Seq<Seq<u8>>, groups: Seq<Group>, g: int)
    requires
        non_descending(keys),
        tiles(keys, groups),
        0 <= g < groups.len(),
    ensures
        occurrences(keys, groups[g].key) == groups[g].len,
{
    lemma_count_upto(keys, groups, g, keys.len() as int);
    assert(keys.take(keys.len() as int) =~= keys);
    assert(is_run(keys, groups[g]));
}

/// Among the first `m` rows of a sorted list, the rows with the key of a group are those of
/// its rows that are among them.
proof fn lemma_count_upto(keys: Seq<Seq<u8>>, groups: Seq<Group>, g: int, m: int)
    requires
        non_descending(keys),
        tiles(keys, groups),
        0 <= g < groups.len(),
        0 <= m <= keys.len(),
    ensures
        occurrences(keys.take(m), groups[g].key) == if m <= groups[g].first {
            0
        } else if m <= groups[g].first + groups[g].len {
            m - groups[g].first
        } else {
            groups[g].len
        },
    decreases m,
{
    let group = groups[g];
    assert(is_run(keys, group));
    if m > 0 {
        lemma_count_upto(keys, groups, g, m - 1);
        assert(keys.take(m).drop_last() =~= keys.take(m - 1));
        assert(keys.take(m).last() == keys[m - 1]);
        lemma_run_borders(keys, groups, g);
        let end = group.first + group.len;
        if m - 1 < group.first {
            // a row before the group is no larger than the row just before it
            lemma_lex_lt_irreflexive(group.key);
            if m - 1 < group.first - 1 {
                assert(in_order(keys, m - 1, group.first - 1));
            }
        } else if m - 1 >= end {
            lemma_lex_lt_irreflexive(group.key);
            if m - 1 > end {
                assert(in_order(keys, end, m - 1));
            }
        } else {
            assert(keys[m - 1] == group.key);
        }
    }
}

/// In a sorted list the keys of the groups ascend: every surface form is one key.
pub proof fn lemma_group_keys_ascend(keys: Seq<Seq<u8>>, groups: Seq<Group>, i: int, j: int)
    requires
        non_descending(keys),
        tiles(keys, groups),
        0 <= i < j < groups.len(),
    ensures
        lex_lt(groups[i].key, groups[j].key),
{
    assert(is_run(keys, groups[i]));
    assert(is_run(keys, groups[j]));
    lemma_groups_start_later(keys, groups, i, j);
    lemma_run_borders(keys, groups, i);
    let end = groups[i].first + groups[i].len;
    assert(keys[groups[j].first] == groups[j].key);
    if end < groups[j].first {
        assert(in_order(keys, end, groups[j].first));
        lemma_lex_total(keys[end], keys[groups[j].first]);
        if keys[end] != keys[groups[j].first] {
            lemma_lex_lt_transitive(groups[i].key, keys[end], groups[j].key);
        }
    }
}

/// Taking a row out takes it out of the count of its key, and of no other.
pub proof fn lemma_occurrences_remove(keys: Seq<Seq<u8>>, at: int, key: Seq<u8>)
    requires
        0 <= at < keys.len(),
    ensures
        occurrences(keys, key) == occurrences(keys.remove(at), key) + if keys[at] == key {
            1nat
        } else {
            0nat
        },
    decreases keys.len(),
{
    if at == keys.len() - 1 {
        assert(keys.remove(at) =~= keys.drop_last());
    } else {
        assert(keys.remove(at).drop_last() =~= keys.drop_last().remove(at));
        assert(keys.remove(at).last() == keys.last());
        lemma_occurrences_remove(keys.drop_last(), at, key);
    }
}

/// A key that is counted stands in a row.
pub proof fn lemma_occurrence_row(keys: Seq<Seq<u8>>, key: Seq<u8>) -> (row: int)
    requires
        occurrences(keys, key) > 0,
    ensures
        0 <= row < keys.len(),
        keys[row] == key,
    decreases keys.len(),
{
    if keys.last() == key {
        keys.len() - 1
    } else {
        lemma_occurrence_row(keys.drop_last(), key)
    }
}

/// The rows in their stable order are sorted.
pub proof fn lemma_sorted_keys_sorted(keys: Seq<Seq<u8>>, order: Seq<usize>)
    requires
        is_stable_order(keys, order),
    ensures
        non_descending(arrange(keys, order)),
{
    let sorted = arrange(keys, order);
    assert forall|a: int, b: int| 0 <= a < b < sorted.len() implies in_order(sorted, a, b) by {
        assert(ranks_before(keys, order[a] as int, order[b] as int));
        lemma_ranks_before_asymmetric(keys, order[a] as int, order[b] as int);
        lemma_lex_lt_irreflexive(sorted[a]);
    }
}

/// Sorting keeps, for every key, the number of rows that have it.
pub proof fn lemma_sorted_keys_count(keys: Seq<Seq<u8>>, order: Seq<usize>, key: Seq<u8>)
    requires
        is_stable_order(keys, order),
    ensures
        occurrences(arrange(keys, order), key) == occurrences(keys, key),
    decreases keys.len(),
{
    let sorted = arrange(keys, order);
    if keys.len() > 0 {
        let at = lemma_order_without_last(keys, order);
        let fewer = keys.drop_last();
        let rest = order.remove(at);
        lemma_sorted_keys_count(fewer, rest, key);
        assert forall|k: int| 0 <= k < rest.len() implies arrange(fewer, rest)[k]
            == sorted.remove(at)[k] by {
            assert(rest[k] < keys.len() - 1);
        }
        assert(arrange(fewer, rest) =~= sorted.remove(at));
        lemma_occurrences_remove(sorted, at, key);
    } else {
        assert(sorted =~= keys);
    }
}

/// The groups cover the rows: the last group ends with the last row.
pub proof fn lemma_groups_span(keys: Seq<Seq<u8>>)
    requires
        keys.len() > 0,
    ensures
        groups(keys).len() > 0,
        groups(keys).last().first >= 0,
        groups(keys).last().len >= 1,
        groups(keys).last().first + groups(keys).last().len == keys.len(),
    decreases keys.len(),
{
    if keys.len() > 1 {
        lemma_groups_span(keys.drop_last());
    } else {
        reveal_with_fuel(groups, 2);
    }
}

} // verus!
