//! The order in which the rows of a word list are compiled: by surface form, and rows of one
//! surface form in the order of their lines.

use crate::bytes::{
    bytes_lt, lemma_lex_lt_asymmetric, lemma_lex_lt_irreflexive, lemma_lex_lt_transitive,
    lemma_lex_total, lex_lt,
};
use vstd::prelude::*;
use vstd::set_lib::{lemma_int_range, lemma_subset_equality, set_int_range};

verus! {

/// What each key holds.
pub open spec fn key_bytes(keys: Seq<&[u8]>) -> Seq<Seq<u8>> {
    Seq::new(keys.len(), |i: int| keys[i]@)
}

/// The items in the given order: item `order[k]` stands at place `k`.
pub open spec fn arrange<T>(items: Seq<T>, order: Seq<usize>) -> Seq<T> {
    Seq::new(order.len(), |k: int| items[order[k] as int])
}

/// Row `i` comes before row `j`: its key is smaller, or the keys are equal and `i` is the
/// earlier line.
pub open spec fn ranks_before(keys: Seq<Seq<u8>>, i: int, j: int) -> bool {
    lex_lt(keys[i], keys[j]) || (keys[i] == keys[j] && i < j)
}

/// `order` lists the rows `lo..hi`, each once, every row before those that it ranks before.
pub open spec fn is_stable_order_of(keys: Seq<Seq<u8>>, order: Seq<usize>, lo: int, hi: int) -> bool {
    &&& order.len() == hi - lo
    &&& forall|k: int| 0 <= k < order.len() ==> lo <= #[trigger] order[k] < hi
    &&& forall|a: int, b: int|
        0 <= a < b < order.len() ==> ranks_before(keys, order[a] as int, order[b] as int)
}

/// `order` is the stable sort of the rows by their keys: it lists every row once, by
/// ascending key, and rows of equal keys by ascending line.
pub open spec fn is_stable_order(keys: Seq<Seq<u8>>, order: Seq<usize>) -> bool {
    is_stable_order_of(keys, order, 0, keys.len() as int)
}

/// A row ranks before the rows that a row after it ranks before.
pub proof fn lemma_ranks_before_transitive(keys: Seq<Seq<u8>>, i: int, j: int, k: int)
    requires
        ranks_before(keys, i, j),
        ranks_before(keys, j, k),
    ensures
        ranks_before(keys, i, k),
{
    if lex_lt(keys[i], keys[j]) && lex_lt(keys[j], keys[k]) {
        lemma_lex_lt_transitive(keys[i], keys[j], keys[k]);
    }
}

/// Of two rows at most one ranks before the other, and no row ranks before itself.
pub proof fn lemma_ranks_before_asymmetric(keys: Seq<Seq<u8>>, i: int, j: int)
    requires
        ranks_before(keys, i, j),
    ensures
        !ranks_before(keys, j, i),
        i != j,
{
    lemma_lex_lt_irreflexive(keys[i]);
    if lex_lt(keys[i], keys[j]) {
        lemma_lex_lt_asymmetric(keys[i], keys[j]);
    }
}

/// A stable order of the rows `lo..hi` holds each of them.
pub proof fn lemma_stable_order_covers(
    keys: Seq<Seq<u8>>,
    order: Seq<usize>,
    lo: int,
    hi: int,
    row: int,
) -> (at: int)
    requires
        is_stable_order_of(keys, order, lo, hi),
        lo <= row < hi,
    ensures
        0 <= at < order.len(),
        order[at] == row,
{
    let rows = Seq::new(order.len(), |k: int| order[k] as int);
    assert forall|a: int, b: int| 0 <= a < rows.len() && 0 <= b < rows.len() && a != b implies rows[a]
        != rows[b] by {
        if a < b {
            lemma_ranks_before_asymmetric(keys, order[a] as int, order[b] as int);
        } else {
            lemma_ranks_before_asymmetric(keys, order[b] as int, order[a] as int);
        }
    }
    rows.unique_seq_to_set();
    lemma_int_range(lo, hi);
    assert forall|x: int| rows.to_set().contains(x) implies set_int_range(lo, hi).contains(x) by {
        let k = choose|k: int| 0 <= k < rows.len() && rows[k] == x;
        assert(lo <= order[k] < hi);
    }
    lemma_subset_equality(rows.to_set(), set_int_range(lo, hi));
    assert(set_int_range(lo, hi).contains(row));
    assert(rows.to_set().contains(row));
    let at = choose|k: int| 0 <= k < rows.len() && rows[k] == row;
    at
}

/// The rows have one stable order only.
pub proof fn lemma_stable_order_unique(keys: Seq<Seq<u8>>, first: Seq<usize>, second: Seq<usize>)
    requires
        is_stable_order(keys, first),
        is_stable_order(keys, second),
    ensures
        first == second,
{
    let n = keys.len() as int;
    assert forall|k: int| 0 <= k < n implies first[k] == second[k] by {
        lemma_agree_up_to(keys, first, second, k);
    }
    assert(first =~= second);
}

/// Two stable orders of the same rows have the same row at every place.
proof fn lemma_agree_up_to(keys: Seq<Seq<u8>>, first: Seq<usize>, second: Seq<usize>, k: int)
    requires
        is_stable_order(keys, first),
        is_stable_order(keys, second),
        0 <= k < keys.len(),
    ensures
        first[k] == second[k],
    decreases k,
{
    let n = keys.len() as int;
    assert forall|j: int| 0 <= j < k implies first[j] == second[j] by {
        lemma_agree_up_to(keys, first, second, j);
    }
    let x = first[k] as int;
    let y = second[k] as int;
    assert(0 <= x < n);
    assert(0 <= y < n);
    if x != y {
        // x stands in `second` after k, and y stands in `first` after k
        let j = lemma_stable_order_covers(keys, second, 0, n, x);
        let i = lemma_stable_order_covers(keys, first, 0, n, y);
        if j < k {
            lemma_ranks_before_asymmetric(keys, first[j] as int, first[k] as int);
        }
        if i < k {
            lemma_ranks_before_asymmetric(keys, second[i] as int, second[k] as int);
        }
        assert(ranks_before(keys, y, x));
        assert(ranks_before(keys, x, y));
        lemma_ranks_before_asymmetric(keys, x, y);
    }
}

/// The place of the last row among the others, which are in their stable order: after
/// the rows whose key is no larger, and before those whose key is larger.
proof fn lemma_place_of_last(keys: Seq<Seq<u8>>, others: Seq<usize>, from: int) -> (at: int)
    requires
        keys.len() > 0,
        is_stable_order(keys.drop_last(), others),
        0 <= from <= others.len(),
        forall|k: int| 0 <= k < from ==> !lex_lt(keys.last(), keys[#[trigger] others[k] as int]),
    ensures
        from <= at <= others.len(),
        forall|k: int| 0 <= k < at ==> !lex_lt(keys.last(), keys[#[trigger] others[k] as int]),
        forall|k: int| at <= k < others.len() ==> lex_lt(keys.last(), keys[#[trigger] others[k] as int]),
    decreases others.len() - from,
{
    let fewer = keys.drop_last();
    if from == others.len() {
        from
    } else if lex_lt(keys.last(), keys[others[from] as int]) {
        assert forall|k: int| from <= k < others.len() implies lex_lt(
            keys.last(),
            keys[#[trigger] others[k] as int],
        ) by {
            if from < k {
                assert(ranks_before(fewer, others[from] as int, others[k] as int));
                assert(0 <= others[from] < fewer.len());
                assert(0 <= others[k] < fewer.len());
                if lex_lt(fewer[others[from] as int], fewer[others[k] as int]) {
                    lemma_lex_lt_transitive(
                        keys.last(),
                        keys[others[from] as int],
                        keys[others[k] as int],
                    );
                }
            }
        }
        from
    } else {
        lemma_place_of_last(keys, others, from + 1)
    }
}

/// Every list of rows has a stable order.
pub proof fn lemma_stable_order_exists(keys: Seq<Seq<u8>>) -> (order: Seq<usize>)
    requires
        keys.len() <= usize::MAX,
    ensures
        is_stable_order(keys, order),
        order == stable_order_of(keys),
    decreases keys.len(),
{
    if keys.len() == 0 {
        let order = Seq::<usize>::empty();
        lemma_stable_order_is(keys, order);
        order
    } else {
        let fewer = keys.drop_last();
        let last = (keys.len() - 1) as usize;
        let others = lemma_stable_order_exists(fewer);
        let at = lemma_place_of_last(keys, others, 0);
        let order = others.insert(at, last);
        assert forall|k: int| 0 <= k < order.len() implies 0 <= #[trigger] order[k] < keys.len() by {
            if k < at {
                assert(order[k] == others[k]);
            } else if k > at {
                assert(order[k] == others[k - 1]);
            }
        }
        assert forall|a: int, b: int| 0 <= a < b < order.len() implies ranks_before(
            keys,
            order[a] as int,
            order[b] as int,
        ) by {
            if a == at {
                assert(order[b] == others[b - 1]);
                assert(0 <= others[b - 1] < fewer.len());
            } else if b == at {
                assert(order[a] == others[a]);
                assert(0 <= others[a] < fewer.len());
                lemma_lex_total(keys[others[a] as int], keys.last());
            } else {
                let from_a = if a < at { a } else { a - 1 };
                let from_b = if b < at { b } else { b - 1 };
                assert(order[a] == others[from_a]);
                assert(order[b] == others[from_b]);
                assert(0 <= others[from_a] < fewer.len());
                assert(0 <= others[from_b] < fewer.len());
                assert(ranks_before(fewer, others[from_a] as int, others[from_b] as int));
            }
        }
        lemma_stable_order_is(keys, order);
        order
    }
}

/// The stable order of the rows with these keys: the one order that `is_stable_order`
/// accepts.
pub closed spec fn stable_order_of(keys: Seq<Seq<u8>>) -> Seq<usize> {
    choose|order: Seq<usize>| is_stable_order(keys, order)
}

/// An order that `is_stable_order` accepts is the stable order.
pub proof fn lemma_stable_order_is(keys: Seq<Seq<u8>>, order: Seq<usize>)
    requires
        is_stable_order(keys, order),
    ensures
        order == stable_order_of(keys),
{
    lemma_stable_order_unique(keys, order, stable_order_of(keys));
}

/// Merges the sorted rows `lo..mid` and the sorted rows `mid..hi`.
fn merge(keys: &Vec<&[u8]>, left: &Vec<usize>, right: &Vec<usize>, Ghost(lo): Ghost<int>, Ghost(mid): Ghost<int>, Ghost(hi): Ghost<int>) -> (order: Vec<usize>)
    requires
        0 <= lo <= mid <= hi <= keys@.len(),
        is_stable_order_of(key_bytes(keys@), left@, lo, mid),
        is_stable_order_of(key_bytes(keys@), right@, mid, hi),
    ensures
        is_stable_order_of(key_bytes(keys@), order@, lo, hi),
{
    let ghost kb = key_bytes(keys@);
    let mut order: Vec<usize> = Vec::new();
    let mut i: usize = 0;
    let mut j: usize = 0;
    while i < left.len() || j < right.len()
        invariant
            0 <= lo <= mid <= hi <= keys@.len(),
            kb == key_bytes(keys@),
            is_stable_order_of(kb, left@, lo, mid),
            is_stable_order_of(kb, right@, mid, hi),
            i <= left@.len(),
            j <= right@.len(),
            order@.len() == i + j,
            forall|k: int| 0 <= k < order@.len() ==> lo <= #[trigger] order@[k] < hi,
            forall|a: int, b: int|
                0 <= a < b < order@.len() ==> ranks_before(kb, order@[a] as int, order@[b] as int),
            forall|a: int, b: int|
                0 <= a < order@.len() && i <= b < left@.len() ==> ranks_before(
                    kb,
                    order@[a] as int,
                    left@[b] as int,
                ),
            forall|a: int, b: int|
                0 <= a < order@.len() && j <= b < right@.len() ==> ranks_before(
                    kb,
                    order@[a] as int,
                    right@[b] as int,
                ),
        decreases left@.len() - i + right@.len() - j,
    {
        let take_left = if i >= left.len() {
            false
        } else if j >= right.len() {
            true
        } else {
            !bytes_lt(keys[right[j]], keys[left[i]])
        };
        let ghost before = order@;
        if take_left {
            let x = left[i];
            proof {
                assert(lo <= left@[i as int] < mid);
                assert forall|b: int| j <= b < right@.len() implies ranks_before(
                    kb,
                    x as int,
                    right@[b] as int,
                ) by {
                    assert(mid <= right@[j as int] < hi);
                    assert(mid <= right@[b] < hi);
                    lemma_lex_total(kb[x as int], kb[right@[j as int] as int]);
                    assert(ranks_before(kb, x as int, right@[j as int] as int));
                    if j < b {
                        assert(ranks_before(kb, right@[j as int] as int, right@[b] as int));
                        lemma_ranks_before_transitive(
                            kb,
                            x as int,
                            right@[j as int] as int,
                            right@[b] as int,
                        );
                    }
                }
            }
            order.push(x);
            i += 1;
        } else {
            let y = right[j];
            proof {
                assert(mid <= right@[j as int] < hi);
                assert forall|b: int| i <= b < left@.len() implies ranks_before(
                    kb,
                    y as int,
                    left@[b] as int,
                ) by {
                    assert(lo <= left@[i as int] < mid);
                    assert(ranks_before(kb, y as int, left@[i as int] as int));
                    if i < b {
                        assert(ranks_before(kb, left@[i as int] as int, left@[b] as int));
                        lemma_ranks_before_transitive(
                            kb,
                            y as int,
                            left@[i as int] as int,
                            left@[b] as int,
                        );
                    }
                }
            }
            order.push(y);
            j += 1;
        }
    }
    order
}

/// The rows `lo..hi` in their stable order.
fn sort_range(keys: &Vec<&[u8]>, lo: usize, hi: usize) -> (order: Vec<usize>)
    requires
        lo <= hi <= keys@.len(),
    ensures
        is_stable_order_of(key_bytes(keys@), order@, lo as int, hi as int),
    decreases hi - lo,
{
    if hi - lo <= 1 {
        let mut order: Vec<usize> = Vec::new();
        if lo < hi {
            order.push(lo);
        }
        order
    } else {
        let mid = lo + (hi - lo) / 2;
        let left = sort_range(keys, lo, mid);
        let right = sort_range(keys, mid, hi);
        merge(keys, &left, &right, Ghost(lo as int), Ghost(mid as int), Ghost(hi as int))
    }
}

/// Sorts the rows by their keys, in the lexicographic order of bytes, and keeps rows of equal
/// keys in the order of their lines. The result lists the rows' numbers in that order.
pub fn stable_order(keys: &Vec<&[u8]>) -> (order: Vec<usize>)
    ensures
        is_stable_order(key_bytes(keys@), order@),
        order@ == stable_order_of(key_bytes(keys@)),
{
    let order = sort_range(keys, 0, keys.len());
    proof {
        lemma_stable_order_is(key_bytes(keys@), order@);
    }
    order
}

/// The sum of the weights.
pub open spec fn total(weights: Seq<nat>) -> nat
    decreases weights.len(),
{
    if weights.len() == 0 {
        0
    } else {
        total(weights.drop_last()) + weights.last()
    }
}

/// Taking a weight out takes it out of the sum.
pub proof fn lemma_total_remove(weights: Seq<nat>, at: int)
    requires
        0 <= at < weights.len(),
    ensures
        total(weights) == total(weights.remove(at)) + weights[at],
    decreases weights.len(),
{
    if at == weights.len() - 1 {
        assert(weights.remove(at) =~= weights.drop_last());
    } else {
        assert(weights.remove(at).drop_last() =~= weights.drop_last().remove(at));
        assert(weights.remove(at).last() == weights.last());
        lemma_total_remove(weights.drop_last(), at);
    }
}

/// Without the place of the last row, a stable order is one of the rows before the last.
/// Returns that place.
pub proof fn lemma_order_without_last(keys: Seq<Seq<u8>>, order: Seq<usize>) -> (at: int)
    requires
        is_stable_order(keys, order),
        keys.len() > 0,
    ensures
        0 <= at < order.len(),
        order[at] == keys.len() - 1,
        is_stable_order(keys.drop_last(), order.remove(at)),
        forall|k: int| 0 <= k < order.len() - 1 ==> #[trigger] order.remove(at)[k] < keys.len() - 1,
{
    let n = keys.len() as int;
    let at = lemma_stable_order_covers(keys, order, 0, n, n - 1);
    let fewer = keys.drop_last();
    let rest = order.remove(at);
    assert forall|k: int| 0 <= k < rest.len() implies 0 <= #[trigger] rest[k] < n - 1 by {
        let from = if k < at { k } else { k + 1 };
        assert(rest[k] == order[from]);
        if from < at {
            lemma_ranks_before_asymmetric(keys, order[from] as int, order[at] as int);
        } else {
            lemma_ranks_before_asymmetric(keys, order[at] as int, order[from] as int);
        }
    }
    assert forall|a: int, b: int| 0 <= a < b < rest.len() implies ranks_before(
        fewer,
        rest[a] as int,
        rest[b] as int,
    ) by {
        let from_a = if a < at { a } else { a + 1 };
        let from_b = if b < at { b } else { b + 1 };
        assert(0 <= rest[a] < n - 1);
        assert(0 <= rest[b] < n - 1);
        assert(ranks_before(keys, order[from_a] as int, order[from_b] as int));
    }
    at
}

/// Sorting keeps the sum of the rows' weights.
pub proof fn lemma_arrange_total(keys: Seq<Seq<u8>>, order: Seq<usize>, weights: Seq<nat>)
    requires
        is_stable_order(keys, order),
        weights.len() == keys.len(),
    ensures
        total(arrange(weights, order)) == total(weights),
    decreases keys.len(),
{
    let sorted = arrange(weights, order);
    if keys.len() > 0 {
        let at = lemma_order_without_last(keys, order);
        let rest = order.remove(at);
        lemma_arrange_total(keys.drop_last(), rest, weights.drop_last());
        assert forall|k: int| 0 <= k < rest.len() implies arrange(weights.drop_last(), rest)[k]
            == sorted.remove(at)[k] by {
            assert(rest[k] < keys.len() - 1);
        }
        assert(arrange(weights.drop_last(), rest) =~= sorted.remove(at));
        lemma_total_remove(sorted, at);
    } else {
        assert(sorted =~= weights);
    }
}

} // verus!
