//! Putting items in the order of their keys.
//!
//! A key is a list of numbers, compared from the front: the first difference
//! decides, and a key that runs out first comes first. Items with equal keys
//! keep the order in which they came.

use vstd::prelude::*;
#[allow(unused_imports)]
use vstd::set_lib::{
    lemma_int_range, lemma_set_subset_finite, lemma_subset_equality, set_int_range,
};

verus! {

/// Key `a` comes before key `b`.
pub open spec fn key_less(a: Seq<u64>, b: Seq<u64>) -> bool
    decreases a.len(),
{
    if b.len() == 0 {
        false
    } else if a.len() == 0 {
        true
    } else {
        a[0] < b[0] || (a[0] == b[0] && key_less(a.skip(1), b.skip(1)))
    }
}

/// No key comes before itself.
pub proof fn lemma_key_less_irreflexive(a: Seq<u64>)
    ensures
        !key_less(a, a),
    decreases a.len(),
{
    if a.len() > 0 {
        lemma_key_less_irreflexive(a.skip(1));
    }
}

/// Coming before is transitive.
pub proof fn lemma_key_less_transitive(a: Seq<u64>, b: Seq<u64>, c: Seq<u64>)
    requires
        key_less(a, b),
        key_less(b, c),
    ensures
        key_less(a, c),
    decreases a.len(),
{
    if a.len() > 0 && a[0] == b[0] && b[0] == c[0] {
        lemma_key_less_transitive(a.skip(1), b.skip(1), c.skip(1));
    }
}

/// Of two different keys, one comes first.
pub proof fn lemma_key_less_total(a: Seq<u64>, b: Seq<u64>)
    requires
        !key_less(a, b),
        !key_less(b, a),
    ensures
        a == b,
    decreases a.len(),
{
    if a.len() > 0 && b.len() > 0 {
        lemma_key_less_total(a.skip(1), b.skip(1));
        assert forall|i: int| 0 <= i < a.len() implies a[i] == b[i] by {
            if i > 0 {
                assert(a.skip(1)[i - 1] == b.skip(1)[i - 1]);
            }
        }
        assert(a.len() == a.skip(1).len() + 1);
        assert(b.len() == b.skip(1).len() + 1);
    }
    assert(a =~= b);
}

/// Item `i` comes before item `j`: its key does, or the keys are equal and `i`
/// came first.
pub open spec fn ranks_before(keys: Seq<Seq<u64>>, i: int, j: int) -> bool {
    key_less(keys[i], keys[j]) || (keys[i] == keys[j] && i < j)
}

/// `order` lists each item once, each before those that come after it.
pub open spec fn is_ranking(keys: Seq<Seq<u64>>, order: Seq<int>) -> bool {
    &&& order.len() == keys.len()
    &&& forall|k: int| 0 <= k < order.len() ==> 0 <= #[trigger] order[k] < keys.len()
    &&& forall|k: int, l: int|
        0 <= k < l < order.len() ==> ranks_before(keys, #[trigger] order[k], #[trigger] order[l])
}

proof fn lemma_ranks_transitive(keys: Seq<Seq<u64>>, a: int, b: int, c: int)
    requires
        ranks_before(keys, a, b),
        ranks_before(keys, b, c),
    ensures
        ranks_before(keys, a, c),
{
    if key_less(keys[a], keys[b]) && key_less(keys[b], keys[c]) {
        lemma_key_less_transitive(keys[a], keys[b], keys[c]);
    }
}

/// Whether key `a` comes before key `b`.
pub fn key_is_less(a: &[u64], b: &[u64]) -> (r: bool)
    ensures
        r == key_less(a@, b@),
{
    let mut i: usize = 0;
    assert(a@.skip(0) =~= a@);
    assert(b@.skip(0) =~= b@);
    while i < a.len() && i < b.len()
        invariant
            i <= a@.len(),
            i <= b@.len(),
            key_less(a@, b@) == key_less(a@.skip(i as int), b@.skip(i as int)),
        decreases a@.len() - i,
    {
        if a[i] < b[i] {
            return true;
        }
        if a[i] > b[i] {
            return false;
        }
        assert(a@.skip(i as int).skip(1) =~= a@.skip(i + 1));
        assert(b@.skip(i as int).skip(1) =~= b@.skip(i + 1));
        i = i + 1;
    }
    i < b.len()
}

/// The keys, each taken by its view.
pub open spec fn key_views(keys: Seq<&[u64]>) -> Seq<Seq<u64>> {
    Seq::new(keys.len(), |i: int| keys[i]@)
}

/// Indices, as mathematical integers.
pub open spec fn indices(s: Seq<usize>) -> Seq<int> {
    Seq::new(s.len(), |i: int| s[i] as int)
}

/// The items from `from` up to `to`, each before those that come after it.
spec fn ranked_run(keys: Seq<Seq<u64>>, s: Seq<usize>, from: int, to: int) -> bool {
    &&& forall|k: int| 0 <= k < s.len() ==> from <= #[trigger] s[k] < to
    &&& forall|k: int, l: int|
        0 <= k < l < s.len() ==> ranks_before(keys, #[trigger] s[k] as int, #[trigger] s[l] as int)
}

/// Merge two ranked runs, the first of which holds the earlier items.
fn merge(keys: &Vec<&[u64]>, a: Vec<usize>, b: Vec<usize>, Ghost(from): Ghost<int>, Ghost(mid): Ghost<int>, Ghost(to): Ghost<int>) -> (r: Vec<usize>)
    requires
        0 <= from <= mid <= to <= keys@.len(),
        a@.len() == mid - from,
        b@.len() == to - mid,
        ranked_run(key_views(keys@), a@, from, mid),
        ranked_run(key_views(keys@), b@, mid, to),
    ensures
        r@.len() == to - from,
        ranked_run(key_views(keys@), r@, from, to),
{
    let ghost kv = key_views(keys@);
    let mut out: Vec<usize> = Vec::new();
    let mut i: usize = 0;
    let mut j: usize = 0;
    while i < a.len() || j < b.len()
        invariant
            kv == key_views(keys@),
            0 <= from <= mid <= to <= keys@.len(),
            i <= a@.len(),
            j <= b@.len(),
            a@.len() == mid - from,
            b@.len() == to - mid,
            ranked_run(kv, a@, from, mid),
            ranked_run(kv, b@, mid, to),
            out@.len() == i + j,
            ranked_run(kv, out@, from, to),
            forall|k: int, l: int|
                0 <= k < out@.len() && i <= l < a@.len() ==> ranks_before(kv, #[trigger] out@[k] as int, #[trigger] a@[l] as int),
            forall|k: int, l: int|
                0 <= k < out@.len() && j <= l < b@.len() ==> ranks_before(kv, #[trigger] out@[k] as int, #[trigger] b@[l] as int),
        decreases a@.len() - i + b@.len() - j,
    {
        let take_b: bool = if i >= a.len() {
            true
        } else if j >= b.len() {
            false
        } else {
            key_is_less(keys[b[j]], keys[a[i]])
        };
        let ghost before = out@;
        if take_b {
            let item: usize = b[j];
            proof {
                if i < a@.len() {
                    assert forall|l: int| i <= l < a@.len() implies ranks_before(kv, item as int, #[trigger] a@[l] as int) by {
                        assert(ranks_before(kv, item as int, a@[i as int] as int));
                        if l > i {
                            assert(ranks_before(kv, a@[i as int] as int, a@[l] as int));
                            lemma_ranks_transitive(kv, item as int, a@[i as int] as int, a@[l] as int);
                        }
                    }
                }
            }
            out.push(item);
            j = j + 1;
        } else {
            let item: usize = a[i];
            proof {
                if j < b@.len() {
                    assert forall|l: int| j <= l < b@.len() implies ranks_before(kv, item as int, #[trigger] b@[l] as int) by {
                        let head = b@[j as int] as int;
                        if !key_less(kv[item as int], kv[head]) {
                            lemma_key_less_total(kv[item as int], kv[head]);
                        }
                        assert(ranks_before(kv, item as int, head));
                        if l > j {
                            assert(ranks_before(kv, b@[j as int] as int, b@[l] as int));
                            lemma_ranks_transitive(kv, item as int, head, b@[l] as int);
                        }
                    }
                }
            }
            out.push(item);
            i = i + 1;
        }
    }
    out
}

/// Rank the items from `from` up to `to`.
fn rank_run(keys: &Vec<&[u64]>, from: usize, to: usize) -> (r: Vec<usize>)
    requires
        from <= to <= keys@.len(),
    ensures
        r@.len() == to - from,
        ranked_run(key_views(keys@), r@, from as int, to as int),
    decreases to - from,
{
    if to - from <= 1 {
        let mut out: Vec<usize> = Vec::new();
        if to > from {
            out.push(from);
        }
        return out;
    }
    let mid: usize = from + (to - from) / 2;
    let a = rank_run(keys, from, mid);
    let b = rank_run(keys, mid, to);
    merge(keys, a, b, Ghost(from as int), Ghost(mid as int), Ghost(to as int))
}

/// The order in which items with these keys come.
pub fn ranking(keys: &Vec<&[u64]>) -> (r: Vec<usize>)
    ensures
        is_ranking(key_views(keys@), indices(r@)),
{
    rank_run(keys, 0, keys.len())
}

/// A ranking lists every item.
pub proof fn lemma_ranking_lists_all(keys: Seq<Seq<u64>>, order: Seq<int>, item: int)
    requires
        is_ranking(keys, order),
        0 <= item < keys.len(),
    ensures
        exists|k: int| 0 <= k < order.len() && #[trigger] order[k] == item,
{
    assert forall|k: int, l: int| 0 <= k < l < order.len() implies order[k] != order[l] by {
        assert(ranks_before(keys, order[k], order[l]));
        lemma_key_less_irreflexive(keys[order[k]]);
    }
    assert(order.no_duplicates());
    order.unique_seq_to_set();
    let n = keys.len() as int;
    lemma_int_range(0, n);
    assert(order.to_set().subset_of(set_int_range(0, n)));
    lemma_set_subset_finite(set_int_range(0, n), order.to_set());
    lemma_subset_equality(order.to_set(), set_int_range(0, n));
    assert(order.to_set().contains(item));
}

/// There is only one ranking.
pub proof fn lemma_ranking_unique(keys: Seq<Seq<u64>>, a: Seq<int>, b: Seq<int>)
    requires
        is_ranking(keys, a),
        is_ranking(keys, b),
    ensures
        a == b,
{
    lemma_rankings_agree(keys, a, b, keys.len() as int);
    assert(a =~= b);
}

/// Two rankings agree on their first `n` items.
proof fn lemma_rankings_agree(keys: Seq<Seq<u64>>, a: Seq<int>, b: Seq<int>, n: int)
    requires
        is_ranking(keys, a),
        is_ranking(keys, b),
        0 <= n <= keys.len(),
    ensures
        forall|k: int| 0 <= k < n ==> #[trigger] a[k] == b[k],
    decreases n,
{
    if n > 0 {
        lemma_rankings_agree(keys, a, b, n - 1);
        let (x, y) = (a[n - 1], b[n - 1]);
        if x != y {
            lemma_ranking_lists_all(keys, b, x);
            lemma_ranking_lists_all(keys, a, y);
            let p = choose|p: int| 0 <= p < b.len() && #[trigger] b[p] == x;
            let q = choose|q: int| 0 <= q < a.len() && #[trigger] a[q] == y;
            if p < n - 1 {
                assert(a[p] == x);
                assert(ranks_before(keys, a[p], a[n - 1]));
                lemma_key_less_irreflexive(keys[x]);
            } else if q < n - 1 {
                assert(b[q] == y);
                assert(ranks_before(keys, b[q], b[n - 1]));
                lemma_key_less_irreflexive(keys[y]);
            } else {
                assert(ranks_before(keys, b[n - 1], b[p]));
                assert(ranks_before(keys, a[n - 1], a[q]));
                lemma_ranks_transitive(keys, x, y, x);
                lemma_key_less_irreflexive(keys[x]);
            }
        }
    }
}

} // verus!
