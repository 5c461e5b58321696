//! Stable ordering by text keys: the order in which rows come out of an
//! `ORDER BY` on a key, rows with equal keys keeping their insertion order.

use vstd::prelude::*;
use crate::order::{chars_lt, lex_lt, lemma_lex_asymmetric, lemma_lex_total, lemma_lex_transitive};

verus! {

/// `order` with position `k` inserted after every position whose key is not
/// greater than `keys[k]`.
pub open spec fn insert_stable(order: Seq<int>, keys: Seq<Seq<char>>, k: int) -> Seq<int>
    decreases order.len(),
{
    if order.len() == 0 {
        seq![k]
    } else if lex_lt(keys[k], keys[order.last()]) {
        insert_stable(order.drop_last(), keys, k).push(order.last())
    } else {
        order.push(k)
    }
}

/// The positions `0..n` of `keys`, stably ordered by key.
pub open spec fn stable_order_upto(keys: Seq<Seq<char>>, n: nat) -> Seq<int>
    decreases n,
{
    if n == 0 {
        Seq::empty()
    } else {
        insert_stable(stable_order_upto(keys, (n - 1) as nat), keys, n - 1)
    }
}

/// The positions of `keys`, stably ordered by key.
pub open spec fn stable_order(keys: Seq<Seq<char>>) -> Seq<int> {
    stable_order_upto(keys, keys.len())
}

/// The views of a list of character vectors.
pub open spec fn keys_view(keys: Seq<Vec<char>>) -> Seq<Seq<char>> {
    keys.map_values(|k: Vec<char>| k@)
}

/// The positions as integers.
pub open spec fn positions(order: Seq<usize>) -> Seq<int> {
    order.map_values(|u: usize| u as int)
}

proof fn lemma_insert_step(o: Seq<int>, keys: Seq<Seq<char>>, k: int, p: int)
    requires
        0 < p <= o.len(),
        lex_lt(keys[k], keys[o[p - 1]]),
    ensures
        insert_stable(o.take(p), keys, k) + o.skip(p) == insert_stable(o.take(p - 1), keys, k) + o.skip(p - 1),
{
    assert(o.take(p).drop_last() =~= o.take(p - 1));
    assert(o.take(p).last() == o[p - 1]);
    let a = insert_stable(o.take(p - 1), keys, k);
    assert(a.push(o[p - 1]) + o.skip(p) =~= a + o.skip(p - 1));
}

/// The positions of `keys`, stably ordered by key.
pub fn stable_sort(keys: &Vec<Vec<char>>) -> (order: Vec<usize>)
    ensures
        positions(order@) == stable_order(keys_view(keys@)),
        order@.len() == keys@.len(),
        forall|i: int| 0 <= i < order@.len() ==> order@[i] < keys@.len(),
{
    let ghost kv = keys_view(keys@);
    let mut order: Vec<usize> = Vec::new();
    let mut k: usize = 0;
    while k < keys.len()
        invariant
            k <= keys@.len(),
            kv == keys_view(keys@),
            positions(order@) == stable_order_upto(kv, k as nat),
            order@.len() == k,
            forall|i: int| 0 <= i < order@.len() ==> order@[i] < k,
        decreases keys@.len() - k,
    {
        let ghost o = positions(order@);
        let mut p: usize = order.len();
        assert(o.take(p as int) =~= o);
        assert(o.skip(p as int) =~= Seq::<int>::empty());
        while p > 0 && chars_lt(&keys[k], &keys[order[p - 1]])
            invariant
                p <= order@.len() == k < keys@.len(),
                o == positions(order@),
                kv == keys_view(keys@),
                forall|i: int| 0 <= i < order@.len() ==> order@[i] < k,
                insert_stable(o, kv, k as int) == insert_stable(o.take(p as int), kv, k as int) + o.skip(p as int),
            decreases p,
        {
            proof { lemma_insert_step(o, kv, k as int, p as int); }
            p = p - 1;
        }
        proof {
            if p == 0 {
                assert(insert_stable(o.take(0), kv, k as int) == seq![k as int]);
            } else {
                assert(o.take(p as int).last() == o[p - 1]);
                assert(insert_stable(o.take(p as int), kv, k as int) == o.take(p as int).push(k as int));
            }
        }
        order.insert(p, k);
        assert(positions(order@) =~= insert_stable(o, kv, k as int)) by {
            assert(positions(order@) =~= o.take(p as int).push(k as int) + o.skip(p as int));
        }
        k = k + 1;
    }
    order
}

/// No key comes before a key that precedes it in the order.
pub open spec fn ordered_by(order: Seq<int>, keys: Seq<Seq<char>>) -> bool {
    forall|i: int, j: int| 0 <= i < j < order.len() ==> !lex_lt(#[trigger] keys[order[j]], #[trigger] keys[order[i]])
}

/// Each of the positions `0..n` occurs once.
pub open spec fn permutes(order: Seq<int>, n: int) -> bool {
    &&& order.len() == n
    &&& forall|i: int| 0 <= i < order.len() ==> 0 <= #[trigger] order[i] < n
    &&& forall|i: int, j: int| 0 <= i < j < order.len() ==> #[trigger] order[i] != #[trigger] order[j]
}

/// The shape of a stable insertion into any ordered list of distinct
/// positions below `k`.
proof fn lemma_insert_stable_general(o: Seq<int>, keys: Seq<Seq<char>>, k: int)
    requires
        0 <= k < keys.len(),
        forall|i: int| 0 <= i < o.len() ==> 0 <= #[trigger] o[i] < k,
        forall|i: int, j: int| 0 <= i < j < o.len() ==> #[trigger] o[i] != #[trigger] o[j],
        ordered_by(o, keys),
    ensures
        insert_stable(o, keys, k).len() == o.len() + 1,
        ordered_by(insert_stable(o, keys, k), keys),
        forall|i: int| 0 <= i < insert_stable(o, keys, k).len() ==>
            #[trigger] insert_stable(o, keys, k)[i] == k || exists|q: int| 0 <= q < o.len() && o[q] == insert_stable(o, keys, k)[i],
        forall|i: int, j: int| 0 <= i < j < insert_stable(o, keys, k).len() ==>
            #[trigger] insert_stable(o, keys, k)[i] != #[trigger] insert_stable(o, keys, k)[j],
    decreases o.len(),
{
    let r = insert_stable(o, keys, k);
    if o.len() == 0 {
    } else if lex_lt(keys[k], keys[o.last()]) {
        let d = o.drop_last();
        let last = o.last();
        assert forall|i: int, j: int| 0 <= i < j < d.len() implies #[trigger] d[i] != #[trigger] d[j] by {
            assert(o[i] != o[j]);
        }
        assert forall|i: int| 0 <= i < d.len() implies 0 <= #[trigger] d[i] < k by {
            assert(o[i] == d[i]);
        }
        assert forall|i: int, j: int| 0 <= i < j < d.len() implies !lex_lt(#[trigger] keys[d[j]], #[trigger] keys[d[i]]) by {
            assert(o[i] == d[i] && o[j] == d[j]);
        }
        lemma_insert_stable_general(d, keys, k);
        let m = insert_stable(d, keys, k);
        assert forall|i: int, j: int| 0 <= i < j < r.len() implies !lex_lt(#[trigger] keys[r[j]], #[trigger] keys[r[i]]) by {
            if j < m.len() {
                assert(r[i] == m[i] && r[j] == m[j]);
            } else {
                assert(r[j] == last);
                assert(r[i] == m[i]);
                if m[i] == k {
                    lemma_lex_asymmetric(keys[k], keys[last]);
                } else {
                    let q = choose|q: int| 0 <= q < d.len() && d[q] == m[i];
                    assert(o[q] == d[q]);
                    assert(!lex_lt(keys[o[o.len() - 1]], keys[o[q]]));
                }
            }
        }
        assert forall|i: int| 0 <= i < r.len() implies #[trigger] r[i] == k || exists|q: int| 0 <= q < o.len() && o[q] == r[i] by {
            if i < m.len() {
                assert(r[i] == m[i]);
                if m[i] != k {
                    let q = choose|q: int| 0 <= q < d.len() && d[q] == m[i];
                    assert(o[q] == d[q]);
                }
            } else {
                assert(o[o.len() - 1] == r[i]);
            }
        }
        assert forall|i: int, j: int| 0 <= i < j < r.len() implies #[trigger] r[i] != #[trigger] r[j] by {
            if j < m.len() {
                assert(r[i] == m[i] && r[j] == m[j]);
            } else {
                assert(r[i] == m[i]);
                assert(r[j] == last);
                if m[i] != k {
                    let q = choose|q: int| 0 <= q < d.len() && d[q] == m[i];
                    assert(o[q] == d[q]);
                    assert(o[q] != o[o.len() - 1]);
                }
            }
        }
    } else {
        let last = o.last();
        assert forall|i: int, j: int| 0 <= i < j < r.len() implies !lex_lt(#[trigger] keys[r[j]], #[trigger] keys[r[i]]) by {
            if j < o.len() {
                assert(r[i] == o[i] && r[j] == o[j]);
            } else {
                assert(r[j] == k && r[i] == o[i]);
                if i < o.len() - 1 {
                    assert(!lex_lt(keys[o[o.len() - 1]], keys[o[i]]));
                    lemma_lex_total(keys[o[i]], keys[last]);
                    if lex_lt(keys[k], keys[o[i]]) {
                        if lex_lt(keys[o[i]], keys[last]) {
                            lemma_lex_transitive(keys[k], keys[o[i]], keys[last]);
                        }
                    }
                }
            }
        }
        assert forall|i: int| 0 <= i < r.len() implies #[trigger] r[i] == k || exists|q: int| 0 <= q < o.len() && o[q] == r[i] by {
            if i < o.len() {
                assert(r[i] == o[i]);
            }
        }
        assert forall|i: int, j: int| 0 <= i < j < r.len() implies #[trigger] r[i] != #[trigger] r[j] by {
            if j < o.len() {
                assert(r[i] == o[i] && r[j] == o[j]);
            } else {
                assert(r[i] == o[i]);
            }
        }
    }
}

/// A stable order lists each position once, and no key before one that is
/// smaller.
pub proof fn lemma_stable_order_shape(keys: Seq<Seq<char>>, n: nat)
    requires
        n <= keys.len(),
    ensures
        permutes(stable_order_upto(keys, n), n as int),
        ordered_by(stable_order_upto(keys, n), keys),
    decreases n,
{
    if n > 0 {
        lemma_stable_order_shape(keys, (n - 1) as nat);
        let o = stable_order_upto(keys, (n - 1) as nat);
        lemma_insert_stable_general(o, keys, n - 1);
        let r = stable_order_upto(keys, n);
        assert forall|i: int| 0 <= i < r.len() implies 0 <= #[trigger] r[i] < n by {
            if r[i] != n - 1 {
                let q = choose|q: int| 0 <= q < o.len() && o[q] == r[i];
            }
        }
    }
}

} // verus!
