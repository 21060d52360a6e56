//! Stable sorting by integer keys.

use vstd::prelude::*;

verus! {

/// Whether position `a` sorts strictly before position `b`: by key, and by position where the keys
/// are equal.
pub open spec fn comes_before(keys: Seq<int>, a: int, b: int) -> bool {
    keys[a] < keys[b] || (keys[a] == keys[b] && a < b)
}

/// Whether `p` lists the positions of `keys`, each of them once, in ascending order of their keys,
/// positions with equal keys in the order in which they stand.
pub open spec fn is_stable_order(keys: Seq<int>, p: Seq<int>) -> bool {
    &&& p.len() == keys.len()
    &&& forall|i: int| 0 <= i < p.len() ==> 0 <= #[trigger] p[i] < keys.len()
    &&& forall|i: int, j: int|
        0 <= i < j < p.len() ==> comes_before(keys, #[trigger] p[i], #[trigger] p[j])
    &&& forall|v: int| 0 <= v < keys.len() ==> #[trigger] p.contains(v)
}

/// The positions of `keys` in stable ascending order of their keys.
pub open spec fn stable_order(keys: Seq<int>) -> Seq<int> {
    choose|p: Seq<int>| is_stable_order(keys, p)
}

/// The items of `s` at the positions `p`, in the order of `p`.
pub open spec fn picked<A>(s: Seq<A>, p: Seq<int>) -> Seq<A> {
    Seq::new(p.len(), |i: int| s[p[i]])
}

/// Machine integers as mathematical ones.
pub open spec fn key_values(keys: Seq<i128>) -> Seq<int> {
    Seq::new(keys.len(), |i: int| keys[i] as int)
}

/// Machine positions as mathematical ones.
pub open spec fn positions(p: Seq<usize>) -> Seq<int> {
    Seq::new(p.len(), |i: int| p[i] as int)
}

/// A sequence of keys has at most one stable order.
pub proof fn stable_order_is_unique(keys: Seq<int>, p: Seq<int>, q: Seq<int>)
    requires
        is_stable_order(keys, p),
        is_stable_order(keys, q),
    ensures
        p == q,
{
    lemma_same_prefix(keys, p, q, keys.len() as int);
    assert(p =~= q);
}

proof fn lemma_same_prefix(keys: Seq<int>, p: Seq<int>, q: Seq<int>, n: int)
    requires
        is_stable_order(keys, p),
        is_stable_order(keys, q),
        0 <= n <= keys.len(),
    ensures
        forall|i: int| 0 <= i < n ==> #[trigger] p[i] == q[i],
    decreases n,
{
    if n > 0 {
        lemma_same_prefix(keys, p, q, n - 1);
        let i = n - 1;
        if p[i] != q[i] {
            if comes_before(keys, p[i], q[i]) {
                assert(q.contains(p[i]));
                let k = choose|k: int| 0 <= k < q.len() && q[k] == p[i];
                if k < i {
                    assert(p[k] == q[k]);
                } else {
                    assert(comes_before(keys, q[i], q[k]));
                }
            } else {
                assert(comes_before(keys, q[i], p[i]));
                assert(p.contains(q[i]));
                let k = choose|k: int| 0 <= k < p.len() && p[k] == q[i];
                if k < i {
                    assert(p[k] == q[k]);
                    assert(comes_before(keys, q[k], q[i]));
                } else {
                    assert(comes_before(keys, p[i], p[k]));
                }
            }
        }
    }
}

/// Putting the next position behind every position whose key is not larger keeps the order stable.
proof fn lemma_insert(keys: Seq<int>, p: Seq<int>, pos: int, m: int)
    requires
        0 <= m < keys.len(),
        is_stable_order(keys.take(m), p),
        0 <= pos <= p.len(),
        forall|i: int| 0 <= i < pos ==> keys[#[trigger] p[i]] <= keys[m],
        forall|i: int| pos <= i < p.len() ==> keys[#[trigger] p[i]] > keys[m],
    ensures
        is_stable_order(keys.take(m + 1), p.insert(pos, m)),
{
    let before = keys.take(m);
    let after = keys.take(m + 1);
    let q = p.insert(pos, m);
    assert forall|i: int| 0 <= i < q.len() implies 0 <= #[trigger] q[i] < after.len() by {
        if i < pos {
            assert(q[i] == p[i]);
        } else if i > pos {
            assert(q[i] == p[i - 1]);
        }
    }
    assert forall|i: int, j: int| 0 <= i < j < q.len() implies comes_before(
        after,
        #[trigger] q[i],
        #[trigger] q[j],
    ) by {
        let a = if i < pos { i } else { i - 1 };
        let b = if j < pos { j } else { j - 1 };
        if i != pos {
            assert(q[i] == p[a]);
            assert(0 <= p[a] < before.len());
        }
        if j != pos {
            assert(q[j] == p[b]);
            assert(0 <= p[b] < before.len());
        }
        if i != pos && j != pos {
            assert(comes_before(before, p[a], p[b]));
        }
    }
    assert forall|v: int| 0 <= v < after.len() implies #[trigger] q.contains(v) by {
        if v == m {
            assert(q[pos] == m);
        } else {
            assert(0 <= v < before.len());
            assert(p.contains(v));
            let k = choose|k: int| 0 <= k < p.len() && p[k] == v;
            if k < pos {
                assert(q[k] == v);
            } else {
                assert(q[k + 1] == v);
            }
        }
    }
}

/// Every sequence of keys has a stable order, and [`stable_order`] is it.
pub proof fn stable_order_exists(keys: Seq<int>)
    ensures
        is_stable_order(keys, stable_order(keys)),
{
    let p = lemma_build_order(keys, keys.len() as int);
    assert(keys.take(keys.len() as int) == keys);
    assert(is_stable_order(keys, p));
}

proof fn lemma_build_order(keys: Seq<int>, m: int) -> (p: Seq<int>)
    requires
        0 <= m <= keys.len(),
    ensures
        is_stable_order(keys.take(m), p),
    decreases m,
{
    if m == 0 {
        Seq::empty()
    } else {
        let p = lemma_build_order(keys, m - 1);
        let pos = lemma_split_point(keys, p, m - 1, p.len() as int);
        lemma_insert(keys, p, pos, m - 1);
        p.insert(pos, m - 1)
    }
}

/// Where the next position goes into a stable order.
proof fn lemma_split_point(keys: Seq<int>, p: Seq<int>, m: int, end: int) -> (pos: int)
    requires
        0 <= m < keys.len(),
        is_stable_order(keys.take(m), p),
        0 <= end <= p.len(),
        forall|i: int| end <= i < p.len() ==> keys[#[trigger] p[i]] > keys[m],
    ensures
        0 <= pos <= end,
        forall|i: int| 0 <= i < pos ==> keys[#[trigger] p[i]] <= keys[m],
        forall|i: int| pos <= i < p.len() ==> keys[#[trigger] p[i]] > keys[m],
    decreases end,
{
    if end > 0 && keys[p[end - 1]] > keys[m] {
        lemma_split_point(keys, p, m, end - 1)
    } else {
        assert forall|i: int| 0 <= i < end implies keys[#[trigger] p[i]] <= keys[m] by {
            let before = keys.take(m);
            if i < end - 1 {
                assert(comes_before(before, p[i], p[end - 1]));
            }
        }
        end
    }
}

/// Putting items into a stable order only rearranges them: each is there as often as before.
pub proof fn sorting_rearranges<A>(s: Seq<A>, keys: Seq<int>)
    requires
        s.len() == keys.len(),
    ensures
        picked(s, stable_order(keys)).to_multiset() == s.to_multiset(),
{
    stable_order_exists(keys);
    let p = stable_order(keys);
    assert forall|i: int, j: int| 0 <= i < p.len() && 0 <= j < p.len() && i != j implies p[i] != p[j] by {
        if i < j {
            assert(comes_before(keys, p[i], p[j]));
        } else {
            assert(comes_before(keys, p[j], p[i]));
        }
    }
    lemma_rearranged(s, p);
}

proof fn lemma_rearranged<A>(s: Seq<A>, p: Seq<int>)
    requires
        p.len() == s.len(),
        p.no_duplicates(),
        forall|i: int| 0 <= i < p.len() ==> 0 <= #[trigger] p[i] < s.len(),
        forall|v: int| 0 <= v < s.len() ==> #[trigger] p.contains(v),
    ensures
        picked(s, p).to_multiset() == s.to_multiset(),
    decreases s.len(),
{
    if s.len() == 0 {
        assert(picked(s, p) =~= s);
    } else {
        let m = s.len() - 1;
        assert(p.contains(m));
        let at = choose|at: int| 0 <= at < p.len() && p[at] == m;
        let rest = p.remove(at);
        let front = s.drop_last();
        assert forall|i: int| 0 <= i < rest.len() implies 0 <= #[trigger] rest[i] < front.len() by {
            let k = if i < at { i } else { i + 1 };
            assert(rest[i] == p[k]);
            assert(p[k] != p[at]);
        }
        assert forall|v: int| 0 <= v < front.len() implies #[trigger] rest.contains(v) by {
            assert(p.contains(v));
            let k = choose|k: int| 0 <= k < p.len() && p[k] == v;
            if k < at {
                assert(rest[k] == v);
            } else {
                assert(rest[k - 1] == v);
            }
        }
        assert forall|i: int, j: int| 0 <= i < rest.len() && 0 <= j < rest.len() && i != j implies rest[i]
            != rest[j] by {
            let k = if i < at { i } else { i + 1 };
            let l = if j < at { j } else { j + 1 };
            assert(rest[i] == p[k] && rest[j] == p[l]);
        }
        lemma_rearranged(front, rest);
        let all = picked(s, p);
        assert(all.remove(at) =~= picked(front, rest));
        all.to_multiset_ensures();
        front.to_multiset_ensures();
        assert(front.push(s.last()) =~= s);
        assert(all[at] == s.last());
        assert(all.contains(all[at]));
        assert(all.to_multiset() =~= all.to_multiset().remove(all[at]).insert(all[at]));
    }
}

/// The positions of `keys` in stable ascending order of their keys.
pub fn sort_positions(keys: &Vec<i128>) -> (r: Vec<usize>)
    ensures
        positions(r@) == stable_order(key_values(keys@)),
{
    let ghost all = key_values(keys@);
    let mut out: Vec<usize> = Vec::new();
    for m in 0..keys.len()
        invariant
            all == key_values(keys@),
            is_stable_order(all.take(m as int), positions(out@)),
    {
        let mut pos: usize = out.len();
        assert forall|i: int| 0 <= i < out@.len() implies (#[trigger] out@[i]) < keys.len() by {
            assert(0 <= positions(out@)[i] < all.take(m as int).len());
        }
        while pos > 0 && keys[out[pos - 1]] > keys[m]
            invariant
                m < keys.len(),
                all == key_values(keys@),
                is_stable_order(all.take(m as int), positions(out@)),
                pos <= out.len(),
                forall|i: int| 0 <= i < out@.len() ==> (#[trigger] out@[i]) < keys.len(),
                forall|i: int|
                    pos <= i < out@.len() ==> all[#[trigger] positions(out@)[i]] > all[m as int],
            decreases pos,
        {
            pos = pos - 1;
        }
        let ghost p = positions(out@);
        proof {
            assert forall|i: int| 0 <= i < pos implies all[#[trigger] p[i]] <= all[m as int] by {
                if i < pos - 1 {
                    assert(comes_before(all.take(m as int), p[i], p[pos - 1]));
                }
            }
            lemma_insert(all, p, pos as int, m as int);
        }
        out.insert(pos, m);
        assert(positions(out@) =~= p.insert(pos as int, m as int));
    }
    proof {
        assert(all.take(keys@.len() as int) == all);
        stable_order_exists(all);
        stable_order_is_unique(all, positions(out@), stable_order(all));
    }
    out
}

} // verus!
