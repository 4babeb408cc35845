//! Sorting, nearest-of-many and rounding, the arithmetic the other modules share.

use vstd::prelude::*;
use vstd::relations::{sorted_by, total_ordering};
use vstd::seq_lib::lemma_sorted_unique;

verus! {

/// `a / b` to the nearest integer, halves away from zero.
pub open spec fn round_div(a: int, b: int) -> int {
    if a >= 0 {
        (2 * a + b) / (2 * b)
    } else {
        -((2 * -a + b) / (2 * b))
    }
}

/// The distance between two numbers.
pub open spec fn gap(a: int, b: int) -> int {
    if a >= b {
        a - b
    } else {
        b - a
    }
}

/// `s` in ascending order.
pub open spec fn ascending(s: Seq<i64>) -> Seq<i64> {
    s.sort_by(|a: i64, b: i64| a <= b)
}

proof fn lemma_leq_is_total()
    ensures
        total_ordering(|a: i64, b: i64| a <= b),
{
}

/// A sorted rearrangement of `s` is `ascending(s)`.
pub proof fn lemma_ascending_unique(s: Seq<i64>, r: Seq<i64>)
    requires
        r.to_multiset() == s.to_multiset(),
        forall|i: int, j: int| 0 <= i < j < r.len() ==> r[i] <= r[j],
    ensures
        r == ascending(s),
{
    let leq = |a: i64, b: i64| a <= b;
    lemma_leq_is_total();
    s.lemma_sort_by_ensures(leq);
    assert(sorted_by(r, leq));
    lemma_sorted_unique(r, s.sort_by(leq), leq);
}

/// What `ascending` gives: the same items, none before a smaller one.
pub proof fn lemma_ascending(s: Seq<i64>)
    ensures
        ascending(s).to_multiset() == s.to_multiset(),
        ascending(s).len() == s.len(),
        forall|i: int, j: int| 0 <= i < j < s.len() ==> ascending(s)[i] <= ascending(s)[j],
        forall|x: i64| ascending(s).contains(x) <==> s.contains(x),
{
    let leq = |a: i64, b: i64| a <= b;
    lemma_leq_is_total();
    s.lemma_sort_by_ensures(leq);
    s.to_multiset_ensures();
    ascending(s).to_multiset_ensures();
    assert forall|x: i64| ascending(s).contains(x) <==> s.contains(x) by {
        assert(s.to_multiset().count(x) == ascending(s).to_multiset().count(x));
    }
    assert forall|i: int, j: int| 0 <= i < j < s.len() implies ascending(s)[i] <= ascending(
        s,
    )[j] by {
        assert(leq(s.sort_by(leq)[i], s.sort_by(leq)[j]));
    }
}

/// Inserting an item adds it to the multiset.
pub proof fn lemma_insert_multiset<A>(s: Seq<A>, pos: int, x: A)
    requires
        0 <= pos <= s.len(),
    ensures
        s.insert(pos, x).to_multiset() == s.to_multiset().insert(x),
{
    let t = s.insert(pos, x);
    t.to_multiset_ensures();
    assert(t.remove(pos) =~= s);
    assert(t.contains(x)) by {
        assert(t[pos] == x);
    }
    assert(t.to_multiset().remove(x).insert(x) =~= t.to_multiset());
}

/// Sort into ascending order.
pub fn sort_ascending(v: &Vec<i64>) -> (r: Vec<i64>)
    ensures
        r@ == ascending(v@),
{
    let mut out: Vec<i64> = Vec::new();
    let mut i: usize = 0;
    proof {
        assert(v@.take(0) =~= Seq::<i64>::empty());
    }
    while i < v.len()
        invariant
            i <= v.len(),
            out@.to_multiset() == v@.take(i as int).to_multiset(),
            forall|a: int, b: int| 0 <= a < b < out@.len() ==> out@[a] <= out@[b],
        decreases v.len() - i,
    {
        let x: i64 = v[i];
        let mut pos: usize = out.len();
        while pos > 0 && out[pos - 1] > x
            invariant
                pos <= out.len(),
                forall|b: int| pos <= b < out@.len() ==> x < out@[b],
            decreases pos,
        {
            pos = pos - 1;
        }
        let ghost prev = out@;
        out.insert(pos, x);
        proof {
            lemma_insert_multiset(prev, pos as int, x);
            assert(v@.take(i + 1) =~= v@.take(i as int).push(x));
            v@.take(i as int).to_multiset_ensures();
            assert forall|a: int, b: int| 0 <= a < b < out@.len() implies out@[a] <= out@[b] by {
                let pa = if a < pos { a } else { a - 1 };
                let pb = if b < pos { b } else { b - 1 };
                if a == pos {
                    assert(out@[b] == prev[pb]);
                } else if b == pos {
                    assert(out@[a] == prev[a]);
                    if pos > 0 {
                        assert(prev[a] <= prev[pos - 1]);
                    }
                } else {
                    assert(out@[a] == prev[pa] && out@[b] == prev[pb]);
                }
            }
        }
        i = i + 1;
    }
    proof {
        assert(v@.take(v@.len() as int) =~= v@);
        lemma_ascending_unique(v@, out@);
    }
    out
}

/// Index of the first smallest entry of a non-empty sequence.
pub open spec fn first_min(d: Seq<int>) -> int
    decreases d.len(),
{
    if d.len() <= 1 {
        0
    } else {
        let k = first_min(d.drop_last());
        if d.last() < d[k] {
            d.len() - 1
        } else {
            k
        }
    }
}

/// Whether `k` is the first of the smallest entries.
pub open spec fn is_first_min(d: Seq<int>, k: int) -> bool {
    &&& 0 <= k < d.len()
    &&& forall|j: int| 0 <= j < d.len() ==> d[k] <= #[trigger] d[j]
    &&& forall|j: int| 0 <= j < k ==> d[k] < #[trigger] d[j]
}

/// `first_min` is the first of the smallest entries, and nothing else is.
pub proof fn lemma_first_min(d: Seq<int>)
    requires
        d.len() > 0,
    ensures
        is_first_min(d, first_min(d)),
        forall|k: int| is_first_min(d, k) ==> k == first_min(d),
    decreases d.len(),
{
    if d.len() > 1 {
        lemma_first_min(d.drop_last());
        let k = first_min(d.drop_last());
        assert forall|j: int| 0 <= j < d.len() implies d[first_min(d)] <= #[trigger] d[j] by {
            if j < d.len() - 1 {
                assert(d.drop_last()[j] == d[j]);
            }
        }
        assert forall|j: int| 0 <= j < first_min(d) implies d[first_min(d)] < #[trigger] d[j] by {
            assert(d.drop_last()[j] == d[j]);
        }
    }
    let m = first_min(d);
    assert forall|k: int| is_first_min(d, k) implies k == first_min(d) by {
        if k < m {
            assert(d[m] < d[k]);
        } else if m < k {
            assert(d[k] < d[m]);
        }
    }
}

/// Keys never run backwards.
pub open spec fn keys_ascend<A>(s: Seq<A>, key: spec_fn(A) -> int) -> bool {
    forall|i: int, j: int| 0 <= i < j < s.len() ==> key(s[i]) <= key(s[j])
}

/// Items of equal key stand in the same order in both sequences.
pub open spec fn same_per_key<A>(s: Seq<A>, t: Seq<A>, key: spec_fn(A) -> int) -> bool {
    forall|k: int| #[trigger] with_key(s, key, k) == with_key(t, key, k)
}

/// The items of one key, in order.
pub open spec fn with_key<A>(s: Seq<A>, key: spec_fn(A) -> int, k: int) -> Seq<A> {
    s.filter(|x: A| key(x) == k)
}

/// `t` is `s` sorted by `key`, items of equal key keeping their order.
pub open spec fn stably_sorted<A>(s: Seq<A>, t: Seq<A>, key: spec_fn(A) -> int) -> bool {
    keys_ascend(t, key) && same_per_key(s, t, key)
}

/// One step of a stable insertion: put `x` behind everything not above it.
pub proof fn lemma_stable_insert<A>(s: Seq<A>, t: Seq<A>, pos: int, x: A, key: spec_fn(A) -> int)
    requires
        stably_sorted(s, t, key),
        0 <= pos <= t.len(),
        forall|i: int| 0 <= i < pos ==> key(#[trigger] t[i]) <= key(x),
        forall|i: int| pos <= i < t.len() ==> key(x) < key(#[trigger] t[i]),
    ensures
        stably_sorted(s.push(x), t.insert(pos, x), key),
{
    let u = t.insert(pos, x);
    assert forall|i: int, j: int| 0 <= i < j < u.len() implies key(u[i]) <= key(u[j]) by {
        let pi = if i < pos { i } else { i - 1 };
        let pj = if j < pos { j } else { j - 1 };
        if i == pos {
            assert(u[j] == t[pj]);
        } else if j == pos {
            assert(u[i] == t[i]);
        } else {
            assert(u[i] == t[pi] && u[j] == t[pj]);
        }
    }
    assert forall|k: int| #[trigger] with_key(s.push(x), key, k) == with_key(u, key, k) by {
        let p = |y: A| key(y) == k;
        let front = t.take(pos);
        let back = t.skip(pos);
        assert(t =~= front + back);
        assert(u =~= front + (seq![x] + back));
        assert(with_key(s, key, k) == with_key(t, key, k));
        Seq::filter_distributes_over_add(front, back, p);
        Seq::filter_distributes_over_add(front, seq![x] + back, p);
        Seq::filter_distributes_over_add(seq![x], back, p);
        assert(s.push(x) =~= s + seq![x]);
        Seq::filter_distributes_over_add(s, seq![x], p);
        lemma_filter_single(x, p);
        if p(x) {
            lemma_filter_none(back, p);
        }
        assert(with_key(s.push(x), key, k) =~= with_key(u, key, k));
    }
}

/// Filtering one item keeps it or not.
proof fn lemma_filter_single<A>(x: A, p: spec_fn(A) -> bool)
    ensures
        seq![x].filter(p) == (if p(x) {
            seq![x]
        } else {
            Seq::empty()
        }),
{
    reveal_with_fuel(Seq::filter, 2);
    assert(seq![x].drop_last() =~= Seq::<A>::empty());
    assert(seq![x].last() == x);
    assert(seq![x].filter(p) =~= if p(x) {
        seq![x]
    } else {
        Seq::empty()
    });
}

/// Filtering out everything leaves nothing.
proof fn lemma_filter_none<A>(s: Seq<A>, p: spec_fn(A) -> bool)
    requires
        forall|i: int| 0 <= i < s.len() ==> !p(#[trigger] s[i]),
    ensures
        s.filter(p) =~= Seq::<A>::empty(),
    decreases s.len(),
{
    reveal(Seq::filter);
    if s.len() > 0 {
        lemma_filter_none(s.drop_last(), p);
    }
}

} // verus!
