//! Scored nodes and their order: nearest first, ties by node id.
use vstd::prelude::*;

use crate::float_bits::{f32_lt, f32_total_key, total_key32};

verus! {

/// A node with its distance (a binary32 pattern).
#[derive(Clone, Copy, Debug, PartialEq, Eq, Structural)]
pub struct Scored {
    pub dist: u32,
    pub node: u32,
}

/// `a` comes strictly before `b`: smaller distance, or the same distance and a
/// smaller node.
pub open spec fn before(a: Scored, b: Scored) -> bool {
    f32_total_key(a.dist) < f32_total_key(b.dist) || (f32_total_key(a.dist) == f32_total_key(b.dist)
        && a.node < b.node)
}

/// No element comes before one that stands earlier.
pub open spec fn sorted(s: Seq<Scored>) -> bool {
    forall|i: int, j: int| 0 <= i < j < s.len() ==> !before(#[trigger] s[j], #[trigger] s[i])
}

/// `s` with `x` put behind everything that `x` does not come before.
pub open spec fn insert_sorted(s: Seq<Scored>, x: Scored) -> Seq<Scored>
    decreases s.len(),
{
    if s.len() == 0 || !before(x, s.last()) {
        s.push(x)
    } else {
        insert_sorted(s.drop_last(), x).push(s.last())
    }
}

/// The elements of `s` in ascending order.
pub open spec fn sort_scored(s: Seq<Scored>) -> Seq<Scored>
    decreases s.len(),
{
    if s.len() == 0 {
        Seq::empty()
    } else {
        insert_sorted(sort_scored(s.drop_last()), s.last())
    }
}

/// Whether `a` comes strictly before `b`.
pub fn is_before(a: Scored, b: Scored) -> (r: bool)
    ensures
        r == before(a, b),
{
    let ka: i64 = total_key32(a.dist);
    let kb: i64 = total_key32(b.dist);
    ka < kb || (ka == kb && a.node < b.node)
}

/// Inserting at the one place where the order holds.
pub proof fn lemma_insert_at(s: Seq<Scored>, x: Scored, p: int)
    requires
        0 <= p <= s.len(),
        forall|j: int| p <= j < s.len() ==> before(x, #[trigger] s[j]),
        p > 0 ==> !before(x, s[p - 1]),
    ensures
        insert_sorted(s, x) == s.insert(p, x),
    decreases s.len(),
{
    if p == s.len() {
        assert(s.insert(p, x) =~= s.push(x));
    } else {
        assert(before(x, s.last()));
        lemma_insert_at(s.drop_last(), x, p);
        assert(s.insert(p, x) =~= s.drop_last().insert(p, x).push(s.last()));
    }
}

/// Insertion keeps the order, and puts in `x` and nothing else.
pub proof fn lemma_insert_sorted(s: Seq<Scored>, x: Scored)
    requires
        sorted(s),
    ensures
        sorted(insert_sorted(s, x)),
        insert_sorted(s, x).len() == s.len() + 1,
        insert_sorted(s, x).to_multiset() == s.to_multiset().insert(x),
        forall|y: Scored| #[trigger]
            insert_sorted(s, x).contains(y) <==> (y == x || s.contains(y)),
        exists|p: int|
            0 <= p <= s.len() && insert_sorted(s, x) == #[trigger] s.insert(p, x),
    decreases s.len(),
{
    let p = insertion_point(s, x);
    lemma_insertion_point(s, x);
    lemma_insert_at(s, x, p);
    let t = s.insert(p, x);
    assert(sorted(t)) by {
        assert forall|i: int, j: int| 0 <= i < j < t.len() implies !before(
            #[trigger] t[j],
            #[trigger] t[i],
        ) by {
            if i < p && j == p {
                assert(!before(x, s[p - 1]));
                assert(i == p - 1 || !before(s[p - 1], s[i]));
            } else if i == p {
                assert(before(x, s[j - 1]));
            } else {
                let a = if i < p { i } else { i - 1 };
                let b = if j < p { j } else { j - 1 };
                assert(t[i] == s[a] && t[j] == s[b]);
            }
        }
    }
    s.insert_ensures(p, x);
    assert(t.to_multiset() == s.to_multiset().insert(x)) by {
        vstd::seq_lib::to_multiset_insert(s, p, x);
    }
    assert forall|y: Scored| #[trigger] t.contains(y) <==> (y == x || s.contains(y)) by {
        if s.contains(y) {
            let i = choose|i: int| 0 <= i < s.len() && s[i] == y;
            let k = if i < p { i } else { i + 1 };
            assert(t[k] == y);
        }
        if y == x {
            assert(t[p] == y);
        }
        if t.contains(y) {
            let k = choose|k: int| 0 <= k < t.len() && t[k] == y;
            if k < p {
                assert(s[k] == y);
            } else if k > p {
                assert(s[k - 1] == y);
            }
        }
    }
}

/// The first place whose element `x` comes before.
pub open spec fn insertion_point(s: Seq<Scored>, x: Scored) -> int
    decreases s.len(),
{
    if s.len() == 0 || !before(x, s.last()) {
        s.len() as int
    } else {
        insertion_point(s.drop_last(), x)
    }
}

proof fn lemma_insertion_point(s: Seq<Scored>, x: Scored)
    ensures
        ({
            let p = insertion_point(s, x);
            &&& 0 <= p <= s.len()
            &&& forall|j: int| p <= j < s.len() ==> before(x, #[trigger] s[j])
            &&& p > 0 ==> !before(x, s[p - 1])
        }),
    decreases s.len(),
{
    if s.len() > 0 && before(x, s.last()) {
        lemma_insertion_point(s.drop_last(), x);
        let p = insertion_point(s, x);
        assert forall|j: int| p <= j < s.len() implies before(x, #[trigger] s[j]) by {
            if j < s.len() - 1 {
                assert(s.drop_last()[j] == s[j]);
            }
        }
    }
}

/// Sorting puts the same elements in ascending order.
pub proof fn law_sort_is_sorted_permutation(s: Seq<Scored>)
    ensures
        sorted(sort_scored(s)),
        sort_scored(s).to_multiset() == s.to_multiset(),
        sort_scored(s).len() == s.len(),
        forall|y: Scored| #[trigger] sort_scored(s).contains(y) <==> s.contains(y),
    decreases s.len(),
{
    if s.len() > 0 {
        let d = s.drop_last();
        law_sort_is_sorted_permutation(d);
        lemma_insert_sorted(sort_scored(d), s.last());
        s.to_multiset_ensures();
        d.to_multiset_ensures();
        assert(d.push(s.last()) =~= s);
        assert forall|y: Scored| #[trigger] sort_scored(s).contains(y) <==> s.contains(y) by {
            if s.contains(y) {
                let i = choose|i: int| 0 <= i < s.len() && s[i] == y;
                if i < s.len() - 1 {
                    assert(d[i] == y);
                }
            }
            if d.contains(y) {
                let i = choose|i: int| 0 <= i < d.len() && d[i] == y;
                assert(s[i] == y);
            }
            assert(s[s.len() - 1] == s.last());
        }
    } else {
        assert(s =~= Seq::empty());
    }
}

/// Insert `x` into an ascending list.
pub fn push_sorted(v: &mut Vec<Scored>, x: Scored)
    requires
        sorted(old(v)@),
    ensures
        final(v)@ == insert_sorted(old(v)@, x),
        sorted(final(v)@),
{
    let mut lo: usize = 0;
    let mut hi: usize = v.len();
    let ghost s = v@;
    while lo < hi
        invariant
            lo <= hi <= v.len(),
            v@ == s,
            sorted(s),
            forall|j: int| 0 <= j < lo ==> !before(x, #[trigger] s[j]),
            forall|j: int| hi <= j < s.len() ==> before(x, #[trigger] s[j]),
        decreases hi - lo,
    {
        let mid: usize = lo + (hi - lo) / 2;
        if is_before(x, v[mid]) {
            proof {
                assert forall|j: int| mid <= j < s.len() implies before(x, #[trigger] s[j]) by {
                    if mid < j {
                        assert(!before(s[j], s[mid as int]));
                    }
                }
            }
            hi = mid;
        } else {
            proof {
                assert forall|j: int| 0 <= j < mid + 1 implies !before(x, #[trigger] s[j]) by {
                    if j < mid {
                        assert(!before(s[mid as int], s[j]));
                    }
                }
            }
            lo = mid + 1;
        }
    }
    proof {
        lemma_insert_at(s, x, lo as int);
        lemma_insert_sorted(s, x);
    }
    v.insert(lo, x);
}

/// Sort by distance, then node.
pub fn sort(v: &Vec<Scored>) -> (r: Vec<Scored>)
    ensures
        r@ == sort_scored(v@),
        sorted(r@),
{
    let mut out: Vec<Scored> = Vec::new();
    let mut i: usize = 0;
    proof {
        assert(v@.subrange(0, 0) =~= Seq::<Scored>::empty());
    }
    while i < v.len()
        invariant
            i <= v.len(),
            sorted(out@),
            out@ == sort_scored(v@.subrange(0, i as int)),
        decreases v.len() - i,
    {
        push_sorted(&mut out, v[i]);
        i = i + 1;
        proof {
            let t = v@.subrange(0, i as int);
            assert(t.drop_last() =~= v@.subrange(0, i - 1));
            assert(t.last() == v@[i - 1]);
        }
    }
    proof {
        assert(v@.subrange(0, i as int) =~= v@);
    }
    out
}

/// The nearer comes first, and of two as near the one with the smaller id; so
/// of any two different ones exactly one comes first.
pub proof fn law_nearer_comes_first(a: Scored, b: Scored)
    ensures
        f32_lt(a.dist, b.dist) ==> before(a, b),
        a.dist == b.dist && a.node < b.node ==> before(a, b),
        a != b ==> before(a, b) != before(b, a),
        !before(a, a),
{
    crate::float_bits::law_total_order_is_injective(a.dist, b.dist);
}

} // verus!
