//! Physical order of centroids: split at the median of the widest coordinate,
//! then order both halves the same way, so that near centroids stand together.
use vstd::prelude::*;

use crate::float_bits::{f32_key, f32_lt, f32_nan, less32, F32_INFINITY};
use crate::scored::Scored;
use crate::span::{f32_rise, f32_value, rise32, F32_NEG_INFINITY};
use crate::subsection::is_order;

verus! {

/// Coordinate `d` of centroid `c`.
pub open spec fn coordinate(centroids: Seq<u32>, dim: int, c: int, d: int) -> u32 {
    centroids[c * dim + d]
}

/// Least coordinate `d` of the first `n` members.
pub open spec fn low(centroids: Seq<u32>, dim: int, members: Seq<u32>, d: int, n: nat) -> u32
    decreases n,
{
    if n == 0 {
        F32_INFINITY
    } else {
        let rest = low(centroids, dim, members, d, (n - 1) as nat);
        let v = coordinate(centroids, dim, members[n - 1] as int, d);
        if f32_lt(v, rest) {
            v
        } else {
            rest
        }
    }
}

/// Greatest coordinate `d` of the first `n` members.
pub open spec fn high(centroids: Seq<u32>, dim: int, members: Seq<u32>, d: int, n: nat) -> u32
    decreases n,
{
    if n == 0 {
        F32_NEG_INFINITY
    } else {
        let rest = high(centroids, dim, members, d, (n - 1) as nat);
        let v = coordinate(centroids, dim, members[n - 1] as int, d);
        if f32_lt(rest, v) {
            v
        } else {
            rest
        }
    }
}

/// Width of the members in coordinate `d`.
pub open spec fn width(centroids: Seq<u32>, dim: int, members: Seq<u32>, d: int) -> u32 {
    f32_rise(
        high(centroids, dim, members, d, members.len()),
        low(centroids, dim, members, d, members.len()),
    )
}

/// The first of the first `n` coordinates that no other exceeds in width, and
/// its width.
pub open spec fn widest(centroids: Seq<u32>, dim: int, members: Seq<u32>, n: nat) -> (int, u32)
    decreases n,
{
    if n == 0 {
        (0, 0)
    } else {
        let best = widest(centroids, dim, members, (n - 1) as nat);
        let w = width(centroids, dim, members, n - 1);
        if w > best.1 {
            (n - 1, w)
        } else {
            best
        }
    }
}

/// The members with their coordinate `d`.
pub open spec fn marked(centroids: Seq<u32>, dim: int, members: Seq<u32>, d: int) -> Seq<Scored> {
    Seq::new(
        members.len(),
        |i: int|
            Scored { dist: coordinate(centroids, dim, members[i] as int, d), node: members[i] },
    )
}

/// `a` stands ahead of `b`: its coordinate is less, or neither is less and its
/// id is. A coordinate that is not a number is neither less nor greater than
/// any.
pub open spec fn ahead(a: Scored, b: Scored) -> bool {
    f32_lt(a.dist, b.dist) || (!f32_lt(b.dist, a.dist) && a.node < b.node)
}

/// `s` with `x` moved forward from the end past everything it is ahead of.
pub open spec fn moved_in(s: Seq<Scored>, x: Scored) -> Seq<Scored>
    decreases s.len(),
{
    if s.len() == 0 || !ahead(x, s.last()) {
        s.push(x)
    } else {
        moved_in(s.drop_last(), x).push(s.last())
    }
}

/// The elements of `s`, each moved in behind those it is not ahead of.
pub open spec fn ranked(s: Seq<Scored>) -> Seq<Scored>
    decreases s.len(),
{
    if s.len() == 0 {
        Seq::empty()
    } else {
        moved_in(ranked(s.drop_last()), s.last())
    }
}

/// The nodes of a scored list.
pub open spec fn ids(s: Seq<Scored>) -> Seq<u32> {
    Seq::new(s.len(), |i: int| s[i].node)
}

/// The members by their widest coordinate, then by id.
pub open spec fn by_widest(centroids: Seq<u32>, dim: int, members: Seq<u32>) -> Seq<u32> {
    ids(ranked(marked(centroids, dim, members, widest(centroids, dim, members, dim as nat).0)))
}

/// The members in physical order.
pub open spec fn arranged(centroids: Seq<u32>, dim: int, members: Seq<u32>) -> Seq<u32>
    decreases members.len(),
{
    if members.len() <= 1 || dim == 0 {
        members
    } else {
        proof {
            lemma_by_widest(centroids, dim, members);
        }
        let s = by_widest(centroids, dim, members);
        let mid = (members.len() / 2) as int;
        arranged(centroids, dim, s.subrange(0, mid)) + arranged(
            centroids,
            dim,
            s.subrange(mid, s.len() as int),
        )
    }
}

/// The centroids `0..n`.
pub open spec fn all_ids(n: nat) -> Seq<u32> {
    Seq::new(n, |i: int| i as u32)
}

/// Moving `x` in puts it at one place and leaves the rest as it is.
proof fn lemma_moved_in_at(s: Seq<Scored>, x: Scored, p: int)
    requires
        0 <= p <= s.len(),
        forall|j: int| p <= j < s.len() ==> ahead(x, #[trigger] s[j]),
        p > 0 ==> !ahead(x, s[p - 1]),
    ensures
        moved_in(s, x) == s.insert(p, x),
    decreases s.len(),
{
    if p == s.len() {
        assert(s.insert(p, x) =~= s.push(x));
    } else {
        assert(ahead(x, s.last()));
        lemma_moved_in_at(s.drop_last(), x, p);
        assert(s.insert(p, x) =~= s.drop_last().insert(p, x).push(s.last()));
    }
}

proof fn lemma_moved_in(s: Seq<Scored>, x: Scored) -> (p: int)
    ensures
        0 <= p <= s.len(),
        moved_in(s, x) == s.insert(p, x),
        forall|j: int| p <= j < s.len() ==> ahead(x, #[trigger] s[j]),
        p > 0 ==> !ahead(x, s[p - 1]),
        moved_in(s, x).to_multiset() == s.to_multiset().insert(x),
    decreases s.len(),
{
    let p = if s.len() == 0 || !ahead(x, s.last()) {
        s.len() as int
    } else {
        let q = lemma_moved_in(s.drop_last(), x);
        assert forall|j: int| q <= j < s.len() implies ahead(x, #[trigger] s[j]) by {
            if j < s.len() - 1 {
                assert(s.drop_last()[j] == s[j]);
            }
        }
        q
    };
    lemma_moved_in_at(s, x, p);
    s.insert_ensures(p, x);
    vstd::seq_lib::to_multiset_insert(s, p, x);
    p
}

proof fn lemma_ranked(s: Seq<Scored>)
    ensures
        ranked(s).len() == s.len(),
        ranked(s).to_multiset() == s.to_multiset(),
        forall|y: Scored| #[trigger] ranked(s).contains(y) <==> s.contains(y),
    decreases s.len(),
{
    s.to_multiset_ensures();
    if s.len() > 0 {
        let d = s.drop_last();
        lemma_ranked(d);
        let p = lemma_moved_in(ranked(d), s.last());
        d.to_multiset_ensures();
        assert(d.push(s.last()) =~= s);
    } else {
        assert(s =~= Seq::empty());
    }
    let r = ranked(s);
    r.to_multiset_ensures();
    assert forall|y: Scored| #[trigger] r.contains(y) <==> s.contains(y) by {
        assert(r.contains(y) <==> r.to_multiset().count(y) > 0);
        assert(s.contains(y) <==> s.to_multiset().count(y) > 0);
    }
}

/// Standing ahead is transitive among the elements of `s`.
pub open spec fn consistent(s: Seq<Scored>) -> bool {
    forall|a: Scored, b: Scored, c: Scored|
        #![trigger ahead(a, b), ahead(b, c)]
        s.contains(a) && s.contains(b) && s.contains(c) && ahead(a, b) && ahead(b, c) ==> ahead(
            a,
            c,
        )
}

/// Coordinates that are all numbers compare consistently.
pub proof fn law_numbers_are_consistent(s: Seq<Scored>)
    requires
        forall|i: int| 0 <= i < s.len() ==> !f32_nan((#[trigger] s[i]).dist),
    ensures
        consistent(s),
{
    assert forall|a: Scored, b: Scored, c: Scored|
        #![trigger ahead(a, b), ahead(b, c)]
        s.contains(a) && s.contains(b) && s.contains(c) && ahead(a, b) && ahead(b, c) implies ahead(
        a,
        c,
    ) by {
        let i = choose|i: int| 0 <= i < s.len() && s[i] == a;
        let j = choose|j: int| 0 <= j < s.len() && s[j] == b;
        let k = choose|k: int| 0 <= k < s.len() && s[k] == c;
        assert(!f32_nan(s[i].dist) && !f32_nan(s[j].dist) && !f32_nan(s[k].dist));
    }
}

/// So do any two elements, numbers or not.
pub proof fn law_pairs_are_consistent(s: Seq<Scored>)
    requires
        s.len() <= 2,
    ensures
        consistent(s),
{
    assert forall|a: Scored, b: Scored, c: Scored|
        #![trigger ahead(a, b), ahead(b, c)]
        s.contains(a) && s.contains(b) && s.contains(c) && ahead(a, b) && ahead(b, c) implies ahead(
        a,
        c,
    ) by {
        let i = choose|i: int| 0 <= i < s.len() && s[i] == a;
        let j = choose|j: int| 0 <= j < s.len() && s[j] == b;
        let k = choose|k: int| 0 <= k < s.len() && s[k] == c;
        assert(i == j || j == k || i == k);
    }
}

proof fn lemma_ranked_ascends(s: Seq<Scored>)
    requires
        consistent(s),
        forall|i: int, j: int|
            0 <= i < j < s.len() ==> (#[trigger] s[i]).node != (#[trigger] s[j]).node,
    ensures
        forall|i: int, j: int|
            0 <= i < j < s.len() ==> ahead(#[trigger] ranked(s)[i], #[trigger] ranked(s)[j]),
    decreases s.len(),
{
    if s.len() > 0 {
        let d = s.drop_last();
        let x = s.last();
        assert forall|y: Scored| #[trigger] d.contains(y) implies s.contains(y) && y.node
            != x.node by {
            let i = choose|i: int| 0 <= i < d.len() && d[i] == y;
            assert(s[i] == y);
            assert(s[i].node != s[s.len() - 1].node);
        }
        assert forall|i: int, j: int| 0 <= i < j < d.len() implies (#[trigger] d[i]).node != (
        #[trigger] d[j]).node by {
            assert(s[i].node != s[j].node);
        }
        lemma_ranked_ascends(d);
        lemma_ranked(d);
        let r = ranked(d);
        let p = lemma_moved_in(r, x);
        let t = ranked(s);
        assert(s[s.len() - 1] == x);
        assert(s.contains(x));
        assert forall|i: int| 0 <= i < p implies ahead(#[trigger] r[i], x) by {
            assert(r.contains(r[i]) && r.contains(r[p - 1]));
            assert(d.contains(r[i]) && d.contains(r[p - 1]));
            assert(ahead(r[p - 1], x));
            if i < p - 1 {
                assert(ahead(r[i], r[p - 1]));
            }
        }
        assert forall|i: int, j: int| 0 <= i < j < s.len() implies ahead(
            #[trigger] t[i],
            #[trigger] t[j],
        ) by {
            if i == p {
                assert(t[j] == r[j - 1]);
            } else if j == p {
                assert(t[i] == r[i]);
            } else {
                let a = if i < p { i } else { i - 1 };
                let b = if j < p { j } else { j - 1 };
                assert(t[i] == r[a] && t[j] == r[b]);
            }
        }
    }
}

pub proof fn lemma_by_widest(centroids: Seq<u32>, dim: int, members: Seq<u32>)
    ensures
        by_widest(centroids, dim, members).len() == members.len(),
        forall|x: u32|
            #[trigger] by_widest(centroids, dim, members).contains(x) <==> members.contains(x),
        members.no_duplicates() ==> by_widest(centroids, dim, members).no_duplicates(),
{
    let d = widest(centroids, dim, members, dim as nat).0;
    let m = marked(centroids, dim, members, d);
    let s = ranked(m);
    lemma_ranked(m);
    let r = by_widest(centroids, dim, members);
    assert forall|x: u32| #[trigger] r.contains(x) <==> members.contains(x) by {
        if r.contains(x) {
            let i = choose|i: int| 0 <= i < r.len() && r[i] == x;
            assert(s.contains(s[i]));
            assert(m.contains(s[i]));
            let j = choose|j: int| 0 <= j < m.len() && m[j] == s[i];
            assert(members[j] == x);
        }
        if members.contains(x) {
            let j = choose|j: int| 0 <= j < members.len() && members[j] == x;
            assert(m.contains(m[j]));
            assert(s.contains(m[j]));
            let i = choose|i: int| 0 <= i < s.len() && s[i] == m[j];
            assert(r[i] == x);
        }
    }
    if members.no_duplicates() {
        assert(m.no_duplicates()) by {
            assert forall|i: int, j: int| 0 <= i < m.len() && 0 <= j < m.len() && i != j implies
                m[i] != m[j] by {
                assert(members[i] != members[j]);
            }
        }
        m.lemma_multiset_has_no_duplicates();
        s.lemma_multiset_has_no_duplicates_conv();
        assert(s.no_duplicates());
        assert forall|i: int, j: int| 0 <= i < r.len() && 0 <= j < r.len() && i != j implies r[i]
            != r[j] by {
            assert(s.contains(s[i]) && s.contains(s[j]));
            assert(m.contains(s[i]) && m.contains(s[j]));
            let a = choose|a: int| 0 <= a < m.len() && m[a] == s[i];
            let b = choose|b: int| 0 <= b < m.len() && m[b] == s[j];
            assert(s[i] != s[j]);
            assert(a != b);
            assert(members[a] != members[b]);
        }
    }
}

/// The physical order holds the members it is given, each once.
pub proof fn law_arranged_is_permutation(centroids: Seq<u32>, dim: int, members: Seq<u32>)
    requires
        members.no_duplicates(),
    ensures
        arranged(centroids, dim, members).len() == members.len(),
        arranged(centroids, dim, members).no_duplicates(),
        forall|x: u32|
            #[trigger] arranged(centroids, dim, members).contains(x) <==> members.contains(x),
    decreases members.len(),
{
    if members.len() > 1 && dim != 0 {
        lemma_by_widest(centroids, dim, members);
        let s = by_widest(centroids, dim, members);
        let mid = (members.len() / 2) as int;
        let l = s.subrange(0, mid);
        let r = s.subrange(mid, s.len() as int);
        assert(l.no_duplicates()) by {
            assert forall|i: int, j: int| 0 <= i < l.len() && 0 <= j < l.len() && i != j implies
                l[i] != l[j] by {
                assert(s[i] != s[j]);
            }
        }
        assert(r.no_duplicates()) by {
            assert forall|i: int, j: int| 0 <= i < r.len() && 0 <= j < r.len() && i != j implies
                r[i] != r[j] by {
                assert(s[mid + i] != s[mid + j]);
            }
        }
        law_arranged_is_permutation(centroids, dim, l);
        law_arranged_is_permutation(centroids, dim, r);
        let al = arranged(centroids, dim, l);
        let ar = arranged(centroids, dim, r);
        let a = arranged(centroids, dim, members);
        assert(a =~= al + ar);
        assert forall|x: u32| l.contains(x) && r.contains(x) implies false by {
            let i = choose|i: int| 0 <= i < l.len() && l[i] == x;
            let j = choose|j: int| 0 <= j < r.len() && r[j] == x;
            assert(s[i] == s[mid + j]);
        }
        assert forall|x: u32| #[trigger] a.contains(x) <==> members.contains(x) by {
            if a.contains(x) {
                let i = choose|i: int| 0 <= i < a.len() && a[i] == x;
                if i < al.len() {
                    assert(al.contains(x));
                    let k = choose|k: int| 0 <= k < l.len() && l[k] == x;
                    assert(s[k] == x);
                } else {
                    assert(ar[i - al.len()] == x);
                    assert(ar.contains(x));
                    let k = choose|k: int| 0 <= k < r.len() && r[k] == x;
                    assert(s[mid + k] == x);
                }
                assert(s.contains(x));
            }
            if members.contains(x) {
                assert(s.contains(x));
                let k = choose|k: int| 0 <= k < s.len() && s[k] == x;
                if k < mid {
                    assert(l[k] == x);
                    assert(al.contains(x));
                    let i = choose|i: int| 0 <= i < al.len() && al[i] == x;
                    assert(a[i] == x);
                } else {
                    assert(r[k - mid] == x);
                    assert(ar.contains(x));
                    let i = choose|i: int| 0 <= i < ar.len() && ar[i] == x;
                    assert(a[al.len() + i] == x);
                }
            }
        }
        assert forall|i: int, j: int| 0 <= i < a.len() && 0 <= j < a.len() && i != j implies a[i]
            != a[j] by {
            let n = al.len() as int;
            if i < n && j < n {
                assert(al[i] != al[j]);
            } else if i >= n && j >= n {
                assert(ar[i - n] != ar[j - n]);
            } else if i < n {
                assert(al.contains(a[i]) && ar.contains(ar[j - n]));
                if a[i] == a[j] {
                    assert(l.contains(a[i]) && r.contains(a[i]));
                }
            } else {
                assert(al.contains(a[j]) && ar.contains(ar[i - n]));
                if a[i] == a[j] {
                    assert(l.contains(a[j]) && r.contains(a[j]));
                }
            }
        }
    }
}

/// A split puts the lesser half first: where the widest coordinates compare
/// consistently, every member stands ahead of the ones behind it, by that
/// coordinate and then by id.
pub proof fn law_split_at_the_median(
    centroids: Seq<u32>,
    dim: int,
    members: Seq<u32>,
    i: int,
    j: int,
)
    requires
        0 <= i < j < members.len(),
        members.no_duplicates(),
        consistent(
            marked(centroids, dim, members, widest(centroids, dim, members, dim as nat).0),
        ),
    ensures
        ({
            let s = by_widest(centroids, dim, members);
            let d = widest(centroids, dim, members, dim as nat).0;
            let a = coordinate(centroids, dim, s[i] as int, d);
            let b = coordinate(centroids, dim, s[j] as int, d);
            f32_lt(a, b) || (!f32_lt(b, a) && s[i] < s[j])
        }),
{
    let d = widest(centroids, dim, members, dim as nat).0;
    let m = marked(centroids, dim, members, d);
    assert forall|x: int, y: int| 0 <= x < y < m.len() implies (#[trigger] m[x]).node != (
    #[trigger] m[y]).node by {
        assert(members[x] != members[y]);
    }
    lemma_ranked_ascends(m);
    lemma_ranked(m);
    let r = ranked(m);
    assert(ahead(r[i], r[j]));
    assert(r.contains(r[i]) && r.contains(r[j]));
    assert(m.contains(r[i]) && m.contains(r[j]));
    let x = choose|x: int| 0 <= x < m.len() && m[x] == r[i];
    let y = choose|y: int| 0 <= y < m.len() && m[y] == r[j];
    assert(m[x].dist == coordinate(centroids, dim, m[x].node as int, d));
    assert(m[y].dist == coordinate(centroids, dim, m[y].node as int, d));
}

// ---------------- the arrangement, computed ----------------

fn coordinate_of(centroids: &Vec<u32>, dim: usize, c: u32, d: usize) -> (r: u32)
    requires
        d < dim,
        c * dim + d < centroids@.len(),
    ensures
        r == coordinate(centroids@, dim as int, c as int, d as int),
{
    proof {
        assert(centroids@.len() == centroids.len());
        assert(0 <= c * dim) by (nonlinear_arith)
            requires
                0 <= c,
                0 <= dim,
        ;
    }
    centroids[c as usize * dim + d]
}

/// Every member names a centroid.
pub open spec fn in_range(centroids: Seq<u32>, dim: int, members: Seq<u32>) -> bool {
    forall|i: int|
        0 <= i < members.len() ==> (#[trigger] members[i]) * dim + dim <= centroids.len()
}

fn width_of(centroids: &Vec<u32>, dim: usize, members: &Vec<u32>, d: usize) -> (r: u32)
    requires
        d < dim,
        in_range(centroids@, dim as int, members@),
    ensures
        r == width(centroids@, dim as int, members@, d as int),
{
    let mut lo: u32 = F32_INFINITY;
    let mut hi: u32 = F32_NEG_INFINITY;
    let mut i: usize = 0;
    while i < members.len()
        invariant
            i <= members@.len(),
            d < dim,
            in_range(centroids@, dim as int, members@),
            lo == low(centroids@, dim as int, members@, d as int, i as nat),
            hi == high(centroids@, dim as int, members@, d as int, i as nat),
        decreases members.len() - i,
    {
        assert(members@[i as int] * dim + dim <= centroids@.len());
        let v: u32 = coordinate_of(centroids, dim, members[i], d);
        if less32(v, lo) {
            lo = v;
        }
        if less32(hi, v) {
            hi = v;
        }
        i = i + 1;
    }
    rise32(hi, lo)
}

fn widest_of(centroids: &Vec<u32>, dim: usize, members: &Vec<u32>) -> (r: usize)
    requires
        dim > 0,
        in_range(centroids@, dim as int, members@),
    ensures
        r == widest(centroids@, dim as int, members@, dim as nat).0,
        r < dim,
{
    let mut best: usize = 0;
    let mut span: u32 = 0;
    let mut d: usize = 0;
    while d < dim
        invariant
            d <= dim,
            dim > 0,
            best < dim,
            in_range(centroids@, dim as int, members@),
            (best as int, span) == widest(centroids@, dim as int, members@, d as nat),
        decreases dim - d,
    {
        let w: u32 = width_of(centroids, dim, members, d);
        if w > span {
            span = w;
            best = d;
        }
        d = d + 1;
    }
    best
}

fn is_ahead(a: Scored, b: Scored) -> (r: bool)
    ensures
        r == ahead(a, b),
{
    less32(a.dist, b.dist) || (!less32(b.dist, a.dist) && a.node < b.node)
}

fn rank(v: &Vec<Scored>) -> (r: Vec<Scored>)
    ensures
        r@ == ranked(v@),
{
    let mut out: Vec<Scored> = Vec::new();
    let mut i: usize = 0;
    proof {
        assert(v@.subrange(0, 0) =~= Seq::<Scored>::empty());
    }
    while i < v.len()
        invariant
            i <= v@.len(),
            out@ == ranked(v@.subrange(0, i as int)),
        decreases v.len() - i,
    {
        let x = v[i];
        let mut p: usize = out.len();
        while p > 0 && is_ahead(x, out[p - 1])
            invariant
                p <= out@.len(),
                forall|j: int| p <= j < out@.len() ==> ahead(x, #[trigger] out@[j]),
            decreases p,
        {
            p = p - 1;
        }
        proof {
            lemma_moved_in_at(out@, x, p as int);
            let t = v@.subrange(0, i + 1);
            assert(t.drop_last() =~= v@.subrange(0, i as int));
            assert(t.last() == x);
        }
        out.insert(p, x);
        i = i + 1;
    }
    proof {
        assert(v@.subrange(0, i as int) =~= v@);
    }
    out
}

fn sorted_by_widest(centroids: &Vec<u32>, dim: usize, members: &Vec<u32>) -> (r: Vec<u32>)
    requires
        dim > 0,
        in_range(centroids@, dim as int, members@),
    ensures
        r@ == by_widest(centroids@, dim as int, members@),
{
    let d: usize = widest_of(centroids, dim, members);
    let mut marks: Vec<Scored> = Vec::new();
    let mut i: usize = 0;
    while i < members.len()
        invariant
            i <= members@.len(),
            d < dim,
            in_range(centroids@, dim as int, members@),
            marks@ == marked(centroids@, dim as int, members@, d as int).subrange(0, i as int),
        decreases members.len() - i,
    {
        assert(members@[i as int] * dim + dim <= centroids@.len());
        marks.push(
            Scored { dist: coordinate_of(centroids, dim, members[i], d), node: members[i] },
        );
        i = i + 1;
        proof {
            assert(marks@ =~= marked(centroids@, dim as int, members@, d as int).subrange(
                0,
                i as int,
            ));
        }
    }
    proof {
        assert(marks@ =~= marked(centroids@, dim as int, members@, d as int));
    }
    let s = rank(&marks);
    let mut out: Vec<u32> = Vec::new();
    let mut j: usize = 0;
    while j < s.len()
        invariant
            j <= s@.len(),
            out@ == ids(s@).subrange(0, j as int),
        decreases s.len() - j,
    {
        out.push(s[j].node);
        j = j + 1;
        proof {
            assert(out@ =~= ids(s@).subrange(0, j as int));
        }
    }
    proof {
        assert(out@ =~= ids(s@));
    }
    out
}

fn part(v: &Vec<u32>, from: usize, to: usize) -> (r: Vec<u32>)
    requires
        from <= to <= v@.len(),
    ensures
        r@ == v@.subrange(from as int, to as int),
{
    let mut out: Vec<u32> = Vec::new();
    let mut i: usize = from;
    while i < to
        invariant
            from <= i <= to <= v@.len(),
            out@ == v@.subrange(from as int, i as int),
        decreases to - i,
    {
        out.push(v[i]);
        i = i + 1;
        proof {
            assert(out@ =~= v@.subrange(from as int, i as int));
        }
    }
    out
}

fn arrange(centroids: &Vec<u32>, dim: usize, members: Vec<u32>) -> (r: Vec<u32>)
    requires
        in_range(centroids@, dim as int, members@),
    ensures
        r@ == arranged(centroids@, dim as int, members@),
    decreases members@.len(),
{
    if members.len() <= 1 || dim == 0 {
        return members;
    }
    proof {
        lemma_by_widest(centroids@, dim as int, members@);
    }
    let s = sorted_by_widest(centroids, dim, &members);
    let mid: usize = members.len() / 2;
    let left = part(&s, 0, mid);
    let right = part(&s, mid, s.len());
    proof {
        assert forall|i: int| 0 <= i < left@.len() implies (#[trigger] left@[i]) * dim + dim
            <= centroids@.len() by {
            assert(s@.contains(s@[i]));
            let k = choose|k: int| 0 <= k < members@.len() && members@[k] == s@[i];
            assert(members@[k] * dim + dim <= centroids@.len());
        }
        assert forall|i: int| 0 <= i < right@.len() implies (#[trigger] right@[i]) * dim + dim
            <= centroids@.len() by {
            assert(s@.contains(s@[mid + i]));
            let k = choose|k: int| 0 <= k < members@.len() && members@[k] == s@[mid + i];
            assert(members@[k] * dim + dim <= centroids@.len());
        }
    }
    let mut out = arrange(centroids, dim, left);
    let back = arrange(centroids, dim, right);
    let ghost front = out@;
    let mut i: usize = 0;
    while i < back.len()
        invariant
            i <= back@.len(),
            out@ == front + back@.subrange(0, i as int),
        decreases back.len() - i,
    {
        out.push(back[i]);
        i = i + 1;
        proof {
            assert(out@ =~= front + back@.subrange(0, i as int));
        }
    }
    proof {
        assert(back@.subrange(0, i as int) =~= back@);
        assert(out@ =~= arranged(centroids@, dim as int, members@));
    }
    out
}

/// Physical order of the centroids. Coordinates are compared as numbers; where
/// that decides nothing, as with what is not a number, the id does.
pub fn centroid_storage_order(centroids: &Vec<u32>, n_cent: usize, dim: usize) -> (r: Vec<usize>)
    requires
        n_cent * dim <= centroids@.len(),
        n_cent <= u32::MAX,
    ensures
        r@.len() == n_cent,
        forall|i: int|
            0 <= i < n_cent ==> #[trigger] r@[i] == arranged(
                centroids@,
                dim as int,
                all_ids(n_cent as nat),
            )[i],
        is_order(r@, n_cent as int),
{
    let mut members: Vec<u32> = Vec::new();
    let mut c: usize = 0;
    while c < n_cent
        invariant
            c <= n_cent <= u32::MAX,
            members@ == all_ids(c as nat),
        decreases n_cent - c,
    {
        members.push(c as u32);
        c = c + 1;
        proof {
            assert(members@ =~= all_ids(c as nat));
        }
    }
    proof {
        assert forall|i: int| 0 <= i < members@.len() implies (#[trigger] members@[i]) * dim + dim
            <= centroids@.len() by {
            assert(members@[i] * dim + dim <= n_cent * dim) by (nonlinear_arith)
                requires
                    members@[i] + 1 <= n_cent,
                    0 <= dim,
            ;
        }
        law_arranged_is_permutation(centroids@, dim as int, members@);
    }
    let ghost start = members@;
    let a = arrange(centroids, dim, members);
    let mut out: Vec<usize> = Vec::new();
    let mut i: usize = 0;
    while i < a.len()
        invariant
            i <= a@.len(),
            out@.len() == i,
            forall|k: int| 0 <= k < i ==> #[trigger] out@[k] == a@[k],
        decreases a.len() - i,
    {
        out.push(a[i] as usize);
        i = i + 1;
    }
    proof {
        assert forall|k: int| 0 <= k < out@.len() implies (#[trigger] out@[k]) < n_cent by {
            assert(a@.contains(a@[k]));
            assert(start.contains(a@[k]));
        }
        assert forall|x: usize| x < n_cent implies #[trigger] out@.contains(x) by {
            assert(start[x as int] == x as u32);
            assert(start.contains(x as u32));
            assert(a@.contains(x as u32));
            let k = choose|k: int| 0 <= k < a@.len() && a@[k] == x as u32;
            assert(out@[k] == x);
        }
        assert forall|x: int, y: int|
            0 <= x < out@.len() && 0 <= y < out@.len() && x != y implies out@[x] != out@[y] by {
            assert(a@[x] != a@[y]);
        }
    }
    out
}

// ---------------- what the arrangement stands for ----------------

/// The least coordinate is below none of the members' and is one of them; it
/// is infinity where no member has a number below that.
pub proof fn law_low_is_the_least(
    centroids: Seq<u32>,
    dim: int,
    members: Seq<u32>,
    d: int,
    n: nat,
)
    requires
        n <= members.len(),
    ensures
        !f32_nan(low(centroids, dim, members, d, n)),
        f32_key(low(centroids, dim, members, d, n)) <= 0x7f80_0000,
        forall|i: int|
            0 <= i < n ==> !f32_lt(
                coordinate(centroids, dim, #[trigger] members[i] as int, d),
                low(centroids, dim, members, d, n),
            ),
        low(centroids, dim, members, d, n) == 0x7f80_0000 || exists|i: int|
            0 <= i < n && low(centroids, dim, members, d, n) == coordinate(
                centroids,
                dim,
                #[trigger] members[i] as int,
                d,
            ),
    decreases n,
{
    if n > 0 {
        law_low_is_the_least(centroids, dim, members, d, (n - 1) as nat);
        let v = coordinate(centroids, dim, members[n - 1] as int, d);
        assert(v == coordinate(centroids, dim, members[n - 1] as int, d));
    }
}

/// The greatest coordinate is above none of the members' and is one of them;
/// it is negative infinity where no member has a number above that.
pub proof fn law_high_is_the_greatest(
    centroids: Seq<u32>,
    dim: int,
    members: Seq<u32>,
    d: int,
    n: nat,
)
    requires
        n <= members.len(),
    ensures
        !f32_nan(high(centroids, dim, members, d, n)),
        f32_key(high(centroids, dim, members, d, n)) >= -0x7f80_0000,
        forall|i: int|
            0 <= i < n ==> !f32_lt(
                high(centroids, dim, members, d, n),
                coordinate(centroids, dim, #[trigger] members[i] as int, d),
            ),
        high(centroids, dim, members, d, n) == 0xff80_0000 || exists|i: int|
            0 <= i < n && high(centroids, dim, members, d, n) == coordinate(
                centroids,
                dim,
                #[trigger] members[i] as int,
                d,
            ),
    decreases n,
{
    if n > 0 {
        law_high_is_the_greatest(centroids, dim, members, d, (n - 1) as nat);
        let v = coordinate(centroids, dim, members[n - 1] as int, d);
        assert(v == coordinate(centroids, dim, members[n - 1] as int, d));
    }
}

proof fn lemma_low_of_same(centroids: Seq<u32>, dim: int, a: Seq<u32>, b: Seq<u32>, d: int)
    requires
        forall|x: u32| #[trigger] b.contains(x) ==> a.contains(x),
    ensures
        f32_key(low(centroids, dim, a, d, a.len())) <= f32_key(
            low(centroids, dim, b, d, b.len()),
        ),
        f32_key(high(centroids, dim, a, d, a.len())) >= f32_key(
            high(centroids, dim, b, d, b.len()),
        ),
{
    law_low_is_the_least(centroids, dim, a, d, a.len());
    law_low_is_the_least(centroids, dim, b, d, b.len());
    law_high_is_the_greatest(centroids, dim, a, d, a.len());
    law_high_is_the_greatest(centroids, dim, b, d, b.len());
    let lo = low(centroids, dim, b, d, b.len());
    if lo != 0x7f80_0000 {
        let i = choose|i: int|
            0 <= i < b.len() && lo == coordinate(centroids, dim, #[trigger] b[i] as int, d);
        assert(b.contains(b[i]));
        let j = choose|j: int| 0 <= j < a.len() && a[j] == b[i];
        assert(!f32_lt(
            coordinate(centroids, dim, a[j] as int, d),
            low(centroids, dim, a, d, a.len()),
        ));
    }
    let hi = high(centroids, dim, b, d, b.len());
    if hi != 0xff80_0000 {
        let i = choose|i: int|
            0 <= i < b.len() && hi == coordinate(centroids, dim, #[trigger] b[i] as int, d);
        assert(b.contains(b[i]));
        let j = choose|j: int| 0 <= j < a.len() && a[j] == b[i];
        assert(!f32_lt(
            high(centroids, dim, a, d, a.len()),
            coordinate(centroids, dim, a[j] as int, d),
        ));
    }
}

/// How wide members are does not depend on the order they come in.
pub proof fn law_width_ignores_order(
    centroids: Seq<u32>,
    dim: int,
    a: Seq<u32>,
    b: Seq<u32>,
    d: int,
)
    requires
        forall|x: u32| #[trigger] a.contains(x) <==> b.contains(x),
    ensures
        width(centroids, dim, a, d) == width(centroids, dim, b, d),
{
    lemma_low_of_same(centroids, dim, a, b, d);
    lemma_low_of_same(centroids, dim, b, a, d);
    law_low_is_the_least(centroids, dim, a, d, a.len());
    law_low_is_the_least(centroids, dim, b, d, b.len());
    law_high_is_the_greatest(centroids, dim, a, d, a.len());
    law_high_is_the_greatest(centroids, dim, b, d, b.len());
    assert(f32_value(0) == 0 && f32_value(0x8000_0000) == 0);
}

/// `d` is the first coordinate that no other exceeds in width.
pub open spec fn is_first_widest(centroids: Seq<u32>, dim: int, members: Seq<u32>, d: int) -> bool {
    &&& 0 <= d < dim
    &&& forall|e: int|
        0 <= e < dim ==> #[trigger] width(centroids, dim, members, e) <= width(
            centroids,
            dim,
            members,
            d,
        )
    &&& forall|e: int|
        0 <= e < d ==> #[trigger] width(centroids, dim, members, e) < width(
            centroids,
            dim,
            members,
            d,
        )
}

proof fn lemma_widest(centroids: Seq<u32>, dim: int, members: Seq<u32>, n: nat)
    requires
        n > 0,
    ensures
        ({
            let w = widest(centroids, dim, members, n);
            &&& 0 <= w.0 < n
            &&& w.1 == width(centroids, dim, members, w.0)
            &&& forall|e: int|
                0 <= e < n ==> #[trigger] width(centroids, dim, members, e) <= w.1
            &&& forall|e: int|
                0 <= e < w.0 ==> #[trigger] width(centroids, dim, members, e) < w.1
        }),
    decreases n,
{
    if n > 1 {
        lemma_widest(centroids, dim, members, (n - 1) as nat);
    } else {
        assert(widest(centroids, dim, members, 0) == (0int, 0u32));
    }
}

/// Every member of the first half stands ahead of every one of the second by
/// coordinate `d`, then by id.
pub open spec fn halves_apart(centroids: Seq<u32>, dim: int, r: Seq<u32>, d: int) -> bool {
    forall|i: int, j: int|
        0 <= i < r.len() / 2 <= j < r.len() ==> {
            let a = coordinate(centroids, dim, #[trigger] r[i] as int, d);
            let b = coordinate(centroids, dim, #[trigger] r[j] as int, d);
            f32_lt(a, b) || (!f32_lt(b, a) && r[i] < r[j])
        }
}

/// Split at the median of its widest coordinate, and both halves likewise.
pub open spec fn well_split(centroids: Seq<u32>, dim: int, r: Seq<u32>) -> bool
    decreases r.len(),
{
    if r.len() <= 1 {
        true
    } else {
        &&& exists|d: int| #[trigger]
            is_first_widest(centroids, dim, r, d) && halves_apart(centroids, dim, r, d)
        &&& well_split(centroids, dim, r.subrange(0, (r.len() / 2) as int))
        &&& well_split(centroids, dim, r.subrange((r.len() / 2) as int, r.len() as int))
    }
}

/// Where all coordinates are numbers, the physical order is split at the
/// median of the widest coordinate, and so are both halves, all the way down.
pub proof fn law_arranged_is_well_split(centroids: Seq<u32>, dim: int, members: Seq<u32>)
    requires
        dim > 0,
        members.no_duplicates(),
        forall|i: int, d: int|
            0 <= i < members.len() && 0 <= d < dim ==> !f32_nan(
                #[trigger] coordinate(centroids, dim, members[i] as int, d),
            ),
    ensures
        well_split(centroids, dim, arranged(centroids, dim, members)),
    decreases members.len(),
{
    law_arranged_is_permutation(centroids, dim, members);
    if members.len() > 1 {
        lemma_by_widest(centroids, dim, members);
        lemma_widest(centroids, dim, members, dim as nat);
        let d = widest(centroids, dim, members, dim as nat).0;
        let s = by_widest(centroids, dim, members);
        let mid = (members.len() / 2) as int;
        let l = s.subrange(0, mid);
        let r = s.subrange(mid, s.len() as int);
        let out = arranged(centroids, dim, members);
        let m = marked(centroids, dim, members, d);
        assert forall|i: int| 0 <= i < m.len() implies !f32_nan((#[trigger] m[i]).dist) by {
            assert(!f32_nan(coordinate(centroids, dim, members[i] as int, d)));
        }
        law_numbers_are_consistent(m);
        assert forall|i: int, e: int| 0 <= i < s.len() && 0 <= e < dim implies !f32_nan(
            #[trigger] coordinate(centroids, dim, s[i] as int, e),
        ) by {
            assert(s.contains(s[i]));
            let k = choose|k: int| 0 <= k < members.len() && members[k] == s[i];
            assert(!f32_nan(coordinate(centroids, dim, members[k] as int, e)));
        }
        assert(l.no_duplicates()) by {
            assert forall|i: int, j: int|
                0 <= i < l.len() && 0 <= j < l.len() && i != j implies l[i] != l[j] by {
                assert(s[i] != s[j]);
            }
        }
        assert(r.no_duplicates()) by {
            assert forall|i: int, j: int|
                0 <= i < r.len() && 0 <= j < r.len() && i != j implies r[i] != r[j] by {
                assert(s[mid + i] != s[mid + j]);
            }
        }
        assert forall|i: int, e: int| 0 <= i < l.len() && 0 <= e < dim implies !f32_nan(
            #[trigger] coordinate(centroids, dim, l[i] as int, e),
        ) by {
            assert(l[i] == s[i]);
            assert(!f32_nan(coordinate(centroids, dim, s[i] as int, e)));
        }
        assert forall|i: int, e: int| 0 <= i < r.len() && 0 <= e < dim implies !f32_nan(
            #[trigger] coordinate(centroids, dim, r[i] as int, e),
        ) by {
            assert(r[i] == s[mid + i]);
            assert(!f32_nan(coordinate(centroids, dim, s[mid + i] as int, e)));
        }
        law_arranged_is_well_split(centroids, dim, l);
        law_arranged_is_well_split(centroids, dim, r);
        law_arranged_is_permutation(centroids, dim, l);
        law_arranged_is_permutation(centroids, dim, r);
        let al = arranged(centroids, dim, l);
        let ar = arranged(centroids, dim, r);
        assert(out == al + ar);
        assert(out.subrange(0, mid) =~= al);
        assert(out.subrange(mid, out.len() as int) =~= ar);
        assert forall|e: int| 0 <= e < dim implies #[trigger] width(centroids, dim, out, e)
            == width(centroids, dim, members, e) by {
            law_width_ignores_order(centroids, dim, out, members, e);
        }
        assert(is_first_widest(centroids, dim, out, d)) by {
            assert(width(centroids, dim, out, d) == width(centroids, dim, members, d));
        }
        assert(halves_apart(centroids, dim, out, d)) by {
            assert forall|i: int, j: int| 0 <= i < out.len() / 2 <= j < out.len() implies {
                let a = coordinate(centroids, dim, #[trigger] out[i] as int, d);
                let b = coordinate(centroids, dim, #[trigger] out[j] as int, d);
                f32_lt(a, b) || (!f32_lt(b, a) && out[i] < out[j])
            } by {
                assert(al.contains(al[i]) && ar.contains(ar[j - mid]));
                assert(l.contains(al[i]) && r.contains(ar[j - mid]));
                let x = choose|x: int| 0 <= x < l.len() && l[x] == al[i];
                let y = choose|y: int| 0 <= y < r.len() && r[y] == ar[j - mid];
                law_split_at_the_median(centroids, dim, members, x, mid + y);
            }
        }
    }
}

} // verus!
