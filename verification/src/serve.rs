//! Query side of a resident index: which beam a `k` is served at, and the
//! coarse walk with its exact re-ranking.
use vstd::prelude::*;

use crate::bundle::{has_curve, parse_bundle, HnswIndex};
use crate::codes::{sq8_scores, Sq8WalkScorer, WalkCodec, SQ8_DIM_MAX};
use crate::float_bits::{f32_total_key, total_key32};
use crate::graph::{as_pairs, law_search_result, search_hits, GraphModel};
use crate::scorer::{query_scores, NodeScorer};
use crate::settled::law_search_for_fewer_is_a_prefix;
use crate::wire::field;

verus! {

// ---------------- beam per k ----------------

/// Place of the first anchor that is at least `k`; the curve's length where
/// there is none.
pub open spec fn anchor_for(curve: Seq<(u32, u32)>, k: nat) -> int
    decreases curve.len(),
{
    if curve.len() == 0 {
        0
    } else if anchor_for(curve.drop_last(), k) < curve.len() - 1 {
        anchor_for(curve.drop_last(), k)
    } else if curve.last().0 >= k {
        curve.len() - 1
    } else {
        curve.len() as int
    }
}

/// The beam for `k`: that of the next anchor at or above it, of the widest
/// anchor where `k` is beyond them all, and the stamped one without a curve.
pub open spec fn beam_for(curve: Seq<(u32, u32)>, ef_search: nat, k: nat) -> nat {
    if curve.len() == 0 {
        ef_search
    } else if anchor_for(curve, k) < curve.len() {
        curve[anchor_for(curve, k)].1 as nat
    } else {
        curve.last().1 as nat
    }
}

/// Anchors and beams both grow along the curve.
pub open spec fn curve_ascending(curve: Seq<(u32, u32)>) -> bool {
    forall|i: int, j: int|
        0 <= i < j < curve.len() ==> (#[trigger] curve[i]).0 <= (#[trigger] curve[j]).0 && curve[i].1
            <= curve[j].1
}

pub proof fn lemma_anchor_for(curve: Seq<(u32, u32)>, k: nat)
    ensures
        0 <= anchor_for(curve, k) <= curve.len(),
        forall|i: int| 0 <= i < anchor_for(curve, k) ==> (#[trigger] curve[i]).0 < k,
        anchor_for(curve, k) < curve.len() ==> curve[anchor_for(curve, k)].0 >= k,
    decreases curve.len(),
{
    if curve.len() > 0 {
        let d = curve.drop_last();
        lemma_anchor_for(d, k);
        assert forall|i: int| 0 <= i < anchor_for(curve, k) implies (#[trigger] curve[i]).0 < k by {
            if i < d.len() {
                assert(d[i] == curve[i]);
            }
        }
    }
}

/// A wider `k` is never served at a narrower beam.
pub proof fn law_beam_grows_with_k(curve: Seq<(u32, u32)>, ef_search: nat, k1: nat, k2: nat)
    requires
        curve_ascending(curve),
        k1 <= k2,
    ensures
        beam_for(curve, ef_search, k1) <= beam_for(curve, ef_search, k2),
{
    lemma_anchor_for(curve, k1);
    lemma_anchor_for(curve, k2);
    let a1 = anchor_for(curve, k1);
    let a2 = anchor_for(curve, k2);
    if a2 < a1 && a2 < curve.len() {
        assert(curve[a2].0 < k1);
    }
}

/// A `k` is served at the beam of the first anchor at or above it, and at the
/// last anchor's beam where it lies above them all.
pub proof fn law_beam_is_that_of_the_next_anchor(
    curve: Seq<(u32, u32)>,
    ef_search: nat,
    k: nat,
    i: int,
)
    requires
        0 <= i < curve.len(),
        forall|j: int| 0 <= j < i ==> (#[trigger] curve[j]).0 < k,
        curve[i].0 >= k || i == curve.len() - 1,
    ensures
        beam_for(curve, ef_search, k) == curve[i].1,
        beam_for(Seq::empty(), ef_search, k) == ef_search,
{
    lemma_anchor_for(curve, k);
    let a = anchor_for(curve, k);
    if a < i {
        assert(curve[a].0 < k);
    } else if i < a {
        assert(curve[i].0 < k);
    }
}

/// A bundle without a stored curve serves every `k` at its one stamped beam.
pub proof fn law_one_point_curve(b: Seq<u8>, want: Option<WalkCodec>, k: nat)
    requires
        parse_bundle(b, want) is Some,
        !has_curve(field(b, 0, 8)),
    ensures
        parse_bundle(b, want)->0.ef_curve == seq![
            (u32::MAX, parse_bundle(b, want)->0.ef_search as u32),
        ],
        beam_for(parse_bundle(b, want)->0.ef_curve, parse_bundle(b, want)->0.ef_search, k)
            == parse_bundle(b, want)->0.ef_search as u32,
{
    lemma_anchor_for(parse_bundle(b, want)->0.ef_curve, k);
}

impl HnswIndex {
    /// The calibrated query beam for `k`.
    pub fn ef_for_k(&self, k: usize) -> (r: usize)
        ensures
            r == beam_for(self@.ef_curve, self@.ef_search, k as nat),
    {
        let ghost curve = self.ef_curve@;
        let mut i: usize = 0;
        proof {
            lemma_anchor_for(curve, k as nat);
        }
        while i < self.ef_curve.len()
            invariant
                i <= self.ef_curve@.len(),
                curve == self.ef_curve@,
                forall|j: int| 0 <= j < i ==> (#[trigger] curve[j]).0 < k,
                0 <= anchor_for(curve, k as nat) <= curve.len(),
                forall|j: int| 0 <= j < anchor_for(curve, k as nat) ==> (#[trigger] curve[j]).0 < k,
                anchor_for(curve, k as nat) < curve.len() ==> curve[anchor_for(
                    curve,
                    k as nat,
                )].0 >= k,
            decreases self.ef_curve.len() - i,
        {
            let pair: (u32, u32) = self.ef_curve[i];
            if pair.0 as usize >= k {
                proof {
                    if anchor_for(curve, k as nat) > i {
                        assert(curve[i as int].0 < k);
                    }
                }
                return pair.1 as usize;
            }
            i = i + 1;
        }
        if self.ef_curve.len() == 0 {
            self.ef_search
        } else {
            let last: (u32, u32) = self.ef_curve[self.ef_curve.len() - 1];
            proof {
                if anchor_for(curve, k as nat) < curve.len() {
                    assert(curve[anchor_for(curve, k as nat)].0 >= k);
                }
            }
            last.1 as usize
        }
    }
}

// ---------------- walk and re-rank ----------------

/// `s` with `x` put behind everything that is no farther.
pub open spec fn insert_by_distance(s: Seq<(u32, u32)>, x: (u32, u32)) -> Seq<(u32, u32)>
    decreases s.len(),
{
    if s.len() == 0 || f32_total_key(s.last().1) <= f32_total_key(x.1) {
        s.push(x)
    } else {
        insert_by_distance(s.drop_last(), x).push(s.last())
    }
}

/// The pairs in ascending order of distance, equal ones in their old order.
pub open spec fn by_distance(s: Seq<(u32, u32)>) -> Seq<(u32, u32)>
    decreases s.len(),
{
    if s.len() == 0 {
        Seq::empty()
    } else {
        insert_by_distance(by_distance(s.drop_last()), s.last())
    }
}

/// The hits with the distances of another scorer.
pub open spec fn rescored_hits(f: spec_fn(u32) -> u32, hits: Seq<(u32, u32)>) -> Seq<(u32, u32)> {
    Seq::new(hits.len(), |i: int| (hits[i].0, f(hits[i].0)))
}

pub open spec fn first_of(s: Seq<(u32, u32)>, k: nat) -> Seq<(u32, u32)> {
    if k <= s.len() {
        s.subrange(0, k as int)
    } else {
        s
    }
}

/// How many of the beam are re-ranked: at least `k` and at most the beam.
pub open spec fn shortlist(k: nat, ef: nat, refine_k: nat) -> nat {
    let wide = if refine_k >= k {
        refine_k
    } else {
        k
    };
    if wide <= ef {
        wide
    } else {
        ef
    }
}

/// The nearest `k` by `exact` among the short list that the walk by `coarse`
/// finds.
pub open spec fn refined_hits(
    g: GraphModel,
    coarse: spec_fn(u32) -> u32,
    exact: spec_fn(u32) -> u32,
    k: nat,
    ef: nat,
    refine_k: nat,
) -> Seq<(u32, u32)> {
    let beam = as_pairs(search_hits(g, coarse, shortlist(k, ef, refine_k), ef));
    first_of(by_distance(rescored_hits(exact, beam)), k)
}

pub open spec fn ascending(s: Seq<(u32, u32)>) -> bool {
    forall|i: int, j: int|
        0 <= i < j < s.len() ==> f32_total_key((#[trigger] s[i]).1) <= f32_total_key(
            (#[trigger] s[j]).1,
        )
}

proof fn lemma_insert_by_distance(s: Seq<(u32, u32)>, x: (u32, u32))
    requires
        ascending(s),
    ensures
        ascending(insert_by_distance(s, x)),
        insert_by_distance(s, x).len() == s.len() + 1,
        insert_by_distance(s, x).to_multiset() == s.to_multiset().insert(x),
        s.len() > 0 ==> f32_total_key(insert_by_distance(s, x).last().1) >= f32_total_key(
            s.last().1,
        ),
        f32_total_key(insert_by_distance(s, x).last().1) >= f32_total_key(x.1),
        forall|i: int|
            0 <= i < insert_by_distance(s, x).len() ==> f32_total_key(
                (#[trigger] insert_by_distance(s, x)[i]).1,
            ) <= f32_total_key(insert_by_distance(s, x).last().1),
    decreases s.len(),
{
    s.to_multiset_ensures();
    if s.len() > 0 && f32_total_key(s.last().1) > f32_total_key(x.1) {
        let d = s.drop_last();
        assert(ascending(d)) by {
            assert forall|i: int, j: int| 0 <= i < j < d.len() implies f32_total_key(
                (#[trigger] d[i]).1,
            ) <= f32_total_key((#[trigger] d[j]).1) by {
                assert(d[i] == s[i] && d[j] == s[j]);
            }
        }
        lemma_insert_by_distance(d, x);
        let t = insert_by_distance(d, x);
        d.to_multiset_ensures();
        t.to_multiset_ensures();
        assert(d.push(s.last()) =~= s);
        assert(s.to_multiset().insert(x) =~= d.to_multiset().insert(x).insert(s.last()));
        if d.len() > 0 {
            assert(f32_total_key(s[s.len() - 2].1) <= f32_total_key(s[s.len() - 1].1));
        }
        assert(f32_total_key(t.last().1) <= f32_total_key(s.last().1)) by {
            lemma_last_of_insert(d, x);
        }
    }
}

proof fn lemma_last_of_insert(s: Seq<(u32, u32)>, x: (u32, u32))
    ensures
        insert_by_distance(s, x).len() > 0,
        insert_by_distance(s, x).last() == x || (s.len() > 0 && insert_by_distance(s, x).last()
            == s.last()),
{
}

/// Re-ranking by distance puts the same hits in ascending order.
pub proof fn law_by_distance_is_sorted_permutation(s: Seq<(u32, u32)>)
    ensures
        ascending(by_distance(s)),
        by_distance(s).to_multiset() == s.to_multiset(),
        by_distance(s).len() == s.len(),
    decreases s.len(),
{
    if s.len() > 0 {
        let d = s.drop_last();
        law_by_distance_is_sorted_permutation(d);
        lemma_insert_by_distance(by_distance(d), s.last());
        s.to_multiset_ensures();
        d.to_multiset_ensures();
        assert(d.push(s.last()) =~= s);
    } else {
        assert(s =~= Seq::empty());
    }
}

/// The refined result holds at most `k` hits, nearest first, and no hit of the
/// short list that was left out is nearer than one that was kept.
pub proof fn law_refined_is_best_of_short_list(
    g: GraphModel,
    coarse: spec_fn(u32) -> u32,
    exact: spec_fn(u32) -> u32,
    k: nat,
    ef: nat,
    refine_k: nat,
    left_out: int,
    kept: int,
)
    requires
        g.wf(),
        0 <= kept < refined_hits(g, coarse, exact, k, ef, refine_k).len(),
        k <= left_out < search_hits(g, coarse, shortlist(k, ef, refine_k), ef).len(),
    ensures
        refined_hits(g, coarse, exact, k, ef, refine_k).len() <= k,
        ascending(refined_hits(g, coarse, exact, k, ef, refine_k)),
        f32_total_key(refined_hits(g, coarse, exact, k, ef, refine_k)[kept].1) <= f32_total_key(
            by_distance(
                rescored_hits(
                    exact,
                    as_pairs(search_hits(g, coarse, shortlist(k, ef, refine_k), ef)),
                ),
            )[left_out].1,
        ),
{
    let all = rescored_hits(exact, as_pairs(search_hits(g, coarse, shortlist(k, ef, refine_k), ef)));
    law_by_distance_is_sorted_permutation(all);
    let r = refined_hits(g, coarse, exact, k, ef, refine_k);
    let ranked = by_distance(all);
    assert forall|i: int, j: int| 0 <= i < j < r.len() implies f32_total_key((#[trigger] r[i]).1)
        <= f32_total_key((#[trigger] r[j]).1) by {
        assert(r[i] == ranked[i] && r[j] == ranked[j]);
    }
    assert(r[kept] == ranked[kept]);
}

/// `r` holds the pairs of `s` at the places `at`, each place once: nearest
/// first, and equally near ones in the order in which they stand in `s`.
pub open spec fn ranks(s: Seq<(u32, u32)>, r: Seq<(u32, u32)>, at: Seq<int>) -> bool {
    &&& r.len() == at.len()
    &&& forall|i: int| 0 <= i < at.len() ==> 0 <= #[trigger] at[i] < s.len() && r[i] == s[at[i]]
    &&& forall|i: int, j: int|
        0 <= i < j < at.len() ==> comes_first(s, #[trigger] at[i], #[trigger] at[j])
}

/// The pair at place `p` is nearer than that at place `q`, or as near and
/// earlier.
pub open spec fn comes_first(s: Seq<(u32, u32)>, p: int, q: int) -> bool {
    f32_total_key(s[p].1) < f32_total_key(s[q].1) || (f32_total_key(s[p].1) == f32_total_key(s[q].1)
        && p < q)
}

proof fn lemma_inserted_where(s: Seq<(u32, u32)>, x: (u32, u32)) -> (p: int)
    requires
        ascending(s),
    ensures
        0 <= p <= s.len(),
        insert_by_distance(s, x) == s.insert(p, x),
        forall|i: int| 0 <= i < p ==> f32_total_key((#[trigger] s[i]).1) <= f32_total_key(x.1),
        forall|i: int| p <= i < s.len() ==> f32_total_key((#[trigger] s[i]).1) > f32_total_key(x.1),
    decreases s.len(),
{
    if s.len() == 0 || f32_total_key(s.last().1) <= f32_total_key(x.1) {
        assert(s.insert(s.len() as int, x) =~= s.push(x));
        if s.len() > 0 {
            assert(s[s.len() - 1] == s.last());
        }
        s.len() as int
    } else {
        let d = s.drop_last();
        assert(ascending(d)) by {
            assert forall|i: int, j: int| 0 <= i < j < d.len() implies f32_total_key(
                (#[trigger] d[i]).1,
            ) <= f32_total_key((#[trigger] d[j]).1) by {
                assert(d[i] == s[i] && d[j] == s[j]);
            }
        }
        let p = lemma_inserted_where(d, x);
        assert(s.insert(p, x) =~= d.insert(p, x).push(s.last()));
        assert forall|i: int| 0 <= i < p implies f32_total_key((#[trigger] s[i]).1)
            <= f32_total_key(x.1) by {
            assert(d[i] == s[i]);
        }
        assert forall|i: int| p <= i < s.len() implies f32_total_key((#[trigger] s[i]).1)
            > f32_total_key(x.1) by {
            if i < d.len() {
                assert(d[i] == s[i]);
            }
        }
        p
    }
}

/// Ranking by distance is stable: it uses every place once, and equally near
/// pairs keep their order.
pub proof fn law_by_distance_is_stable(s: Seq<(u32, u32)>) -> (at: Seq<int>)
    ensures
        at.len() == s.len(),
        ranks(s, by_distance(s), at),
        forall|q: int| 0 <= q < s.len() ==> #[trigger] at.contains(q),
    decreases s.len(),
{
    if s.len() == 0 {
        Seq::empty()
    } else {
        let d = s.drop_last();
        let n = d.len() as int;
        let x = s.last();
        let prior = law_by_distance_is_stable(d);
        let r = by_distance(d);
        law_by_distance_is_sorted_permutation(d);
        let p = lemma_inserted_where(r, x);
        let at = prior.insert(p, n);
        let out = by_distance(s);
        assert(out == r.insert(p, x));
        assert forall|i: int| 0 <= i < at.len() implies 0 <= #[trigger] at[i] < s.len() && out[i]
            == s[at[i]] by {
            if i < p {
                assert(at[i] == prior[i] && out[i] == r[i]);
                assert(d[prior[i]] == s[prior[i]]);
            } else if i > p {
                assert(at[i] == prior[i - 1] && out[i] == r[i - 1]);
                assert(d[prior[i - 1]] == s[prior[i - 1]]);
            }
        }
        assert forall|i: int, j: int| 0 <= i < j < at.len() implies comes_first(
            s,
            #[trigger] at[i],
            #[trigger] at[j],
        ) by {
            let a = if i < p { i } else { i - 1 };
            let b = if j < p { j } else { j - 1 };
            if i == p {
                assert(at[j] == prior[b] && s[at[j]] == r[b]);
            } else if j == p {
                assert(at[i] == prior[a] && s[at[i]] == r[a]);
            } else {
                assert(at[i] == prior[a] && at[j] == prior[b]);
                assert(comes_first(d, prior[a], prior[b]));
                assert(d[prior[a]] == s[prior[a]] && d[prior[b]] == s[prior[b]]);
            }
        }
        assert forall|q: int| 0 <= q < s.len() implies #[trigger] at.contains(q) by {
            if q == n {
                assert(at[p] == n);
            } else {
                assert(prior.contains(q));
                let i = choose|i: int| 0 <= i < prior.len() && prior[i] == q;
                let k = if i < p { i } else { i + 1 };
                assert(at[k] == q);
            }
        }
        at
    }
}

/// The short list that is re-ranked is never narrower than `k` or `refine_k`,
/// as far as the beam allows, and never wider than the beam or than the larger
/// of the two.
pub proof fn law_short_list_width(k: nat, ef: nat, refine_k: nat)
    ensures
        k <= ef ==> shortlist(k, ef, refine_k) >= k,
        refine_k <= ef ==> shortlist(k, ef, refine_k) >= refine_k,
        ef <= k || ef <= refine_k ==> shortlist(k, ef, refine_k) == ef,
        shortlist(k, ef, refine_k) <= ef,
        shortlist(k, ef, refine_k) <= k || shortlist(k, ef, refine_k) <= refine_k,
{
}

/// Re-ranking costs no hit: with a beam of at least `k`, the refined result
/// has as many hits as a plain search for `k` with the same beam, however
/// short the list that was asked for.
pub proof fn law_refining_keeps_the_count(
    g: GraphModel,
    coarse: spec_fn(u32) -> u32,
    exact: spec_fn(u32) -> u32,
    k: nat,
    ef: nat,
    refine_k: nat,
)
    requires
        g.wf(),
        k <= ef,
    ensures
        refined_hits(g, coarse, exact, k, ef, refine_k).len() == search_hits(g, coarse, k, ef).len(),
{
    let short = search_hits(g, coarse, shortlist(k, ef, refine_k), ef);
    law_by_distance_is_sorted_permutation(rescored_hits(exact, as_pairs(short)));
    law_search_for_fewer_is_a_prefix(g, coarse, k, shortlist(k, ef, refine_k), ef);
    law_search_result(g, coarse, k, ef);
}

/// The refined hits are hits of the walk with their exact distance: the `k`
/// nearest by it of the short list, or all where there are fewer. None that is
/// left out comes before one that is handed out.
pub proof fn law_refined_hits_are_the_nearest_of_the_short_list(
    g: GraphModel,
    coarse: spec_fn(u32) -> u32,
    exact: spec_fn(u32) -> u32,
    k: nat,
    ef: nat,
    refine_k: nat,
    width: nat,
) -> (at: Seq<int>)
    requires
        g.wf(),
        width <= ef,
        k <= ef ==> width >= k,
        refine_k <= ef ==> width >= refine_k,
        ef <= k || ef <= refine_k ==> width == ef,
        width <= k || width <= refine_k,
    ensures
        ({
            let short = search_hits(g, coarse, width, ef);
            let s = Seq::new(short.len(), |i: int| (short[i].node, exact(short[i].node)));
            let r = refined_hits(g, coarse, exact, k, ef, refine_k);
            &&& ranks(s, r, at)
            &&& short.len() <= k ==> r.len() == short.len()
            &&& short.len() >= k ==> r.len() == k
            &&& forall|i: int, q: int|
                0 <= i < at.len() && 0 <= q < s.len() && !at.contains(q)
                    ==> #[trigger] comes_first(s, at[i], q)
        }),
{
    assert(width == shortlist(k, ef, refine_k));
    let short = search_hits(g, coarse, width, ef);
    let s = Seq::new(short.len(), |i: int| (short[i].node, exact(short[i].node)));
    assert(s =~= rescored_hits(exact, as_pairs(short)));
    let all = law_by_distance_is_stable(s);
    let ranked = by_distance(s);
    let r = refined_hits(g, coarse, exact, k, ef, refine_k);
    let at = all.subrange(0, r.len() as int);
    assert forall|i: int| 0 <= i < at.len() implies 0 <= #[trigger] at[i] < s.len() && r[i]
        == s[at[i]] by {
        assert(at[i] == all[i]);
        assert(r[i] == ranked[i]);
    }
    assert forall|i: int, j: int| 0 <= i < j < at.len() implies comes_first(
        s,
        #[trigger] at[i],
        #[trigger] at[j],
    ) by {
        assert(at[i] == all[i] && at[j] == all[j]);
    }
    assert forall|i: int, q: int|
        0 <= i < at.len() && 0 <= q < s.len() && !at.contains(q) implies #[trigger] comes_first(
        s,
        at[i],
        q,
    ) by {
        assert(all.contains(q));
        let j = choose|j: int| 0 <= j < all.len() && all[j] == q;
        if j < at.len() {
            assert(at[j] == q);
        }
        assert(at[i] == all[i]);
        assert(comes_first(s, all[i], all[j]));
    }
    at
}

/// Insert into a list that ascends by distance.
fn push_by_distance(v: &mut Vec<(u32, u32)>, x: (u32, u32))
    requires
        ascending(old(v)@),
    ensures
        final(v)@ == insert_by_distance(old(v)@, x),
        ascending(final(v)@),
{
    let ghost s = v@;
    let mut p: usize = v.len();
    while p > 0 && total_key32(v[p - 1].1) > total_key32(x.1)
        invariant
            p <= v.len(),
            v@ == s,
            forall|j: int| p <= j < s.len() ==> f32_total_key((#[trigger] s[j]).1) > f32_total_key(x.1),
        decreases p,
    {
        p = p - 1;
    }
    proof {
        lemma_insert_by_distance(s, x);
        lemma_insert_by_distance_at(s, x, p as int);
    }
    v.insert(p, x);
}

proof fn lemma_insert_by_distance_at(s: Seq<(u32, u32)>, x: (u32, u32), p: int)
    requires
        0 <= p <= s.len(),
        forall|j: int| p <= j < s.len() ==> f32_total_key((#[trigger] s[j]).1) > f32_total_key(x.1),
        p > 0 ==> f32_total_key(s[p - 1].1) <= f32_total_key(x.1),
    ensures
        insert_by_distance(s, x) == s.insert(p, x),
    decreases s.len(),
{
    if p == s.len() {
        assert(s.insert(p, x) =~= s.push(x));
    } else {
        assert(f32_total_key(s[s.len() - 1].1) > f32_total_key(x.1));
        lemma_insert_by_distance_at(s.drop_last(), x, p);
        assert(s.insert(p, x) =~= s.drop_last().insert(p, x).push(s.last()));
    }
}

/// Re-score hits and keep the nearest `k`.
pub fn refine_hits<R: NodeScorer>(
    refine: &R,
    query: &R::Query,
    beam: &Vec<(u32, u32)>,
    k: usize,
) -> (r: Vec<(u32, u32)>)
    requires
        refine.ready(),
        refine.accepts(*query),
        forall|i: int| 0 <= i < beam@.len() ==> (#[trigger] beam@[i]).0 < refine.count(),
    ensures
        r@ == first_of(by_distance(rescored_hits(query_scores(refine, *query), beam@)), k as nat),
{
    let ghost f = query_scores(refine, *query);
    let ghost all = rescored_hits(f, beam@);
    let prepared = refine.prepare(query);
    let mut ranked: Vec<(u32, u32)> = Vec::new();
    let mut i: usize = 0;
    proof {
        assert(all.subrange(0, 0) =~= Seq::<(u32, u32)>::empty());
    }
    while i < beam.len()
        invariant
            i <= beam@.len(),
            f == query_scores(refine, *query),
            all == rescored_hits(f, beam@),
            refine.ready(),
            refine.folded(prepared),
            forall|x: u32|
                #[trigger] refine.score_of(prepared, x) == refine.query_dist(*query, x),
            forall|j: int| 0 <= j < beam@.len() ==> (#[trigger] beam@[j]).0 < refine.count(),
            ascending(ranked@),
            ranked@ == by_distance(all.subrange(0, i as int)),
        decreases beam.len() - i,
    {
        let node: u32 = beam[i].0;
        assert(beam@[i as int].0 < refine.count());
        let d: u32 = refine.score(&prepared, node);
        push_by_distance(&mut ranked, (node, d));
        i = i + 1;
        proof {
            let t = all.subrange(0, i as int);
            assert(t.drop_last() =~= all.subrange(0, i - 1));
            assert(t.last() == (node, d));
        }
    }
    proof {
        assert(all.subrange(0, i as int) =~= all);
    }
    if k < ranked.len() {
        ranked.truncate(k);
        proof {
            assert(ranked@ =~= first_of(by_distance(all), k as nat));
        }
    }
    ranked
}

impl HnswIndex {
    /// Walk on `walk`, then re-rank the short list on `refine` and give the
    /// nearest `k`.
    pub fn search_walk_refine<S: NodeScorer, R: NodeScorer>(
        &self,
        walk: &S,
        walk_query: &S::Query,
        refine: &R,
        refine_query: &R::Query,
        k: usize,
        ef: usize,
        refine_k: usize,
    ) -> (r: Vec<(u32, u32)>)
        requires
            self@.graph.wf(),
            walk.ready(),
            walk.accepts(*walk_query),
            refine.ready(),
            refine.accepts(*refine_query),
            self@.graph.len() <= walk.count(),
            self@.graph.len() <= refine.count(),
        ensures
            r@ == refined_hits(
                self@.graph,
                query_scores(walk, *walk_query),
                query_scores(refine, *refine_query),
                k as nat,
                ef as nat,
                refine_k as nat,
            ),
    {
        let wide: usize = if refine_k >= k {
            refine_k
        } else {
            k
        };
        let short: usize = if wide <= ef {
            wide
        } else {
            ef
        };
        let beam = self.graph.search(walk, walk_query, short, ef);
        proof {
            let f = query_scores(walk, *walk_query);
            law_search_result(self.graph@, f, short as nat, ef as nat);
            assert forall|i: int| 0 <= i < beam@.len() implies (#[trigger] beam@[i]).0
                < refine.count() by {
                assert(search_hits(self.graph@, f, short as nat, ef as nat)[i].node
                    < self.graph@.adj.len());
            }
        }
        refine_hits(refine, refine_query, &beam, k)
    }

    /// Walk on the resident 8-bit plane, then re-rank on `refine`.
    pub fn search_sq8_refine<R: NodeScorer>(
        &self,
        query: &Vec<i8>,
        refine: &R,
        refine_query: &R::Query,
        k: usize,
        ef: usize,
        refine_k: usize,
    ) -> (r: Vec<(u32, u32)>)
        requires
            self@.graph.wf(),
            self@.sq8.len() == self@.graph.len() * self@.dim,
            self@.dim <= SQ8_DIM_MAX,
            query@.len() == self@.dim,
            refine.ready(),
            refine.accepts(*refine_query),
            self@.graph.len() <= refine.count(),
        ensures
            r@ == refined_hits(
                self@.graph,
                sq8_scores(self@.sq8, self@.dim as int, query@),
                query_scores(refine, *refine_query),
                k as nat,
                ef as nat,
                refine_k as nat,
            ),
    {
        let walk = Sq8WalkScorer::new(self.sq8_plane.bytes(), self.dim, self.graph.len());
        proof {
            assert(query_scores(&walk, *query) =~= sq8_scores(
                self@.sq8,
                self@.dim as int,
                query@,
            ));
        }
        self.search_walk_refine(&walk, query, refine, refine_query, k, ef, refine_k)
    }
}

} // verus!
