//! What calibration measures, and what its choices stand for: recall counts
//! the true nearest that a search finds, each anchor gets the first beam that
//! reaches the target, and the stamped recall is that of the stamped graph.
use vstd::prelude::*;

use crate::calibrate::{
    all_scored, anchor_beams, calib_params, calibrated, choice_of, curve_anchors, curve_of,
    doublings, first_clearing, found_nodes, hits_among, law_sorted_set, least_or, lemma_doublings,
    lemma_doublings_bound, no_choice, pick, prefix, ratio_pattern, recall_at, recall_hits,
    recall_matrix, recall_total, running_beam, sorted_set, true_topk, truth_depth, truths,
    unit_clamped, widest, CalibChoice,
};
use crate::float_bits::{f64_le, f64_lt, f64_nan};
use crate::graph::{
    built, heights_ok, law_build_is_well_formed, law_prune_base_layer, pruned, GraphModel,
};
use crate::reach::{law_wide_search_is_exhaustive, lemma_all_ascend, strongly_connected};
use crate::rounding::{
    law_rounding_is_to_the_nearest, lemma_powers, lemma_two_to_split, round_half_even, two_to,
};
use crate::scored::{before, law_sort_is_sorted_permutation, sort_scored};
use crate::scorer::{pair_scores, query_scores, NodeScorer};
use crate::walk::scored_under;

verus! {

// ---------------- truth ----------------

/// The truth of a query holds the `k` nearest nodes, all where there are
/// fewer: each once, nearest first, ties by id, and none that is left out
/// comes before one that is in.
pub proof fn law_truth_is_the_nearest(f: spec_fn(u32) -> u32, n: nat, k: nat)
    requires
        n <= u32::MAX,
    ensures
        k <= n ==> true_topk(f, n, k).len() == k,
        k >= n ==> true_topk(f, n, k).len() == n,
        forall|i: int| 0 <= i < true_topk(f, n, k).len() ==> #[trigger] true_topk(f, n, k)[i] < n,
        forall|i: int, j: int|
            0 <= i < j < true_topk(f, n, k).len() ==> before(
                scored_under(f, #[trigger] true_topk(f, n, k)[i]),
                scored_under(f, #[trigger] true_topk(f, n, k)[j]),
            ),
        forall|i: int, y: u32|
            0 <= i < true_topk(f, n, k).len() && y < n && !true_topk(f, n, k).contains(y)
                ==> #[trigger] before(scored_under(f, true_topk(f, n, k)[i]), scored_under(f, y)),
{
    let s = sort_scored(all_scored(f, n));
    law_sort_is_sorted_permutation(all_scored(f, n));
    lemma_all_ascend(f, n);
    let r = true_topk(f, n, k);
    assert forall|i: int| 0 <= i < r.len() implies #[trigger] r[i] < n && s[i] == scored_under(
        f,
        r[i],
    ) by {
        assert(r[i] == s[i].node);
        assert(s.contains(s[i]));
    }
    assert forall|i: int, j: int| 0 <= i < j < r.len() implies before(
        scored_under(f, #[trigger] r[i]),
        scored_under(f, #[trigger] r[j]),
    ) by {
        assert(before(s[i], s[j]));
    }
    assert forall|i: int, y: u32| 0 <= i < r.len() && y < n && !r.contains(y) implies #[trigger] before(
        scored_under(f, r[i]),
        scored_under(f, y),
    ) by {
        let c = scored_under(f, y);
        assert(s.contains(c));
        let q = choose|q: int| 0 <= q < s.len() && s[q] == c;
        if q < r.len() {
            assert(r[q] == y);
        }
        assert(s[i] == scored_under(f, r[i]));
        assert(before(s[i], s[q]));
    }
}

// ---------------- recall ----------------

/// Hits are the true nearest that were found, each counted once per place in
/// the truth.
pub proof fn law_hits_are_what_is_common(truth: Seq<u32>, got: Seq<u32>)
    ensures
        hits_among(truth, got) == truth.filter(|x: u32| got.contains(x)).len(),
    decreases truth.len(),
{
    reveal(Seq::filter);
    if truth.len() > 0 {
        law_hits_are_what_is_common(truth.drop_last(), got);
    }
}

/// Hits of query `i`.
pub open spec fn query_hits<S: NodeScorer>(
    s: &S,
    g: GraphModel,
    queries: Seq<S::Query>,
    gt: Seq<Seq<u32>>,
    k: nat,
    depth: nat,
    ef: nat,
    i: int,
) -> nat {
    prefix(gt[i], k).filter(
        |x: u32| prefix(found_nodes(g, query_scores(s, queries[i]), depth, ef), k).contains(x),
    ).len()
}

/// Hits and what there is to hit are counted over all queries, each once.
pub proof fn law_recall_counts_every_query<S: NodeScorer>(
    s: &S,
    g: GraphModel,
    queries: Seq<S::Query>,
    gt: Seq<Seq<u32>>,
    k: nat,
    depth: nat,
    ef: nat,
    upto: nat,
)
    requires
        upto <= gt.len(),
    ensures
        recall_hits(s, g, queries, gt, k, depth, ef, upto) == Seq::new(
            upto,
            |i: int| query_hits(s, g, queries, gt, k, depth, ef, i),
        ).fold_left(0nat, |a: nat, b: nat| a + b),
        recall_total(gt, k, upto) == Seq::new(
            upto,
            |i: int|
                if gt[i].len() < k {
                    gt[i].len()
                } else {
                    k
                },
        ).fold_left(0nat, |a: nat, b: nat| a + b),
    decreases upto,
{
    let hits = Seq::new(upto, |i: int| query_hits(s, g, queries, gt, k, depth, ef, i));
    let sizes = Seq::new(
        upto,
        |i: int|
            if gt[i].len() < k {
                gt[i].len()
            } else {
                k
            },
    );
    let sum = |a: nat, b: nat| a + b;
    reveal_with_fuel(Seq::fold_left, 2);
    if upto > 0 {
        let n = (upto - 1) as nat;
        law_recall_counts_every_query(s, g, queries, gt, k, depth, ef, n);
        assert(hits.drop_last() =~= Seq::new(
            n,
            |i: int| query_hits(s, g, queries, gt, k, depth, ef, i),
        ));
        assert(sizes.drop_last() =~= Seq::new(
            n,
            |i: int|
                if gt[i].len() < k {
                    gt[i].len()
                } else {
                    k
                },
        ));
        law_hits_are_what_is_common(
            prefix(gt[n as int], k),
            prefix(found_nodes(g, query_scores(s, queries[n as int]), depth, ef), k),
        );
    }
}

proof fn lemma_all_hit(truth: Seq<u32>, got: Seq<u32>)
    requires
        forall|i: int| 0 <= i < truth.len() ==> got.contains(#[trigger] truth[i]),
    ensures
        hits_among(truth, got) == truth.len(),
    decreases truth.len(),
{
    if truth.len() > 0 {
        let d = truth.drop_last();
        assert forall|i: int| 0 <= i < d.len() implies got.contains(#[trigger] d[i]) by {
            assert(d[i] == truth[i]);
        }
        lemma_all_hit(d, got);
        assert(got.contains(truth[truth.len() - 1]));
    }
}

/// The pattern of a whole share is that of `1.0`.
proof fn lemma_whole(n: nat)
    requires
        n > 0,
    ensures
        ratio_pattern(n, n) == 0x3ff0_0000_0000_0000,
{
    let top = n * 1 * 0x10_0000_0000_0000;
    assert(crate::rounding::two_to(0) == 1);
    assert(top == 0x10_0000_0000_0000 * n) by (nonlinear_arith)
        requires
            top == n * 1 * 0x10_0000_0000_0000,
    ;
    vstd::arithmetic::div_mod::lemma_fundamental_div_mod_converse(
        top as int,
        n as int,
        0x10_0000_0000_0000,
        0,
    );
    assert(crate::rounding::round_half_even(top as nat, n) == 0x10_0000_0000_0000);
}

/// Recall is `1.0` where every search finds all of its truth.
pub proof fn law_finding_all_is_full_recall<S: NodeScorer>(
    s: &S,
    g: GraphModel,
    queries: Seq<S::Query>,
    gt: Seq<Seq<u32>>,
    k: nat,
    depth: nat,
    ef: nat,
)
    requires
        queries.len() == gt.len(),
        recall_total(gt, k, gt.len()) > 0,
        forall|i: int, j: int|
            0 <= i < gt.len() && 0 <= j < gt[i].len() && j < k ==> prefix(
                found_nodes(g, query_scores(s, queries[i]), depth, ef),
                k,
            ).contains(#[trigger] gt[i][j]),
    ensures
        recall_at(s, g, queries, gt, k, depth, ef) == 0x3ff0_0000_0000_0000,
{
    lemma_all_found(s, g, queries, gt, k, depth, ef, gt.len());
    lemma_whole(recall_total(gt, k, gt.len()));
}

proof fn lemma_all_found<S: NodeScorer>(
    s: &S,
    g: GraphModel,
    queries: Seq<S::Query>,
    gt: Seq<Seq<u32>>,
    k: nat,
    depth: nat,
    ef: nat,
    upto: nat,
)
    requires
        upto <= gt.len(),
        forall|i: int, j: int|
            0 <= i < gt.len() && 0 <= j < gt[i].len() && j < k ==> prefix(
                found_nodes(g, query_scores(s, queries[i]), depth, ef),
                k,
            ).contains(#[trigger] gt[i][j]),
    ensures
        recall_hits(s, g, queries, gt, k, depth, ef, upto) == recall_total(gt, k, upto),
    decreases upto,
{
    if upto > 0 {
        let n = upto - 1;
        lemma_all_found(s, g, queries, gt, k, depth, ef, n as nat);
        let truth = prefix(gt[n], k);
        let got = prefix(found_nodes(g, query_scores(s, queries[n]), depth, ef), k);
        assert forall|j: int| 0 <= j < truth.len() implies got.contains(#[trigger] truth[j]) by {
            assert(truth[j] == gt[n][j]);
        }
        lemma_all_hit(truth, got);
    }
}

/// A beam as wide as a connected graph has full recall on its own distances.
pub proof fn law_exhaustive_beam_has_full_recall<S: NodeScorer>(
    s: &S,
    g: GraphModel,
    queries: Seq<S::Query>,
    k: nat,
    ef: nat,
)
    requires
        g.wf(),
        g.adj.len() == s.count(),
        0 < s.count() <= u32::MAX,
        strongly_connected(g.adj, 0),
        ef >= s.count(),
        queries.len() > 0,
        k > 0,
    ensures
        recall_at(s, g, queries, truths(s, queries, k), k, k, ef) == 0x3ff0_0000_0000_0000,
{
    let gt = truths(s, queries, k);
    assert forall|i: int, j: int|
        0 <= i < gt.len() && 0 <= j < gt[i].len() && j < k implies prefix(
        found_nodes(g, query_scores(s, queries[i]), k, ef),
        k,
    ).contains(#[trigger] gt[i][j]) by {
        let f = query_scores(s, queries[i]);
        law_wide_search_is_exhaustive(g, f, k, ef);
        law_truth_is_the_nearest(f, s.count(), k);
        let got = prefix(found_nodes(g, f, k, ef), k);
        assert(got =~= gt[i]);
        assert(got[j] == gt[i][j]);
    }
    assert(recall_total(gt, k, gt.len()) > 0) by {
        let n = (gt.len() - 1) as nat;
        let f = query_scores(s, queries[n as int]);
        law_truth_is_the_nearest(f, s.count(), k);
        assert(prefix(gt[n as int], k).len() > 0);
        assert(recall_total(gt, k, gt.len()) == recall_total(gt, k, n) + prefix(
            gt[n as int],
            k,
        ).len());
    }
    law_finding_all_is_full_recall(s, g, queries, gt, k, k, ef);
}

// ---------------- beam curve ----------------

/// `beam` is what an anchor asks for: the first tried beam whose recall there
/// is at least the target, and the last tried one where none is.
pub open spec fn fits_anchor<S: NodeScorer>(
    s: &S,
    g: GraphModel,
    queries: Seq<S::Query>,
    gt: Seq<Seq<u32>>,
    anchor: nat,
    depth: nat,
    efs: Seq<usize>,
    target: u64,
    beam: nat,
) -> bool {
    ||| exists|i: int|
        #![trigger efs[i]]
        0 <= i < efs.len() && beam == efs[i] && f64_le(
            target,
            recall_at(s, g, queries, gt, anchor, depth, efs[i] as nat),
        ) && forall|j: int|
            0 <= j < i ==> !f64_le(
                target,
                recall_at(s, g, queries, gt, anchor, depth, #[trigger] efs[j] as nat),
            )
    ||| beam == (if efs.len() == 0 {
        0
    } else {
        efs[efs.len() - 1] as int
    }) && forall|j: int|
        0 <= j < efs.len() ==> !f64_le(
            target,
            recall_at(s, g, queries, gt, anchor, depth, #[trigger] efs[j] as nat),
        )
}

proof fn lemma_first_clearing<S: NodeScorer>(
    s: &S,
    g: GraphModel,
    queries: Seq<S::Query>,
    gt: Seq<Seq<u32>>,
    anchor: nat,
    depth: nat,
    efs: Seq<usize>,
    target: u64,
    upto: nat,
) -> (at: int)
    requires
        upto <= efs.len(),
    ensures
        ({
            let r = first_clearing(s, g, queries, gt, anchor, depth, efs, target, upto);
            &&& 0 <= at <= upto
            &&& at == upto ==> r is None
            &&& at < upto ==> r == Some(efs[at]) && f64_le(
                target,
                recall_at(s, g, queries, gt, anchor, depth, efs[at] as nat),
            )
            &&& forall|j: int|
                0 <= j < at ==> !f64_le(
                    target,
                    recall_at(s, g, queries, gt, anchor, depth, #[trigger] efs[j] as nat),
                )
        }),
    decreases upto,
{
    if upto == 0 {
        0
    } else {
        let n = (upto - 1) as nat;
        let at = lemma_first_clearing(s, g, queries, gt, anchor, depth, efs, target, n);
        if at < n {
            at
        } else if f64_le(target, recall_at(s, g, queries, gt, anchor, depth, efs[n as int] as nat)) {
            n as int
        } else {
            upto as int
        }
    }
}

proof fn lemma_widest(anchors: Seq<usize>, n: nat)
    requires
        n <= anchors.len(),
    ensures
        forall|j: int| 0 <= j < n ==> #[trigger] anchors[j] <= widest(anchors, n),
        n > 0 ==> exists|j: int| 0 <= j < n && #[trigger] anchors[j] == widest(anchors, n),
    decreases n,
{
    if n > 0 {
        lemma_widest(anchors, (n - 1) as nat);
        if anchors[n - 1] > widest(anchors, (n - 1) as nat) || n == 1 {
            assert(anchors[n - 1] == widest(anchors, n));
        }
    }
}

proof fn lemma_running(beams: spec_fn(int) -> nat, i: int)
    requires
        0 <= i,
    ensures
        forall|j: int| 0 <= j <= i ==> #[trigger] beams(j) <= running_beam(beams, i),
        exists|j: int| 0 <= j <= i && #[trigger] beams(j) == running_beam(beams, i),
    decreases i,
{
    if i > 0 {
        lemma_running(beams, i - 1);
        assert(beams(i) == beams(i));
    } else {
        assert(running_beam(beams, -1) == 0);
        assert(beams(0) == running_beam(beams, 0));
    }
}

/// `curve` has a place for every anchor, and its beam there is the greatest
/// that the anchors up to it ask for.
pub open spec fn curve_fits<S: NodeScorer>(
    s: &S,
    g: GraphModel,
    queries: Seq<S::Query>,
    gt: Seq<Seq<u32>>,
    anchors: Seq<usize>,
    depth: nat,
    efs: Seq<usize>,
    target: u64,
    curve: Seq<(u32, u32)>,
    asked: Seq<nat>,
) -> bool {
    &&& curve.len() == anchors.len()
    &&& asked.len() == anchors.len()
    &&& forall|a: int|
        0 <= a < anchors.len() ==> fits_anchor(
            s,
            g,
            queries,
            gt,
            anchors[a] as nat,
            depth,
            efs,
            target,
            #[trigger] asked[a],
        )
    &&& forall|a: int| 0 <= a < anchors.len() ==> (#[trigger] curve[a]).0 == anchors[a]
    &&& forall|a: int, b: int|
        0 <= b <= a < anchors.len() ==> (#[trigger] curve[a]).1 >= #[trigger] asked[b]
    &&& forall|a: int|
        0 <= a < anchors.len() ==> asked_for(asked, a, (#[trigger] curve[a]).1 as nat)
}

/// One of the anchors up to place `a` asks for `beam`.
pub open spec fn asked_for(asked: Seq<nat>, a: int, beam: nat) -> bool {
    exists|b: int| 0 <= b <= a && #[trigger] asked[b] == beam
}

/// Each anchor asks for the first tried beam that reaches the target there,
/// measured by a search that is as deep as the widest anchor, or for the last
/// tried beam where none does; and the curve gives it the greatest beam asked
/// for up to it.
pub proof fn law_curve_takes_the_first_beam_that_clears<S: NodeScorer>(
    s: &S,
    g: GraphModel,
    queries: Seq<S::Query>,
    gt: Seq<Seq<u32>>,
    anchors: Seq<usize>,
    depth: nat,
    efs: Seq<usize>,
    target: u64,
)
    requires
        forall|q: int| 0 <= q < efs.len() ==> #[trigger] efs[q] <= u32::MAX,
        forall|q: int| 0 <= q < anchors.len() ==> #[trigger] anchors[q] <= u32::MAX,
        forall|q: int| 0 <= q < anchors.len() ==> #[trigger] anchors[q] <= depth,
        anchors.len() > 0 ==> exists|q: int| 0 <= q < anchors.len() && #[trigger] anchors[q] == depth,
    ensures
        exists|asked: Seq<nat>| #[trigger]
            curve_fits(
                s,
                g,
                queries,
                gt,
                anchors,
                depth,
                efs,
                target,
                curve_of(s, g, queries, gt, anchors, efs, target),
                asked,
            ),
{
    let curve = curve_of(s, g, queries, gt, anchors, efs, target);
    let beams = anchor_beams(s, g, queries, gt, anchors, efs, target);
    let asked = Seq::new(anchors.len(), |a: int| beams(a));
    lemma_widest(anchors, anchors.len());
    assert(anchors.len() > 0 ==> depth == widest(anchors, anchors.len()));
    assert forall|a: int| 0 <= a < anchors.len() implies fits_anchor(
        s,
        g,
        queries,
        gt,
        anchors[a] as nat,
        depth,
        efs,
        target,
        #[trigger] asked[a],
    ) && asked[a] <= u32::MAX by {
        let at = lemma_first_clearing(
            s,
            g,
            queries,
            gt,
            anchors[a] as nat,
            depth,
            efs,
            target,
            efs.len(),
        );
        if at < efs.len() {
            assert(asked[a] == efs[at]);
        } else if efs.len() > 0 {
            assert(asked[a] == efs[efs.len() - 1]);
        }
    }
    assert forall|a: int| 0 <= a < anchors.len() implies (#[trigger] curve[a]).1 == running_beam(
        beams,
        a,
    ) by {
        lemma_running(beams, a);
        let b = choose|b: int| 0 <= b <= a && #[trigger] beams(b) == running_beam(beams, a);
        assert(asked[b] <= u32::MAX);
    }
    assert forall|a: int, b: int| 0 <= b <= a < anchors.len() implies (#[trigger] curve[a]).1
        >= #[trigger] asked[b] by {
        lemma_running(beams, a);
        assert(beams(b) <= running_beam(beams, a));
    }
    assert forall|a: int| 0 <= a < anchors.len() implies asked_for(
        asked,
        a,
        (#[trigger] curve[a]).1 as nat,
    ) by {
        lemma_running(beams, a);
        let b = choose|b: int| 0 <= b <= a && #[trigger] beams(b) == running_beam(beams, a);
        assert(curve[a].1 == asked[b]);
    }
    assert forall|a: int| 0 <= a < anchors.len() implies (#[trigger] curve[a]).0 == anchors[a] by {
        assert(anchors[a] <= u32::MAX);
    }
    assert(curve_fits(s, g, queries, gt, anchors, depth, efs, target, curve, asked));
}

// ---------------- choice ----------------

/// The choice that the pair at `(m, e)` stands for.
pub open spec fn measured_choice(
    recall: Seq<Seq<u64>>,
    m0s: Seq<usize>,
    efs: Seq<usize>,
    target: u64,
    floor: u64,
    m: int,
    e: int,
    c: CalibChoice,
) -> bool {
    &&& c.m0 == m0s[m]
    &&& c.ef == efs[e]
    &&& c.recall == recall[m][e]
    &&& c.registered <==> f64_le(floor, recall[m][e])
    &&& c.at_target <==> f64_le(target, recall[m][e])
}

/// `(m, e)` is tried before `(m2, e2)`: it has a smaller beam, or the same and
/// a smaller degree.
pub open spec fn tried_before(m: int, e: int, m2: int, e2: int) -> bool {
    e < e2 || (e == e2 && m < m2)
}

/// A place of the matrix at or behind `(mi, ei)`.
spec fn is_left(m0s: Seq<usize>, efs: Seq<usize>, mi: int, ei: int, m: int, e: int) -> bool {
    0 <= m < m0s.len() && 0 <= e < efs.len() && !tried_before(m, e, mi, ei)
}

/// The pair at `(m, e)` is the first left that reaches the target.
spec fn first_at_target(
    recall: Seq<Seq<u64>>,
    m0s: Seq<usize>,
    efs: Seq<usize>,
    target: u64,
    mi: int,
    ei: int,
    m: int,
    e: int,
) -> bool {
    &&& is_left(m0s, efs, mi, ei, m, e)
    &&& f64_le(target, recall[m][e])
    &&& forall|m2: int, e2: int| #[trigger]
        is_left(m0s, efs, mi, ei, m2, e2) && tried_before(m2, e2, m, e) ==> !f64_le(
            target,
            recall[m2][e2],
        )
}

/// The pair at `(m, e)` is the first left of those with the best recall.
spec fn first_best(
    recall: Seq<Seq<u64>>,
    m0s: Seq<usize>,
    efs: Seq<usize>,
    mi: int,
    ei: int,
    m: int,
    e: int,
) -> bool {
    &&& is_left(m0s, efs, mi, ei, m, e)
    &&& forall|m2: int, e2: int| #[trigger]
        is_left(m0s, efs, mi, ei, m2, e2) ==> !f64_lt(recall[m][e], recall[m2][e2])
    &&& forall|m2: int, e2: int| #[trigger]
        is_left(m0s, efs, mi, ei, m2, e2) && tried_before(m2, e2, m, e) ==> !f64_le(
            recall[m][e],
            recall[m2][e2],
        )
}

proof fn lemma_picked(
    recall: Seq<Seq<u64>>,
    m0s: Seq<usize>,
    efs: Seq<usize>,
    target: u64,
    floor: u64,
    best: CalibChoice,
    mi: int,
    ei: int,
) -> (at: (int, int))
    requires
        0 <= mi <= m0s.len(),
        0 <= ei <= efs.len(),
    ensures
        ({
            let c = pick(recall, m0s, efs, target, floor, best, ei, mi);
            let reached = exists|m: int, e: int| #[trigger]
                is_left(m0s, efs, mi, ei, m, e) && f64_le(target, recall[m][e]);
            &&& reached ==> first_at_target(recall, m0s, efs, target, mi, ei, at.0, at.1)
                && measured_choice(recall, m0s, efs, target, floor, at.0, at.1, c)
            &&& !reached && at.0 >= 0 ==> first_best(recall, m0s, efs, mi, ei, at.0, at.1)
                && measured_choice(recall, m0s, efs, target, floor, at.0, at.1, c) && f64_lt(
                best.recall,
                c.recall,
            )
            &&& !reached && at.0 < 0 ==> c == best && forall|m: int, e: int| #[trigger]
                is_left(m0s, efs, mi, ei, m, e) ==> !f64_lt(best.recall, recall[m][e])
        }),
    decreases efs.len() - ei, m0s.len() - mi,
{
    if ei >= efs.len() {
        (-1, -1)
    } else if mi >= m0s.len() {
        let at = lemma_picked(recall, m0s, efs, target, floor, best, 0, ei + 1);
        assert forall|m: int, e: int| #[trigger] is_left(m0s, efs, mi, ei, m, e) <==> is_left(
            m0s,
            efs,
            0,
            ei + 1,
            m,
            e,
        ) by {}
        at
    } else {
        let c = choice_of(m0s[mi], efs[ei], recall[mi][ei], target, floor);
        assert(is_left(m0s, efs, mi, ei, mi, ei));
        if c.at_target {
            (mi, ei)
        } else {
            let next = if f64_lt(best.recall, c.recall) {
                c
            } else {
                best
            };
            let at = lemma_picked(recall, m0s, efs, target, floor, next, mi + 1, ei);
            assert forall|m: int, e: int| #[trigger]
                is_left(m0s, efs, mi, ei, m, e) <==> is_left(m0s, efs, mi + 1, ei, m, e) || (m == mi
                && e == ei) by {}
            if at.0 < 0 && f64_lt(best.recall, c.recall) {
                (mi, ei)
            } else {
                at
            }
        }
    }
}

/// The choice is the first pair that reaches the target, smallest beam first
/// and then smallest degree. Where none does, it is the first of the pairs
/// with the best recall, or the fallback where none beats that.
pub proof fn law_choice_is_first_at_target_or_best(
    recall: Seq<Seq<u64>>,
    m0s: Seq<usize>,
    efs: Seq<usize>,
    target: u64,
    floor: u64,
    fallback: CalibChoice,
) -> (at: (int, int))
    ensures
        ({
            let c = pick(recall, m0s, efs, target, floor, fallback, 0, 0);
            let inside = 0 <= at.0 < m0s.len() && 0 <= at.1 < efs.len();
            &&& inside ==> measured_choice(recall, m0s, efs, target, floor, at.0, at.1, c)
            &&& inside && c.at_target ==> forall|m: int, e: int|
                #![trigger recall[m][e]]
                0 <= m < m0s.len() && 0 <= e < efs.len() && tried_before(m, e, at.0, at.1)
                    ==> !f64_le(target, recall[m][e])
            &&& inside && !c.at_target ==> f64_lt(fallback.recall, c.recall) && forall|m: int, e: int|
                #![trigger recall[m][e]]
                0 <= m < m0s.len() && 0 <= e < efs.len() ==> !f64_le(target, recall[m][e])
                    && !f64_lt(c.recall, recall[m][e]) && (tried_before(m, e, at.0, at.1)
                    ==> !f64_le(c.recall, recall[m][e]))
            &&& !inside ==> c == fallback && forall|m: int, e: int|
                #![trigger recall[m][e]]
                0 <= m < m0s.len() && 0 <= e < efs.len() ==> !f64_le(target, recall[m][e])
                    && !f64_lt(fallback.recall, recall[m][e])
        }),
{
    let at = lemma_picked(recall, m0s, efs, target, floor, fallback, 0, 0);
    assert forall|m: int, e: int|
        #![trigger recall[m][e]]
        0 <= m < m0s.len() && 0 <= e < efs.len() implies is_left(m0s, efs, 0, 0, m, e) by {}
    at
}

/// The smallest candidate, or the default where there is none.
pub proof fn law_fallback_is_the_smallest(s: Seq<usize>, default: usize)
    ensures
        s.len() == 0 ==> least_or(s, s.len(), default) == default,
        s.len() > 0 ==> s.contains(least_or(s, s.len(), default)),
        forall|i: int| 0 <= i < s.len() ==> least_or(s, s.len(), default) <= #[trigger] s[i],
{
    if s.len() > 0 {
        lemma_least_or(s, s.len(), default);
    }
}

proof fn lemma_least_or(s: Seq<usize>, n: nat, default: usize)
    requires
        0 < n <= s.len(),
    ensures
        s.contains(least_or(s, n, default)),
        forall|i: int| 0 <= i < n ==> least_or(s, n, default) <= #[trigger] s[i],
    decreases n,
{
    if n > 1 {
        lemma_least_or(s, (n - 1) as nat, default);
        assert(s.contains(s[n - 1]));
    } else {
        assert(s.contains(s[0]));
    }
}

/// The floor that is applied lies between `0.0` and `1.0`, is the given one
/// where that does, and else the nearer of the two bounds.
pub proof fn law_floor_is_clamped(x: u64)
    requires
        !f64_nan(x),
    ensures
        f64_le(0, unit_clamped(x)),
        f64_le(unit_clamped(x), 0x3ff0_0000_0000_0000),
        f64_le(0, x) && f64_le(x, 0x3ff0_0000_0000_0000) ==> unit_clamped(x) == x,
        f64_lt(x, 0) ==> unit_clamped(x) == 0,
        f64_lt(0x3ff0_0000_0000_0000, x) ==> unit_clamped(x) == 0x3ff0_0000_0000_0000u64,
{
}

proof fn lemma_full_degree(pair: spec_fn(u32, u32) -> u32, p: crate::link::HnswParams, levels: Seq<u32>)
    requires
        heights_ok(levels),
        levels.len() <= u32::MAX,
    ensures
        pruned(built(pair, p, levels), pair, p.m0 as nat) == built(pair, p, levels),
        built(pair, p, levels).wf(),
{
    let g = built(pair, p, levels);
    law_build_is_well_formed(pair, p, levels);
    law_prune_base_layer(g, pair, p.m0 as nat);
    let q = pruned(g, pair, p.m0 as nat);
    assert forall|v: int| 0 <= v < g.adj.len() implies #[trigger] q.adj[v] == g.adj[v] by {
        assert(g.adj[v].len() > 0);
        assert(crate::link::list_ok(g.adj[v][0], v, crate::link::cap_at(p, 0)));
        assert forall|l: int| 0 <= l < g.adj[v].len() implies #[trigger] q.adj[v][l]
            == g.adj[v][l] by {
            if l == 0 {
                assert((q.adj[v])[0] == g.adj[v][0]);
            }
        }
        assert(q.adj[v] =~= g.adj[v]);
    }
    assert(q.adj =~= g.adj);
}

/// What calibration hands out fits together. A graph comes out exactly where
/// the choice is registered; its degree is the chosen one, and the recall that
/// is stamped is the recall of that graph searched with the chosen beam. A
/// curve comes with it exactly where one is wanted and the target is reached.
pub proof fn law_calibration_stamps_what_it_hands_out<S: NodeScorer, R: NodeScorer>(
    serving: &S,
    serving_queries: Seq<S::Query>,
    reference: &R,
    reference_queries: Seq<R::Query>,
    levels: Seq<u32>,
    m0_candidates: Seq<usize>,
    ef_candidates: Seq<usize>,
    target: u64,
    floor: u64,
    ef_construction: usize,
    k: nat,
    want_curve: bool,
    depth: nat,
)
    requires
        heights_ok(levels),
        levels.len() == serving.count() <= u32::MAX,
        depth == k || depth == 100,
        depth >= k,
        depth >= 100,
    ensures
        ({
            let c = calibrated(
                serving,
                serving_queries,
                reference,
                reference_queries,
                levels,
                m0_candidates,
                ef_candidates,
                target,
                floor,
                ef_construction,
                k,
                want_curve,
            );
            let gt = truths(reference, reference_queries, depth);
            &&& c.graph is Some <==> c.choice.registered
            &&& c.choice.registered ==> {
                &&& f64_le(unit_clamped(floor), c.choice.recall)
                &&& m0_candidates.contains(c.choice.m0)
                &&& ef_candidates.contains(c.choice.ef)
                &&& c.graph->0.wf()
                &&& c.graph->0.m0 == c.choice.m0
                &&& c.graph->0.m == 16
                &&& c.graph->0.ef_construction == ef_construction
                &&& c.graph->0.adj.len() == serving.count()
                &&& c.choice.recall == recall_at(
                    serving,
                    c.graph->0,
                    serving_queries,
                    gt,
                    k,
                    k,
                    c.choice.ef as nat,
                )
            }
            &&& c.choice.at_target ==> f64_le(target, c.choice.recall)
            &&& c.curve.len() > 0 <==> want_curve && c.choice.at_target && c.choice.registered
            &&& c.curve.len() > 0 ==> c.curve == curve_of(
                serving,
                c.graph->0,
                serving_queries,
                gt,
                seq![1usize, 10usize, 50usize, 100usize],
                sorted_set(ef_candidates),
                target,
            )
        }),
{
    if serving.count() > 0 && m0_candidates.len() > 0 && ef_candidates.len() > 0 {
        let m0s = sorted_set(m0_candidates);
        let efs = sorted_set(ef_candidates);
        law_sorted_set(m0_candidates);
        law_sorted_set(ef_candidates);
        let gt = truths(reference, reference_queries, truth_depth(k));
        let pair = pair_scores(serving);
        let p = calib_params(m0s.last(), ef_construction);
        let base = built(pair, p, levels);
        let recall = recall_matrix(serving, base, serving_queries, gt, m0s, efs, k);
        let fallback = no_choice(m0_candidates, ef_candidates);
        let at = law_choice_is_first_at_target_or_best(
            recall,
            m0s,
            efs,
            target,
            unit_clamped(floor),
            fallback,
        );
        lemma_full_degree(pair, p, levels);
        law_prune_base_layer(base, pair, m0s[at.0] as nat);
        assert(m0s.contains(m0s[m0s.len() - 1]));
        if 0 <= at.0 < m0s.len() && 0 <= at.1 < efs.len() {
            assert(m0s.contains(m0s[at.0]));
            assert(efs.contains(efs[at.1]));
            assert(recall[at.0][at.1] == recall_at(
                serving,
                pruned(base, pair, m0s[at.0] as nat),
                serving_queries,
                gt,
                k,
                k,
                efs[at.1] as nat,
            ));
        }
        assert(curve_anchors() =~= seq![1usize, 10usize, 50usize, 100usize]);
    }
}

/// No candidate pair that would be faster reaches the target: none with a
/// smaller beam, and none with the chosen beam and a smaller degree. Where the
/// choice itself does not reach it, none does, and none has a better recall.
pub proof fn law_calibration_chooses_the_fastest<S: NodeScorer, R: NodeScorer>(
    serving: &S,
    serving_queries: Seq<S::Query>,
    reference: &R,
    reference_queries: Seq<R::Query>,
    levels: Seq<u32>,
    m0_candidates: Seq<usize>,
    ef_candidates: Seq<usize>,
    target: u64,
    floor: u64,
    ef_construction: usize,
    k: nat,
    want_curve: bool,
    most: usize,
    m: usize,
    e: usize,
)
    requires
        heights_ok(levels),
        levels.len() == serving.count() <= u32::MAX,
        serving.count() > 0,
        m0_candidates.contains(most),
        forall|i: int| 0 <= i < m0_candidates.len() ==> #[trigger] m0_candidates[i] <= most,
        m0_candidates.contains(m),
        ef_candidates.contains(e),
    ensures
        ({
            let c = calibrated(
                serving,
                serving_queries,
                reference,
                reference_queries,
                levels,
                m0_candidates,
                ef_candidates,
                target,
                floor,
                ef_construction,
                k,
                want_curve,
            ).choice;
            let base = built(pair_scores(serving), calib_params(most, ef_construction), levels);
            let recall = recall_at(
                serving,
                pruned(base, pair_scores(serving), m as nat),
                serving_queries,
                truths(reference, reference_queries, truth_depth(k)),
                k,
                k,
                e as nat,
            );
            &&& c.at_target && (e < c.ef || (e == c.ef && m < c.m0)) ==> !f64_le(target, recall)
            &&& !c.at_target ==> !f64_le(target, recall) && !f64_lt(c.recall, recall)
        }),
{
    let m0s = sorted_set(m0_candidates);
    let efs = sorted_set(ef_candidates);
    law_sorted_set(m0_candidates);
    law_sorted_set(ef_candidates);
    assert(m0s.contains(most) && m0s.contains(m) && efs.contains(e));
    let top = choose|i: int| 0 <= i < m0s.len() && m0s[i] == most;
    let last = m0s[m0s.len() - 1];
    assert(m0s.contains(last));
    assert(m0_candidates.contains(last));
    let j = choose|j: int| 0 <= j < m0_candidates.len() && m0_candidates[j] == last;
    assert(m0_candidates[j] <= most);
    assert(m0s.last() == most) by {
        if top < m0s.len() - 1 {
            assert(m0s[top] < m0s[m0s.len() - 1]);
        }
    }
    let gt = truths(reference, reference_queries, truth_depth(k));
    let base = built(pair_scores(serving), calib_params(most, ef_construction), levels);
    let recall = recall_matrix(serving, base, serving_queries, gt, m0s, efs, k);
    let at = law_choice_is_first_at_target_or_best(
        recall,
        m0s,
        efs,
        target,
        unit_clamped(floor),
        no_choice(m0_candidates, ef_candidates),
    );
    let mi = choose|i: int| 0 <= i < m0s.len() && m0s[i] == m;
    let ei = choose|i: int| 0 <= i < efs.len() && efs[i] == e;
    assert(recall[mi][ei] == recall_at(
        serving,
        pruned(base, pair_scores(serving), m as nat),
        serving_queries,
        gt,
        k,
        k,
        e as nat,
    ));
    if 0 <= at.0 < m0s.len() && 0 <= at.1 < efs.len() {
        if at.1 < ei {
            assert(efs[at.1] < efs[ei]);
        }
        if at.0 < mi {
            assert(m0s[at.0] < m0s[mi]);
        }
    }
}

/// A recall figure is the share of hits, correctly rounded: with the exponent
/// `e` and the 53-bit significand `m` of its pattern, it is off by half a step
/// at most, and `m` is even on a tie. A full share is `1.0` and no hit is 0.
pub proof fn law_recall_figure_is_correctly_rounded(hit: nat, total: nat)
    requires
        0 < hit <= total < 0x20_0000_0000_0000,
    ensures
        ({
            let r = ratio_pattern(hit, total) as nat;
            let e = r / 0x10_0000_0000_0000;
            let m = 0x10_0000_0000_0000 + r % 0x10_0000_0000_0000;
            let scaled = hit * two_to((1075 - e) as nat);
            &&& e <= 1023
            &&& 2 * (m * total - scaled) <= total
            &&& 2 * (scaled - m * total) <= total
            &&& 2 * (m * total - scaled) == total || 2 * (scaled - m * total) == total ==> m % 2 == 0
        }),
        ratio_pattern(total, total) == 0x3ff0_0000_0000_0000,
        ratio_pattern(0, total) == 0,
{
    let d = doublings(hit, total);
    lemma_doublings(hit, total);
    lemma_doublings_bound(hit, total);
    lemma_whole(total);
    let c = two_to(d);
    let x = hit * c;
    let num = x * 0x10_0000_0000_0000;
    let q = round_half_even(num, total);
    law_rounding_is_to_the_nearest(num, total);
    let f = num as int / total as int;
    vstd::arithmetic::div_mod::lemma_fundamental_div_mod(num as int, total as int);
    assert(0x10_0000_0000_0000 <= f < 0x20_0000_0000_0000) by (nonlinear_arith)
        requires
            total <= x < 2 * total,
            num == x * 0x10_0000_0000_0000,
            num as int == total as int * f + num as int % total as int,
            0 <= num as int % (total as int) < total,
            total > 0,
    ;
    assert(q == f || q == f + 1);
    let r = (1022 - d) * 0x10_0000_0000_0000 + q;
    assert(0 <= r < 0x8000_0000_0000_0000);
    assert(ratio_pattern(hit, total) == r as u64);
    lemma_two_to_52();
    if q < 0x20_0000_0000_0000 {
        vstd::arithmetic::div_mod::lemma_fundamental_div_mod_converse(
            r,
            0x10_0000_0000_0000,
            1023 - d,
            q - 0x10_0000_0000_0000,
        );
        lemma_two_to_split(d, 52);
        assert(1075 - (1023 - d) == d + 52);
        assert(hit * two_to((d + 52) as nat) == num) by (nonlinear_arith)
            requires
                two_to((d + 52) as nat) == c * 0x10_0000_0000_0000,
                num == x * 0x10_0000_0000_0000,
                x == hit * c,
        ;
        let e = r as nat / 0x10_0000_0000_0000;
        let m = 0x10_0000_0000_0000 + r as nat % 0x10_0000_0000_0000;
        assert(e == 1023 - d && m == q);
        assert(hit * two_to((1075 - e) as nat) == num);
        assert(m * total == q * total);
    } else {
        vstd::arithmetic::div_mod::lemma_fundamental_div_mod_converse(
            r,
            0x10_0000_0000_0000,
            1024 - d,
            0,
        );
        assert(d > 0) by {
            if d == 0 {
                assert(two_to(0) == 1);
                assert(x == hit);
                vstd::arithmetic::div_mod::lemma_fundamental_div_mod_converse(
                    num as int,
                    total as int,
                    0x10_0000_0000_0000,
                    0,
                );
            }
        }
        let h = (d + 51) as nat;
        assert(two_to(h + 1) == 2 * two_to(h));
        lemma_two_to_split(d, 52);
        assert(h + 1 == d + 52);
        let half = hit * two_to(h);
        assert(2 * half == num) by (nonlinear_arith)
            requires
                half == hit * two_to(h),
                2 * two_to(h) == c * 0x10_0000_0000_0000,
                num == x * 0x10_0000_0000_0000,
                x == hit * c,
        ;
        assert(1075 - (1024 - d) == h);
        assert(q * total == 0x20_0000_0000_0000 * total) by (nonlinear_arith)
            requires
                q == 0x20_0000_0000_0000,
        ;
        let e = r as nat / 0x10_0000_0000_0000;
        let m = 0x10_0000_0000_0000 + r as nat % 0x10_0000_0000_0000;
        assert(e == 1024 - d && m == 0x10_0000_0000_0000);
        assert(m * total == 0x10_0000_0000_0000 * total) by (nonlinear_arith)
            requires
                m == 0x10_0000_0000_0000,
        ;
        assert(hit * two_to((1075 - e) as nat) == half);
    }
}

proof fn lemma_two_to_52()
    ensures
        two_to(52) == 0x10_0000_0000_0000,
{
    lemma_powers();
    lemma_two_to_split(24, 24);
    lemma_two_to_split(48, 4);
    assert(two_to(4) == 16) by {
        reveal_with_fuel(two_to, 5);
    }
}

} // verus!
