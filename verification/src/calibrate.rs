//! Calibration: which base degree and which query beam reach the recall
//! target, measured against exhaustive search.
use vstd::prelude::*;

use crate::float_bits::{at_most64, f64_le, f64_lt, f64_nan, less64, F64_ONE};
use crate::graph::{
    built, heights_ok, pruned, search_hits, GraphModel, Hnsw, splitmix64, splitmix64_next,
    splitmix64_output, SPLITMIX64_INCREMENT,
};
use crate::link::{lesser, nodes_of, HnswParams};
use crate::rounding::{lemma_two_to_split, round_half_even, two_to};
use crate::scored::{law_sort_is_sorted_permutation, sort, sort_scored, Scored};
use crate::scorer::{pair_scores, query_scores, NodeScorer};
use crate::visited::VisitedSet;
use crate::walk::scored_under;

verus! {

// ---------------- recall as a binary64 pattern ----------------

/// How often `hit` is doubled to reach `total`.
pub open spec fn doublings(hit: nat, total: nat) -> nat
    decreases (if hit < total { total - hit } else { 0 }),
{
    if hit == 0 || hit >= total {
        0
    } else {
        1 + doublings(2 * hit, total)
    }
}

/// The binary64 pattern of `hit / total`, correctly rounded; 0 where there is
/// nothing to hit.
pub open spec fn ratio_pattern(hit: nat, total: nat) -> u64 {
    if hit == 0 || total == 0 {
        0
    } else {
        let e = doublings(hit, total);
        let m = round_half_even(hit * two_to(e) * 0x10_0000_0000_0000, total);
        ((1022 - e) * 0x10_0000_0000_0000 + m) as u64
    }
}

pub proof fn lemma_doublings(hit: nat, total: nat)
    requires
        0 < hit <= total,
    ensures
        total <= hit * two_to(doublings(hit, total)) < 2 * total,
    decreases total - hit,
{
    if hit < total {
        if 2 * hit >= total {
            assert(doublings(2 * hit, total) == 0);
            assert(two_to(1) == 2) by {
                reveal_with_fuel(two_to, 2);
            }
            assert(hit * 2 == 2 * hit);
        } else {
            lemma_doublings(2 * hit, total);
            let e = doublings(2 * hit, total);
            let t = two_to(e);
            assert(two_to(e + 1) == 2 * t);
            assert((2 * hit) * t == hit * (2 * t)) by (nonlinear_arith);
        }
    } else {
        assert(hit * 1 == hit);
    }
}

/// The pattern of a recall figure.
pub fn ratio(hit: u64, total: u64) -> (r: u64)
    requires
        hit <= total < 0x20_0000_0000_0000,
    ensures
        r == ratio_pattern(hit as nat, total as nat),
{
    if hit == 0 || total == 0 {
        return 0;
    }
    let mut h: u64 = hit;
    let mut e: u64 = 0;
    proof {
        assert(hit * 1 == hit);
    }
    while h < total
        invariant
            0 < h,
            hit > 0,
            hit <= total < 0x20_0000_0000_0000,
            h < 2 * total,
            h == hit * two_to(e as nat),
            e + doublings(h as nat, total as nat) == doublings(hit as nat, total as nat),
            h >= e,
        decreases (if h < total { total - h } else { 0 }),
    {
        proof {
            let t = two_to(e as nat);
            assert(2 * (hit * t) == hit * (2 * t)) by (nonlinear_arith);
            assert(two_to((e + 1) as nat) == 2 * t);
        }
        h = h * 2;
        e = e + 1;
    }
    proof {
        lemma_doublings(hit as nat, total as nat);
        lemma_doublings_bound(hit as nat, total as nat);
    }
    let num: u128 = (h as u128) * 0x10_0000_0000_0000;
    let den: u128 = total as u128;
    let q: u128 = num / den;
    let rem: u128 = num % den;
    assert(0x10_0000_0000_0000 <= q < 0x20_0000_0000_0000) by (nonlinear_arith)
        requires
            q == num / den,
            num == h * 0x10_0000_0000_0000,
            den == total,
            total <= h < 2 * total,
            total > 0,
    ;
    assert(rem < den) by (nonlinear_arith)
        requires
            rem == num % den,
            den > 0,
    ;
    let m: u128 = if 2 * rem > den || (2 * rem == den && q % 2 == 1) {
        q + 1
    } else {
        q
    };
    (1022 - e) * 0x10_0000_0000_0000 + m as u64
}

pub proof fn lemma_doublings_bound(hit: nat, total: nat)
    requires
        0 < hit <= total < 0x20_0000_0000_0000,
    ensures
        doublings(hit, total) <= 53,
{
    lemma_doublings(hit, total);
    let e = doublings(hit, total);
    if e > 53 {
        lemma_two_to_grows(54, e);
        lemma_two_to_54();
        assert(hit * two_to(e) >= two_to(e)) by (nonlinear_arith)
            requires
                hit >= 1,
        ;
    }
}

proof fn lemma_two_to_54()
    ensures
        two_to(54) == 0x40_0000_0000_0000,
{
    assert(two_to(6) == 64 && two_to(8) == 256) by {
        reveal_with_fuel(two_to, 9);
    }
    lemma_two_to_split(8, 8);
    lemma_two_to_split(16, 16);
    lemma_two_to_split(32, 16);
    lemma_two_to_split(48, 6);
    let a = two_to(16);
    let b = two_to(32);
    let c = two_to(48);
    assert(b == 0x1_0000_0000) by (nonlinear_arith)
        requires
            a == 0x1_0000,
            b == a * a,
    ;
    assert(c == 0x1_0000_0000_0000) by (nonlinear_arith)
        requires
            a == 0x1_0000,
            b == 0x1_0000_0000,
            c == b * a,
    ;
    assert(c * 64 == 0x40_0000_0000_0000);
}

proof fn lemma_two_to_grows(a: nat, b: nat)
    requires
        a <= b,
    ensures
        two_to(a) <= two_to(b),
    decreases b - a,
{
    if a < b {
        lemma_two_to_grows(a, (b - 1) as nat);
    }
}

// ---------------- ground truth and recall ----------------

/// Every node with its distance.
pub open spec fn all_scored(f: spec_fn(u32) -> u32, n: nat) -> Seq<Scored> {
    Seq::new(n, |i: int| scored_under(f, i as u32))
}

pub open spec fn prefix(s: Seq<u32>, k: nat) -> Seq<u32> {
    s.subrange(0, lesser(k as int, s.len() as int))
}

/// The `k` nearest of `n` nodes, nearest first.
pub open spec fn true_topk(f: spec_fn(u32) -> u32, n: nat, k: nat) -> Seq<u32> {
    prefix(nodes_of(sort_scored(all_scored(f, n))), k)
}

/// The ids that nested lists hold.
pub open spec fn lists(v: Seq<Vec<u32>>) -> Seq<Seq<u32>> {
    Seq::new(v.len(), |i: int| v[i]@)
}

/// How many of `truth` are among `got`.
pub open spec fn hits_among(truth: Seq<u32>, got: Seq<u32>) -> nat
    decreases truth.len(),
{
    if truth.len() == 0 {
        0
    } else {
        hits_among(truth.drop_last(), got) + (if got.contains(truth.last()) {
            1nat
        } else {
            0nat
        })
    }
}

/// The nodes a search finds.
pub open spec fn found_nodes(
    g: GraphModel,
    f: spec_fn(u32) -> u32,
    k: nat,
    ef: nat,
) -> Seq<u32> {
    nodes_of(search_hits(g, f, k, ef))
}

/// Hits of the first `upto` queries: the `k` nearest of the truth that are
/// among the first `k` of what a search for `depth` finds.
pub open spec fn recall_hits<S: NodeScorer>(
    s: &S,
    g: GraphModel,
    queries: Seq<S::Query>,
    gt: Seq<Seq<u32>>,
    k: nat,
    depth: nat,
    ef: nat,
    upto: nat,
) -> nat
    decreases upto,
{
    if upto == 0 {
        0
    } else {
        let i = upto - 1;
        recall_hits(s, g, queries, gt, k, depth, ef, i as nat) + hits_among(
            prefix(gt[i], k),
            prefix(found_nodes(g, query_scores(s, queries[i]), depth, ef), k),
        )
    }
}

/// How many there are to hit.
pub open spec fn recall_total(gt: Seq<Seq<u32>>, k: nat, upto: nat) -> nat
    decreases upto,
{
    if upto == 0 {
        0
    } else {
        recall_total(gt, k, (upto - 1) as nat) + prefix(gt[upto - 1], k).len()
    }
}

pub open spec fn pairs_of(a: nat, b: nat) -> nat {
    if a <= b {
        a
    } else {
        b
    }
}

/// Recall at `k` of a search for `depth` nodes with an `ef`-wide beam.
pub open spec fn recall_at<S: NodeScorer>(
    s: &S,
    g: GraphModel,
    queries: Seq<S::Query>,
    gt: Seq<Seq<u32>>,
    k: nat,
    depth: nat,
    ef: nat,
) -> u64 {
    let n = pairs_of(queries.len(), gt.len());
    ratio_pattern(
        recall_hits(s, g, queries, gt, k, depth, ef, n),
        recall_total(gt, k, n),
    )
}

proof fn lemma_hits_among(truth: Seq<u32>, got: Seq<u32>)
    ensures
        hits_among(truth, got) <= truth.len(),
    decreases truth.len(),
{
    if truth.len() > 0 {
        lemma_hits_among(truth.drop_last(), got);
    }
}

/// Recall is a share: what is hit is part of what there is to hit.
pub proof fn law_recall_is_a_share<S: NodeScorer>(
    s: &S,
    g: GraphModel,
    queries: Seq<S::Query>,
    gt: Seq<Seq<u32>>,
    k: nat,
    depth: nat,
    ef: nat,
    upto: nat,
)
    ensures
        recall_hits(s, g, queries, gt, k, depth, ef, upto) <= recall_total(gt, k, upto),
    decreases upto,
{
    if upto > 0 {
        let i = (upto - 1) as nat;
        law_recall_is_a_share(s, g, queries, gt, k, depth, ef, i);
        lemma_hits_among(
            prefix(gt[i as int], k),
            prefix(found_nodes(g, query_scores(s, queries[i as int]), depth, ef), k),
        );
    }
}

/// With more queries there is no less to hit.
proof fn lemma_total_grows(gt: Seq<Seq<u32>>, k: nat, a: nat, b: nat)
    requires
        a <= b,
    ensures
        recall_total(gt, k, a) <= recall_total(gt, k, b),
    decreases b,
{
    if a < b {
        lemma_total_grows(gt, k, a, (b - 1) as nat);
    }
}

fn contains_id(v: &Vec<u32>, upto: usize, x: u32) -> (r: bool)
    requires
        upto <= v@.len(),
    ensures
        r == v@.subrange(0, upto as int).contains(x),
{
    let ghost s = v@.subrange(0, upto as int);
    let mut i: usize = 0;
    while i < upto
        invariant
            i <= upto <= v@.len(),
            s == v@.subrange(0, upto as int),
            forall|j: int| 0 <= j < i ==> s[j] != x,
        decreases upto - i,
    {
        if v[i] == x {
            assert(s[i as int] == x);
            return true;
        }
        i = i + 1;
    }
    false
}

fn smaller(a: usize, b: usize) -> (r: usize)
    ensures
        r == lesser(a as int, b as int),
{
    if a <= b {
        a
    } else {
        b
    }
}

/// How many of the first `k` of `truth` are among the first `k` of `got`.
fn count_hits(truth: &Vec<u32>, got: &Vec<u32>, k: usize) -> (r: usize)
    ensures
        r == hits_among(prefix(truth@, k as nat), prefix(got@, k as nat)),
        r <= prefix(truth@, k as nat).len(),
{
    let t: usize = smaller(k, truth.len());
    let g: usize = smaller(k, got.len());
    let ghost tp = prefix(truth@, k as nat);
    let ghost gp = prefix(got@, k as nat);
    let mut hit: usize = 0;
    let mut i: usize = 0;
    proof {
        assert(tp.subrange(0, 0) =~= Seq::<u32>::empty());
    }
    while i < t
        invariant
            i <= t <= truth@.len(),
            g <= got@.len(),
            tp == truth@.subrange(0, t as int),
            gp == got@.subrange(0, g as int),
            hit == hits_among(tp.subrange(0, i as int), gp),
            hit <= i,
        decreases t - i,
    {
        proof {
            let s = tp.subrange(0, i + 1);
            assert(s.drop_last() =~= tp.subrange(0, i as int));
            assert(s.last() == truth@[i as int]);
        }
        if contains_id(got, g, truth[i]) {
            hit = hit + 1;
        }
        i = i + 1;
    }
    proof {
        assert(tp.subrange(0, i as int) =~= tp);
    }
    hit
}

fn nodes_only(pairs: &Vec<(u32, u32)>) -> (r: Vec<u32>)
    ensures
        r@ == Seq::new(pairs@.len(), |i: int| pairs@[i].0),
{
    let mut out: Vec<u32> = Vec::new();
    let mut i: usize = 0;
    while i < pairs.len()
        invariant
            i <= pairs@.len(),
            out@.len() == i,
            forall|j: int| 0 <= j < i ==> #[trigger] out@[j] == pairs@[j].0,
        decreases pairs.len() - i,
    {
        out.push(pairs[i].0);
        i = i + 1;
    }
    proof {
        assert(out@ =~= Seq::new(pairs@.len(), |i: int| pairs@[i].0));
    }
    out
}

/// The `k` nearest nodes under `scorer`, by scoring them all.
pub fn exhaustive_topk<S: NodeScorer>(scorer: &S, query: &S::Query, k: usize) -> (r: Vec<u32>)
    requires
        scorer.ready(),
        scorer.accepts(*query),
        scorer.count() <= u32::MAX,
    ensures
        r@ == true_topk(query_scores(scorer, *query), scorer.count(), k as nat),
{
    let ghost f = query_scores(scorer, *query);
    let prepared = scorer.prepare(query);
    let n: usize = scorer.len();
    let mut all: Vec<Scored> = Vec::new();
    let mut i: usize = 0;
    while i < n
        invariant
            i <= n,
            n == scorer.count(),
            n <= u32::MAX,
            f == query_scores(scorer, *query),
            scorer.ready(),
            scorer.folded(prepared),
            forall|x: u32|
                #[trigger] scorer.score_of(prepared, x) == scorer.query_dist(*query, x),
            all@.len() == i,
            forall|j: int| 0 <= j < i ==> #[trigger] all@[j] == scored_under(f, j as u32),
        decreases n - i,
    {
        let d: u32 = scorer.score(&prepared, i as u32);
        all.push(Scored { dist: d, node: i as u32 });
        i = i + 1;
    }
    proof {
        assert(all@ =~= all_scored(f, n as nat));
    }
    let ranked = sort(&all);
    let ghost ids = nodes_of(ranked@);
    let take: usize = smaller(k, ranked.len());
    let mut out: Vec<u32> = Vec::new();
    i = 0;
    while i < take
        invariant
            i <= take <= ranked@.len(),
            out@.len() == i,
            forall|j: int| 0 <= j < i ==> #[trigger] out@[j] == ranked@[j].node,
        decreases take - i,
    {
        out.push(ranked[i].node);
        i = i + 1;
    }
    proof {
        assert(out@ =~= prefix(ids, k as nat));
    }
    out
}

/// Recall at `k` of the graph walked with an `ef`-wide beam against the given
/// truth. Truth lists may be deeper than `k`.
pub fn graph_recall<S: NodeScorer>(
    graph: &Hnsw,
    scorer: &S,
    queries: &Vec<S::Query>,
    gt: &Vec<Vec<u32>>,
    k: usize,
    ef: usize,
) -> (r: u64)
    requires
        graph@.wf(),
        scorer.ready(),
        graph@.len() <= scorer.count(),
        forall|i: int| 0 <= i < queries@.len() ==> scorer.accepts(#[trigger] queries@[i]),
        recall_total(lists(gt@), k as nat, pairs_of(queries@.len(), gt@.len()))
            < 0x20_0000_0000_0000,
    ensures
        r == recall_at(scorer, graph@, queries@, lists(gt@), k as nat, k as nat, ef as nat),
{
    let mut visited: VisitedSet = VisitedSet::new(graph.len());
    let (hit, total) = recall_counts(graph, scorer, queries, gt, k, k, ef, &mut visited);
    ratio(hit, total)
}

/// A query has no more to hit than there are nodes.
proof fn lemma_truths_total<R: NodeScorer>(
    reference: &R,
    queries: Seq<R::Query>,
    depth: nat,
    k: nat,
    upto: nat,
)
    requires
        upto <= queries.len(),
    ensures
        recall_total(truths(reference, queries, depth), k, upto) <= upto * lesser(
            k as int,
            reference.count() as int,
        ),
    decreases upto,
{
    let most = lesser(k as int, reference.count() as int);
    if upto > 0 {
        let i = (upto - 1) as nat;
        lemma_truths_total(reference, queries, depth, k, i);
        let f = query_scores(reference, queries[i as int]);
        law_sort_is_sorted_permutation(all_scored(f, reference.count()));
        assert(upto * most == i * most + most) by (nonlinear_arith)
            requires
                upto == i + 1,
        ;
    } else {
        assert(upto * most == 0) by (nonlinear_arith)
            requires
                upto == 0,
        ;
    }
}

/// The hits and how many there are to hit.
fn recall_counts<S: NodeScorer>(
    graph: &Hnsw,
    scorer: &S,
    queries: &Vec<S::Query>,
    gt: &Vec<Vec<u32>>,
    k: usize,
    depth: usize,
    ef: usize,
    visited: &mut VisitedSet,
) -> (r: (u64, u64))
    requires
        graph@.wf(),
        scorer.ready(),
        graph@.len() <= scorer.count(),
        forall|i: int| 0 <= i < queries@.len() ==> scorer.accepts(#[trigger] queries@[i]),
        recall_total(lists(gt@), k as nat, pairs_of(queries@.len(), gt@.len()))
            < 0x20_0000_0000_0000,
        old(visited).wf(),
        old(visited).cover() >= graph@.len(),
    ensures
        ({
            let n = pairs_of(queries@.len(), gt@.len());
            &&& r.0 == recall_hits(
                scorer,
                graph@,
                queries@,
                lists(gt@),
                k as nat,
                depth as nat,
                ef as nat,
                n,
            )
            &&& r.1 == recall_total(lists(gt@), k as nat, n)
            &&& r.0 <= r.1 < 0x20_0000_0000_0000
        }),
        final(visited).wf(),
        final(visited).cover() == old(visited).cover(),
{
    let n: usize = smaller(queries.len(), gt.len());
    let mut hit: u64 = 0;
    let mut total: u64 = 0;
    let mut i: usize = 0;
    while i < n
        invariant
            i <= n,
            n == pairs_of(queries@.len(), gt@.len()),
            graph@.wf(),
            scorer.ready(),
            graph@.len() <= scorer.count(),
            forall|j: int| 0 <= j < queries@.len() ==> scorer.accepts(#[trigger] queries@[j]),
            recall_total(lists(gt@), k as nat, n as nat) < 0x20_0000_0000_0000,
            visited.wf(),
            visited.cover() == old(visited).cover(),
            visited.cover() >= graph@.len(),
            hit == recall_hits(
                scorer,
                graph@,
                queries@,
                lists(gt@),
                k as nat,
                depth as nat,
                ef as nat,
                i as nat,
            ),
            total == recall_total(lists(gt@), k as nat, i as nat),
        decreases n - i,
    {
        assert(scorer.accepts(queries@[i as int]));
        let found = graph.search_scratch(scorer, &queries[i], depth, ef, visited);
        let got = nodes_only(&found);
        proof {
            let f = query_scores(scorer, queries@[i as int]);
            assert(got@ =~= found_nodes(graph@, f, depth as nat, ef as nat));
            law_recall_is_a_share(
                scorer,
                graph@,
                queries@,
                lists(gt@),
                k as nat,
                depth as nat,
                ef as nat,
                (i + 1) as nat,
            );
            lemma_total_grows(lists(gt@), k as nat, (i + 1) as nat, n as nat);
        }
        let h: usize = count_hits(&gt[i], &got, k);
        let t: usize = smaller(k, gt[i].len());
        hit = hit + h as u64;
        total = total + t as u64;
        i = i + 1;
    }
    proof {
        law_recall_is_a_share(
            scorer,
            graph@,
            queries@,
            lists(gt@),
            k as nat,
            depth as nat,
            ef as nat,
            n as nat,
        );
    }
    (hit, total)
}

/// Truth lists of every query.
fn ground_truth<R: NodeScorer>(reference: &R, queries: &Vec<R::Query>, depth: usize) -> (r: Vec<
    Vec<u32>,
>)
    requires
        reference.ready(),
        reference.count() <= u32::MAX,
        forall|i: int| 0 <= i < queries@.len() ==> reference.accepts(#[trigger] queries@[i]),
    ensures
        lists(r@) == truths(reference, queries@, depth as nat),
{
    let mut out: Vec<Vec<u32>> = Vec::new();
    let mut i: usize = 0;
    while i < queries.len()
        invariant
            i <= queries@.len(),
            reference.ready(),
            reference.count() <= u32::MAX,
            forall|j: int| 0 <= j < queries@.len() ==> reference.accepts(#[trigger] queries@[j]),
            out@.len() == i,
            forall|j: int|
                0 <= j < i ==> (#[trigger] out@[j])@ == true_topk(
                    query_scores(reference, queries@[j]),
                    reference.count(),
                    depth as nat,
                ),
        decreases queries.len() - i,
    {
        assert(reference.accepts(queries@[i as int]));
        out.push(exhaustive_topk(reference, &queries[i], depth));
        i = i + 1;
    }
    proof {
        assert(lists(out@) =~= truths(reference, queries@, depth as nat));
    }
    out
}

/// The `depth` nearest nodes of each query.
pub open spec fn truths<R: NodeScorer>(
    reference: &R,
    queries: Seq<R::Query>,
    depth: nat,
) -> Seq<Seq<u32>> {
    Seq::new(
        queries.len(),
        |i: int| true_topk(query_scores(reference, queries[i]), reference.count(), depth),
    )
}

/// Where the queries have a countable number of nodes to hit at `most`, they
/// have one at every `k` up to it.
proof fn lemma_countable<R: NodeScorer>(
    reference: &R,
    served: nat,
    queries: Seq<R::Query>,
    depth: nat,
    k: nat,
    most: nat,
)
    requires
        k <= most,
        served * lesser(most as int, reference.count() as int) < 0x20_0000_0000_0000,
    ensures
        recall_total(truths(reference, queries, depth), k, pairs_of(served, queries.len()))
            < 0x20_0000_0000_0000,
{
    let n = pairs_of(served, queries.len());
    let less = lesser(k as int, reference.count() as int);
    let more = lesser(most as int, reference.count() as int);
    lemma_truths_total(reference, queries, depth, k, n);
    assert(n * less <= served * more) by (nonlinear_arith)
        requires
            0 <= less <= more,
            n <= served,
    ;
}

/// Measured recall at `k` of a built graph walked on `serving`, against the
/// exhaustive truth of `reference`; 0 for an empty graph.
pub fn measure_recall<S: NodeScorer, R: NodeScorer>(
    graph: &Hnsw,
    serving: &S,
    serving_queries: &Vec<S::Query>,
    reference: &R,
    reference_queries: &Vec<R::Query>,
    ef: usize,
    k: usize,
) -> (r: u64)
    requires
        graph@.wf(),
        serving.ready(),
        graph@.len() <= serving.count(),
        forall|i: int|
            0 <= i < serving_queries@.len() ==> serving.accepts(#[trigger] serving_queries@[i]),
        reference.ready(),
        reference.count() <= u32::MAX,
        forall|i: int|
            0 <= i < reference_queries@.len() ==> reference.accepts(
                #[trigger] reference_queries@[i],
            ),
        serving_queries@.len() * lesser(k as int, reference.count() as int)
            < 0x20_0000_0000_0000,
    ensures
        r == (if graph@.len() == 0 {
            0
        } else {
            recall_at(
                serving,
                graph@,
                serving_queries@,
                truths(reference, reference_queries@, k as nat),
                k as nat,
                k as nat,
                ef as nat,
            )
        }),
{
    if graph.is_empty() {
        return 0;
    }
    let gt = ground_truth(reference, reference_queries, k);
    proof {
        lemma_countable(
            reference,
            serving_queries@.len(),
            reference_queries@,
            k as nat,
            k as nat,
            k as nat,
        );
        assert(lists(gt@).len() == gt@.len());
    }
    graph_recall(graph, serving, serving_queries, &gt, k, ef)
}

// ---------------- beam curve ----------------

/// Recall depths that a beam is stamped for, ascending.
pub open spec fn curve_anchors() -> Seq<usize> {
    seq![1usize, 10usize, 50usize, 100usize]
}

/// The largest of the first `n` anchors, 0 where there are none.
pub open spec fn widest(anchors: Seq<usize>, n: nat) -> nat
    decreases n,
{
    if n == 0 {
        0
    } else {
        let rest = widest(anchors, (n - 1) as nat);
        if anchors[n - 1] > rest {
            anchors[n - 1] as nat
        } else {
            rest
        }
    }
}

/// The first of `efs[from..]` whose recall at `anchor` reaches the target.
pub open spec fn first_clearing<S: NodeScorer>(
    s: &S,
    g: GraphModel,
    queries: Seq<S::Query>,
    gt: Seq<Seq<u32>>,
    anchor: nat,
    depth: nat,
    efs: Seq<usize>,
    target: u64,
    upto: nat,
) -> Option<usize>
    decreases upto,
{
    if upto == 0 {
        None
    } else {
        let i = (upto - 1) as nat;
        match first_clearing(s, g, queries, gt, anchor, depth, efs, target, i) {
            Some(ef) => Some(ef),
            None => if f64_le(
                target,
                recall_at(s, g, queries, gt, anchor, depth, efs[i as int] as nat),
            ) {
                Some(efs[i as int])
            } else {
                None
            },
        }
    }
}

/// The beam for an anchor: the first that clears it, or the widest tried.
pub open spec fn beam_of(choice: Option<usize>, efs: Seq<usize>) -> nat {
    match choice {
        Some(ef) => ef as nat,
        None => if efs.len() == 0 {
            0
        } else {
            efs.last() as nat
        },
    }
}

/// The running maximum of the beams up to place `i`.
pub open spec fn running_beam(beams: spec_fn(int) -> nat, i: int) -> nat
    decreases i + 1,
{
    if i < 0 {
        0
    } else {
        let rest = running_beam(beams, i - 1);
        if beams(i) > rest {
            beams(i)
        } else {
            rest
        }
    }
}

/// The beams of each anchor before they are made to ascend.
pub open spec fn anchor_beams<S: NodeScorer>(
    s: &S,
    g: GraphModel,
    queries: Seq<S::Query>,
    gt: Seq<Seq<u32>>,
    anchors: Seq<usize>,
    efs: Seq<usize>,
    target: u64,
) -> spec_fn(int) -> nat {
    |i: int|
        beam_of(
            first_clearing(
                s,
                g,
                queries,
                gt,
                anchors[i] as nat,
                widest(anchors, anchors.len()),
                efs,
                target,
                efs.len(),
            ),
            efs,
        )
}

/// The curve: for every anchor the smallest tried beam that reaches the target
/// there, widened so that it never falls.
pub open spec fn curve_of<S: NodeScorer>(
    s: &S,
    g: GraphModel,
    queries: Seq<S::Query>,
    gt: Seq<Seq<u32>>,
    anchors: Seq<usize>,
    efs: Seq<usize>,
    target: u64,
) -> Seq<(u32, u32)> {
    Seq::new(
        anchors.len(),
        |i: int|
            (
                anchors[i] as u32,
                running_beam(anchor_beams(s, g, queries, gt, anchors, efs, target), i) as u32,
            ),
    )
}

proof fn lemma_running_beam(beams: spec_fn(int) -> nat, i: int, j: int)
    requires
        i <= j,
    ensures
        running_beam(beams, i) <= running_beam(beams, j),
        0 <= j ==> running_beam(beams, j) >= beams(j),
    decreases j - i,
{
    if i < j {
        lemma_running_beam(beams, i, j - 1);
    }
}

/// A larger anchor never asks for a narrower beam.
pub proof fn law_curve_never_falls<S: NodeScorer>(
    s: &S,
    g: GraphModel,
    queries: Seq<S::Query>,
    gt: Seq<Seq<u32>>,
    anchors: Seq<usize>,
    efs: Seq<usize>,
    target: u64,
    i: int,
    j: int,
)
    requires
        0 <= i <= j < anchors.len(),
        forall|q: int| 0 <= q < efs.len() ==> #[trigger] efs[q] <= u32::MAX,
    ensures
        curve_of(s, g, queries, gt, anchors, efs, target)[i].1 <= curve_of(
            s,
            g,
            queries,
            gt,
            anchors,
            efs,
            target,
        )[j].1,
{
    let beams = anchor_beams(s, g, queries, gt, anchors, efs, target);
    lemma_running_beam(beams, i, j);
    assert forall|q: int| 0 <= q < anchors.len() implies #[trigger] beams(q) <= u32::MAX by {
        lemma_first_clearing_bound(
            s,
            g,
            queries,
            gt,
            anchors[q] as nat,
            widest(anchors, anchors.len()),
            efs,
            target,
            efs.len(),
        );
        if efs.len() > 0 {
            assert(efs[efs.len() - 1] <= u32::MAX);
        }
    }
    lemma_running_bound(beams, i, anchors.len() as int);
    lemma_running_bound(beams, j, anchors.len() as int);
}

proof fn lemma_running_bound(beams: spec_fn(int) -> nat, i: int, n: int)
    requires
        i < n,
        forall|q: int| 0 <= q < n ==> #[trigger] beams(q) <= u32::MAX,
    ensures
        running_beam(beams, i) <= u32::MAX,
    decreases i + 1,
{
    if i >= 0 {
        lemma_running_bound(beams, i - 1, n);
        assert(beams(i) <= u32::MAX);
    }
}

proof fn lemma_first_clearing_bound<S: NodeScorer>(
    s: &S,
    g: GraphModel,
    queries: Seq<S::Query>,
    gt: Seq<Seq<u32>>,
    anchor: nat,
    depth: nat,
    efs: Seq<usize>,
    target: u64,
    upto: nat,
)
    requires
        upto <= efs.len(),
        forall|q: int| 0 <= q < efs.len() ==> #[trigger] efs[q] <= u32::MAX,
    ensures
        first_clearing(s, g, queries, gt, anchor, depth, efs, target, upto) matches Some(ef) ==> ef
            <= u32::MAX,
    decreases upto,
{
    if upto > 0 {
        lemma_first_clearing_bound(
            s,
            g,
            queries,
            gt,
            anchor,
            depth,
            efs,
            target,
            (upto - 1) as nat,
        );
    }
}

fn widest_anchor(anchors: &Vec<usize>) -> (r: usize)
    ensures
        r == widest(anchors@, anchors@.len()),
{
    let mut w: usize = 0;
    let mut i: usize = 0;
    while i < anchors.len()
        invariant
            i <= anchors@.len(),
            w == widest(anchors@, i as nat),
        decreases anchors.len() - i,
    {
        if anchors[i] > w {
            w = anchors[i];
        }
        i = i + 1;
    }
    w
}

/// Stamp the `k` to `ef` curve of a graph: for each anchor the smallest of
/// `efs` that reaches the target, or the last of them.
pub fn calibrate_ef_curve<S: NodeScorer>(
    graph: &Hnsw,
    scorer: &S,
    queries: &Vec<S::Query>,
    gt: &Vec<Vec<u32>>,
    anchors: &Vec<usize>,
    efs: &Vec<usize>,
    target: u64,
) -> (r: Vec<(u32, u32)>)
    requires
        graph@.wf(),
        scorer.ready(),
        graph@.len() <= scorer.count(),
        forall|i: int| 0 <= i < queries@.len() ==> scorer.accepts(#[trigger] queries@[i]),
        forall|i: int|
            0 <= i < anchors@.len() ==> recall_total(
                lists(gt@),
                #[trigger] anchors@[i] as nat,
                pairs_of(queries@.len(), gt@.len()),
            ) < 0x20_0000_0000_0000,
    ensures
        r@ == curve_of(scorer, graph@, queries@, lists(gt@), anchors@, efs@, target),
{
    let depth: usize = widest_anchor(anchors);
    let mut visited: VisitedSet = VisitedSet::new(graph.len());
    let ghost beams = anchor_beams(scorer, graph@, queries@, lists(gt@), anchors@, efs@, target);
    let mut out: Vec<(u32, u32)> = Vec::new();
    let mut running: usize = 0;
    let mut a: usize = 0;
    while a < anchors.len()
        invariant
            a <= anchors@.len(),
            depth == widest(anchors@, anchors@.len()),
            graph@.wf(),
            scorer.ready(),
            graph@.len() <= scorer.count(),
            forall|i: int| 0 <= i < queries@.len() ==> scorer.accepts(#[trigger] queries@[i]),
            forall|i: int|
                0 <= i < anchors@.len() ==> recall_total(
                    lists(gt@),
                    #[trigger] anchors@[i] as nat,
                    pairs_of(queries@.len(), gt@.len()),
                ) < 0x20_0000_0000_0000,
            visited.wf(),
            visited.cover() >= graph@.len(),
            beams == anchor_beams(scorer, graph@, queries@, lists(gt@), anchors@, efs@, target),
            running == running_beam(beams, a - 1),
            out@.len() == a,
            forall|i: int|
                0 <= i < a ==> #[trigger] out@[i] == (
                    anchors@[i] as u32,
                    running_beam(beams, i) as u32,
                ),
        decreases anchors.len() - a,
    {
        let anchor: usize = anchors[a];
        assert(recall_total(
            lists(gt@),
            anchors@[a as int] as nat,
            pairs_of(queries@.len(), gt@.len()),
        ) < 0x20_0000_0000_0000);
        let mut chosen: Option<usize> = None;
        let mut i: usize = 0;
        while i < efs.len() && chosen.is_none()
            invariant
                i <= efs@.len(),
                depth == widest(anchors@, anchors@.len()),
                graph@.wf(),
                scorer.ready(),
                graph@.len() <= scorer.count(),
                forall|q: int| 0 <= q < queries@.len() ==> scorer.accepts(#[trigger] queries@[q]),
                recall_total(lists(gt@), anchor as nat, pairs_of(queries@.len(), gt@.len()))
                    < 0x20_0000_0000_0000,
                visited.wf(),
                visited.cover() >= graph@.len(),
                chosen == first_clearing(
                    scorer,
                    graph@,
                    queries@,
                    lists(gt@),
                    anchor as nat,
                    depth as nat,
                    efs@,
                    target,
                    i as nat,
                ),
            decreases efs.len() - i,
        {
            let (hit, total) = recall_counts(
                graph,
                scorer,
                queries,
                gt,
                anchor,
                depth,
                efs[i],
                &mut visited,
            );
            if at_most64(target, ratio(hit, total)) {
                chosen = Some(efs[i]);
            }
            i = i + 1;
        }
        proof {
            lemma_clearing_stays(
                scorer,
                graph@,
                queries@,
                lists(gt@),
                anchor as nat,
                depth as nat,
                efs@,
                target,
                i as nat,
                efs@.len(),
            );
        }
        let beam: usize = match chosen {
            Some(ef) => ef,
            None => if efs.len() == 0 {
                0
            } else {
                efs[efs.len() - 1]
            },
        };
        assert(beam == beams(a as int));
        if beam > running {
            running = beam;
        }
        out.push((anchor as u32, running as u32));
        a = a + 1;
    }
    proof {
        assert(out@ =~= curve_of(scorer, graph@, queries@, lists(gt@), anchors@, efs@, target));
    }
    out
}

proof fn lemma_clearing_stays<S: NodeScorer>(
    s: &S,
    g: GraphModel,
    queries: Seq<S::Query>,
    gt: Seq<Seq<u32>>,
    anchor: nat,
    depth: nat,
    efs: Seq<usize>,
    target: u64,
    i: nat,
    j: nat,
)
    requires
        i <= j,
    ensures
        first_clearing(s, g, queries, gt, anchor, depth, efs, target, i) is Some ==> first_clearing(
            s,
            g,
            queries,
            gt,
            anchor,
            depth,
            efs,
            target,
            j,
        ) == first_clearing(s, g, queries, gt, anchor, depth, efs, target, i),
    decreases j - i,
{
    if i < j {
        lemma_clearing_stays(
            s,
            g,
            queries,
            gt,
            anchor,
            depth,
            efs,
            target,
            i,
            (j - 1) as nat,
        );
    }
}

// ---------------- choosing degree and beam ----------------

/// Outcome of a calibration: the base degree to build at, the query beam to
/// stamp, the recall they reach (a binary64 pattern), and whether the graph is
/// worth registering.
#[derive(Clone, Copy, Debug, PartialEq, Eq, Structural)]
pub struct CalibChoice {
    pub m0: usize,
    pub ef: usize,
    pub recall: u64,
    /// Recall reaches the floor.
    pub registered: bool,
    /// Recall reaches the full target.
    pub at_target: bool,
}

/// `s` with `x` in its place, once.
pub open spec fn insert_once(s: Seq<usize>, x: usize) -> Seq<usize>
    decreases s.len(),
{
    if s.len() == 0 || s.last() < x {
        s.push(x)
    } else if s.last() == x {
        s
    } else {
        insert_once(s.drop_last(), x).push(s.last())
    }
}

/// The values of `s`, ascending and each once.
pub open spec fn sorted_set(s: Seq<usize>) -> Seq<usize>
    decreases s.len(),
{
    if s.len() == 0 {
        Seq::empty()
    } else {
        insert_once(sorted_set(s.drop_last()), s.last())
    }
}

pub open spec fn rising(s: Seq<usize>) -> bool {
    forall|i: int, j: int| 0 <= i < j < s.len() ==> (#[trigger] s[i]) < (#[trigger] s[j])
}

proof fn lemma_insert_once(s: Seq<usize>, x: usize)
    requires
        rising(s),
    ensures
        rising(insert_once(s, x)),
        insert_once(s, x).len() > 0,
        insert_once(s, x).last() == x || (s.len() > 0 && insert_once(s, x).last() == s.last()),
        s.len() > 0 ==> insert_once(s, x).last() >= s.last(),
        forall|y: usize| #[trigger]
            insert_once(s, x).contains(y) <==> (y == x || s.contains(y)),
    decreases s.len(),
{
    let r = insert_once(s, x);
    if s.len() == 0 || s.last() < x {
        assert forall|i: int, j: int| 0 <= i < j < r.len() implies (#[trigger] r[i]) < (
        #[trigger] r[j]) by {
            if j == s.len() && s.len() > 0 {
                assert(i == s.len() - 1 || s[i] < s[s.len() - 1]);
            }
        }
        assert forall|y: usize| #[trigger] r.contains(y) <==> (y == x || s.contains(y)) by {
            if s.contains(y) {
                let i = choose|i: int| 0 <= i < s.len() && s[i] == y;
                assert(r[i] == y);
            }
            if y == x {
                assert(r[s.len() as int] == y);
            }
            if r.contains(y) && y != x {
                let i = choose|i: int| 0 <= i < r.len() && r[i] == y;
                assert(s[i] == y);
            }
        }
    } else if s.last() == x {
        assert(s[s.len() - 1] == x);
    } else {
        let d = s.drop_last();
        assert(rising(d)) by {
            assert forall|i: int, j: int| 0 <= i < j < d.len() implies (#[trigger] d[i]) < (
            #[trigger] d[j]) by {
                assert(d[i] == s[i] && d[j] == s[j]);
            }
        }
        lemma_insert_once(d, x);
        let t = insert_once(d, x);
        if d.len() > 0 {
            assert(s[s.len() - 2] < s[s.len() - 1]);
        }
        assert(t.last() < s.last());
        assert forall|i: int, j: int| 0 <= i < j < r.len() implies (#[trigger] r[i]) < (
        #[trigger] r[j]) by {
            if j == t.len() {
                assert(i == t.len() - 1 || t[i] < t[t.len() - 1]);
            }
        }
        assert forall|y: usize| #[trigger] r.contains(y) <==> (y == x || s.contains(y)) by {
            if r.contains(y) {
                let i = choose|i: int| 0 <= i < r.len() && r[i] == y;
                if i < t.len() {
                    assert(t.contains(y));
                    if d.contains(y) {
                        let k = choose|k: int| 0 <= k < d.len() && d[k] == y;
                        assert(s[k] == y);
                    }
                } else {
                    assert(s[s.len() - 1] == y);
                }
            }
            if y == x || s.contains(y) {
                if s.contains(y) && y != x {
                    let k = choose|k: int| 0 <= k < s.len() && s[k] == y;
                    if k < d.len() {
                        assert(d[k] == y);
                    }
                }
                if t.contains(y) {
                    let i = choose|i: int| 0 <= i < t.len() && t[i] == y;
                    assert(r[i] == y);
                } else {
                    assert(r[t.len() as int] == y);
                }
            }
        }
    }
}

/// The candidates are tried in ascending order, each once, and none is missed.
pub proof fn law_sorted_set(s: Seq<usize>)
    ensures
        rising(sorted_set(s)),
        forall|y: usize| #[trigger] sorted_set(s).contains(y) <==> s.contains(y),
        s.len() > 0 ==> sorted_set(s).len() > 0,
    decreases s.len(),
{
    if s.len() > 0 {
        let d = s.drop_last();
        law_sorted_set(d);
        lemma_insert_once(sorted_set(d), s.last());
        assert forall|y: usize| #[trigger] sorted_set(s).contains(y) <==> s.contains(y) by {
            if s.contains(y) {
                let i = choose|i: int| 0 <= i < s.len() && s[i] == y;
                if i < d.len() {
                    assert(d[i] == y);
                }
            }
            if d.contains(y) {
                let i = choose|i: int| 0 <= i < d.len() && d[i] == y;
                assert(s[i] == y);
            }
            assert(s[s.len() - 1] == s.last());
        }
    }
}

/// Sort candidates and drop repetitions.
fn sort_candidates(v: &Vec<usize>) -> (r: Vec<usize>)
    ensures
        r@ == sorted_set(v@),
{
    let mut out: Vec<usize> = Vec::new();
    let mut i: usize = 0;
    proof {
        assert(v@.subrange(0, 0) =~= Seq::<usize>::empty());
    }
    while i < v.len()
        invariant
            i <= v@.len(),
            out@ == sorted_set(v@.subrange(0, i as int)),
        decreases v.len() - i,
    {
        let x: usize = v[i];
        let ghost s = out@;
        let mut p: usize = out.len();
        while p > 0 && out[p - 1] > x
            invariant
                p <= out@.len(),
                out@ == s,
                forall|j: int| p <= j < s.len() ==> #[trigger] s[j] > x,
            decreases p,
        {
            p = p - 1;
        }
        proof {
            lemma_insert_once_at(s, x, p as int);
        }
        if p == 0 || out[p - 1] < x {
            out.insert(p, x);
        }
        i = i + 1;
        proof {
            let t = v@.subrange(0, i as int);
            assert(t.drop_last() =~= v@.subrange(0, i - 1));
            assert(t.last() == x);
        }
    }
    proof {
        assert(v@.subrange(0, i as int) =~= v@);
    }
    out
}

proof fn lemma_insert_once_at(s: Seq<usize>, x: usize, p: int)
    requires
        0 <= p <= s.len(),
        forall|j: int| p <= j < s.len() ==> #[trigger] s[j] > x,
        p > 0 ==> s[p - 1] <= x,
    ensures
        insert_once(s, x) == (if p > 0 && s[p - 1] == x {
            s
        } else {
            s.insert(p, x)
        }),
    decreases s.len(),
{
    if p == s.len() {
        assert(s.insert(p, x) =~= s.push(x));
    } else {
        let d = s.drop_last();
        assert(s[s.len() - 1] > x);
        lemma_insert_once_at(d, x, p);
        assert(d.push(s.last()) =~= s);
        assert(s.insert(p, x) =~= d.insert(p, x).push(s.last()));
    }
}

/// The smallest of the first `n`, or the default where there are none.
pub open spec fn least_or(s: Seq<usize>, n: nat, default: usize) -> usize
    decreases n,
{
    if n == 0 {
        default
    } else if n == 1 {
        s[0]
    } else {
        let rest = least_or(s, (n - 1) as nat, default);
        if s[n - 1] < rest {
            s[n - 1]
        } else {
            rest
        }
    }
}

fn least_candidate(v: &Vec<usize>, default: usize) -> (r: usize)
    ensures
        r == least_or(v@, v@.len(), default),
{
    if v.len() == 0 {
        return default;
    }
    let mut least: usize = v[0];
    let mut i: usize = 1;
    while i < v.len()
        invariant
            1 <= i <= v@.len(),
            least == least_or(v@, i as nat, default),
        decreases v.len() - i,
    {
        if v[i] < least {
            least = v[i];
        }
        i = i + 1;
    }
    least
}

/// The floor cut back to `[0, 1]`.
pub open spec fn unit_clamped(x: u64) -> u64 {
    if f64_lt(x, 0) {
        0
    } else if f64_lt(F64_ONE, x) {
        F64_ONE
    } else {
        x
    }
}

pub fn clamp_to_unit(x: u64) -> (r: u64)
    ensures
        r == unit_clamped(x),
{
    if less64(x, 0) {
        0
    } else if less64(F64_ONE, x) {
        F64_ONE
    } else {
        x
    }
}

/// The choice that one measured pair stands for.
pub open spec fn choice_of(m0: usize, ef: usize, recall: u64, target: u64, floor: u64) -> CalibChoice {
    CalibChoice {
        m0,
        ef,
        recall,
        registered: f64_le(floor, recall),
        at_target: f64_le(target, recall),
    }
}

/// The first pair that reaches the target, going through the beams in order
/// and for each beam through the degrees in order; without one, the first of
/// the pairs with the best recall, or `best`.
pub open spec fn pick(
    recall: Seq<Seq<u64>>,
    m0s: Seq<usize>,
    efs: Seq<usize>,
    target: u64,
    floor: u64,
    best: CalibChoice,
    ei: int,
    mi: int,
) -> CalibChoice
    decreases efs.len() - ei, m0s.len() - mi,
{
    if ei < 0 || mi < 0 || ei >= efs.len() {
        best
    } else if mi >= m0s.len() {
        pick(recall, m0s, efs, target, floor, best, ei + 1, 0)
    } else {
        let c = choice_of(m0s[mi], efs[ei], recall[mi][ei], target, floor);
        if c.at_target {
            c
        } else {
            pick(
                recall,
                m0s,
                efs,
                target,
                floor,
                if f64_lt(best.recall, c.recall) {
                    c
                } else {
                    best
                },
                ei,
                mi + 1,
            )
        }
    }
}

/// The pairs from `(ei, mi)` on, in the order they are tried.
pub open spec fn tried_from(ei: int, mi: int, e: int, m: int, degrees: nat, beams: nat) -> bool {
    0 <= e < beams && 0 <= m < degrees && (e > ei || (e == ei && m >= mi))
}

/// Where some pair reaches the target, the choice is one that does, and no
/// pair with a smaller beam, or with the same beam and a smaller degree, does.
pub proof fn law_choice_is_latency_first(
    recall: Seq<Seq<u64>>,
    m0s: Seq<usize>,
    efs: Seq<usize>,
    target: u64,
    floor: u64,
    best: CalibChoice,
    e: int,
    m: int,
)
    requires
        0 <= e < efs.len(),
        0 <= m < m0s.len(),
        f64_le(target, recall[m][e]),
    ensures
        pick(recall, m0s, efs, target, floor, best, 0, 0).at_target,
        exists|e0: int, m0: int|
            #![trigger recall[m0][e0]]
            0 <= e0 < efs.len() && 0 <= m0 < m0s.len() && pick(
                recall,
                m0s,
                efs,
                target,
                floor,
                best,
                0,
                0,
            ) == choice_of(m0s[m0], efs[e0], recall[m0][e0], target, floor) && (e0 < e || (e0 == e
                && m0 <= m)),
{
    lemma_pick(recall, m0s, efs, target, floor, best, 0, 0, e, m);
}

proof fn lemma_pick(
    recall: Seq<Seq<u64>>,
    m0s: Seq<usize>,
    efs: Seq<usize>,
    target: u64,
    floor: u64,
    best: CalibChoice,
    ei: int,
    mi: int,
    e: int,
    m: int,
)
    requires
        0 <= ei,
        0 <= mi <= m0s.len(),
        tried_from(ei, mi, e, m, m0s.len(), efs.len()),
        f64_le(target, recall[m][e]),
    ensures
        pick(recall, m0s, efs, target, floor, best, ei, mi).at_target,
        exists|e0: int, m0: int|
            #![trigger recall[m0][e0]]
            0 <= e0 < efs.len() && 0 <= m0 < m0s.len() && pick(
                recall,
                m0s,
                efs,
                target,
                floor,
                best,
                ei,
                mi,
            ) == choice_of(m0s[m0], efs[e0], recall[m0][e0], target, floor) && (e0 < e || (e0 == e
                && m0 <= m)),
    decreases efs.len() - ei, m0s.len() - mi,
{
    if mi >= m0s.len() {
        lemma_pick(recall, m0s, efs, target, floor, best, ei + 1, 0, e, m);
    } else {
        let c = choice_of(m0s[mi], efs[ei], recall[mi][ei], target, floor);
        if c.at_target {
            assert(recall[mi][ei] == c.recall);
        } else {
            let next = if f64_lt(best.recall, c.recall) {
                c
            } else {
                best
            };
            lemma_pick(recall, m0s, efs, target, floor, next, ei, mi + 1, e, m);
        }
    }
}

/// Where no pair reaches the target, no measured recall beats the choice's.
pub proof fn law_choice_is_best_otherwise(
    recall: Seq<Seq<u64>>,
    m0s: Seq<usize>,
    efs: Seq<usize>,
    target: u64,
    floor: u64,
    best: CalibChoice,
    e: int,
    m: int,
)
    requires
        0 <= e < efs.len(),
        0 <= m < m0s.len(),
        !f64_nan(best.recall),
        !pick(recall, m0s, efs, target, floor, best, 0, 0).at_target,
    ensures
        !f64_lt(pick(recall, m0s, efs, target, floor, best, 0, 0).recall, recall[m][e]),
{
    lemma_pick_best(recall, m0s, efs, target, floor, best, 0, 0, e, m);
}

proof fn lemma_pick_best(
    recall: Seq<Seq<u64>>,
    m0s: Seq<usize>,
    efs: Seq<usize>,
    target: u64,
    floor: u64,
    best: CalibChoice,
    ei: int,
    mi: int,
    e: int,
    m: int,
)
    requires
        0 <= ei,
        0 <= mi <= m0s.len(),
        0 <= e < efs.len(),
        0 <= m < m0s.len(),
        !f64_nan(best.recall),
        !pick(recall, m0s, efs, target, floor, best, ei, mi).at_target,
    ensures
        !f64_nan(pick(recall, m0s, efs, target, floor, best, ei, mi).recall),
        !f64_lt(pick(recall, m0s, efs, target, floor, best, ei, mi).recall, best.recall),
        tried_from(ei, mi, e, m, m0s.len(), efs.len()) ==> !f64_lt(
            pick(recall, m0s, efs, target, floor, best, ei, mi).recall,
            recall[m][e],
        ),
    decreases efs.len() - ei, m0s.len() - mi,
{
    if ei >= efs.len() {
    } else if mi >= m0s.len() {
        lemma_pick_best(recall, m0s, efs, target, floor, best, ei + 1, 0, e, m);
    } else {
        let c = choice_of(m0s[mi], efs[ei], recall[mi][ei], target, floor);
        if !c.at_target {
            let next = if f64_lt(best.recall, c.recall) {
                c
            } else {
                best
            };
            lemma_pick_best(recall, m0s, efs, target, floor, next, ei, mi + 1, e, m);
        }
    }
}

/// The matrix that nested lists hold.
pub open spec fn matrix(v: Seq<Vec<u64>>) -> Seq<Seq<u64>> {
    Seq::new(v.len(), |i: int| v[i]@)
}

/// Pick a degree and a beam from measured recalls, `recall[m][e]` for the
/// degree `m0s[m]` and the beam `efs[e]`.
pub fn choose_calibration(
    recall: &Vec<Vec<u64>>,
    m0s: &Vec<usize>,
    efs: &Vec<usize>,
    target: u64,
    floor: u64,
    fallback: CalibChoice,
) -> (r: CalibChoice)
    requires
        recall@.len() == m0s@.len(),
        forall|i: int| 0 <= i < recall@.len() ==> (#[trigger] recall@[i])@.len() == efs@.len(),
    ensures
        r == pick(matrix(recall@), m0s@, efs@, target, floor, fallback, 0, 0),
{
    let ghost rm = matrix(recall@);
    let mut best: CalibChoice = fallback;
    let mut ei: usize = 0;
    while ei < efs.len()
        invariant
            ei <= efs@.len(),
            rm == matrix(recall@),
            recall@.len() == m0s@.len(),
            forall|i: int| 0 <= i < recall@.len() ==> (#[trigger] recall@[i])@.len() == efs@.len(),
            pick(rm, m0s@, efs@, target, floor, best, ei as int, 0) == pick(
                rm,
                m0s@,
                efs@,
                target,
                floor,
                fallback,
                0,
                0,
            ),
        decreases efs.len() - ei,
    {
        let mut mi: usize = 0;
        while mi < m0s.len()
            invariant
                ei < efs@.len(),
                mi <= m0s@.len(),
                rm == matrix(recall@),
                recall@.len() == m0s@.len(),
                forall|i: int|
                    0 <= i < recall@.len() ==> (#[trigger] recall@[i])@.len() == efs@.len(),
                pick(rm, m0s@, efs@, target, floor, best, ei as int, mi as int) == pick(
                    rm,
                    m0s@,
                    efs@,
                    target,
                    floor,
                    fallback,
                    0,
                    0,
                ),
            decreases m0s.len() - mi,
        {
            assert(recall@[mi as int]@.len() == efs@.len());
            let x: u64 = recall[mi][ei];
            assert(rm[mi as int][ei as int] == x);
            let c: CalibChoice = CalibChoice {
                m0: m0s[mi],
                ef: efs[ei],
                recall: x,
                registered: at_most64(floor, x),
                at_target: at_most64(target, x),
            };
            if c.at_target {
                return c;
            }
            if less64(best.recall, c.recall) {
                best = c;
            }
            mi = mi + 1;
        }
        ei = ei + 1;
    }
    best
}

// ---------------- the whole calibration ----------------

/// What a calibration decides: the choice, the beam curve, and the graph to
/// persist.
pub struct Calibrated {
    pub choice: CalibChoice,
    pub curve: Seq<(u32, u32)>,
    pub graph: Option<GraphModel>,
}

/// Settings the calibration graph is built with.
pub open spec fn calib_params(m0: usize, ef_construction: usize) -> HnswParams {
    HnswParams { m: 16, m0, ef_construction, seed: 0x51ED_270B_2E67_6DA5 }
}

pub open spec fn no_choice(m0_candidates: Seq<usize>, ef_candidates: Seq<usize>) -> CalibChoice {
    CalibChoice {
        m0: least_or(m0_candidates, m0_candidates.len(), 32),
        ef: least_or(ef_candidates, ef_candidates.len(), 128),
        recall: 0,
        registered: false,
        at_target: false,
    }
}

/// How deep the truth is computed: to the widest anchor or `k`.
pub open spec fn truth_depth(k: nat) -> nat {
    if k > 100 {
        k
    } else {
        100
    }
}

/// Recall of every degree and beam: one graph is built at the largest degree,
/// and smaller degrees are that graph with its base layer pruned.
pub open spec fn recall_matrix<S: NodeScorer>(
    s: &S,
    base: GraphModel,
    queries: Seq<S::Query>,
    gt: Seq<Seq<u32>>,
    m0s: Seq<usize>,
    efs: Seq<usize>,
    k: nat,
) -> Seq<Seq<u64>> {
    Seq::new(
        m0s.len(),
        |m: int|
            Seq::new(
                efs.len(),
                |e: int|
                    recall_at(
                        s,
                        pruned(base, pair_scores(s), m0s[m] as nat),
                        queries,
                        gt,
                        k,
                        k,
                        efs[e] as nat,
                    ),
            ),
    )
}

pub open spec fn calibrated<S: NodeScorer, R: NodeScorer>(
    serving: &S,
    serving_queries: Seq<S::Query>,
    reference: &R,
    reference_queries: Seq<R::Query>,
    levels: Seq<u32>,
    m0_candidates: Seq<usize>,
    ef_candidates: Seq<usize>,
    target: u64,
    floor: u64,
    ef_construction: usize,
    k: nat,
    want_curve: bool,
) -> Calibrated {
    let fallback = no_choice(m0_candidates, ef_candidates);
    if serving.count() == 0 || m0_candidates.len() == 0 || ef_candidates.len() == 0 {
        Calibrated { choice: fallback, curve: Seq::empty(), graph: None }
    } else {
        let m0s = sorted_set(m0_candidates);
        let efs = sorted_set(ef_candidates);
        let gt = truths(reference, reference_queries, truth_depth(k));
        let pair = pair_scores(serving);
        let base = built(pair, calib_params(m0s.last(), ef_construction), levels);
        let choice = pick(
            recall_matrix(serving, base, serving_queries, gt, m0s, efs, k),
            m0s,
            efs,
            target,
            unit_clamped(floor),
            fallback,
            0,
            0,
        );
        let graph = if !choice.registered {
            None
        } else if choice.m0 == m0s.last() {
            Some(base)
        } else {
            Some(pruned(base, pair, choice.m0 as nat))
        };
        Calibrated {
            choice,
            curve: if want_curve && choice.at_target && graph is Some {
                curve_of(serving, graph->0, serving_queries, gt, curve_anchors(), efs, target)
            } else {
                Seq::empty()
            },
            graph,
        }
    }
}

/// Calibrate degree and beam to the recall target.
///
/// Queries and truth come from `reference`, the walk runs on `serving`: an
/// exhaustive scan of the walk's own plane could not see that plane's error.
/// The fastest pair that reaches the target wins, else the best one; a graph
/// comes out only where recall reaches the floor, and a curve only where it
/// reaches the target.
#[verifier::rlimit(40)]
pub fn calibrate_graph<S: NodeScorer, R: NodeScorer>(
    serving: &S,
    serving_queries: &Vec<S::Query>,
    reference: &R,
    reference_queries: &Vec<R::Query>,
    levels: Vec<u32>,
    m0_candidates: &Vec<usize>,
    ef_candidates: &Vec<usize>,
    target: u64,
    register_floor: u64,
    ef_construction: usize,
    k: usize,
    want_curve: bool,
) -> (r: (CalibChoice, Vec<(u32, u32)>, Option<Hnsw>))
    requires
        serving.ready(),
        serving.count() <= u32::MAX,
        levels@.len() == serving.count(),
        heights_ok(levels@),
        forall|i: int|
            0 <= i < serving_queries@.len() ==> serving.accepts(#[trigger] serving_queries@[i]),
        reference.ready(),
        reference.count() <= u32::MAX,
        forall|i: int|
            0 <= i < reference_queries@.len() ==> reference.accepts(
                #[trigger] reference_queries@[i],
            ),
        serving_queries@.len() * lesser(k as int, reference.count() as int)
            < 0x20_0000_0000_0000,
        want_curve ==> serving_queries@.len() * lesser(100, reference.count() as int)
            < 0x20_0000_0000_0000,
    ensures
        ({
            let c = calibrated(
                serving,
                serving_queries@,
                reference,
                reference_queries@,
                levels@,
                m0_candidates@,
                ef_candidates@,
                target,
                register_floor,
                ef_construction,
                k as nat,
                want_curve,
            );
            &&& r.0 == c.choice
            &&& r.1@ == c.curve
            &&& c.graph == (match r.2 {
                Some(g) => Some(g@),
                None => None,
            })
        }),
        r.2 matches Some(g) ==> g@.wf(),
{
    let floor: u64 = clamp_to_unit(register_floor);
    let fallback: CalibChoice = CalibChoice {
        m0: least_candidate(m0_candidates, 32),
        ef: least_candidate(ef_candidates, 128),
        recall: 0,
        registered: false,
        at_target: false,
    };
    let mut curve: Vec<(u32, u32)> = Vec::new();
    proof {
        assert(curve@ =~= Seq::<(u32, u32)>::empty());
    }
    let n: usize = serving.len();
    if n == 0 || m0_candidates.len() == 0 || ef_candidates.len() == 0 {
        return (fallback, curve, None);
    }
    let depth: usize = if k > 100 {
        k
    } else {
        100
    };
    let gt = ground_truth(reference, reference_queries, depth);
    proof {
        lemma_countable(
            reference,
            serving_queries@.len(),
            reference_queries@,
            depth as nat,
            k as nat,
            k as nat,
        );
    }
    let m0s = sort_candidates(m0_candidates);
    let efs = sort_candidates(ef_candidates);
    let ghost pair = pair_scores(serving);
    proof {
        law_sorted_set(m0_candidates@);
        law_sorted_set(ef_candidates@);
    }
    let m0_max: usize = m0s[m0s.len() - 1];
    let defaults: HnswParams = HnswParams::default();
    let params: HnswParams = HnswParams {
        m: defaults.m,
        m0: m0_max,
        ef_construction,
        seed: defaults.seed,
    };
    let base = Hnsw::build(serving, params, levels);
    let ghost bg = base@;
    let ghost want = recall_matrix(
        serving,
        bg,
        serving_queries@,
        lists(gt@),
        m0s@,
        efs@,
        k as nat,
    );
    let mut recall: Vec<Vec<u64>> = Vec::new();
    let mut mi: usize = 0;
    while mi < m0s.len()
        invariant
            mi <= m0s@.len(),
            bg == base@,
            bg.wf(),
            serving.ready(),
            serving.count() <= u32::MAX,
            bg.len() <= serving.count(),
            pair == pair_scores(serving),
            forall|i: int|
                0 <= i < serving_queries@.len() ==> serving.accepts(#[trigger] serving_queries@[i]),
            recall_total(lists(gt@), k as nat, pairs_of(serving_queries@.len(), gt@.len()))
                < 0x20_0000_0000_0000,
            want == recall_matrix(
                serving,
                bg,
                serving_queries@,
                lists(gt@),
                m0s@,
                efs@,
                k as nat,
            ),
            recall@.len() == mi,
            forall|i: int| 0 <= i < mi ==> (#[trigger] recall@[i])@ == want[i],
        decreases m0s.len() - mi,
    {
        let g = base.pruned_base_layer(serving, m0s[mi]);
        let mut row: Vec<u64> = Vec::new();
        let mut ei: usize = 0;
        while ei < efs.len()
            invariant
                mi < m0s@.len(),
                ei <= efs@.len(),
                g@ == pruned(bg, pair, m0s@[mi as int] as nat),
                g@.wf(),
                serving.ready(),
                g@.len() <= serving.count(),
                pair == pair_scores(serving),
                forall|i: int|
                    0 <= i < serving_queries@.len() ==> serving.accepts(
                        #[trigger] serving_queries@[i],
                    ),
                recall_total(lists(gt@), k as nat, pairs_of(serving_queries@.len(), gt@.len()))
                    < 0x20_0000_0000_0000,
                want == recall_matrix(
                    serving,
                    bg,
                    serving_queries@,
                    lists(gt@),
                    m0s@,
                    efs@,
                    k as nat,
                ),
                row@.len() == ei,
                forall|e: int| 0 <= e < ei ==> #[trigger] row@[e] == want[mi as int][e],
            decreases efs.len() - ei,
        {
            row.push(graph_recall(&g, serving, serving_queries, &gt, k, efs[ei]));
            ei = ei + 1;
        }
        proof {
            assert(row@ =~= want[mi as int]);
        }
        recall.push(row);
        mi = mi + 1;
    }
    proof {
        assert(matrix(recall@) =~= want);
        assert forall|i: int| 0 <= i < recall@.len() implies (#[trigger] recall@[i])@.len()
            == efs@.len() by {
            assert(recall@[i]@ == want[i]);
        }
    }
    let choice = choose_calibration(&recall, &m0s, &efs, target, floor, fallback);
    let graph: Option<Hnsw> = if !choice.registered {
        None
    } else if choice.m0 == m0_max {
        Some(base)
    } else {
        Some(base.pruned_base_layer(serving, choice.m0))
    };
    match &graph {
        Some(g) => {
            if want_curve && choice.at_target {
                let anchors: Vec<usize> = vec![1, 10, 50, 100];
                proof {
                    assert(anchors@ =~= curve_anchors());
                    assert forall|i: int| 0 <= i < anchors@.len() implies recall_total(
                        lists(gt@),
                        #[trigger] anchors@[i] as nat,
                        pairs_of(serving_queries@.len(), gt@.len()),
                    ) < 0x20_0000_0000_0000 by {
                        lemma_countable(
                            reference,
                            serving_queries@.len(),
                            reference_queries@,
                            depth as nat,
                            anchors@[i] as nat,
                            100,
                        );
                    }
                }
                curve = calibrate_ef_curve(
                    g,
                    serving,
                    serving_queries,
                    &gt,
                    &anchors,
                    &efs,
                    target,
                );
            }
        },
        None => {},
    }
    (choice, curve, graph)
}

// ---------------- calibration queries ----------------

/// Spreads the source nodes of calibration queries over the plane.
pub const CALIB_QUERY_STRIDE_MULT: u64 = 2_654_435_761;

/// The node that the `i`-th calibration query starts from.
pub open spec fn source_node(i: int, n: int) -> int {
    (i * 2_654_435_761int % 0x1_0000_0000_0000_0000) % n
}

/// The nodes that calibration queries start from, at most one per node.
pub fn calibration_sources(n: usize, n_queries: usize) -> (r: Vec<u32>)
    requires
        n <= u32::MAX,
    ensures
        r@.len() == (if n_queries <= n {
            n_queries
        } else {
            n
        }),
        forall|i: int|
            0 <= i < r@.len() ==> #[trigger] r@[i] == source_node(i, n as int) && r@[i] < n,
{
    let nq: usize = if n_queries <= n {
        n_queries
    } else {
        n
    };
    let mut out: Vec<u32> = Vec::new();
    let mut i: usize = 0;
    while i < nq
        invariant
            i <= nq <= n <= u32::MAX,
            out@.len() == i,
            forall|j: int|
                0 <= j < i ==> #[trigger] out@[j] == source_node(j, n as int) && out@[j] < n,
        decreases nq - i,
    {
        let spread: u64 = (i as u64).wrapping_mul(CALIB_QUERY_STRIDE_MULT);
        let node: u64 = spread % (n as u64);
        out.push(node as u32);
        i = i + 1;
    }
    out
}

/// The state of the draws' sequence after `n` draws.
pub open spec fn draw_state(seed: u64, n: nat) -> u64
    decreases n,
{
    if n == 0 {
        seed ^ SPLITMIX64_INCREMENT
    } else {
        splitmix64_next(draw_state(seed, (n - 1) as nat))
    }
}

/// The 24-bit draws that nudge the queries off their nodes, one per
/// coordinate, query by query: a draw over `2^24` is uniform in `[0, 1)`.
pub fn calibration_draws(seed: u64, count: usize) -> (r: Vec<u32>)
    ensures
        r@.len() == count,
        forall|i: int|
            0 <= i < count ==> #[trigger] r@[i] == splitmix64_output(
                draw_state(seed, (i + 1) as nat),
            ) >> 40,
{
    let mut state: u64 = seed ^ SPLITMIX64_INCREMENT;
    let mut out: Vec<u32> = Vec::new();
    let mut i: usize = 0;
    while i < count
        invariant
            i <= count,
            state == draw_state(seed, i as nat),
            out@.len() == i,
            forall|j: int|
                0 <= j < i ==> #[trigger] out@[j] == splitmix64_output(
                    draw_state(seed, (j + 1) as nat),
                ) >> 40,
        decreases count - i,
    {
        let d: u64 = splitmix64(&mut state);
        assert(d >> 40 < 0x100_0000) by (bit_vector);
        out.push((d >> 40u64) as u32);
        i = i + 1;
    }
    out
}

/// The calibration queries stride round the ring of the nodes: they start at
/// node 0, and each starts one stride past the one before.
pub proof fn law_sources_stride_round_the_nodes(i: int, n: int)
    requires
        0 < n <= u32::MAX,
        0 <= i < n,
    ensures
        source_node(0, n) == 0,
        0 <= source_node(i, n) < n,
        source_node(i + 1, n) == (source_node(i, n) + 2_654_435_761) % n,
{
    let p = 2_654_435_761int;
    vstd::arithmetic::div_mod::lemma_small_mod((i * p) as nat, 0x1_0000_0000_0000_0000);
    vstd::arithmetic::div_mod::lemma_small_mod(((i + 1) * p) as nat, 0x1_0000_0000_0000_0000);
    vstd::arithmetic::div_mod::lemma_small_mod(0, n as nat);
    vstd::arithmetic::div_mod::lemma_add_mod_noop_right(p, i * p, n);
    assert((i * p) % n == source_node(i, n));
}

/// Where the stride has an inverse modulo the number of nodes, no two queries
/// start from the same node.
pub proof fn law_sources_are_distinct(i: int, j: int, n: int, inverse: int)
    requires
        0 < n <= u32::MAX,
        0 <= i < n,
        0 <= j < n,
        i != j,
        2_654_435_761 * inverse % n == 1int % n,
    ensures
        source_node(i, n) != source_node(j, n),
{
    let p = 2_654_435_761int;
    vstd::arithmetic::div_mod::lemma_small_mod((i * p) as nat, 0x1_0000_0000_0000_0000);
    vstd::arithmetic::div_mod::lemma_small_mod((j * p) as nat, 0x1_0000_0000_0000_0000);
    if source_node(i, n) == source_node(j, n) {
        lemma_undone(i, p, inverse, n);
        lemma_undone(j, p, inverse, n);
        vstd::arithmetic::div_mod::lemma_mul_mod_noop_left(i * p, inverse, n);
        vstd::arithmetic::div_mod::lemma_mul_mod_noop_left(j * p, inverse, n);
        vstd::arithmetic::div_mod::lemma_small_mod(i as nat, n as nat);
        vstd::arithmetic::div_mod::lemma_small_mod(j as nat, n as nat);
    }
}

proof fn lemma_undone(i: int, p: int, inverse: int, n: int)
    requires
        n > 0,
        p * inverse % n == 1int % n,
    ensures
        i * p * inverse % n == i % n,
{
    assert(i * p * inverse == i * (p * inverse)) by (nonlinear_arith);
    vstd::arithmetic::div_mod::lemma_mul_mod_noop_right(i, p * inverse, n);
    vstd::arithmetic::div_mod::lemma_mul_mod_noop_right(i, 1, n);
    assert(i * 1 == i);
}

/// The draws step through one sequence: after `n` draws its state is `n`
/// increments past the seed with the increment mixed in.
pub proof fn law_draws_step_by_one_increment(seed: u64, n: nat)
    ensures
        draw_state(seed, n) as int == ((seed ^ 0x9E37_79B9_7F4A_7C15) + n
            * 0x9E37_79B9_7F4A_7C15) % 0x1_0000_0000_0000_0000,
    decreases n,
{
    let m = 0x1_0000_0000_0000_0000int;
    let inc = 0x9E37_79B9_7F4A_7C15int;
    let start = (seed ^ 0x9E37_79B9_7F4A_7C15) as int;
    if n == 0 {
        vstd::arithmetic::div_mod::lemma_small_mod(start as nat, m as nat);
    } else {
        law_draws_step_by_one_increment(seed, (n - 1) as nat);
        vstd::arithmetic::div_mod::lemma_add_mod_noop_right(inc, start + (n - 1) * inc, m);
        assert(start + (n - 1) * inc + inc == start + n * inc);
    }
}

} // verus!
