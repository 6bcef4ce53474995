//! Hierarchical navigable small-world graph.
//!
//! The graph is generic over a [`NodeScorer`]: building and searching see only
//! distances, never the codes behind them. Nodes are inserted in id order, so
//! the same distances and the same towers give the same graph.
use vstd::prelude::*;

use crate::float_bits::{f32_key, f32_lt, less32, F32_INFINITY};
use crate::link::{
    all_reach, attached, cap_at, connected, empty_towers, entry_tallest, from_node, inserted,
    inserted_range, law_cut_list_is_nearest_first, law_insertion_adds_only_new_links, lemma_connected, lemma_found,
    lemma_inserted_range, lemma_linked, lemma_linked_back, lemma_same_towers_reach,
    lemma_same_towers_trans, lesser, linked, linked_back, list_ok, lists_ok, merged, nodes_of,
    rescored, same_towers, set_list, shrunk, HnswParams,
};
use crate::scored::{push_sorted, sort, sort_scored, sorted, Scored};
use crate::scorer::{pair_scores, query_scores, scores_from, NodeScorer};
use crate::visited::VisitedSet;
use crate::walk::{
    beam_ok, beam_run, beam_search, beam_step, descend, diverse, downhill, edges_ok, greedy_end,
    law_beam_result, law_greedy_ends_at_local_minimum, lemma_descend, lemma_edges_at, lemma_mark,
    lemma_nearest_of, lemma_offer_entries, lemma_offer_neighbors, lemma_pop, lemma_seen_bound,
    lemma_select_full, lemma_take_in, list_at, nearest_of, no_beam, offer_entries, offer_neighbors,
    reaches, scored_under, select_from, select_neighbors, strictly_ascending, take_in, Adjacency,
    Beam,
};

verus! {

/// Tallest tower a node can have.
pub const MAX_LEVEL: u32 = 63;

/// What a graph is: adjacency, tower heights, entry point and build settings.
#[verifier::ext_equal]
pub struct GraphModel {
    pub adj: Adjacency,
    pub levels: Seq<u32>,
    pub entry: u32,
    pub m: nat,
    pub m0: nat,
    pub ef_construction: nat,
}

/// The towers have the stated heights.
pub open spec fn towers_reach(adj: Adjacency, levels: Seq<u32>) -> bool {
    &&& adj.len() == levels.len()
    &&& forall|v: int|
        0 <= v < adj.len() ==> (#[trigger] adj[v]).len() == levels[v] + 1 && levels[v] <= MAX_LEVEL
}

/// The towers have the stated heights and hold edges that can be followed.
pub open spec fn towers_ok(adj: Adjacency, levels: Seq<u32>) -> bool {
    &&& towers_reach(adj, levels)
    &&& edges_ok(adj)
}

impl GraphModel {
    pub open spec fn wf(self) -> bool {
        &&& towers_ok(self.adj, self.levels)
        &&& self.adj.len() > 0 ==> self.entry < self.adj.len()
        &&& self.adj.len() == 0 ==> self.entry == 0
    }

    /// Number of nodes.
    pub open spec fn len(self) -> nat {
        self.adj.len()
    }

    /// Every list of level 0 fits the stride that the graph is stored with.
    pub open spec fn base_fits(self) -> bool {
        forall|v: int| 0 <= v < self.adj.len() ==> (#[trigger] self.adj[v])[0].len() <= self.m0
    }
}

/// What a search for `k` nodes with an `ef`-wide beam finds, nearest first:
/// the beam on level 0 starts where the descent through the upper levels ends.
pub open spec fn search_hits(
    g: GraphModel,
    f: spec_fn(u32) -> u32,
    k: nat,
    ef: nat,
) -> Seq<Scored> {
    if g.adj.len() == 0 || k == 0 {
        Seq::empty()
    } else {
        let ep = descend(g.adj, f, g.entry, g.levels[g.entry as int] as int, 0);
        let width = if ef >= k {
            ef
        } else {
            k
        };
        let found = beam_search(g.adj, 0, f, seq![ep], width);
        found.subrange(0, lesser(k as int, found.len() as int))
    }
}

/// Hits as `(node, distance)` pairs.
pub open spec fn as_pairs(hits: Seq<Scored>) -> Seq<(u32, u32)> {
    Seq::new(hits.len(), |i: int| (hits[i].node, hits[i].dist))
}

/// A built graph.
pub struct Hnsw {
    neighbors: Vec<Vec<Vec<u32>>>,
    node_level: Vec<u32>,
    entry: u32,
    m: usize,
    m0: usize,
    ef_construction: usize,
}

/// The adjacency that nested lists hold.
pub open spec fn adjacency_of(nb: Seq<Vec<Vec<u32>>>) -> Adjacency {
    Seq::new(nb.len(), |v: int| Seq::new(nb[v]@.len(), |l: int| nb[v]@[l]@))
}

impl View for Hnsw {
    type V = GraphModel;

    closed spec fn view(&self) -> GraphModel {
        GraphModel {
            adj: adjacency_of(self.neighbors@),
            levels: self.node_level@,
            entry: self.entry,
            m: self.m as nat,
            m0: self.m0 as nat,
            ef_construction: self.ef_construction as nat,
        }
    }
}

/// Increment of the SplitMix64 sequence.
pub const SPLITMIX64_INCREMENT: u64 = 0x9E37_79B9_7F4A_7C15;

/// One mixing step: fold the high bits down and multiply.
pub open spec fn mix_step(z: u64, shift: u64, mul: u64) -> u64 {
    ((z ^ (z >> shift)) as int * mul as int % 0x1_0000_0000_0000_0000) as u64
}

/// The SplitMix64 output for a state.
pub open spec fn splitmix64_output(state: u64) -> u64 {
    let a = mix_step(state, 30, 0xBF58_476D_1CE4_E5B9);
    let b = mix_step(a, 27, 0x94D0_49BB_1331_11EB);
    b ^ (b >> 31)
}

/// The state after one draw.
pub open spec fn splitmix64_next(state: u64) -> u64 {
    ((state + SPLITMIX64_INCREMENT) % 0x1_0000_0000_0000_0000) as u64
}

/// Draw the next number of a SplitMix64 sequence.
pub fn splitmix64(state: &mut u64) -> (r: u64)
    ensures
        *final(state) == splitmix64_next(*old(state)),
        r == splitmix64_output(*final(state)),
{
    *state = state.wrapping_add(SPLITMIX64_INCREMENT);
    let mut z: u64 = *state;
    z = (z ^ (z >> 30u64)).wrapping_mul(0xBF58_476D_1CE4_E5B9);
    z = (z ^ (z >> 27u64)).wrapping_mul(0x94D0_49BB_1331_11EB);
    z ^ (z >> 31u64)
}

/// The 53-bit draw that a node's tower height is computed from: the draw over
/// `2^53` is uniform in `[0, 1)`.
pub open spec fn level_draw_of(seed: u64, node: u32) -> u64 {
    splitmix64_output(
        splitmix64_next(
            seed ^ ((node as int * SPLITMIX64_INCREMENT as int % 0x1_0000_0000_0000_0000) as u64),
        ),
    ) >> 11
}

/// The draw for `node`: it depends on the seed and the node alone, never on
/// the order of insertion.
pub fn level_draw(seed: u64, node: u32) -> (r: u64)
    ensures
        r == level_draw_of(seed, node),
{
    let mut st: u64 = seed ^ (node as u64).wrapping_mul(SPLITMIX64_INCREMENT);
    let r: u64 = splitmix64(&mut st);
    r >> 11u64
}

/// Keep the diverse ones of `candidates`, nearest first, up to `m`.
pub fn select_neighbors_heuristic<S: NodeScorer>(
    scorer: &S,
    candidates: &Vec<Scored>,
    m: usize,
) -> (r: Vec<u32>)
    requires
        scorer.ready(),
        forall|i: int| 0 <= i < candidates@.len() ==> (#[trigger] candidates@[i]).node
            < scorer.count(),
    ensures
        r@ == select_neighbors(pair_scores(scorer), candidates@, m as nat),
{
    let ghost pair = pair_scores(scorer);
    let cands = sort(candidates);
    proof {
        crate::scored::law_sort_is_sorted_permutation(candidates@);
        assert forall|i: int| 0 <= i < cands@.len() implies (#[trigger] cands@[i]).node
            < scorer.count() by {
            assert(cands@.contains(cands@[i]));
            let k = choose|k: int| 0 <= k < candidates@.len() && candidates@[k] == cands@[i];
            assert(candidates@[k].node < scorer.count());
        }
        assert(cands@.subrange(0, 0) =~= Seq::<Scored>::empty());
    }
    let mut selected: Vec<u32> = Vec::new();
    let mut i: usize = 0;
    while i < cands.len()
        invariant
            i <= cands.len(),
            scorer.ready(),
            pair == pair_scores(scorer),
            cands@ == sort_scored(candidates@),
            forall|j: int| 0 <= j < cands@.len() ==> (#[trigger] cands@[j]).node < scorer.count(),
            selected@ == select_from(pair, cands@.subrange(0, i as int), m as nat),
            forall|j: int| 0 <= j < selected@.len() ==> #[trigger] selected@[j] < scorer.count(),
        decreases cands.len() - i,
    {
        if selected.len() >= m {
            proof {
                lemma_select_full(pair, cands@, m as nat, i as int);
            }
            return selected;
        }
        let c: Scored = cands[i];
        let prep = scorer.prepare_node(c.node);
        let mut keep: bool = true;
        let mut j: usize = 0;
        while j < selected.len() && keep
            invariant
                j <= selected.len(),
                scorer.ready(),
                scorer.folded(prep),
                pair == pair_scores(scorer),
                forall|x: u32| #[trigger] scorer.score_of(prep, x) == scorer.node_dist(c.node, x),
                forall|q: int|
                    0 <= q < selected@.len() ==> #[trigger] selected@[q] < scorer.count(),
                keep ==> forall|q: int|
                    0 <= q < j ==> !f32_lt(pair(c.node, #[trigger] selected@[q]), c.dist),
                !keep ==> !diverse(pair, selected@, c),
            decreases selected.len() - j, if keep { 1int } else { 0int },
        {
            let d: u32 = scorer.score(&prep, selected[j]);
            if less32(d, c.dist) {
                keep = false;
                proof {
                    assert(f32_lt(pair(c.node, selected@[j as int]), c.dist));
                }
            } else {
                j = j + 1;
            }
        }
        proof {
            let t = cands@.subrange(0, i + 1);
            assert(t.drop_last() =~= cands@.subrange(0, i as int));
            assert(t.last() == c);
        }
        if keep {
            selected.push(c.node);
        }
        i = i + 1;
    }
    proof {
        assert(cands@.subrange(0, i as int) =~= cands@);
    }
    selected
}

/// The empty lists of a tower of the given height.
fn empty_tower(level: u32) -> (r: Vec<Vec<u32>>)
    requires
        level <= MAX_LEVEL,
    ensures
        r@.len() == level + 1,
        forall|l: int| 0 <= l < r@.len() ==> (#[trigger] r@[l])@ == Seq::<u32>::empty(),
{
    let mut t: Vec<Vec<u32>> = Vec::new();
    let mut i: u32 = 0;
    while i <= level
        invariant
            i <= level + 1,
            level <= MAX_LEVEL,
            t@.len() == i,
            forall|l: int| 0 <= l < t@.len() ==> (#[trigger] t@[l])@ == Seq::<u32>::empty(),
        decreases level + 1 - i,
    {
        t.push(Vec::new());
        i = i + 1;
    }
    t
}

/// A copy of a list of ids.
pub fn copy_ids(v: &Vec<u32>) -> (r: Vec<u32>)
    ensures
        r@ == v@,
{
    let mut out: Vec<u32> = Vec::new();
    let mut i: usize = 0;
    while i < v.len()
        invariant
            i <= v.len(),
            out@ == v@.subrange(0, i as int),
        decreases v.len() - i,
    {
        out.push(v[i]);
        i = i + 1;
        proof {
            assert(out@ =~= v@.subrange(0, i as int));
        }
    }
    proof {
        assert(v@.subrange(0, i as int) =~= v@);
    }
    out
}

impl Hnsw {
    /// Walk downhill at `level` from `entry` until no neighbor is nearer.
    fn greedy_nearest<S: NodeScorer>(
        &self,
        scorer: &S,
        prepared: &S::Prepared,
        entry: u32,
        level: u32,
    ) -> (r: u32)
        requires
            edges_ok(self@.adj),
            scorer.ready(),
            scorer.folded(*prepared),
            self@.adj.len() <= scorer.count(),
            reaches(self@.adj, entry, level as int),
        ensures
            r == greedy_end(self@.adj, level as int, scores_from(scorer, *prepared), entry),
            reaches(self@.adj, r, level as int),
    {
        let ghost adj = self@.adj;
        let ghost f = scores_from(scorer, *prepared);
        let ghost lv = level as int;
        let mut at: Scored = Scored { dist: scorer.score(prepared, entry), node: entry };
        let mut going: bool = true;
        proof {
            law_greedy_ends_at_local_minimum(adj, lv, f, entry);
        }
        while going
            invariant
                edges_ok(adj),
                adj == self@.adj,
                lv == level as int,
                f == scores_from(scorer, *prepared),
                scorer.ready(),
                scorer.folded(*prepared),
                adj.len() <= scorer.count(),
                reaches(adj, at.node, lv),
                at == scored_under(f, at.node),
                going ==> downhill(adj, lv, f, at) == greedy_end(adj, lv, f, entry),
                !going ==> at.node == greedy_end(adj, lv, f, entry),
            decreases f32_key(at.dist) + 0x8000_0000, if going { 1int } else { 0int },
        {
            let list: &Vec<u32> = &self.neighbors[at.node as usize][level as usize];
            let ghost from = at;
            proof {
                lemma_edges_at(adj, from.node, lv);
                assert(list_at(adj, from.node, lv) == list@);
                assert(list@.subrange(0, 0) =~= Seq::<u32>::empty());
            }
            let mut best: Scored = at;
            let mut i: usize = 0;
            while i < list.len()
                invariant
                    i <= list.len(),
                    f == scores_from(scorer, *prepared),
                    scorer.ready(),
                    scorer.folded(*prepared),
                    adj.len() <= scorer.count(),
                    list@ == list_at(adj, from.node, lv),
                    forall|j: int| 0 <= j < list@.len() ==> reaches(adj, #[trigger] list@[j], lv),
                    best == nearest_of(f, list@.subrange(0, i as int), from),
                decreases list.len() - i,
            {
                let nb: u32 = list[i];
                assert(reaches(adj, list@[i as int], lv));
                let d: u32 = scorer.score(prepared, nb);
                proof {
                    let t = list@.subrange(0, i + 1);
                    assert(t.drop_last() =~= list@.subrange(0, i as int));
                    assert(t.last() == nb);
                }
                if less32(d, best.dist) {
                    best = Scored { dist: d, node: nb };
                }
                i = i + 1;
            }
            proof {
                assert(list@.subrange(0, i as int) =~= list@);
                lemma_nearest_of(adj, lv, f, list@, from);
            }
            if less32(best.dist, at.dist) {
                at = best;
            } else {
                going = false;
            }
        }
        at.node
    }

    /// `ef`-wide beam at one level, nearest first.
    #[verifier::rlimit(40)]
    fn search_layer<S: NodeScorer>(
        &self,
        scorer: &S,
        prepared: &S::Prepared,
        entry_points: &Vec<u32>,
        ef: usize,
        level: u32,
        visited: &mut VisitedSet,
    ) -> (r: Vec<Scored>)
        requires
            edges_ok(self@.adj),
            scorer.ready(),
            scorer.folded(*prepared),
            self@.adj.len() <= scorer.count(),
            all_reach(self@.adj, entry_points@, level as int),
            old(visited).wf(),
            old(visited).cover() >= self@.adj.len(),
        ensures
            r@ == beam_search(
                self@.adj,
                level as int,
                scores_from(scorer, *prepared),
                entry_points@,
                ef as nat,
            ),
            final(visited).wf(),
            final(visited).cover() == old(visited).cover(),
    {
        let ghost adj = self@.adj;
        let ghost f = scores_from(scorer, *prepared);
        let ghost lv = level as int;
        let ghost w = ef as nat;
        visited.clear();
        let mut cand: Vec<Scored> = Vec::new();
        let mut kept: Vec<Scored> = Vec::new();
        let ghost mut b: Beam = no_beam();
        let mut i: usize = 0;
        proof {
            assert(entry_points@.subrange(0, 0) =~= Seq::<u32>::empty());
            assert(b.seen.to_set() =~= Set::<u32>::empty());
        }
        while i < entry_points.len()
            invariant
                i <= entry_points.len(),
                adj == self@.adj,
                f == scores_from(scorer, *prepared),
                lv == level as int,
                w == ef as nat,
                scorer.ready(),
                scorer.folded(*prepared),
                adj.len() <= scorer.count(),
                all_reach(adj, entry_points@, lv),
                visited.wf(),
                visited.cover() == old(visited).cover(),
                visited.cover() >= adj.len(),
                b == offer_entries(f, w, no_beam(), entry_points@.subrange(0, i as int)),
                beam_ok(adj, lv, f, w, b),
                cand@ == b.cand,
                kept@ == b.kept,
                visited@ == b.seen.to_set(),
            decreases entry_points.len() - i,
        {
            let ep: u32 = entry_points[i];
            proof {
                let t = entry_points@.subrange(0, i + 1);
                assert(t.drop_last() =~= entry_points@.subrange(0, i as int));
                assert(t.last() == ep);
                assert(reaches(adj, entry_points@[i as int], lv));
                b.seen.lemma_push_to_set_commute(ep);
            }
            if !visited.test_and_set(ep) {
                let s: Scored = Scored { dist: scorer.score(prepared, ep), node: ep };
                proof {
                    lemma_take_in(adj, lv, f, w, b, ep);
                }
                push_sorted(&mut cand, s);
                push_sorted(&mut kept, s);
                if kept.len() > ef {
                    let ghost k0 = kept@;
                    kept.pop();
                    assert(kept@ =~= k0.drop_last());
                }
                proof {
                    b = take_in(b, w, s);
                }
            } else {
                proof {
                    assert(b.seen.to_set().insert(ep) =~= b.seen.to_set());
                }
            }
            i = i + 1;
        }
        proof {
            assert(entry_points@.subrange(0, i as int) =~= entry_points@);
            lemma_offer_entries(adj, lv, f, w, no_beam(), entry_points@);
            lemma_seen_bound(adj, lv, b.seen);
        }
        let ghost mut left: nat = adj.len();
        let mut going: bool = true;
        while going
            invariant
                adj == self@.adj,
                edges_ok(adj),
                f == scores_from(scorer, *prepared),
                lv == level as int,
                w == ef as nat,
                scorer.ready(),
                scorer.folded(*prepared),
                adj.len() <= scorer.count(),
                visited.wf(),
                visited.cover() == old(visited).cover(),
                visited.cover() >= adj.len(),
                beam_ok(adj, lv, f, w, b),
                cand@ == b.cand,
                kept@ == b.kept,
                visited@ == b.seen.to_set(),
                adj.len() - left + cand@.len() <= b.seen.len() <= adj.len(),
                going ==> beam_run(adj, lv, f, w, b, left) == beam_search(
                    adj,
                    lv,
                    f,
                    entry_points@,
                    w,
                ),
                !going ==> kept@ == beam_search(adj, lv, f, entry_points@, w),
            decreases left, if going { 1int } else { 0int },
        {
            let far: u32 = if kept.len() == 0 {
                F32_INFINITY
            } else {
                kept[kept.len() - 1].dist
            };
            if cand.len() == 0 || (less32(far, cand[0].dist) && kept.len() >= ef) {
                going = false;
            } else {
                proof {
                    lemma_pop(adj, lv, f, w, b);
                }
                let ghost b0 = b;
                let c: Scored = cand.remove(0);
                let list: &Vec<u32> = &self.neighbors[c.node as usize][level as usize];
                proof {
                    assert(cand@ =~= b0.cand.drop_first());
                    b = Beam { cand: b0.cand.drop_first(), ..b0 };
                    lemma_edges_at(adj, c.node, lv);
                    assert(list_at(adj, c.node, lv) == list@);
                    assert(list@.subrange(0, 0) =~= Seq::<u32>::empty());
                }
                let ghost popped = b;
                let mut j: usize = 0;
                while j < list.len()
                    invariant
                        j <= list.len(),
                        f == scores_from(scorer, *prepared),
                        w == ef as nat,
                        scorer.ready(),
                        scorer.folded(*prepared),
                        adj.len() <= scorer.count(),
                        forall|q: int|
                            0 <= q < list@.len() ==> reaches(adj, #[trigger] list@[q], lv),
                        visited.wf(),
                        visited.cover() == old(visited).cover(),
                        visited.cover() >= adj.len(),
                        b == offer_neighbors(f, w, popped, list@.subrange(0, j as int)),
                        beam_ok(adj, lv, f, w, b),
                        cand@ == b.cand,
                        kept@ == b.kept,
                        visited@ == b.seen.to_set(),
                    decreases list.len() - j,
                {
                    let nb: u32 = list[j];
                    proof {
                        let t = list@.subrange(0, j + 1);
                        assert(t.drop_last() =~= list@.subrange(0, j as int));
                        assert(t.last() == nb);
                        assert(reaches(adj, list@[j as int], lv));
                        b.seen.lemma_push_to_set_commute(nb);
                    }
                    if !visited.test_and_set(nb) {
                        let d: u32 = scorer.score(prepared, nb);
                        let edge: u32 = if kept.len() == 0 {
                            F32_INFINITY
                        } else {
                            kept[kept.len() - 1].dist
                        };
                        if kept.len() < ef || less32(d, edge) {
                            let s: Scored = Scored { dist: d, node: nb };
                            proof {
                                lemma_take_in(adj, lv, f, w, b, nb);
                            }
                            push_sorted(&mut cand, s);
                            push_sorted(&mut kept, s);
                            if kept.len() > ef {
                                let ghost k0 = kept@;
                                kept.pop();
                                assert(kept@ =~= k0.drop_last());
                            }
                            proof {
                                b = take_in(b, w, s);
                            }
                        } else {
                            proof {
                                lemma_mark(adj, lv, f, w, b, nb);
                                b = Beam { seen: b.seen.push(nb), ..b };
                            }
                        }
                    } else {
                        proof {
                            assert(b.seen.to_set().insert(nb) =~= b.seen.to_set());
                        }
                    }
                    j = j + 1;
                }
                proof {
                    assert(list@.subrange(0, j as int) =~= list@);
                    lemma_offer_neighbors(adj, lv, f, w, popped, list@);
                    lemma_seen_bound(adj, lv, b.seen);
                    assert(b == beam_step(adj, lv, f, w, b0));
                    left = (left - 1) as nat;
                }
            }
        }
        kept
    }
}

/// Whether `x` is in the list.
fn contains_id(v: &Vec<u32>, x: u32) -> (r: bool)
    ensures
        r == v@.contains(x),
{
    let mut i: usize = 0;
    while i < v.len()
        invariant
            i <= v.len(),
            forall|j: int| 0 <= j < i ==> v@[j] != x,
        decreases v.len() - i,
    {
        if v[i] == x {
            assert(v@[i as int] == x);
            return true;
        }
        i = i + 1;
    }
    false
}

/// What the heuristic keeps of `list` as neighbors of `target`.
fn reselect<S: NodeScorer>(scorer: &S, target: u32, list: &Vec<u32>, cap: usize) -> (r: Vec<u32>)
    requires
        scorer.ready(),
        target < scorer.count(),
        forall|i: int| 0 <= i < list@.len() ==> #[trigger] list@[i] < scorer.count(),
    ensures
        r@ == select_neighbors(
            pair_scores(scorer),
            rescored(pair_scores(scorer), target, list@),
            cap as nat,
        ),
{
    let ghost pair = pair_scores(scorer);
    let prep = scorer.prepare_node(target);
    let mut cands: Vec<Scored> = Vec::new();
    let mut i: usize = 0;
    while i < list.len()
        invariant
            i <= list.len(),
            scorer.ready(),
            scorer.folded(prep),
            pair == pair_scores(scorer),
            forall|x: u32| #[trigger] scorer.score_of(prep, x) == scorer.node_dist(target, x),
            forall|j: int| 0 <= j < list@.len() ==> #[trigger] list@[j] < scorer.count(),
            cands@.len() == i,
            forall|j: int|
                0 <= j < i ==> #[trigger] cands@[j] == (Scored {
                    dist: pair(target, list@[j]),
                    node: list@[j],
                }),
        decreases list.len() - i,
    {
        let x: u32 = list[i];
        let d: u32 = scorer.score(&prep, x);
        cands.push(Scored { dist: d, node: x });
        i = i + 1;
    }
    proof {
        assert(cands@ =~= rescored(pair, target, list@));
        assert forall|j: int| 0 <= j < cands@.len() implies (#[trigger] cands@[j]).node
            < scorer.count() by {
            assert(list@[j] < scorer.count());
        }
    }
    select_neighbors_heuristic(scorer, &cands, cap)
}

/// The graph over the given towers, all nodes inserted in id order.
pub open spec fn built(
    pair: spec_fn(u32, u32) -> u32,
    p: HnswParams,
    levels: Seq<u32>,
) -> GraphModel {
    let g = inserted_range(empty_towers(levels), pair, p, 0, 1, levels.len() as int);
    GraphModel {
        adj: g.0,
        levels,
        entry: g.1,
        m: p.m as nat,
        m0: p.m0 as nat,
        ef_construction: p.ef_construction as nat,
    }
}

/// The graph with towers for more nodes, and those nodes inserted in id order.
pub open spec fn extended(
    g: GraphModel,
    pair: spec_fn(u32, u32) -> u32,
    p: HnswParams,
    new_levels: Seq<u32>,
) -> GraphModel {
    if new_levels.len() == 0 {
        g
    } else {
        let n = g.adj.len();
        let out = inserted_range(
            g.adj + empty_towers(new_levels),
            pair,
            p,
            g.entry,
            n as int,
            (n + new_levels.len()) as int,
        );
        GraphModel {
            adj: out.0,
            levels: g.levels + new_levels,
            entry: out.1,
            m: p.m as nat,
            m0: p.m0 as nat,
            ef_construction: p.ef_construction as nat,
        }
    }
}

/// The adjacency with every level-0 list cut back to `m0` by the selection.
pub open spec fn pruned_adjacency(
    adj: Adjacency,
    pair: spec_fn(u32, u32) -> u32,
    m0: nat,
) -> Adjacency {
    Seq::new(
        adj.len(),
        |v: int|
            Seq::new(
                adj[v].len(),
                |l: int|
                    if l == 0 {
                        shrunk(pair, v as u32, adj[v][0], m0)
                    } else {
                        adj[v][l]
                    },
            ),
    )
}

/// The graph with its base layer cut back to degree `m0`.
pub open spec fn pruned(g: GraphModel, pair: spec_fn(u32, u32) -> u32, m0: nat) -> GraphModel {
    GraphModel { adj: pruned_adjacency(g.adj, pair, m0), m0, ..g }
}

pub open spec fn heights_ok(levels: Seq<u32>) -> bool {
    forall|i: int| 0 <= i < levels.len() ==> #[trigger] levels[i] <= MAX_LEVEL
}

/// Towers without edges are in order.
proof fn lemma_empty_towers(levels: Seq<u32>, p: HnswParams)
    requires
        heights_ok(levels),
    ensures
        towers_ok(empty_towers(levels), levels),
        lists_ok(empty_towers(levels), p),
{
    let adj = empty_towers(levels);
    assert forall|v: int, l: int| 0 <= v < adj.len() && 0 <= l < adj[v].len() implies list_ok(
        #[trigger] adj[v][l],
        v,
        cap_at(p, l),
    ) by {
        assert(adj[v][l] =~= Seq::<u32>::empty());
    }
}

/// Towers keep their heights when only lists change.
proof fn lemma_towers_carry(a: Adjacency, b: Adjacency, levels: Seq<u32>)
    requires
        towers_reach(a, levels),
        same_towers(a, b),
    ensures
        towers_reach(b, levels),
{
    assert forall|v: int| 0 <= v < b.len() implies (#[trigger] b[v]).len() == levels[v] + 1
        && levels[v] <= MAX_LEVEL by {
        assert(a[v].len() == b[v].len());
    }
}

/// Adding towers without edges keeps the graph in order.
proof fn lemma_more_towers(adj: Adjacency, levels: Seq<u32>, more: Seq<u32>, p: HnswParams)
    requires
        towers_ok(adj, levels),
        heights_ok(more),
    ensures
        towers_ok(adj + empty_towers(more), levels + more),
        lists_ok(adj, p) ==> lists_ok(adj + empty_towers(more), p),
{
    lemma_empty_towers(more, p);
    let t = empty_towers(more);
    let out = adj + t;
    let lv = levels + more;
    assert forall|v: int| 0 <= v < out.len() implies (#[trigger] out[v]).len() == lv[v] + 1 && lv[v]
        <= MAX_LEVEL by {
        if v < adj.len() {
            assert(out[v] == adj[v]);
        } else {
            assert(out[v] == t[v - adj.len()]);
        }
    }
    assert forall|v: int, l: int, i: int|
        0 <= v < out.len() && 0 <= l < out[v].len() && 0 <= i < out[v][l].len() implies reaches(
        out,
        #[trigger] out[v][l][i],
        l,
    ) by {
        if v < adj.len() {
            assert(out[v] == adj[v]);
            assert(reaches(adj, adj[v][l][i], l));
        } else {
            assert(out[v] == t[v - adj.len()]);
        }
    }
    if lists_ok(adj, p) {
        assert forall|v: int, l: int| 0 <= v < out.len() && 0 <= l < out[v].len() implies list_ok(
            #[trigger] out[v][l],
            v,
            cap_at(p, l),
        ) by {
            if v < adj.len() {
                assert(out[v][l] == adj[v][l]);
            } else {
                assert(out[v][l] == t[v - adj.len()][l]);
                assert(out[v][l] =~= Seq::<u32>::empty());
            }
        }
    }
}

/// A built graph can be walked: its towers have the heights that were drawn
/// and every edge leads to a node that reaches the edge's level. No list holds
/// its own node, a node twice, or more than its level's cap, and no tower is
/// taller than the entry point's.
pub proof fn law_build_is_well_formed(
    pair: spec_fn(u32, u32) -> u32,
    p: HnswParams,
    levels: Seq<u32>,
)
    requires
        heights_ok(levels),
        levels.len() <= u32::MAX,
    ensures
        built(pair, p, levels).wf(),
        lists_ok(built(pair, p, levels).adj, p),
        levels.len() > 0 ==> entry_tallest(
            built(pair, p, levels).adj,
            built(pair, p, levels).entry,
            levels.len() as int,
        ),
{
    let adj = empty_towers(levels);
    lemma_empty_towers(levels, p);
    if levels.len() > 0 {
        lemma_inserted_range(adj, pair, p, 0, 1, levels.len() as int);
        let g = inserted_range(adj, pair, p, 0, 1, levels.len() as int);
        lemma_towers_carry(adj, g.0, levels);
        assert(entry_tallest(adj, 0, 1));
        assert forall|v: int| 0 <= v < levels.len() implies (#[trigger] g.0[v]).len()
            <= g.0[g.1 as int].len() by {
            assert(adj[v].len() == g.0[v].len());
            assert(adj[g.1 as int].len() == g.0[g.1 as int].len());
            assert(adj[v].len() <= adj[g.1 as int].len());
        }
    }
}

/// Extending keeps the graph in order, keeps the prior towers, and keeps the
/// degree caps where the prior graph kept them. Where no tower was taller than
/// the entry point's, none is after the extension.
pub proof fn law_extend_is_well_formed(
    g: GraphModel,
    pair: spec_fn(u32, u32) -> u32,
    p: HnswParams,
    new_levels: Seq<u32>,
)
    requires
        g.wf(),
        heights_ok(new_levels),
        new_levels.len() > 0 ==> g.adj.len() + new_levels.len() <= u32::MAX,
    ensures
        extended(g, pair, p, new_levels).wf(),
        extended(g, pair, p, new_levels).levels == g.levels + new_levels,
        lists_ok(g.adj, p) ==> lists_ok(extended(g, pair, p, new_levels).adj, p),
        g.adj.len() > 0 && entry_tallest(g.adj, g.entry, g.adj.len() as int) ==> entry_tallest(
            extended(g, pair, p, new_levels).adj,
            extended(g, pair, p, new_levels).entry,
            (g.adj.len() + new_levels.len()) as int,
        ),
{
    if new_levels.len() > 0 {
        let adj = g.adj + empty_towers(new_levels);
        let n = g.adj.len();
        lemma_more_towers(g.adj, g.levels, new_levels, p);
        lemma_inserted_range(adj, pair, p, g.entry, n as int, (n + new_levels.len()) as int);
        let out = inserted_range(adj, pair, p, g.entry, n as int, (n + new_levels.len()) as int);
        lemma_towers_carry(adj, out.0, g.levels + new_levels);
        if n > 0 && entry_tallest(g.adj, g.entry, n as int) {
            assert(entry_tallest(adj, g.entry, n as int)) by {
                assert forall|v: int| 0 <= v < n implies (#[trigger] adj[v]).len()
                    <= adj[g.entry as int].len() by {
                    assert(adj[v] == g.adj[v]);
                }
            }
            assert forall|v: int| 0 <= v < n + new_levels.len() implies (#[trigger] out.0[v]).len()
                <= out.0[out.1 as int].len() by {
                assert(adj[v].len() == out.0[v].len());
                assert(adj[out.1 as int].len() == out.0[out.1 as int].len());
                assert(adj[v].len() <= adj[out.1 as int].len());
            }
        }
    } else {
        assert(g.levels + new_levels =~= g.levels);
    }
}

/// Extending a graph keeps what was there: a node that the graph held before
/// has, on every level, no neighbor but those it had and the new nodes that
/// linked back to it.
pub proof fn law_extend_keeps_prior_lists(
    g: GraphModel,
    pair: spec_fn(u32, u32) -> u32,
    p: HnswParams,
    new_levels: Seq<u32>,
)
    requires
        g.wf(),
        heights_ok(new_levels),
        new_levels.len() > 0 ==> g.adj.len() + new_levels.len() <= u32::MAX,
    ensures
        forall|v: int, l: int, i: int|
            #![trigger extended(g, pair, p, new_levels).adj[v][l][i]]
            0 <= v < g.adj.len() && 0 <= l < g.adj[v].len() && 0 <= i < extended(
                g,
                pair,
                p,
                new_levels,
            ).adj[v][l].len() ==> {
                let x = extended(g, pair, p, new_levels).adj[v][l][i];
                x >= g.adj.len() || g.adj[v][l].contains(x)
            },
{
    let out = extended(g, pair, p, new_levels);
    if new_levels.len() > 0 {
        let adj = g.adj + empty_towers(new_levels);
        let n = g.adj.len() as int;
        lemma_more_towers(g.adj, g.levels, new_levels, p);
        law_insertion_adds_only_new_links(adj, pair, p, g.entry, n, n + new_levels.len());
        assert forall|v: int, l: int, i: int|
            #![trigger out.adj[v][l][i]]
            0 <= v < n && 0 <= l < g.adj[v].len() && 0 <= i < out.adj[v][l].len() implies
            out.adj[v][l][i] >= n || g.adj[v][l].contains(out.adj[v][l][i]) by {
            assert(adj[v] == g.adj[v]);
            assert(adj[v].len() == out.adj[v].len());
        }
    } else {
        assert forall|v: int, l: int, i: int|
            #![trigger out.adj[v][l][i]]
            0 <= v < g.adj.len() && 0 <= l < g.adj[v].len() && 0 <= i
                < out.adj[v][l].len() implies g.adj[v][l].contains(out.adj[v][l][i]) by {
            assert(g.adj[v][l][i] == out.adj[v][l][i]);
        }
    }
}

/// Pruning keeps the graph in order, leaves the upper levels alone, and no
/// base list is longer than the new degree. A base list that fits the degree
/// stays as it is; one that is cut comes out nearest to its node first.
pub proof fn law_prune_base_layer(g: GraphModel, pair: spec_fn(u32, u32) -> u32, m0: nat)
    requires
        g.wf(),
    ensures
        pruned(g, pair, m0).wf(),
        pruned(g, pair, m0).base_fits(),
        forall|v: int, l: int|
            0 <= v < g.adj.len() && 1 <= l < g.adj[v].len() ==> #[trigger] pruned(
                g,
                pair,
                m0,
            ).adj[v][l] == g.adj[v][l],
        forall|v: int|
            0 <= v < g.adj.len() && g.adj[v][0].len() <= m0 ==> (#[trigger] pruned(
                g,
                pair,
                m0,
            ).adj[v])[0] == g.adj[v][0],
        forall|v: int|
            0 <= v < g.adj.len() && g.adj[v][0].len() > m0 ==> sorted(
                rescored(pair, v as u32, (#[trigger] pruned(g, pair, m0).adj[v])[0]),
            ),
{
    let out = pruned_adjacency(g.adj, pair, m0);
    assert forall|v: int| 0 <= v < out.len() implies (#[trigger] out[v])[0].len() <= m0 by {
        assert(g.adj[v].len() > 0);
        lemma_prune_list(g, pair, m0, v);
    }
    assert forall|v: int| 0 <= v < g.adj.len() implies (g.adj[v][0].len() <= m0 ==> (
    #[trigger] out[v])[0] == g.adj[v][0]) && (g.adj[v][0].len() > m0 ==> sorted(
        rescored(pair, v as u32, out[v][0]),
    )) by {
        assert(g.adj[v].len() > 0);
        law_cut_list_is_nearest_first(pair, v as u32, g.adj[v][0], m0);
    }
    assert forall|v: int, l: int, i: int|
        0 <= v < out.len() && 0 <= l < out[v].len() && 0 <= i < out[v][l].len() implies reaches(
        out,
        #[trigger] out[v][l][i],
        l,
    ) by {
        if l == 0 {
            lemma_prune_list(g, pair, m0, v);
            assert(reaches(g.adj, out[v][0][i], 0));
        } else {
            assert(out[v][l] == g.adj[v][l]);
            assert(reaches(g.adj, g.adj[v][l][i], l));
        }
    }
}

proof fn lemma_prune_list(g: GraphModel, pair: spec_fn(u32, u32) -> u32, m0: nat, v: int)
    requires
        g.wf(),
        0 <= v < g.adj.len(),
    ensures
        all_reach(g.adj, shrunk(pair, v as u32, g.adj[v][0], m0), 0),
        shrunk(pair, v as u32, g.adj[v][0], m0).len() <= m0,
{
    assert(g.adj[v].len() > 0);
    let list = g.adj[v][0];
    assert forall|i: int| 0 <= i < list.len() implies reaches(g.adj, #[trigger] list[i], 0) by {
        assert(reaches(g.adj, g.adj[v][0][i], 0));
    }
    crate::link::lemma_shrunk(g.adj, pair, v as u32, list, 0, m0);
}

/// A search gives at most `k` graph nodes, each with its own distance, nearest
/// first and none twice; and at least one where the graph has any and `k` asks
/// for any. A beam narrower than `k` is widened to it.
pub proof fn law_search_result(g: GraphModel, f: spec_fn(u32) -> u32, k: nat, ef: nat)
    requires
        g.wf(),
    ensures
        search_hits(g, f, k, ef).len() <= k,
        strictly_ascending(search_hits(g, f, k, ef)),
        forall|i: int|
            0 <= i < search_hits(g, f, k, ef).len() ==> (#[trigger] search_hits(g, f, k, ef)[i]).node
                < g.adj.len() && search_hits(g, f, k, ef)[i] == scored_under(
                f,
                search_hits(g, f, k, ef)[i].node,
            ),
        g.adj.len() > 0 && k > 0 ==> search_hits(g, f, k, ef).len() > 0,
        search_hits(g, f, k, ef).len() <= g.adj.len(),
        nodes_of(search_hits(g, f, k, ef)).no_duplicates(),
        ef < k ==> search_hits(g, f, k, ef) == search_hits(g, f, k, k),
{
    if g.adj.len() > 0 && k > 0 {
        let top = g.levels[g.entry as int] as int;
        assert(g.adj[g.entry as int].len() == top + 1);
        lemma_descend(g.adj, f, g.entry, top, 0);
        let ep = descend(g.adj, f, g.entry, top, 0);
        let width = if ef >= k {
            ef
        } else {
            k
        };
        assert(all_reach(g.adj, seq![ep], 0));
        law_beam_result(g.adj, 0, f, seq![ep], width);
        let found = beam_search(g.adj, 0, f, seq![ep], width);
        let r = search_hits(g, f, k, ef);
        assert forall|i: int| 0 <= i < r.len() implies (#[trigger] r[i]).node < g.adj.len() && r[i]
            == scored_under(f, r[i].node) by {
            assert(r[i] == found[i]);
            assert(reaches(g.adj, found[i].node, 0));
        }
        assert forall|i: int, j: int| 0 <= i < j < r.len() implies crate::scored::before(
            #[trigger] r[i],
            #[trigger] r[j],
        ) by {
            assert(r[i] == found[i] && r[j] == found[j]);
        }
        let ids = nodes_of(r);
        assert forall|i: int, j: int|
            0 <= i < ids.len() && 0 <= j < ids.len() && i != j implies ids[i] != ids[j] by {
            assert(r[i] == scored_under(f, r[i].node) && r[j] == scored_under(f, r[j].node));
            if i < j {
                assert(crate::scored::before(r[i], r[j]));
            } else {
                assert(crate::scored::before(r[j], r[i]));
            }
        }
        assert forall|i: int| 0 <= i < ids.len() implies reaches(g.adj, #[trigger] ids[i], 0) by {
            assert(r[i].node < g.adj.len());
            assert(g.adj[r[i].node as int].len() > 0);
        }
        lemma_seen_bound(g.adj, 0, ids);
    }
}

impl Hnsw {
    /// Link `adds` into the list of `target` at `level`; a list that outgrows
    /// the cap is cut back by the heuristic.
    fn link_into<S: NodeScorer>(
        &mut self,
        scorer: &S,
        target: u32,
        adds: &Vec<u32>,
        level: u32,
        cap: usize,
    )
        requires
            edges_ok(old(self)@.adj),
            scorer.ready(),
            old(self)@.adj.len() <= scorer.count(),
            reaches(old(self)@.adj, target, level as int),
            all_reach(old(self)@.adj, adds@, level as int),
        ensures
            final(self)@ == (GraphModel {
                adj: linked(
                    old(self)@.adj,
                    pair_scores(scorer),
                    target,
                    adds@,
                    level as int,
                    cap as nat,
                ),
                ..old(self)@
            }),
    {
        let ghost adj = self@.adj;
        let ghost lv = level as int;
        let ghost pair = pair_scores(scorer);
        let ghost own = list_at(adj, target, lv);
        let mut list: Vec<u32> = copy_ids(&self.neighbors[target as usize][level as usize]);
        proof {
            assert(list@ == own);
            lemma_edges_at(adj, target, lv);
            assert(adds@.subrange(0, 0) =~= Seq::<u32>::empty());
        }
        let mut i: usize = 0;
        while i < adds.len()
            invariant
                i <= adds.len(),
                list@ == merged(own, target, adds@.subrange(0, i as int)),
            decreases adds.len() - i,
        {
            let a: u32 = adds[i];
            proof {
                let t = adds@.subrange(0, i + 1);
                assert(t.drop_last() =~= adds@.subrange(0, i as int));
                assert(t.last() == a);
            }
            if a != target && !contains_id(&list, a) {
                list.push(a);
            }
            i = i + 1;
        }
        proof {
            assert(adds@.subrange(0, i as int) =~= adds@);
            crate::link::lemma_merged(adj, own, target, adds@, lv);
            assert forall|j: int| 0 <= j < list@.len() implies #[trigger] list@[j] < scorer.count() by {
                assert(reaches(adj, list@[j], lv));
            }
        }
        if list.len() > cap {
            list = reselect(scorer, target, &list, cap);
        }
        let ghost fresh = list@;
        self.neighbors[target as usize][level as usize] = list;
        proof {
            assert(fresh == shrunk(pair, target, merged(own, target, adds@), cap as nat));
            assert(self@.adj =~= set_list(adj, target, lv, fresh)) by {
                assert(self@.adj[target as int] =~= adj[target as int].update(lv, fresh));
            }
        }
    }

    /// Link `node` and `selected` both ways at `level`.
    fn connect<S: NodeScorer>(
        &mut self,
        scorer: &S,
        node: u32,
        selected: &Vec<u32>,
        level: u32,
        cap: usize,
    )
        requires
            edges_ok(old(self)@.adj),
            scorer.ready(),
            old(self)@.adj.len() <= scorer.count(),
            reaches(old(self)@.adj, node, level as int),
            all_reach(old(self)@.adj, selected@, level as int),
        ensures
            final(self)@ == (GraphModel {
                adj: connected(
                    old(self)@.adj,
                    pair_scores(scorer),
                    node,
                    selected@,
                    level as int,
                    cap as nat,
                ),
                ..old(self)@
            }),
    {
        let ghost adj = self@.adj;
        let ghost lv = level as int;
        let ghost pair = pair_scores(scorer);
        let ghost p = HnswParams { m: cap, m0: cap, ef_construction: 0, seed: 0 };
        self.link_into(scorer, node, selected, level, cap);
        let ghost mid = self@.adj;
        let one: Vec<u32> = vec![node];
        proof {
            lemma_linked(adj, pair, p, node, selected@, lv);
            lemma_same_towers_reach(adj, mid, selected@, lv);
            assert(one@ =~= seq![node]);
            assert(all_reach(adj, one@, lv));
            lemma_same_towers_reach(adj, mid, one@, lv);
            assert(selected@.subrange(0, 0) =~= Seq::<u32>::empty());
        }
        let mut i: usize = 0;
        while i < selected.len()
            invariant
                i <= selected.len(),
                scorer.ready(),
                lv == level as int,
                pair == pair_scores(scorer),
                p == (HnswParams { m: cap, m0: cap, ef_construction: 0, seed: 0 }),
                one@ == seq![node],
                edges_ok(mid),
                mid.len() <= scorer.count(),
                all_reach(mid, selected@, lv),
                all_reach(mid, one@, lv),
                self@ == (GraphModel {
                    adj: linked_back(
                        mid,
                        pair,
                        node,
                        selected@.subrange(0, i as int),
                        lv,
                        cap as nat,
                    ),
                    ..old(self)@
                }),
            decreases selected.len() - i,
        {
            let nb: u32 = selected[i];
            proof {
                let done = selected@.subrange(0, i as int);
                let t = selected@.subrange(0, i + 1);
                assert(t.drop_last() =~= done);
                assert(t.last() == nb);
                assert(all_reach(mid, done, lv)) by {
                    assert forall|j: int| 0 <= j < done.len() implies reaches(
                        mid,
                        #[trigger] done[j],
                        lv,
                    ) by {
                        assert(done[j] == selected@[j]);
                    }
                }
                assert(reaches(mid, one@[0], lv));
                lemma_linked_back(mid, pair, p, node, done, lv);
                let cur = linked_back(mid, pair, node, done, lv, cap as nat);
                lemma_same_towers_reach(mid, cur, selected@, lv);
                lemma_same_towers_reach(mid, cur, one@, lv);
                assert(reaches(cur, selected@[i as int], lv));
            }
            self.link_into(scorer, nb, &one, level, cap);
            i = i + 1;
        }
        proof {
            assert(selected@.subrange(0, i as int) =~= selected@);
        }
    }

    /// Insert `node`: descend to its level, then beam and connect at each level
    /// from there down. A node taller than the entry point becomes it.
    #[verifier::rlimit(40)]
    fn insert<S: NodeScorer>(
        &mut self,
        scorer: &S,
        params: HnswParams,
        node: u32,
        visited: &mut VisitedSet,
    )
        requires
            towers_ok(old(self)@.adj, old(self)@.levels),
            scorer.ready(),
            old(self)@.adj.len() <= scorer.count(),
            node < old(self)@.adj.len(),
            old(self)@.entry < old(self)@.adj.len(),
            old(visited).wf(),
            old(visited).cover() >= old(self)@.adj.len(),
        ensures
            ({
                let out = inserted(
                    old(self)@.adj,
                    pair_scores(scorer),
                    params,
                    node,
                    old(self)@.entry,
                );
                final(self)@ == (GraphModel { adj: out.0, entry: out.1, ..old(self)@ })
            }),
            final(visited).wf(),
            final(visited).cover() == old(visited).cover(),
    {
        let ghost start = self@.adj;
        let ghost pair = pair_scores(scorer);
        let ghost f = from_node(pair, node);
        let ghost levels = self@.levels;
        let ghost out = inserted(start, pair, params, node, self@.entry);
        assert(start[node as int].len() == levels[node as int] + 1);
        let level: u32 = self.node_level[node as usize];
        let prepared = scorer.prepare_node(node);
        let mut ep: u32 = self.entry;
        assert(start[ep as int].len() == levels[ep as int] + 1);
        let high: u32 = self.node_level[ep as usize];
        proof {
            assert(scores_from(scorer, prepared) =~= f);
            lemma_descend(start, f, ep, high as int, level as int);
        }
        let mut l: u32 = high;
        while l > level
            invariant
                self@ == old(self)@,
                start == self@.adj,
                edges_ok(start),
                scorer.ready(),
                scorer.folded(prepared),
                start.len() <= scorer.count(),
                scores_from(scorer, prepared) == f,
                l <= high,
                reaches(start, ep, l as int),
                descend(start, f, ep, l as int, level as int) == descend(
                    start,
                    f,
                    old(self)@.entry,
                    high as int,
                    level as int,
                ),
            decreases l,
        {
            ep = self.greedy_nearest(scorer, &prepared, ep, l);
            l = l - 1;
        }
        let top: u32 = if level <= high {
            level
        } else {
            high
        };
        let mut entries: Vec<u32> = vec![ep];
        proof {
            assert(entries@ =~= seq![ep]);
            lemma_descend(start, f, old(self)@.entry, high as int, level as int);
            assert(all_reach(start, entries@, top as int));
        }
        let mut next: u32 = top + 1;
        while next > 0
            invariant
                next <= top + 1,
                next <= 64,
                scorer.ready(),
                scorer.folded(prepared),
                pair == pair_scores(scorer),
                f == from_node(pair, node),
                scores_from(scorer, prepared) == f,
                start.len() <= scorer.count(),
                same_towers(start, self@.adj),
                edges_ok(self@.adj),
                reaches(self@.adj, node, next - 1),
                reaches(self@.adj, ep, next - 1),
                all_reach(self@.adj, entries@, next - 1),
                visited.wf(),
                visited.cover() == old(visited).cover(),
                visited.cover() >= start.len(),
                self@ == (GraphModel { adj: self@.adj, ..old(self)@ }),
                attached(self@.adj, pair, params, node, entries@, ep, next - 1) == out.0,
            decreases next,
        {
            let lv: u32 = next - 1;
            let ghost adj = self@.adj;
            let found = self.search_layer(
                scorer,
                &prepared,
                &entries,
                params.ef_construction,
                lv,
                visited,
            );
            let cap: usize = if lv == 0 {
                params.m0
            } else {
                params.m
            };
            proof {
                law_beam_result(adj, lv as int, f, entries@, params.ef_construction as nat);
                lemma_found(adj, pair, f, found@, lv as int, cap as nat);
                assert forall|i: int| 0 <= i < found@.len() implies (#[trigger] found@[i]).node
                    < scorer.count() by {
                    assert(reaches(adj, found@[i].node, lv as int));
                }
            }
            let selected = select_neighbors_heuristic(scorer, &found, cap);
            self.connect(scorer, node, &selected, lv, cap);
            proof {
                lemma_connected(adj, pair, params, node, selected@, lv as int);
                lemma_same_towers_trans(start, adj, self@.adj);
            }
            let mut nodes: Vec<u32> = Vec::new();
            let mut i: usize = 0;
            while i < found.len()
                invariant
                    i <= found.len(),
                    nodes@.len() == i,
                    forall|j: int| 0 <= j < i ==> #[trigger] nodes@[j] == found@[j].node,
                decreases found.len() - i,
            {
                nodes.push(found[i].node);
                i = i + 1;
            }
            proof {
                assert(nodes@ =~= nodes_of(found@));
            }
            if nodes.len() == 0 {
                nodes.push(ep);
                assert(nodes@ =~= seq![ep]);
            }
            entries = nodes;
            next = lv;
            proof {
                assert(all_reach(adj, entries@, next - 1));
                lemma_same_towers_reach(adj, self@.adj, entries@, next - 1);
                assert(all_reach(adj, seq![node, ep], next - 1));
                lemma_same_towers_reach(adj, self@.adj, seq![node, ep], next - 1);
                assert(seq![node, ep][0] == node && seq![node, ep][1] == ep);
            }
        }
        if level > high {
            self.entry = node;
        }
    }

    /// Insert the nodes `from..to` in id order.
    fn insert_range<S: NodeScorer>(&mut self, scorer: &S, params: HnswParams, from: u32, to: u32)
        requires
            towers_ok(old(self)@.adj, old(self)@.levels),
            scorer.ready(),
            old(self)@.adj.len() <= scorer.count(),
            from <= to <= old(self)@.adj.len() <= u32::MAX,
            old(self)@.entry < old(self)@.adj.len(),
        ensures
            ({
                let out = inserted_range(
                    old(self)@.adj,
                    pair_scores(scorer),
                    params,
                    old(self)@.entry,
                    from as int,
                    to as int,
                );
                final(self)@ == (GraphModel { adj: out.0, entry: out.1, ..old(self)@ })
            }),
    {
        let ghost start = self@.adj;
        let ghost pair = pair_scores(scorer);
        let ghost entry = self@.entry;
        let mut visited: VisitedSet = VisitedSet::new(self.neighbors.len());
        let mut node: u32 = from;
        while node < to
            invariant
                from <= node <= to <= start.len() <= u32::MAX,
                towers_ok(start, old(self)@.levels),
                scorer.ready(),
                start.len() <= scorer.count(),
                pair == pair_scores(scorer),
                start == old(self)@.adj,
                entry == old(self)@.entry,
                entry < start.len(),
                visited.wf(),
                visited.cover() == start.len(),
                ({
                    let out = inserted_range(start, pair, params, entry, from as int, node as int);
                    self@ == (GraphModel { adj: out.0, entry: out.1, ..old(self)@ })
                }),
            decreases to - node,
        {
            proof {
                assert forall|v: int| 0 <= v < start.len() implies (#[trigger] start[v]).len() > 0 by {}
                lemma_inserted_range(start, pair, params, entry, from as int, node as int);
                lemma_towers_carry(start, self@.adj, old(self)@.levels);
            }
            self.insert(scorer, params, node, &mut visited);
            node = node + 1;
        }
    }

    /// Build a graph over every node the scorer holds, inserting nodes in id
    /// order. `levels` gives the tower height of each node. The same distances
    /// and the same towers give the same graph on every run.
    pub fn build_serial<S: NodeScorer>(scorer: &S, params: HnswParams, levels: Vec<u32>) -> (r: Hnsw)
        requires
            scorer.ready(),
            scorer.count() <= u32::MAX,
            levels@.len() == scorer.count(),
            heights_ok(levels@),
        ensures
            r@ == built(pair_scores(scorer), params, levels@),
            r@.wf(),
    {
        let n: usize = levels.len();
        let neighbors = Self::towers(&levels);
        proof {
            lemma_empty_towers(levels@, params);
            law_build_is_well_formed(pair_scores(scorer), params, levels@);
        }
        let mut g = Hnsw {
            neighbors,
            node_level: levels,
            entry: 0,
            m: params.m,
            m0: params.m0,
            ef_construction: params.ef_construction,
        };
        if n > 0 {
            g.insert_range(scorer, params, 1, n as u32);
        }
        g
    }

    /// Build a graph over every node the scorer holds. The heights of the
    /// towers are drawn per node and do not depend on the order of insertion;
    /// the nodes go in in id order.
    pub fn build<S: NodeScorer>(scorer: &S, params: HnswParams, levels: Vec<u32>) -> (r: Hnsw)
        requires
            scorer.ready(),
            scorer.count() <= u32::MAX,
            levels@.len() == scorer.count(),
            heights_ok(levels@),
        ensures
            r@ == built(pair_scores(scorer), params, levels@),
            r@.wf(),
    {
        Self::build_serial(scorer, params, levels)
    }

    /// Extend the graph with the nodes that the scorer holds beyond it. Only
    /// they are inserted; the prior lists change only where a new node links
    /// back into them. A scorer with no more nodes leaves the graph as it is.
    pub fn extend<S: NodeScorer>(
        self,
        scorer: &S,
        params: HnswParams,
        new_levels: Vec<u32>,
    ) -> (r: Hnsw)
        requires
            self@.wf(),
            scorer.ready(),
            scorer.count() <= u32::MAX,
            heights_ok(new_levels@),
            new_levels@.len() == if scorer.count() > self@.adj.len() {
                scorer.count() - self@.adj.len()
            } else {
                0
            },
        ensures
            r@ == extended(self@, pair_scores(scorer), params, new_levels@),
            r@.wf(),
    {
        let ghost g0 = self@;
        let prior: usize = self.neighbors.len();
        let total: usize = scorer.len();
        proof {
            law_extend_is_well_formed(g0, pair_scores(scorer), params, new_levels@);
        }
        if total <= prior {
            return self;
        }
        let mut g = self;
        let ghost nb0 = g.neighbors@;
        let mut i: usize = 0;
        while i < new_levels.len()
            invariant
                i <= new_levels@.len(),
                heights_ok(new_levels@),
                g.entry == g0.entry,
                g.node_level@ == g0.levels + new_levels@.subrange(0, i as int),
                g.neighbors@.len() == nb0.len() + i,
                nb0 == self.neighbors@,
                forall|v: int| 0 <= v < nb0.len() ==> g.neighbors@[v] == nb0[v],
                forall|v: int|
                    nb0.len() <= v < nb0.len() + i ==> (#[trigger] g.neighbors@[v])@.len()
                        == new_levels@[v - nb0.len()] + 1 && forall|l: int|
                        0 <= l < g.neighbors@[v]@.len() ==> (#[trigger] g.neighbors@[v]@[l])@
                            == Seq::<u32>::empty(),
            decreases new_levels.len() - i,
        {
            let lvl: u32 = new_levels[i];
            assert(new_levels@[i as int] <= MAX_LEVEL);
            g.neighbors.push(empty_tower(lvl));
            g.node_level.push(lvl);
            i = i + 1;
            proof {
                assert(g0.levels + new_levels@.subrange(0, i as int) =~= (g0.levels
                    + new_levels@.subrange(0, i - 1)).push(lvl));
            }
        }
        g.m = params.m;
        g.m0 = params.m0;
        g.ef_construction = params.ef_construction;
        proof {
            assert(new_levels@.subrange(0, i as int) =~= new_levels@);
            let adj = g@.adj;
            let want = g0.adj + empty_towers(new_levels@);
            assert forall|v: int| 0 <= v < adj.len() implies adj[v] == #[trigger] want[v] by {
                assert(adj[v] =~= want[v]);
            }
            assert(adj =~= want);
            lemma_more_towers(g0.adj, g0.levels, new_levels@, params);
        }
        g.insert_range(scorer, params, prior as u32, total as u32);
        g
    }

    /// A copy with the base layer cut back to `m0` neighbors per node by the
    /// same selection that links use. Upper levels are untouched.
    pub fn pruned_base_layer<S: NodeScorer>(&self, scorer: &S, m0: usize) -> (r: Hnsw)
        requires
            self@.wf(),
            scorer.ready(),
            self@.adj.len() <= scorer.count() <= u32::MAX,
        ensures
            r@ == pruned(self@, pair_scores(scorer), m0 as nat),
            r@.wf(),
    {
        let ghost g = self@;
        let ghost pair = pair_scores(scorer);
        let ghost want = pruned_adjacency(g.adj, pair, m0 as nat);
        let n: usize = self.neighbors.len();
        let mut neighbors: Vec<Vec<Vec<u32>>> = Vec::new();
        let mut v: usize = 0;
        while v < n
            invariant
                v <= n,
                n == self.neighbors@.len(),
                g == self@,
                g.wf(),
                scorer.ready(),
                g.adj.len() <= scorer.count() <= u32::MAX,
                pair == pair_scores(scorer),
                want == pruned_adjacency(g.adj, pair, m0 as nat),
                neighbors@.len() == v,
                forall|w: int| 0 <= w < v ==> #[trigger] adjacency_of(neighbors@)[w] == want[w],
            decreases n - v,
        {
            let levels: usize = self.neighbors[v].len();
            let mut tower: Vec<Vec<u32>> = Vec::new();
            let mut l: usize = 0;
            assert(g.adj[v as int].len() > 0);
            while l < levels
                invariant
                    v < n,
                    l <= levels,
                    n == self.neighbors@.len(),
                    levels == self.neighbors@[v as int]@.len(),
                    g == self@,
                    g.wf(),
                    scorer.ready(),
                    g.adj.len() <= scorer.count() <= u32::MAX,
                    pair == pair_scores(scorer),
                    want == pruned_adjacency(g.adj, pair, m0 as nat),
                    tower@.len() == l,
                    forall|q: int| 0 <= q < l ==> (#[trigger] tower@[q])@ == want[v as int][q],
                decreases levels - l,
            {
                let lst: &Vec<u32> = &self.neighbors[v][l];
                assert(lst@ == g.adj[v as int][l as int]);
                if l == 0 && lst.len() > m0 {
                    proof {
                        assert forall|i: int| 0 <= i < lst@.len() implies #[trigger] lst@[i]
                            < scorer.count() by {
                            assert(reaches(g.adj, g.adj[v as int][0][i], 0));
                        }
                    }
                    tower.push(reselect(scorer, v as u32, lst, m0));
                } else {
                    tower.push(copy_ids(lst));
                }
                l = l + 1;
            }
            let ghost before = neighbors@;
            neighbors.push(tower);
            proof {
                assert forall|w: int| 0 <= w < v + 1 implies #[trigger] adjacency_of(
                    neighbors@,
                )[w] == want[w] by {
                    if w < v {
                        assert(adjacency_of(neighbors@)[w] =~= adjacency_of(before)[w]);
                    } else {
                        assert(adjacency_of(neighbors@)[w] =~= want[w]);
                    }
                }
            }
            v = v + 1;
        }
        let r = Hnsw {
            neighbors,
            node_level: copy_ids(&self.node_level),
            entry: self.entry,
            m: self.m,
            m0,
            ef_construction: self.ef_construction,
        };
        proof {
            assert(r@.adj =~= want);
            law_prune_base_layer(g, pair, m0 as nat);
        }
        r
    }

    /// Search reusing a visited set, which must cover the graph.
    pub fn search_scratch<S: NodeScorer>(
        &self,
        scorer: &S,
        query: &S::Query,
        k: usize,
        ef: usize,
        visited: &mut VisitedSet,
    ) -> (r: Vec<(u32, u32)>)
        requires
            self@.wf(),
            scorer.ready(),
            scorer.accepts(*query),
            self@.adj.len() <= scorer.count(),
            old(visited).wf(),
            old(visited).cover() >= self@.adj.len(),
        ensures
            r@ == as_pairs(search_hits(self@, query_scores(scorer, *query), k as nat, ef as nat)),
            final(visited).wf(),
            final(visited).cover() == old(visited).cover(),
    {
        let ghost g = self@;
        let ghost f = query_scores(scorer, *query);
        let mut out: Vec<(u32, u32)> = Vec::new();
        if self.neighbors.len() == 0 || k == 0 {
            proof {
                assert(out@ =~= as_pairs(search_hits(g, f, k as nat, ef as nat)));
            }
            return out;
        }
        let prepared = scorer.prepare(query);
        assert(g.adj[g.entry as int].len() == g.levels[g.entry as int] + 1);
        let top: u32 = self.node_level[self.entry as usize];
        let mut ep: u32 = self.entry;
        let mut l: u32 = top;
        proof {
            assert(scores_from(scorer, prepared) =~= f);
        }
        while l >= 1
            invariant
                g == self@,
                g.wf(),
                scorer.ready(),
                scorer.folded(prepared),
                g.adj.len() <= scorer.count(),
                scores_from(scorer, prepared) == f,
                reaches(g.adj, ep, l as int),
                descend(g.adj, f, ep, l as int, 0) == descend(
                    g.adj,
                    f,
                    g.entry,
                    top as int,
                    0,
                ),
            decreases l,
        {
            ep = self.greedy_nearest(scorer, &prepared, ep, l);
            l = l - 1;
        }
        let width: usize = if ef >= k {
            ef
        } else {
            k
        };
        let entries: Vec<u32> = vec![ep];
        proof {
            assert(entries@ =~= seq![ep]);
            assert(all_reach(g.adj, entries@, 0));
        }
        let found = self.search_layer(scorer, &prepared, &entries, width, 0, visited);
        let mut i: usize = 0;
        while i < found.len() && i < k
            invariant
                i <= found.len(),
                i <= k,
                out@.len() == i,
                forall|j: int| 0 <= j < i ==> #[trigger] out@[j] == (found@[j].node, found@[j].dist),
            decreases found.len() - i,
        {
            out.push((found[i].node, found[i].dist));
            i = i + 1;
        }
        proof {
            assert(out@ =~= as_pairs(search_hits(g, f, k as nat, ef as nat)));
        }
        out
    }

    /// Search for the `k` nearest nodes to `query` with an `ef`-wide beam on
    /// level 0. Gives `(node, distance)` pairs, nearest first.
    pub fn search<S: NodeScorer>(&self, scorer: &S, query: &S::Query, k: usize, ef: usize) -> (r: Vec<
        (u32, u32),
    >)
        requires
            self@.wf(),
            scorer.ready(),
            scorer.accepts(*query),
            self@.adj.len() <= scorer.count(),
        ensures
            r@ == as_pairs(search_hits(self@, query_scores(scorer, *query), k as nat, ef as nat)),
    {
        let mut visited: VisitedSet = VisitedSet::new(self.neighbors.len());
        self.search_scratch(scorer, query, k, ef, &mut visited)
    }

    /// Number of nodes.
    pub fn len(&self) -> (r: usize)
        ensures
            r == self@.len(),
    {
        self.neighbors.len()
    }

    pub fn is_empty(&self) -> (r: bool)
        ensures
            r == (self@.len() == 0),
    {
        self.neighbors.len() == 0
    }

    /// Degree of the base layer.
    pub fn base_degree(&self) -> (r: usize)
        ensures
            r == self@.m0,
    {
        self.m0
    }

    /// The neighbors of `node` at `level`.
    pub fn neighbors_at(&self, node: usize, level: usize) -> (r: &Vec<u32>)
        requires
            node < self@.adj.len(),
            level < self@.adj[node as int].len(),
        ensures
            r@ == self@.adj[node as int][level as int],
    {
        &self.neighbors[node][level]
    }

    /// How many levels the tower of `node` has.
    pub fn tower_len(&self, node: usize) -> (r: usize)
        requires
            node < self@.adj.len(),
        ensures
            r == self@.adj[node as int].len(),
    {
        self.neighbors[node].len()
    }

    /// Top level of `node`.
    pub fn level_of(&self, node: usize) -> (r: u32)
        requires
            node < self@.levels.len(),
        ensures
            r == self@.levels[node as int],
    {
        self.node_level[node]
    }

    /// Where searches start.
    pub fn entry_point(&self) -> (r: u32)
        ensures
            r == self@.entry,
    {
        self.entry
    }

    /// Degree of the levels above 0.
    pub fn upper_degree(&self) -> (r: usize)
        ensures
            r == self@.m,
    {
        self.m
    }

    /// Beam width the graph was built with.
    pub fn construction_beam(&self) -> (r: usize)
        ensures
            r == self@.ef_construction,
    {
        self.ef_construction
    }

    /// A graph from its parts.
    pub(crate) fn from_parts(
        neighbors: Vec<Vec<Vec<u32>>>,
        node_level: Vec<u32>,
        entry: u32,
        m: usize,
        m0: usize,
        ef_construction: usize,
    ) -> (r: Hnsw)
        ensures
            r@ == (GraphModel {
                adj: adjacency_of(neighbors@),
                levels: node_level@,
                entry,
                m: m as nat,
                m0: m0 as nat,
                ef_construction: ef_construction as nat,
            }),
    {
        Hnsw { neighbors, node_level, entry, m, m0, ef_construction }
    }

    /// The empty towers of the given heights, as nested lists.
    pub(crate) fn towers(levels: &Vec<u32>) -> (r: Vec<Vec<Vec<u32>>>)
        requires
            heights_ok(levels@),
        ensures
            adjacency_of(r@) == empty_towers(levels@),
    {
        let n: usize = levels.len();
        let mut neighbors: Vec<Vec<Vec<u32>>> = Vec::new();
        let mut i: usize = 0;
        while i < n
            invariant
                i <= n,
                n == levels@.len(),
                heights_ok(levels@),
                neighbors@.len() == i,
                forall|v: int|
                    0 <= v < i ==> (#[trigger] neighbors@[v])@.len() == levels@[v] + 1 && forall|
                        l: int,
                    |
                        0 <= l < neighbors@[v]@.len() ==> (#[trigger] neighbors@[v]@[l])@ == Seq::<
                            u32,
                        >::empty(),
            decreases n - i,
        {
            assert(levels@[i as int] <= MAX_LEVEL);
            neighbors.push(empty_tower(levels[i]));
            i = i + 1;
        }
        proof {
            let adj = adjacency_of(neighbors@);
            assert forall|v: int| 0 <= v < adj.len() implies adj[v] == #[trigger] empty_towers(
                levels@,
            )[v] by {
                assert(adj[v] =~= empty_towers(levels@)[v]);
            }
            assert(adj =~= empty_towers(levels@));
        }
        neighbors
    }
}

/// A node's draw is the first draw of the sequence that starts from the seed
/// with the node times the increment mixed in; so it is what node 0 draws from
/// a seed mixed that way, and the high 53 bits of the number drawn.
pub proof fn law_level_draw_mixes_the_node_in(seed: u64, node: u32)
    ensures
        level_draw_of(seed, node) == level_draw_of(
            seed ^ ((node as int * 0x9E37_79B9_7F4A_7C15 % 0x1_0000_0000_0000_0000) as u64),
            0,
        ),
        level_draw_of(seed, 0) == splitmix64_output(splitmix64_next(seed)) >> 11,
        splitmix64_next(seed) as int == (seed + 0x9E37_79B9_7F4A_7C15) % 0x1_0000_0000_0000_0000,
        level_draw_of(seed, node) < 0x20_0000_0000_0000,
{
    let x = seed ^ ((node as int * SPLITMIX64_INCREMENT as int % 0x1_0000_0000_0000_0000) as u64);
    assert(x ^ 0u64 == x) by (bit_vector);
    assert(seed ^ 0u64 == seed) by (bit_vector);
    let d = splitmix64_output(splitmix64_next(x));
    assert(d >> 11 < 0x20_0000_0000_0000u64) by (bit_vector);
}

} // verus!
