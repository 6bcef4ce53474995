//! What a walk over the layered graph finds: the greedy descent, the beam, and
//! the neighbor selection, as functions of the adjacency and the distances.
use vstd::prelude::*;

use crate::float_bits::{f32_key, f32_lt, F32_INFINITY};
use crate::scored::{
    before, insert_sorted, law_sort_is_sorted_permutation, lemma_insert_sorted, sort_scored, sorted,
    Scored,
};

verus! {

/// Adjacency: `adj[node][level]` is the neighbor list of `node` at `level`,
/// present for every level of the node's tower.
pub type Adjacency = Seq<Seq<Seq<u32>>>;

/// The neighbor list of `node` at `level`; empty above the node's tower.
pub open spec fn list_at(adj: Adjacency, node: u32, level: int) -> Seq<u32> {
    if node < adj.len() && 0 <= level < adj[node as int].len() {
        adj[node as int][level]
    } else {
        Seq::empty()
    }
}

/// `node` is in the graph and its tower reaches `level`.
pub open spec fn reaches(adj: Adjacency, node: u32, level: int) -> bool {
    node < adj.len() && level < adj[node as int].len()
}

/// Every edge at a level leads to a node whose tower reaches that level.
pub open spec fn edges_ok(adj: Adjacency) -> bool {
    forall|v: int, l: int, i: int|
        0 <= v < adj.len() && 0 <= l < adj[v].len() && 0 <= i < adj[v][l].len() ==> reaches(
            adj,
            #[trigger] adj[v][l][i],
            l,
        )
}

/// A node with its distance under `f`.
pub open spec fn scored_under(f: spec_fn(u32) -> u32, node: u32) -> Scored {
    Scored { dist: f(node), node }
}

// ---------------- greedy descent ----------------

/// The nearest of `from` and the nodes of `list`, taking a node only where it
/// is strictly nearer than all before it.
pub open spec fn nearest_of(f: spec_fn(u32) -> u32, list: Seq<u32>, from: Scored) -> Scored
    decreases list.len(),
{
    if list.len() == 0 {
        from
    } else {
        let best = nearest_of(f, list.drop_last(), from);
        if f32_lt(f(list.last()), best.dist) {
            scored_under(f, list.last())
        } else {
            best
        }
    }
}

/// Where the downhill walk at `level` from `at` ends: it moves to the nearest
/// improving neighbor until none is nearer.
pub open spec fn downhill(
    adj: Adjacency,
    level: int,
    f: spec_fn(u32) -> u32,
    at: Scored,
) -> u32
    decreases (f32_key(at.dist) + 0x8000_0000) as nat,
{
    let next = nearest_of(f, list_at(adj, at.node, level), at);
    if f32_lt(next.dist, at.dist) {
        downhill(adj, level, f, next)
    } else {
        at.node
    }
}

/// The node reached from `node` by walking downhill at `level`.
pub open spec fn greedy_end(adj: Adjacency, level: int, f: spec_fn(u32) -> u32, node: u32) -> u32 {
    downhill(adj, level, f, scored_under(f, node))
}

/// Walk downhill at each level from `from` down to `to + 1`.
pub open spec fn descend(
    adj: Adjacency,
    f: spec_fn(u32) -> u32,
    node: u32,
    from: int,
    to: int,
) -> u32
    decreases from - to,
{
    if from <= to {
        node
    } else {
        descend(adj, f, greedy_end(adj, from, f, node), from - 1, to)
    }
}

pub proof fn lemma_nearest_of(adj: Adjacency, level: int, f: spec_fn(u32) -> u32, list: Seq<u32>, from: Scored)
    requires
        reaches(adj, from.node, level),
        from == scored_under(f, from.node),
        forall|i: int| 0 <= i < list.len() ==> reaches(adj, #[trigger] list[i], level),
    ensures
        reaches(adj, nearest_of(f, list, from).node, level),
        nearest_of(f, list, from) == scored_under(f, nearest_of(f, list, from).node),
        nearest_of(f, list, from) == from || f32_lt(nearest_of(f, list, from).dist, from.dist),
        forall|i: int| 0 <= i < list.len() ==> !f32_lt(f(#[trigger] list[i]), nearest_of(f, list, from).dist),
    decreases list.len(),
{
    if list.len() > 0 {
        lemma_nearest_of(adj, level, f, list.drop_last(), from);
        assert forall|i: int| 0 <= i < list.len() implies !f32_lt(
            f(#[trigger] list[i]),
            nearest_of(f, list, from).dist,
        ) by {
            if i < list.len() - 1 {
                assert(list.drop_last()[i] == list[i]);
            }
        }
    }
}

pub proof fn lemma_edges_at(adj: Adjacency, node: u32, level: int)
    requires
        edges_ok(adj),
    ensures
        forall|i: int|
            0 <= i < list_at(adj, node, level).len() ==> reaches(
                adj,
                #[trigger] list_at(adj, node, level)[i],
                level,
            ),
{
    assert forall|i: int| 0 <= i < list_at(adj, node, level).len() implies reaches(
        adj,
        #[trigger] list_at(adj, node, level)[i],
        level,
    ) by {
        assert(list_at(adj, node, level)[i] == adj[node as int][level][i]);
    }
}

/// The walk ends on a node that none of its neighbors at the level beats, and
/// that is no farther than where it started.
pub proof fn law_greedy_ends_at_local_minimum(
    adj: Adjacency,
    level: int,
    f: spec_fn(u32) -> u32,
    node: u32,
)
    requires
        edges_ok(adj),
        reaches(adj, node, level),
    ensures
        reaches(adj, greedy_end(adj, level, f, node), level),
        forall|i: int|
            0 <= i < list_at(adj, greedy_end(adj, level, f, node), level).len() ==> !f32_lt(
                f(#[trigger] list_at(adj, greedy_end(adj, level, f, node), level)[i]),
                f(greedy_end(adj, level, f, node)),
            ),
        !f32_lt(f(node), f(greedy_end(adj, level, f, node))),
{
    lemma_downhill(adj, level, f, scored_under(f, node));
}

proof fn lemma_downhill(adj: Adjacency, level: int, f: spec_fn(u32) -> u32, at: Scored)
    requires
        edges_ok(adj),
        reaches(adj, at.node, level),
        at == scored_under(f, at.node),
    ensures
        reaches(adj, downhill(adj, level, f, at), level),
        forall|i: int|
            0 <= i < list_at(adj, downhill(adj, level, f, at), level).len() ==> !f32_lt(
                f(#[trigger] list_at(adj, downhill(adj, level, f, at), level)[i]),
                f(downhill(adj, level, f, at)),
            ),
        downhill(adj, level, f, at) == at.node || f32_lt(f(downhill(adj, level, f, at)), at.dist),
    decreases (f32_key(at.dist) + 0x8000_0000) as nat,
{
    let list = list_at(adj, at.node, level);
    lemma_edges_at(adj, at.node, level);
    lemma_nearest_of(adj, level, f, list, at);
    let next = nearest_of(f, list, at);
    if f32_lt(next.dist, at.dist) {
        lemma_downhill(adj, level, f, next);
    }
}

pub proof fn lemma_descend(adj: Adjacency, f: spec_fn(u32) -> u32, node: u32, from: int, to: int)
    requires
        edges_ok(adj),
        reaches(adj, node, from),
        0 <= to,
    ensures
        reaches(adj, descend(adj, f, node, from, to), if from <= to { from } else { to }),
    decreases from - to,
{
    if from > to {
        law_greedy_ends_at_local_minimum(adj, from, f, node);
        lemma_descend(adj, f, greedy_end(adj, from, f, node), from - 1, to);
    }
}

// ---------------- beam ----------------

/// State of a beam walk: the nodes it has looked at, the ones still to expand
/// and the best kept so far, both nearest first.
#[verifier::ext_equal]
pub struct Beam {
    pub seen: Seq<u32>,
    pub cand: Seq<Scored>,
    pub kept: Seq<Scored>,
}

/// Distance of the farthest kept node, infinity where none is kept.
pub open spec fn farthest(kept: Seq<Scored>) -> u32 {
    if kept.len() == 0 {
        F32_INFINITY
    } else {
        kept.last().dist
    }
}

/// `kept` with `x`, cut back to the `ef` nearest.
pub open spec fn keep_nearest(kept: Seq<Scored>, ef: nat, x: Scored) -> Seq<Scored> {
    let k = insert_sorted(kept, x);
    if k.len() > ef {
        k.drop_last()
    } else {
        k
    }
}

/// `x` joins both the nodes to expand and the kept ones.
pub open spec fn take_in(b: Beam, ef: nat, x: Scored) -> Beam {
    Beam {
        seen: b.seen.push(x.node),
        cand: insert_sorted(b.cand, x),
        kept: keep_nearest(b.kept, ef, x),
    }
}

/// Entry points join unless already seen.
pub open spec fn offer_entries(f: spec_fn(u32) -> u32, ef: nat, b: Beam, nodes: Seq<u32>) -> Beam
    decreases nodes.len(),
{
    if nodes.len() == 0 {
        b
    } else {
        let p = offer_entries(f, ef, b, nodes.drop_last());
        if p.seen.contains(nodes.last()) {
            p
        } else {
            take_in(p, ef, scored_under(f, nodes.last()))
        }
    }
}

/// Neighbors join where the beam is not full yet or they beat its farthest.
pub open spec fn offer_neighbors(f: spec_fn(u32) -> u32, ef: nat, b: Beam, nodes: Seq<u32>) -> Beam
    decreases nodes.len(),
{
    if nodes.len() == 0 {
        b
    } else {
        let p = offer_neighbors(f, ef, b, nodes.drop_last());
        if p.seen.contains(nodes.last()) {
            p
        } else if p.kept.len() < ef || f32_lt(f(nodes.last()), farthest(p.kept)) {
            take_in(p, ef, scored_under(f, nodes.last()))
        } else {
            Beam { seen: p.seen.push(nodes.last()), ..p }
        }
    }
}

/// Nothing is left to expand, or a full beam is nearer than all of it.
pub open spec fn beam_over(b: Beam, ef: nat) -> bool {
    b.cand.len() == 0 || (f32_lt(farthest(b.kept), b.cand[0].dist) && b.kept.len() >= ef)
}

/// The nearest node to expand is taken out and its neighbors are offered.
pub open spec fn beam_step(
    adj: Adjacency,
    level: int,
    f: spec_fn(u32) -> u32,
    ef: nat,
    b: Beam,
) -> Beam {
    offer_neighbors(
        f,
        ef,
        Beam { cand: b.cand.drop_first(), ..b },
        list_at(adj, b.cand[0].node, level),
    )
}

/// What the beam keeps when it is over, after at most `steps` expansions.
pub open spec fn beam_run(
    adj: Adjacency,
    level: int,
    f: spec_fn(u32) -> u32,
    ef: nat,
    b: Beam,
    steps: nat,
) -> Seq<Scored>
    decreases steps,
{
    if steps == 0 || beam_over(b, ef) {
        b.kept
    } else {
        beam_run(adj, level, f, ef, beam_step(adj, level, f, ef, b), (steps - 1) as nat)
    }
}

pub open spec fn no_beam() -> Beam {
    Beam { seen: Seq::empty(), cand: Seq::empty(), kept: Seq::empty() }
}

/// The result of an `ef`-wide beam at `level` from `entries`, nearest first.
/// Every node is expanded at most once, so as many steps as there are nodes
/// are enough.
pub open spec fn beam_search(
    adj: Adjacency,
    level: int,
    f: spec_fn(u32) -> u32,
    entries: Seq<u32>,
    ef: nat,
) -> Seq<Scored> {
    beam_run(adj, level, f, ef, offer_entries(f, ef, no_beam(), entries), adj.len())
}

/// What holds of the beam throughout.
pub open spec fn beam_ok(adj: Adjacency, level: int, f: spec_fn(u32) -> u32, ef: nat, b: Beam) -> bool {
    &&& b.seen.no_duplicates()
    &&& forall|i: int| 0 <= i < b.seen.len() ==> reaches(adj, #[trigger] b.seen[i], level)
    &&& hits_ok(f, b.seen, b.cand)
    &&& hits_ok(f, b.seen, b.kept)
    &&& b.kept.len() <= ef
}

/// The hits are seen nodes with their distance, in strict ascending order.
pub open spec fn hits_ok(f: spec_fn(u32) -> u32, seen: Seq<u32>, hits: Seq<Scored>) -> bool {
    &&& forall|i: int|
        0 <= i < hits.len() ==> seen.contains((#[trigger] hits[i]).node) && hits[i] == scored_under(
            f,
            hits[i].node,
        )
    &&& strictly_ascending(hits)
}

/// Every element comes strictly before the ones that stand later, so no node
/// occurs twice with its distance.
pub open spec fn strictly_ascending(s: Seq<Scored>) -> bool {
    forall|i: int, j: int| 0 <= i < j < s.len() ==> before(#[trigger] s[i], #[trigger] s[j])
}

pub proof fn lemma_strict_is_sorted(s: Seq<Scored>)
    requires
        strictly_ascending(s),
    ensures
        sorted(s),
{
}

/// Adding a fresh node to hits keeps them in order.
proof fn lemma_hits_insert(f: spec_fn(u32) -> u32, seen: Seq<u32>, hits: Seq<Scored>, node: u32)
    requires
        hits_ok(f, seen, hits),
        !seen.contains(node),
    ensures
        hits_ok(f, seen.push(node), insert_sorted(hits, scored_under(f, node))),
        sorted(hits),
{
    let x = scored_under(f, node);
    lemma_strict_is_sorted(hits);
    lemma_insert_sorted(hits, x);
    let t = insert_sorted(hits, x);
    let seen2 = seen.push(node);
    assert forall|i: int| 0 <= i < t.len() implies seen2.contains((#[trigger] t[i]).node) && t[i]
        == scored_under(f, t[i].node) by {
        assert(t.contains(t[i]));
        if t[i] == x {
            assert(seen2[seen.len() as int] == node);
        } else {
            let k = choose|k: int| 0 <= k < hits.len() && hits[k] == t[i];
            assert(seen.contains(hits[k].node));
            let m = choose|m: int| 0 <= m < seen.len() && seen[m] == hits[k].node;
            assert(seen2[m] == hits[k].node);
        }
    }
    let p = choose|p: int| 0 <= p <= hits.len() && t == #[trigger] hits.insert(p, x);
    assert forall|i: int, j: int| 0 <= i < j < t.len() implies before(
        #[trigger] t[i],
        #[trigger] t[j],
    ) by {
        assert(!before(t[j], t[i]));
        if i == p {
            assert(t[j] == hits[j - 1]);
            assert(hits[j - 1].node != node);
            lemma_total(t[i], t[j]);
        } else if j == p {
            assert(t[i] == hits[i]);
            assert(hits[i].node != node);
            lemma_total(t[i], t[j]);
        } else {
            let a = if i < p { i } else { i - 1 };
            let b = if j < p { j } else { j - 1 };
            assert(t[i] == hits[a] && t[j] == hits[b]);
        }
    }
}

proof fn lemma_total(a: Scored, b: Scored)
    requires
        a.node != b.node,
        !before(b, a),
    ensures
        before(a, b),
{
}

/// Marking more nodes as seen keeps hits as they are.
proof fn lemma_hits_seen(f: spec_fn(u32) -> u32, seen: Seq<u32>, hits: Seq<Scored>, node: u32)
    requires
        hits_ok(f, seen, hits),
    ensures
        hits_ok(f, seen.push(node), hits),
{
    let seen2 = seen.push(node);
    assert forall|i: int| 0 <= i < hits.len() implies seen2.contains((#[trigger] hits[i]).node)
        && hits[i] == scored_under(f, hits[i].node) by {
        let m = choose|m: int| 0 <= m < seen.len() && seen[m] == hits[i].node;
        assert(seen2[m] == hits[i].node);
    }
}

pub proof fn lemma_hits_sub(f: spec_fn(u32) -> u32, seen: Seq<u32>, hits: Seq<Scored>, a: int, b: int)
    requires
        hits_ok(f, seen, hits),
        0 <= a <= b <= hits.len(),
    ensures
        hits_ok(f, seen, hits.subrange(a, b)),
{
    let t = hits.subrange(a, b);
    assert forall|i: int| 0 <= i < t.len() implies seen.contains((#[trigger] t[i]).node) && t[i]
        == scored_under(f, t[i].node) by {
        assert(t[i] == hits[a + i]);
    }
    assert forall|i: int, j: int| 0 <= i < j < t.len() implies before(
        #[trigger] t[i],
        #[trigger] t[j],
    ) by {
        assert(t[i] == hits[a + i] && t[j] == hits[a + j]);
    }
}

pub proof fn lemma_take_in(
    adj: Adjacency,
    level: int,
    f: spec_fn(u32) -> u32,
    ef: nat,
    b: Beam,
    node: u32,
)
    requires
        beam_ok(adj, level, f, ef, b),
        !b.seen.contains(node),
        reaches(adj, node, level),
    ensures
        beam_ok(adj, level, f, ef, take_in(b, ef, scored_under(f, node))),
        take_in(b, ef, scored_under(f, node)).cand.len() == b.cand.len() + 1,
        ef > 0 ==> take_in(b, ef, scored_under(f, node)).kept.len() >= 1,
        take_in(b, ef, scored_under(f, node)).kept.len() >= b.kept.len(),
        sorted(b.cand),
        sorted(b.kept),
{
    let x = scored_under(f, node);
    lemma_hits_insert(f, b.seen, b.cand, node);
    lemma_hits_insert(f, b.seen, b.kept, node);
    lemma_insert_sorted(b.cand, x);
    lemma_insert_sorted(b.kept, x);
    let k = insert_sorted(b.kept, x);
    if k.len() > ef {
        lemma_hits_sub(f, b.seen.push(node), k, 0, k.len() - 1);
        assert(k.drop_last() =~= k.subrange(0, k.len() - 1));
    }
    lemma_mark(adj, level, f, ef, b, node);
}

pub proof fn lemma_mark(
    adj: Adjacency,
    level: int,
    f: spec_fn(u32) -> u32,
    ef: nat,
    b: Beam,
    node: u32,
)
    requires
        beam_ok(adj, level, f, ef, b),
        !b.seen.contains(node),
        reaches(adj, node, level),
    ensures
        beam_ok(adj, level, f, ef, (Beam { seen: b.seen.push(node), ..b })),
{
    let s = b.seen.push(node);
    assert forall|i: int, j: int| 0 <= i < s.len() && 0 <= j < s.len() && i != j implies s[i]
        != s[j] by {
        if i == b.seen.len() {
            assert(b.seen.contains(s[j]));
        } else if j == b.seen.len() {
            assert(b.seen.contains(s[i]));
        }
    }
    lemma_hits_seen(f, b.seen, b.cand, node);
    lemma_hits_seen(f, b.seen, b.kept, node);
}

/// A duplicate-free list of graph nodes is no longer than the graph.
pub proof fn lemma_seen_bound(adj: Adjacency, level: int, seen: Seq<u32>)
    requires
        seen.no_duplicates(),
        forall|i: int| 0 <= i < seen.len() ==> reaches(adj, #[trigger] seen[i], level),
    ensures
        seen.len() <= adj.len(),
{
    let ints = seen.map_values(|x: u32| x as int);
    assert(ints.no_duplicates()) by {
        assert forall|i: int, j: int| 0 <= i < ints.len() && 0 <= j < ints.len() && i != j implies ints[i]
            != ints[j] by {
            assert(seen[i] != seen[j]);
        }
    }
    ints.unique_seq_to_set();
    let all = vstd::set_lib::set_int_range(0, adj.len() as int);
    vstd::set_lib::lemma_int_range(0, adj.len() as int);
    assert(ints.to_set().subset_of(all)) by {
        assert forall|x: int| ints.to_set().contains(x) implies all.contains(x) by {
            let i = choose|i: int| 0 <= i < ints.len() && ints[i] == x;
            assert(reaches(adj, seen[i], level));
        }
    }
    vstd::set_lib::lemma_len_subset(ints.to_set(), all);
}

pub proof fn lemma_offer_entries(
    adj: Adjacency,
    level: int,
    f: spec_fn(u32) -> u32,
    ef: nat,
    b: Beam,
    nodes: Seq<u32>,
)
    requires
        beam_ok(adj, level, f, ef, b),
        forall|i: int| 0 <= i < nodes.len() ==> reaches(adj, #[trigger] nodes[i], level),
    ensures
        beam_ok(adj, level, f, ef, offer_entries(f, ef, b, nodes)),
        offer_entries(f, ef, b, nodes).cand.len() - b.cand.len() == offer_entries(
            f,
            ef,
            b,
            nodes,
        ).seen.len() - b.seen.len(),
        offer_entries(f, ef, b, nodes).seen.len() >= b.seen.len(),
        offer_entries(f, ef, b, nodes).kept.len() >= b.kept.len(),
        nodes.len() > 0 && b.seen.len() == 0 && ef > 0 ==> offer_entries(f, ef, b, nodes).kept.len() >= 1,
        nodes.len() > 0 ==> offer_entries(f, ef, b, nodes).seen.len() >= 1,
    decreases nodes.len(),
{
    if nodes.len() > 0 {
        let d = nodes.drop_last();
        assert forall|i: int| 0 <= i < d.len() implies reaches(adj, #[trigger] d[i], level) by {
            assert(d[i] == nodes[i]);
        }
        lemma_offer_entries(adj, level, f, ef, b, d);
        let p = offer_entries(f, ef, b, d);
        assert(reaches(adj, nodes[nodes.len() - 1], level));
        if !p.seen.contains(nodes.last()) {
            lemma_take_in(adj, level, f, ef, p, nodes.last());
        } else if d.len() == 0 {
            assert(p.seen.len() > 0);
        }
    }
}

pub proof fn lemma_offer_neighbors(
    adj: Adjacency,
    level: int,
    f: spec_fn(u32) -> u32,
    ef: nat,
    b: Beam,
    nodes: Seq<u32>,
)
    requires
        beam_ok(adj, level, f, ef, b),
        forall|i: int| 0 <= i < nodes.len() ==> reaches(adj, #[trigger] nodes[i], level),
    ensures
        beam_ok(adj, level, f, ef, offer_neighbors(f, ef, b, nodes)),
        offer_neighbors(f, ef, b, nodes).cand.len() - b.cand.len() <= offer_neighbors(
            f,
            ef,
            b,
            nodes,
        ).seen.len() - b.seen.len(),
        offer_neighbors(f, ef, b, nodes).kept.len() >= b.kept.len(),
    decreases nodes.len(),
{
    if nodes.len() > 0 {
        let d = nodes.drop_last();
        assert forall|i: int| 0 <= i < d.len() implies reaches(adj, #[trigger] d[i], level) by {
            assert(d[i] == nodes[i]);
        }
        lemma_offer_neighbors(adj, level, f, ef, b, d);
        let p = offer_neighbors(f, ef, b, d);
        assert(reaches(adj, nodes[nodes.len() - 1], level));
        if !p.seen.contains(nodes.last()) {
            lemma_take_in(adj, level, f, ef, p, nodes.last());
            lemma_mark(adj, level, f, ef, p, nodes.last());
        }
    }
}

pub proof fn lemma_pop(adj: Adjacency, level: int, f: spec_fn(u32) -> u32, ef: nat, b: Beam)
    requires
        beam_ok(adj, level, f, ef, b),
        b.cand.len() > 0,
    ensures
        beam_ok(adj, level, f, ef, (Beam { cand: b.cand.drop_first(), ..b })),
        reaches(adj, b.cand[0].node, level),
{
    lemma_hits_sub(f, b.seen, b.cand, 1, b.cand.len() as int);
    assert(b.cand.drop_first() =~= b.cand.subrange(1, b.cand.len() as int));
    assert(b.seen.contains(b.cand[0].node));
}

proof fn lemma_beam_run(
    adj: Adjacency,
    level: int,
    f: spec_fn(u32) -> u32,
    ef: nat,
    b: Beam,
    steps: nat,
)
    requires
        edges_ok(adj),
        beam_ok(adj, level, f, ef, b),
    ensures
        hits_in(adj, level, f, beam_run(adj, level, f, ef, b, steps)),
        beam_run(adj, level, f, ef, b, steps).len() <= ef,
        beam_run(adj, level, f, ef, b, steps).len() >= b.kept.len(),
    decreases steps,
{
    if steps == 0 || beam_over(b, ef) {
        assert forall|i: int| 0 <= i < b.kept.len() implies reaches(
            adj,
            (#[trigger] b.kept[i]).node,
            level,
        ) && b.kept[i] == scored_under(f, b.kept[i].node) by {
            assert(b.seen.contains(b.kept[i].node));
        }
    } else {
        lemma_pop(adj, level, f, ef, b);
        lemma_edges_at(adj, b.cand[0].node, level);
        lemma_offer_neighbors(
            adj,
            level,
            f,
            ef,
            Beam { cand: b.cand.drop_first(), ..b },
            list_at(adj, b.cand[0].node, level),
        );
        lemma_beam_run(adj, level, f, ef, beam_step(adj, level, f, ef, b), (steps - 1) as nat);
    }
}

/// The hits are graph nodes that reach `level`, with their distance, in strict
/// ascending order.
pub open spec fn hits_in(adj: Adjacency, level: int, f: spec_fn(u32) -> u32, hits: Seq<Scored>) -> bool {
    &&& forall|i: int|
        0 <= i < hits.len() ==> reaches(adj, (#[trigger] hits[i]).node, level) && hits[i]
            == scored_under(f, hits[i].node)
    &&& strictly_ascending(hits)
}

/// A beam gives at most `ef` nodes of the level, each with its own distance,
/// nearest first and none twice; and at least one where it starts from any.
pub proof fn law_beam_result(
    adj: Adjacency,
    level: int,
    f: spec_fn(u32) -> u32,
    entries: Seq<u32>,
    ef: nat,
)
    requires
        edges_ok(adj),
        forall|i: int| 0 <= i < entries.len() ==> reaches(adj, #[trigger] entries[i], level),
    ensures
        hits_in(adj, level, f, beam_search(adj, level, f, entries, ef)),
        beam_search(adj, level, f, entries, ef).len() <= ef,
        entries.len() > 0 && ef > 0 ==> beam_search(adj, level, f, entries, ef).len() >= 1,
{
    lemma_offer_entries(adj, level, f, ef, no_beam(), entries);
    lemma_beam_run(adj, level, f, ef, offer_entries(f, ef, no_beam(), entries), adj.len());
}

// ---------------- neighbor selection ----------------

/// The nodes with their distances.
pub open spec fn scored_by(f: spec_fn(u32) -> u32, nodes: Seq<u32>) -> Seq<Scored> {
    Seq::new(nodes.len(), |i: int| Scored { dist: f(nodes[i]), node: nodes[i] })
}

/// `c` is no nearer to any kept node than to the node the selection is for.
pub open spec fn diverse(pair: spec_fn(u32, u32) -> u32, kept: Seq<u32>, c: Scored) -> bool {
    forall|i: int| 0 <= i < kept.len() ==> !f32_lt(pair(c.node, #[trigger] kept[i]), c.dist)
}

/// Walk the candidates nearest first and keep the diverse ones, up to `m`.
pub open spec fn select_from(
    pair: spec_fn(u32, u32) -> u32,
    cands: Seq<Scored>,
    m: nat,
) -> Seq<u32>
    decreases cands.len(),
{
    if cands.len() == 0 {
        Seq::empty()
    } else {
        let kept = select_from(pair, cands.drop_last(), m);
        if kept.len() < m && diverse(pair, kept, cands.last()) {
            kept.push(cands.last().node)
        } else {
            kept
        }
    }
}

/// The neighbors that the diversity heuristic keeps out of `cands`.
pub open spec fn select_neighbors(
    pair: spec_fn(u32, u32) -> u32,
    cands: Seq<Scored>,
    m: nat,
) -> Seq<u32> {
    select_from(pair, sort_scored(cands), m)
}

/// Once `m` are kept, the rest of the candidates change nothing.
pub proof fn lemma_select_full(pair: spec_fn(u32, u32) -> u32, cands: Seq<Scored>, m: nat, i: int)
    requires
        0 <= i <= cands.len(),
        select_from(pair, cands.subrange(0, i), m).len() >= m,
    ensures
        select_from(pair, cands, m) == select_from(pair, cands.subrange(0, i), m),
    decreases cands.len() - i,
{
    if i < cands.len() {
        let t = cands.subrange(0, i + 1);
        assert(t.drop_last() =~= cands.subrange(0, i));
        lemma_select_full(pair, cands, m, i + 1);
    } else {
        assert(cands.subrange(0, i) =~= cands);
    }
}

proof fn lemma_select_from(pair: spec_fn(u32, u32) -> u32, cands: Seq<Scored>, m: nat)
    ensures
        select_from(pair, cands, m).len() <= m,
        forall|i: int|
            0 <= i < select_from(pair, cands, m).len() ==> node_among(
                cands,
                #[trigger] select_from(pair, cands, m)[i],
            ),
        m > 0 && cands.len() > 0 ==> select_from(pair, cands, m).len() > 0 && select_from(
            pair,
            cands,
            m,
        )[0] == cands[0].node,
    decreases cands.len(),
{
    if cands.len() > 0 {
        let d = cands.drop_last();
        lemma_select_from(pair, d, m);
        let r = select_from(pair, cands, m);
        assert forall|i: int| 0 <= i < r.len() implies node_among(cands, #[trigger] r[i]) by {
            if i < select_from(pair, d, m).len() {
                assert(node_among(d, select_from(pair, d, m)[i]));
                let k = choose|k: int| 0 <= k < d.len() && (#[trigger] d[k]).node == r[i];
                assert(cands[k].node == r[i]);
            } else {
                assert(cands[cands.len() - 1].node == r[i]);
            }
        }
    }
}

/// Some candidate is `node`.
pub open spec fn node_among(cands: Seq<Scored>, node: u32) -> bool {
    exists|k: int| 0 <= k < cands.len() && (#[trigger] cands[k]).node == node
}

pub open spec fn distinct_nodes(cands: Seq<Scored>) -> bool {
    forall|i: int, j: int|
        0 <= i < j < cands.len() ==> (#[trigger] cands[i]).node != (#[trigger] cands[j]).node
}

proof fn lemma_select_distinct(pair: spec_fn(u32, u32) -> u32, cands: Seq<Scored>, m: nat)
    requires
        distinct_nodes(cands),
    ensures
        select_from(pair, cands, m).no_duplicates(),
    decreases cands.len(),
{
    if cands.len() > 0 {
        let d = cands.drop_last();
        assert(distinct_nodes(d)) by {
            assert forall|i: int, j: int| 0 <= i < j < d.len() implies (#[trigger] d[i]).node != (
            #[trigger] d[j]).node by {
                assert(d[i] == cands[i] && d[j] == cands[j]);
            }
        }
        lemma_select_distinct(pair, d, m);
        lemma_select_from(pair, d, m);
        let kept = select_from(pair, d, m);
        let r = select_from(pair, cands, m);
        assert forall|i: int, j: int| 0 <= i < r.len() && 0 <= j < r.len() && i != j implies r[i]
            != r[j] by {
            if i == kept.len() {
                assert(node_among(d, kept[j]));
                let k = choose|k: int| 0 <= k < d.len() && (#[trigger] d[k]).node == kept[j];
                assert(cands[k].node != cands[cands.len() - 1].node);
            } else if j == kept.len() {
                assert(node_among(d, kept[i]));
                let k = choose|k: int| 0 <= k < d.len() && (#[trigger] d[k]).node == kept[i];
                assert(cands[k].node != cands[cands.len() - 1].node);
            }
        }
    }
}

proof fn lemma_sort_distinct(cands: Seq<Scored>)
    requires
        distinct_nodes(cands),
    ensures
        distinct_nodes(sort_scored(cands)),
    decreases cands.len(),
{
    if cands.len() > 0 {
        let d = cands.drop_last();
        let x = cands.last();
        assert(distinct_nodes(d)) by {
            assert forall|i: int, j: int| 0 <= i < j < d.len() implies (#[trigger] d[i]).node != (
            #[trigger] d[j]).node by {
                assert(d[i] == cands[i] && d[j] == cands[j]);
            }
        }
        lemma_sort_distinct(d);
        law_sort_is_sorted_permutation(d);
        let s = sort_scored(d);
        lemma_insert_sorted(s, x);
        let p = choose|p: int| 0 <= p <= s.len() && insert_sorted(s, x) == #[trigger] s.insert(p, x);
        let t = s.insert(p, x);
        assert forall|k: int| 0 <= k < s.len() implies (#[trigger] s[k]).node != x.node by {
            assert(s.contains(s[k]));
            let q = choose|q: int| 0 <= q < d.len() && d[q] == s[k];
            assert(cands[q].node != cands[cands.len() - 1].node);
        }
        assert forall|i: int, j: int| 0 <= i < j < t.len() implies (#[trigger] t[i]).node != (
        #[trigger] t[j]).node by {
            let a = if i < p { i } else { i - 1 };
            let b = if j < p { j } else { j - 1 };
            if i == p {
                assert(t[j] == s[b]);
            } else if j == p {
                assert(t[i] == s[a]);
            } else {
                assert(t[i] == s[a] && t[j] == s[b]);
            }
        }
    }
}

/// What is kept of sorted candidates stays in their order.
proof fn lemma_select_order(
    pair: spec_fn(u32, u32) -> u32,
    f: spec_fn(u32) -> u32,
    cands: Seq<Scored>,
    m: nat,
)
    requires
        sorted(cands),
        forall|i: int| 0 <= i < cands.len() ==> (#[trigger] cands[i]).dist == f(cands[i].node),
    ensures
        sorted(scored_by(f, select_from(pair, cands, m))),
    decreases cands.len(),
{
    if cands.len() > 0 {
        let d = cands.drop_last();
        lemma_select_order(pair, f, d, m);
        lemma_select_from(pair, d, m);
        let kept = select_from(pair, d, m);
        let r = select_from(pair, cands, m);
        let t = scored_by(f, r);
        assert forall|i: int, j: int| 0 <= i < j < t.len() implies !before(
            #[trigger] t[j],
            #[trigger] t[i],
        ) by {
            if j < kept.len() {
                assert(scored_by(f, kept)[i] == t[i] && scored_by(f, kept)[j] == t[j]);
            } else {
                assert(node_among(d, kept[i]));
                let k = choose|k: int| 0 <= k < d.len() && (#[trigger] d[k]).node == kept[i];
                assert(cands[k] == d[k]);
                assert(t[i] == cands[k]);
                assert(t[j] == cands[cands.len() - 1]);
            }
        }
    }
}

/// The selection hands its nodes out nearest first, ties by node, where each
/// candidate carries the distance `f` of its node.
pub proof fn law_selection_is_nearest_first(
    pair: spec_fn(u32, u32) -> u32,
    f: spec_fn(u32) -> u32,
    cands: Seq<Scored>,
    m: nat,
)
    requires
        forall|i: int| 0 <= i < cands.len() ==> (#[trigger] cands[i]).dist == f(cands[i].node),
    ensures
        sorted(scored_by(f, select_neighbors(pair, cands, m))),
{
    let s = sort_scored(cands);
    law_sort_is_sorted_permutation(cands);
    assert forall|i: int| 0 <= i < s.len() implies (#[trigger] s[i]).dist == f(s[i].node) by {
        assert(s.contains(s[i]));
        let q = choose|q: int| 0 <= q < cands.len() && cands[q] == s[i];
        assert(cands[q].dist == f(cands[q].node));
    }
    lemma_select_order(pair, f, s, m);
}

/// The selection keeps at most `m` of the candidates, the nearest among them,
/// and none twice where no candidate occurs twice.
pub proof fn law_selection(pair: spec_fn(u32, u32) -> u32, cands: Seq<Scored>, m: nat)
    ensures
        select_neighbors(pair, cands, m).len() <= m,
        forall|i: int|
            0 <= i < select_neighbors(pair, cands, m).len() ==> node_among(
                cands,
                #[trigger] select_neighbors(pair, cands, m)[i],
            ),
        m > 0 && cands.len() > 0 ==> select_neighbors(pair, cands, m).len() > 0 && select_neighbors(
            pair,
            cands,
            m,
        )[0] == sort_scored(cands)[0].node,
        distinct_nodes(cands) ==> select_neighbors(pair, cands, m).no_duplicates(),
{
    let s = sort_scored(cands);
    law_sort_is_sorted_permutation(cands);
    lemma_select_from(pair, s, m);
    let r = select_neighbors(pair, cands, m);
    assert forall|i: int| 0 <= i < r.len() implies node_among(cands, #[trigger] r[i]) by {
        assert(node_among(s, r[i]));
        let k = choose|k: int| 0 <= k < s.len() && (#[trigger] s[k]).node == r[i];
        assert(s.contains(s[k]));
        let q = choose|q: int| 0 <= q < cands.len() && cands[q] == s[k];
        assert(cands[q].node == r[i]);
    }
    if distinct_nodes(cands) {
        lemma_sort_distinct(cands);
        lemma_select_distinct(pair, s, m);
    }
}

/// `r` are the nodes at the places `at` of the sorted candidates `s`: a
/// candidate is taken where fewer than `m` were taken before it and none of
/// those is nearer to it than the node the selection is for.
pub open spec fn takes(
    pair: spec_fn(u32, u32) -> u32,
    s: Seq<Scored>,
    m: nat,
    r: Seq<u32>,
    at: Seq<int>,
) -> bool {
    &&& at.len() == r.len()
    &&& r.len() <= m
    &&& forall|i: int| 0 <= i < at.len() ==> 0 <= #[trigger] at[i] < s.len() && r[i] == s[at[i]].node
    &&& forall|i: int, j: int| 0 <= i < j < at.len() ==> #[trigger] at[i] < #[trigger] at[j]
    &&& forall|i: int, j: int|
        0 <= i < j < at.len() ==> !f32_lt(
            #[trigger] pair(s[at[j]].node, r[i]),
            s[at[j]].dist,
        )
    &&& forall|k: int|
        0 <= k < s.len() && !at.contains(k) ==> passed_over(pair, #[trigger] s[k], k, m, r, at)
}

/// The candidate `c` at place `k` is left out: `m` were taken before it, or it
/// is nearer to one taken before it.
pub open spec fn passed_over(
    pair: spec_fn(u32, u32) -> u32,
    c: Scored,
    k: int,
    m: nat,
    r: Seq<u32>,
    at: Seq<int>,
) -> bool {
    ||| r.len() == m && (forall|i: int| 0 <= i < at.len() ==> #[trigger] at[i] < k)
    ||| exists|i: int|
        0 <= i < at.len() && #[trigger] at[i] < k && f32_lt(pair(c.node, r[i]), c.dist)
}

proof fn lemma_select_places(pair: spec_fn(u32, u32) -> u32, s: Seq<Scored>, m: nat) -> (at: Seq<int>)
    ensures
        takes(pair, s, m, select_from(pair, s, m), at),
    decreases s.len(),
{
    if s.len() == 0 {
        Seq::empty()
    } else {
        let d = s.drop_last();
        let n = s.len() - 1;
        let prior = lemma_select_places(pair, d, m);
        let kept = select_from(pair, d, m);
        let r = select_from(pair, s, m);
        let taken = kept.len() < m && diverse(pair, kept, s.last());
        let at = if taken {
            prior.push(n)
        } else {
            prior
        };
        assert forall|i: int, j: int| 0 <= i < j < at.len() implies !f32_lt(
            #[trigger] pair(s[at[j]].node, r[i]),
            s[at[j]].dist,
        ) by {
            if j < prior.len() {
                assert(d[prior[j]] == s[at[j]]);
                assert(r[i] == kept[i]);
                assert(!f32_lt(pair(d[prior[j]].node, kept[i]), d[prior[j]].dist));
            } else {
                assert(r[i] == kept[i]);
            }
        }
        assert forall|k: int| 0 <= k < s.len() && !at.contains(k) implies passed_over(
            pair,
            #[trigger] s[k],
            k,
            m,
            r,
            at,
        ) by {
            if k < n {
                if prior.contains(k) {
                    let i = choose|i: int| 0 <= i < prior.len() && prior[i] == k;
                    assert(at[i] == k);
                }
                assert(passed_over(pair, d[k], k, m, kept, prior));
                if kept.len() == m && (forall|i: int|
                    0 <= i < prior.len() ==> #[trigger] prior[i] < k) {
                    assert(at == prior && r == kept);
                } else {
                    let i = choose|i: int|
                        0 <= i < prior.len() && #[trigger] prior[i] < k && f32_lt(
                            pair(d[k].node, kept[i]),
                            d[k].dist,
                        );
                    assert(at[i] == prior[i] && r[i] == kept[i]);
                }
            } else if taken {
                assert(at[prior.len() as int] == k);
            } else if kept.len() < m {
                let i = choose|i: int|
                    0 <= i < kept.len() && f32_lt(pair(s.last().node, #[trigger] kept[i]), s.last().dist);
                assert(at[i] < k);
            } else {
                assert forall|i: int| 0 <= i < at.len() implies #[trigger] at[i] < k by {}
            }
        }
        at
    }
}

/// What the selection is for: no node in it is nearer to one kept before it
/// than to the node that the selection is for, and a candidate is left out
/// only where `m` nearer ones are kept, or where it is nearer to a kept one
/// that comes before it than to the node that the selection is for.
pub proof fn law_selection_is_diverse(pair: spec_fn(u32, u32) -> u32, cands: Seq<Scored>, m: nat)
    requires
        distinct_nodes(cands),
    ensures
        forall|i: int, j: int, k: int|
            0 <= i < j < select_neighbors(pair, cands, m).len() && 0 <= k < cands.len()
                && cands[k].node == select_neighbors(pair, cands, m)[j] ==> !f32_lt(
                #[trigger] pair(cands[k].node, select_neighbors(pair, cands, m)[i]),
                cands[k].dist,
            ) && #[trigger] select_neighbors(pair, cands, m)[j] == cands[k].node,
        forall|k: int|
            0 <= k < cands.len() && !select_neighbors(pair, cands, m).contains(
                (#[trigger] cands[k]).node,
            ) ==> crowded_out(pair, cands, m, select_neighbors(pair, cands, m), k),
        select_neighbors(pair, cands, m).len() <= m,
        forall|i: int, j: int, p: int, q: int|
            0 <= i < j < select_neighbors(pair, cands, m).len() && 0 <= p < cands.len() && 0 <= q
                < cands.len() && cands[p].node == select_neighbors(pair, cands, m)[i]
                && cands[q].node == select_neighbors(pair, cands, m)[j] ==> before(
                #[trigger] cands[p],
                #[trigger] cands[q],
            ) && #[trigger] select_neighbors(pair, cands, m)[i] == cands[p].node
                && #[trigger] select_neighbors(pair, cands, m)[j] == cands[q].node,
{
    let s = sort_scored(cands);
    law_sort_is_sorted_permutation(cands);
    lemma_sort_distinct(cands);
    let at = lemma_select_places(pair, s, m);
    let r = select_neighbors(pair, cands, m);
    assert forall|i: int, k: int|
        0 <= i < r.len() && 0 <= k < cands.len() && (#[trigger] cands[k]).node
            == #[trigger] r[i] implies s[at[i]] == cands[k] by {
        lemma_same_candidate(cands, s, at[i], k);
    }
    assert forall|i: int, j: int, k: int|
        0 <= i < j < r.len() && 0 <= k < cands.len() && cands[k].node == r[j] implies !f32_lt(
        #[trigger] pair(cands[k].node, r[i]),
        cands[k].dist,
    ) && #[trigger] r[j] == cands[k].node by {
        assert(s[at[j]] == cands[k]);
        assert(!f32_lt(pair(s[at[j]].node, r[i]), s[at[j]].dist));
    }
    assert forall|i: int, j: int, p: int, q: int|
        0 <= i < j < r.len() && 0 <= p < cands.len() && 0 <= q < cands.len() && cands[p].node == r[i]
            && cands[q].node == r[j] implies before(#[trigger] cands[p], #[trigger] cands[q])
        && #[trigger] r[i] == cands[p].node && #[trigger] r[j] == cands[q].node by {
        assert(s[at[i]] == cands[p] && s[at[j]] == cands[q]);
        assert(at[i] < at[j]);
        lemma_total(s[at[i]], s[at[j]]);
    }
    assert forall|k: int| 0 <= k < cands.len() && !r.contains((#[trigger] cands[k]).node) implies crowded_out(
        pair,
        cands,
        m,
        r,
        k,
    ) by {
        assert(cands.contains(cands[k]));
        assert(s.contains(cands[k]));
        let q = choose|q: int| 0 <= q < s.len() && s[q] == cands[k];
        if at.contains(q) {
            let i = choose|i: int| 0 <= i < at.len() && at[i] == q;
            assert(r[i] == cands[k].node);
        }
        assert(passed_over(pair, s[q], q, m, r, at));
        if r.len() == m && (forall|i: int| 0 <= i < at.len() ==> #[trigger] at[i] < q) {
            assert forall|i: int, p: int|
                0 <= i < r.len() && 0 <= p < cands.len() && (#[trigger] cands[p]).node
                    == #[trigger] r[i] implies before(cands[p], cands[k]) by {
                assert(s[at[i]] == cands[p]);
                assert(at[i] < q);
                lemma_total(s[at[i]], s[q]);
            }
        } else {
            let i = choose|i: int|
                0 <= i < at.len() && #[trigger] at[i] < q && f32_lt(pair(s[q].node, r[i]), s[q].dist);
            assert(s.contains(s[at[i]]));
            let p = choose|p: int| 0 <= p < cands.len() && cands[p] == s[at[i]];
            lemma_total(s[at[i]], s[q]);
            assert(cands[p].node == r[i]);
        }
    }
}

/// Candidate `k` is left out of `r` with reason: `m` that come before it are
/// kept, or one that comes before it and that it is nearer to.
pub open spec fn crowded_out(
    pair: spec_fn(u32, u32) -> u32,
    cands: Seq<Scored>,
    m: nat,
    r: Seq<u32>,
    k: int,
) -> bool {
    ||| r.len() == m && (forall|i: int, p: int|
        0 <= i < r.len() && 0 <= p < cands.len() && (#[trigger] cands[p]).node == #[trigger] r[i]
            ==> before(cands[p], cands[k]))
    ||| exists|i: int, p: int|
        0 <= i < r.len() && 0 <= p < cands.len() && (#[trigger] cands[p]).node == #[trigger] r[i]
            && before(cands[p], cands[k]) && f32_lt(pair(cands[k].node, r[i]), cands[k].dist)
}

proof fn lemma_same_candidate(cands: Seq<Scored>, s: Seq<Scored>, i: int, k: int)
    requires
        distinct_nodes(cands),
        forall|y: Scored| #[trigger] s.contains(y) <==> cands.contains(y),
        0 <= i < s.len(),
        0 <= k < cands.len(),
        s[i].node == cands[k].node,
    ensures
        s[i] == cands[k],
{
    assert(s.contains(s[i]));
    let q = choose|q: int| 0 <= q < cands.len() && cands[q] == s[i];
    if q < k {
        assert(cands[q].node != cands[k].node);
    } else if k < q {
        assert(cands[k].node != cands[q].node);
    }
}

} // verus!
