//! How a node is linked into the graph, as a function of the adjacency and the
//! distances between nodes.
use vstd::prelude::*;

use crate::scored::{sorted, Scored};
use crate::walk::{
    beam_search, descend, distinct_nodes, edges_ok, hits_in, law_beam_result, law_selection,
    law_selection_is_nearest_first, lemma_descend, lemma_edges_at, list_at, node_among, reaches,
    scored_by, select_neighbors, Adjacency,
};

verus! {

/// Degree caps and the beam width of a build.
#[derive(Clone, Copy, Debug, PartialEq, Eq, Structural)]
pub struct HnswParams {
    /// Most neighbors of a node on the levels above 0.
    pub m: usize,
    /// Most neighbors of a node on level 0.
    pub m0: usize,
    /// Beam width during construction.
    pub ef_construction: usize,
    /// Seed of the level draws.
    pub seed: u64,
}

impl Default for HnswParams {
    fn default() -> (r: Self)
        ensures
            r == (HnswParams { m: 16, m0: 32, ef_construction: 200, seed: 0x51ED_270B_2E67_6DA5 }),
    {
        HnswParams { m: 16, m0: 32, ef_construction: 200, seed: 0x51ED_270B_2E67_6DA5 }
    }
}

/// The degree cap at a level.
pub open spec fn cap_at(p: HnswParams, level: int) -> nat {
    if level == 0 {
        p.m0 as nat
    } else {
        p.m as nat
    }
}

/// Distances from one stored node.
pub open spec fn from_node(pair: spec_fn(u32, u32) -> u32, node: u32) -> spec_fn(u32) -> u32 {
    |x: u32| pair(node, x)
}

pub open spec fn set_list(adj: Adjacency, v: u32, level: int, list: Seq<u32>) -> Adjacency {
    adj.update(v as int, adj[v as int].update(level, list))
}

/// `list` with those of `adds` that are new to it and are not `target`.
pub open spec fn merged(list: Seq<u32>, target: u32, adds: Seq<u32>) -> Seq<u32>
    decreases adds.len(),
{
    if adds.len() == 0 {
        list
    } else {
        let p = merged(list, target, adds.drop_last());
        if adds.last() != target && !p.contains(adds.last()) {
            p.push(adds.last())
        } else {
            p
        }
    }
}

/// The nodes of `list` with their distance from `target`.
pub open spec fn rescored(
    pair: spec_fn(u32, u32) -> u32,
    target: u32,
    list: Seq<u32>,
) -> Seq<Scored> {
    Seq::new(list.len(), |i: int| Scored { dist: pair(target, list[i]), node: list[i] })
}

/// `list` as it is where it fits the cap, else what the selection keeps of it.
pub open spec fn shrunk(
    pair: spec_fn(u32, u32) -> u32,
    target: u32,
    list: Seq<u32>,
    cap: nat,
) -> Seq<u32> {
    if list.len() > cap {
        select_neighbors(pair, rescored(pair, target, list), cap)
    } else {
        list
    }
}

/// The adjacency after `adds` are linked into the list of `target`.
pub open spec fn linked(
    adj: Adjacency,
    pair: spec_fn(u32, u32) -> u32,
    target: u32,
    adds: Seq<u32>,
    level: int,
    cap: nat,
) -> Adjacency {
    set_list(
        adj,
        target,
        level,
        shrunk(pair, target, merged(list_at(adj, target, level), target, adds), cap),
    )
}

/// The adjacency after `node` is linked into the list of each of `selected`.
pub open spec fn linked_back(
    adj: Adjacency,
    pair: spec_fn(u32, u32) -> u32,
    node: u32,
    selected: Seq<u32>,
    level: int,
    cap: nat,
) -> Adjacency
    decreases selected.len(),
{
    if selected.len() == 0 {
        adj
    } else {
        linked(
            linked_back(adj, pair, node, selected.drop_last(), level, cap),
            pair,
            selected.last(),
            seq![node],
            level,
            cap,
        )
    }
}

/// The adjacency after `node` and `selected` are linked both ways.
pub open spec fn connected(
    adj: Adjacency,
    pair: spec_fn(u32, u32) -> u32,
    node: u32,
    selected: Seq<u32>,
    level: int,
    cap: nat,
) -> Adjacency {
    linked_back(linked(adj, pair, node, selected, level, cap), pair, node, selected, level, cap)
}

pub open spec fn nodes_of(hits: Seq<Scored>) -> Seq<u32> {
    Seq::new(hits.len(), |i: int| hits[i].node)
}

/// The adjacency after `node` is connected at `level` and each level below it:
/// the beam at a level starts from what the beam above found.
pub open spec fn attached(
    adj: Adjacency,
    pair: spec_fn(u32, u32) -> u32,
    p: HnswParams,
    node: u32,
    entries: Seq<u32>,
    ep: u32,
    level: int,
) -> Adjacency
    decreases level + 1,
{
    if level < 0 {
        adj
    } else {
        let found = beam_search(
            adj,
            level,
            from_node(pair, node),
            entries,
            p.ef_construction as nat,
        );
        let selected = select_neighbors(pair, found, cap_at(p, level));
        attached(
            connected(adj, pair, node, selected, level, cap_at(p, level)),
            pair,
            p,
            node,
            if found.len() == 0 {
                seq![ep]
            } else {
                nodes_of(found)
            },
            ep,
            level - 1,
        )
    }
}

/// Top level of a node's tower.
pub open spec fn top_of(adj: Adjacency, node: u32) -> int {
    adj[node as int].len() - 1
}

pub open spec fn lesser(a: int, b: int) -> int {
    if a <= b {
        a
    } else {
        b
    }
}

/// The adjacency and the entry point after `node` is inserted.
pub open spec fn inserted(
    adj: Adjacency,
    pair: spec_fn(u32, u32) -> u32,
    p: HnswParams,
    node: u32,
    entry: u32,
) -> (Adjacency, u32) {
    let level = top_of(adj, node);
    let high = top_of(adj, entry);
    let ep = descend(adj, from_node(pair, node), entry, high, level);
    (
        attached(adj, pair, p, node, seq![ep], ep, lesser(level, high)),
        if level > high {
            node
        } else {
            entry
        },
    )
}

/// The adjacency and the entry point after the nodes `from..to` are inserted
/// in id order.
pub open spec fn inserted_range(
    adj: Adjacency,
    pair: spec_fn(u32, u32) -> u32,
    p: HnswParams,
    entry: u32,
    from: int,
    to: int,
) -> (Adjacency, u32)
    decreases to - from,
{
    if to <= from {
        (adj, entry)
    } else {
        let g = inserted_range(adj, pair, p, entry, from, to - 1);
        inserted(g.0, pair, p, (to - 1) as u32, g.1)
    }
}

/// Towers of the given heights with no edges.
pub open spec fn empty_towers(levels: Seq<u32>) -> Adjacency {
    Seq::new(
        levels.len(),
        |v: int| Seq::new((levels[v] + 1) as nat, |l: int| Seq::<u32>::empty()),
    )
}

// ---------------- what linking keeps ----------------

pub open spec fn same_towers(a: Adjacency, b: Adjacency) -> bool {
    &&& a.len() == b.len()
    &&& forall|v: int| 0 <= v < a.len() ==> (#[trigger] a[v]).len() == b[v].len()
}

/// No list holds its own node, a node twice, or more than the level's cap.
pub open spec fn lists_ok(adj: Adjacency, p: HnswParams) -> bool {
    forall|v: int, l: int|
        0 <= v < adj.len() && 0 <= l < adj[v].len() ==> list_ok(#[trigger] adj[v][l], v, cap_at(p, l))
}

pub open spec fn list_ok(list: Seq<u32>, v: int, cap: nat) -> bool {
    &&& list.len() <= cap
    &&& list.no_duplicates()
    &&& forall|i: int| 0 <= i < list.len() ==> #[trigger] list[i] != v
}

pub open spec fn all_reach(adj: Adjacency, nodes: Seq<u32>, level: int) -> bool {
    forall|i: int| 0 <= i < nodes.len() ==> reaches(adj, #[trigger] nodes[i], level)
}

pub proof fn lemma_merged(adj: Adjacency, list: Seq<u32>, target: u32, adds: Seq<u32>, level: int)
    requires
        all_reach(adj, list, level),
        all_reach(adj, adds, level),
    ensures
        all_reach(adj, merged(list, target, adds), level),
        list.no_duplicates() ==> merged(list, target, adds).no_duplicates(),
        (forall|i: int| 0 <= i < list.len() ==> list[i] != target) ==> (forall|i: int|
            0 <= i < merged(list, target, adds).len() ==> #[trigger] merged(list, target, adds)[i]
                != target),
    decreases adds.len(),
{
    if adds.len() > 0 {
        let d = adds.drop_last();
        assert(all_reach(adj, d, level)) by {
            assert forall|i: int| 0 <= i < d.len() implies reaches(adj, #[trigger] d[i], level) by {
                assert(d[i] == adds[i]);
            }
        }
        lemma_merged(adj, list, target, d, level);
        let p = merged(list, target, d);
        let a = adds[adds.len() - 1];
        assert(reaches(adj, a, level));
        if a != target && !p.contains(a) {
            assert forall|i: int, j: int|
                list.no_duplicates() && 0 <= i < p.push(a).len() && 0 <= j < p.push(a).len() && i
                    != j implies p.push(a)[i] != p.push(a)[j] by {
                if i == p.len() {
                    assert(p.contains(p[j]));
                } else if j == p.len() {
                    assert(p.contains(p[i]));
                }
            }
        }
    }
}

pub proof fn lemma_shrunk(
    adj: Adjacency,
    pair: spec_fn(u32, u32) -> u32,
    target: u32,
    list: Seq<u32>,
    level: int,
    cap: nat,
)
    requires
        all_reach(adj, list, level),
    ensures
        all_reach(adj, shrunk(pair, target, list, cap), level),
        shrunk(pair, target, list, cap).len() <= cap,
        list.no_duplicates() ==> shrunk(pair, target, list, cap).no_duplicates(),
        (forall|i: int| 0 <= i < list.len() ==> list[i] != target) ==> (forall|i: int|
            0 <= i < shrunk(pair, target, list, cap).len() ==> #[trigger] shrunk(
                pair,
                target,
                list,
                cap,
            )[i] != target),
{
    if list.len() > cap {
        let cands = rescored(pair, target, list);
        law_selection(pair, cands, cap);
        let r = select_neighbors(pair, cands, cap);
        assert forall|i: int| 0 <= i < r.len() implies list.contains(#[trigger] r[i]) by {
            assert(node_among(cands, r[i]));
            let k = choose|k: int| 0 <= k < cands.len() && (#[trigger] cands[k]).node == r[i];
            assert(list[k] == r[i]);
        }
        assert forall|i: int| 0 <= i < r.len() implies reaches(adj, #[trigger] r[i], level) by {
            assert(list.contains(r[i]));
            let k = choose|k: int| 0 <= k < list.len() && list[k] == r[i];
            assert(reaches(adj, list[k], level));
        }
        if list.no_duplicates() {
            assert(distinct_nodes(cands)) by {
                assert forall|i: int, j: int| 0 <= i < j < cands.len() implies (
                #[trigger] cands[i]).node != (#[trigger] cands[j]).node by {
                    assert(list[i] != list[j]);
                }
            }
        }
    }
}

pub proof fn lemma_linked(
    adj: Adjacency,
    pair: spec_fn(u32, u32) -> u32,
    p: HnswParams,
    target: u32,
    adds: Seq<u32>,
    level: int,
)
    requires
        edges_ok(adj),
        0 <= level,
        reaches(adj, target, level),
        all_reach(adj, adds, level),
    ensures
        edges_ok(linked(adj, pair, target, adds, level, cap_at(p, level))),
        same_towers(adj, linked(adj, pair, target, adds, level, cap_at(p, level))),
        lists_ok(adj, p) ==> lists_ok(linked(adj, pair, target, adds, level, cap_at(p, level)), p),
{
    let cap = cap_at(p, level);
    let list = list_at(adj, target, level);
    lemma_edges_at(adj, target, level);
    let mg = merged(list, target, adds);
    lemma_merged(adj, list, target, adds, level);
    lemma_shrunk(adj, pair, target, mg, level, cap);
    let fresh = shrunk(pair, target, mg, cap);
    let out = linked(adj, pair, target, adds, level, cap);
    assert forall|v: int| 0 <= v < adj.len() implies (#[trigger] adj[v]).len() == out[v].len() by {}
    assert forall|v: int, l: int, i: int|
        0 <= v < out.len() && 0 <= l < out[v].len() && 0 <= i < out[v][l].len() implies reaches(
        out,
        #[trigger] out[v][l][i],
        l,
    ) by {
        if v == target && l == level {
            assert(reaches(adj, fresh[i], level));
        } else {
            assert(out[v][l] == adj[v][l]);
            assert(reaches(adj, adj[v][l][i], l));
        }
    }
    if lists_ok(adj, p) {
        assert(list_ok(adj[target as int][level], target as int, cap));
        assert forall|v: int, l: int| 0 <= v < out.len() && 0 <= l < out[v].len() implies list_ok(
            #[trigger] out[v][l],
            v,
            cap_at(p, l),
        ) by {
            if v == target && l == level {
                assert(out[v][l] == fresh);
            } else {
                assert(out[v][l] == adj[v][l]);
            }
        }
    }
}

pub proof fn lemma_same_towers_reach(a: Adjacency, b: Adjacency, nodes: Seq<u32>, level: int)
    requires
        same_towers(a, b),
        all_reach(a, nodes, level),
    ensures
        all_reach(b, nodes, level),
{
    assert forall|i: int| 0 <= i < nodes.len() implies reaches(b, #[trigger] nodes[i], level) by {
        assert(reaches(a, nodes[i], level));
        assert(a[nodes[i] as int].len() == b[nodes[i] as int].len());
    }
}

pub proof fn lemma_linked_back(
    adj: Adjacency,
    pair: spec_fn(u32, u32) -> u32,
    p: HnswParams,
    node: u32,
    selected: Seq<u32>,
    level: int,
)
    requires
        edges_ok(adj),
        0 <= level,
        reaches(adj, node, level),
        all_reach(adj, selected, level),
    ensures
        edges_ok(linked_back(adj, pair, node, selected, level, cap_at(p, level))),
        same_towers(adj, linked_back(adj, pair, node, selected, level, cap_at(p, level))),
        lists_ok(adj, p) ==> lists_ok(
            linked_back(adj, pair, node, selected, level, cap_at(p, level)),
            p,
        ),
    decreases selected.len(),
{
    if selected.len() > 0 {
        let d = selected.drop_last();
        assert(all_reach(adj, d, level)) by {
            assert forall|i: int| 0 <= i < d.len() implies reaches(adj, #[trigger] d[i], level) by {
                assert(d[i] == selected[i]);
            }
        }
        lemma_linked_back(adj, pair, p, node, d, level);
        let mid = linked_back(adj, pair, node, d, level, cap_at(p, level));
        lemma_same_towers_reach(adj, mid, selected, level);
        lemma_same_towers_reach(adj, mid, seq![node], level);
        assert(reaches(mid, selected[selected.len() - 1], level));
        assert(all_reach(adj, seq![node], level));
        lemma_linked(mid, pair, p, selected.last(), seq![node], level);
        let out = linked_back(adj, pair, node, selected, level, cap_at(p, level));
        lemma_same_towers_trans(adj, mid, out);
    }
}

pub proof fn lemma_same_towers_trans(a: Adjacency, b: Adjacency, c: Adjacency)
    requires
        same_towers(a, b),
        same_towers(b, c),
    ensures
        same_towers(a, c),
{
    assert forall|v: int| 0 <= v < a.len() implies (#[trigger] a[v]).len() == c[v].len() by {
        assert(b[v].len() == c[v].len());
    }
}

pub proof fn lemma_connected(
    adj: Adjacency,
    pair: spec_fn(u32, u32) -> u32,
    p: HnswParams,
    node: u32,
    selected: Seq<u32>,
    level: int,
)
    requires
        edges_ok(adj),
        0 <= level,
        reaches(adj, node, level),
        all_reach(adj, selected, level),
    ensures
        edges_ok(connected(adj, pair, node, selected, level, cap_at(p, level))),
        same_towers(adj, connected(adj, pair, node, selected, level, cap_at(p, level))),
        lists_ok(adj, p) ==> lists_ok(
            connected(adj, pair, node, selected, level, cap_at(p, level)),
            p,
        ),
{
    lemma_linked(adj, pair, p, node, selected, level);
    let mid = linked(adj, pair, node, selected, level, cap_at(p, level));
    lemma_same_towers_reach(adj, mid, selected, level);
    assert(all_reach(adj, seq![node], level));
    lemma_same_towers_reach(adj, mid, seq![node], level);
    assert(seq![node][0] == node);
    lemma_linked_back(mid, pair, p, node, selected, level);
    lemma_same_towers_trans(
        adj,
        mid,
        connected(adj, pair, node, selected, level, cap_at(p, level)),
    );
}

/// What a beam found can be selected from and started from one level down.
pub proof fn lemma_found(
    adj: Adjacency,
    pair: spec_fn(u32, u32) -> u32,
    f: spec_fn(u32) -> u32,
    found: Seq<Scored>,
    level: int,
    cap: nat,
)
    requires
        hits_in(adj, level, f, found),
    ensures
        all_reach(adj, nodes_of(found), level),
        all_reach(adj, nodes_of(found), level - 1),
        all_reach(adj, select_neighbors(pair, found, cap), level),
{
    law_selection(pair, found, cap);
    let ns = nodes_of(found);
    assert forall|i: int| 0 <= i < ns.len() implies reaches(adj, #[trigger] ns[i], level) by {
        assert(reaches(adj, found[i].node, level));
    }
    assert forall|i: int| 0 <= i < ns.len() implies reaches(adj, #[trigger] ns[i], level - 1) by {
        assert(reaches(adj, found[i].node, level));
    }
    let r = select_neighbors(pair, found, cap);
    assert forall|i: int| 0 <= i < r.len() implies reaches(adj, #[trigger] r[i], level) by {
        assert(node_among(found, r[i]));
        let k = choose|k: int| 0 <= k < found.len() && (#[trigger] found[k]).node == r[i];
        assert(reaches(adj, found[k].node, level));
    }
}

pub proof fn lemma_attached(
    adj: Adjacency,
    pair: spec_fn(u32, u32) -> u32,
    p: HnswParams,
    node: u32,
    entries: Seq<u32>,
    ep: u32,
    level: int,
)
    requires
        edges_ok(adj),
        reaches(adj, node, level),
        all_reach(adj, entries, level),
        reaches(adj, ep, level),
    ensures
        edges_ok(attached(adj, pair, p, node, entries, ep, level)),
        same_towers(adj, attached(adj, pair, p, node, entries, ep, level)),
        lists_ok(adj, p) ==> lists_ok(attached(adj, pair, p, node, entries, ep, level), p),
    decreases level + 1,
{
    if level >= 0 {
        let f = from_node(pair, node);
        law_beam_result(adj, level, f, entries, p.ef_construction as nat);
        let found = beam_search(adj, level, f, entries, p.ef_construction as nat);
        lemma_found(adj, pair, f, found, level, cap_at(p, level));
        let selected = select_neighbors(pair, found, cap_at(p, level));
        lemma_connected(adj, pair, p, node, selected, level);
        let next = connected(adj, pair, node, selected, level, cap_at(p, level));
        let entries2 = if found.len() == 0 {
            seq![ep]
        } else {
            nodes_of(found)
        };
        assert(all_reach(adj, entries2, level - 1));
        assert(all_reach(adj, seq![node, ep], level - 1));
        lemma_same_towers_reach(adj, next, entries2, level - 1);
        lemma_same_towers_reach(adj, next, seq![node, ep], level - 1);
        assert(seq![node, ep][0] == node && seq![node, ep][1] == ep);
        lemma_attached(next, pair, p, node, entries2, ep, level - 1);
        lemma_same_towers_trans(adj, next, attached(adj, pair, p, node, entries, ep, level));
    }
}

pub proof fn lemma_inserted(
    adj: Adjacency,
    pair: spec_fn(u32, u32) -> u32,
    p: HnswParams,
    node: u32,
    entry: u32,
)
    requires
        edges_ok(adj),
        reaches(adj, node, 0),
        reaches(adj, entry, 0),
    ensures
        edges_ok(inserted(adj, pair, p, node, entry).0),
        same_towers(adj, inserted(adj, pair, p, node, entry).0),
        inserted(adj, pair, p, node, entry).1 == node || inserted(adj, pair, p, node, entry).1
            == entry,
        lists_ok(adj, p) ==> lists_ok(inserted(adj, pair, p, node, entry).0, p),
        top_of(adj, inserted(adj, pair, p, node, entry).1) >= top_of(adj, node),
        top_of(adj, inserted(adj, pair, p, node, entry).1) >= top_of(adj, entry),
{
    let level = top_of(adj, node);
    let high = top_of(adj, entry);
    let ep = descend(adj, from_node(pair, node), entry, high, level);
    lemma_descend(adj, from_node(pair, node), entry, high, level);
    assert(all_reach(adj, seq![ep], lesser(level, high)));
    lemma_attached(adj, pair, p, node, seq![ep], ep, lesser(level, high));
}

/// The entry point's tower is as tall as any of the nodes below `upto`.
pub open spec fn entry_tallest(adj: Adjacency, entry: u32, upto: int) -> bool {
    forall|v: int| 0 <= v < upto ==> (#[trigger] adj[v]).len() <= adj[entry as int].len()
}

pub proof fn lemma_inserted_range(
    adj: Adjacency,
    pair: spec_fn(u32, u32) -> u32,
    p: HnswParams,
    entry: u32,
    from: int,
    to: int,
)
    requires
        edges_ok(adj),
        0 <= from <= to <= adj.len(),
        adj.len() <= u32::MAX,
        entry < adj.len(),
        forall|v: int| 0 <= v < adj.len() ==> (#[trigger] adj[v]).len() > 0,
    ensures
        edges_ok(inserted_range(adj, pair, p, entry, from, to).0),
        same_towers(adj, inserted_range(adj, pair, p, entry, from, to).0),
        inserted_range(adj, pair, p, entry, from, to).1 < adj.len(),
        lists_ok(adj, p) ==> lists_ok(inserted_range(adj, pair, p, entry, from, to).0, p),
        entry_tallest(adj, entry, from) ==> entry_tallest(
            adj,
            inserted_range(adj, pair, p, entry, from, to).1,
            to,
        ),
    decreases to - from,
{
    if to > from {
        lemma_inserted_range(adj, pair, p, entry, from, to - 1);
        let g = inserted_range(adj, pair, p, entry, from, to - 1);
        let node = (to - 1) as u32;
        assert(adj[node as int].len() == g.0[node as int].len());
        assert(adj[g.1 as int].len() == g.0[g.1 as int].len());
        lemma_inserted(g.0, pair, p, node, g.1);
        let out = inserted(g.0, pair, p, node, g.1);
        lemma_same_towers_trans(adj, g.0, out.0);
        assert(adj[out.1 as int].len() == g.0[out.1 as int].len());
        if entry_tallest(adj, entry, from) {
            assert forall|v: int| 0 <= v < to implies (#[trigger] adj[v]).len() <= adj[out.1 as int].len() by {
                if v < to - 1 {
                    assert(adj[v].len() <= adj[g.1 as int].len());
                }
            }
        }
    }
}

// ---------------- links in any order ----------------

/// One link: `adds` go into the list of `target` at `level`.
pub struct LinkStep {
    pub target: u32,
    pub adds: Seq<u32>,
    pub level: int,
}

/// Both ends of the link have towers that reach the level.
pub open spec fn step_ok(adj: Adjacency, s: LinkStep) -> bool {
    &&& 0 <= s.level
    &&& reaches(adj, s.target, s.level)
    &&& all_reach(adj, s.adds, s.level)
}

/// The adjacency after the links are made, one after the other.
pub open spec fn after_links(
    adj: Adjacency,
    pair: spec_fn(u32, u32) -> u32,
    p: HnswParams,
    steps: Seq<LinkStep>,
) -> Adjacency
    decreases steps.len(),
{
    if steps.len() == 0 {
        adj
    } else {
        let s = steps.last();
        linked(
            after_links(adj, pair, p, steps.drop_last()),
            pair,
            s.target,
            s.adds,
            s.level,
            cap_at(p, s.level),
        )
    }
}

/// Whatever links are made and in whatever order, so also where inserts take
/// turns between their links, every edge leads to a tower of its level and
/// every list stays within its cap, without doubles and without its own node.
pub proof fn law_links_in_any_order(
    adj: Adjacency,
    pair: spec_fn(u32, u32) -> u32,
    p: HnswParams,
    steps: Seq<LinkStep>,
)
    requires
        edges_ok(adj),
        forall|i: int| 0 <= i < steps.len() ==> step_ok(adj, #[trigger] steps[i]),
    ensures
        edges_ok(after_links(adj, pair, p, steps)),
        same_towers(adj, after_links(adj, pair, p, steps)),
        lists_ok(adj, p) ==> lists_ok(after_links(adj, pair, p, steps), p),
    decreases steps.len(),
{
    if steps.len() > 0 {
        let front = steps.drop_last();
        let s = steps.last();
        assert forall|i: int| 0 <= i < front.len() implies step_ok(adj, #[trigger] front[i]) by {
            assert(front[i] == steps[i]);
        }
        law_links_in_any_order(adj, pair, p, front);
        let mid = after_links(adj, pair, p, front);
        assert(step_ok(adj, steps[steps.len() - 1]));
        lemma_same_towers_reach(adj, mid, s.adds, s.level);
        assert(adj[s.target as int].len() == mid[s.target as int].len());
        lemma_linked(mid, pair, p, s.target, s.adds, s.level);
        lemma_same_towers_trans(adj, mid, after_links(adj, pair, p, steps));
    }
}

/// The links that connect `node` with `selected`: forward first, then back
/// from each.
pub open spec fn connecting_steps(node: u32, selected: Seq<u32>, level: int) -> Seq<LinkStep> {
    seq![LinkStep { target: node, adds: selected, level }] + Seq::new(
        selected.len(),
        |i: int| LinkStep { target: selected[i], adds: seq![node], level },
    )
}

/// Connecting a node is nothing but such links.
pub proof fn law_connecting_is_linking(
    adj: Adjacency,
    pair: spec_fn(u32, u32) -> u32,
    p: HnswParams,
    node: u32,
    selected: Seq<u32>,
    level: int,
)
    ensures
        connected(adj, pair, node, selected, level, cap_at(p, level)) == after_links(
            adj,
            pair,
            p,
            connecting_steps(node, selected, level),
        ),
{
    let first = linked(adj, pair, node, selected, level, cap_at(p, level));
    let one = seq![LinkStep { target: node, adds: selected, level }];
    assert(one.drop_last() =~= Seq::<LinkStep>::empty());
    assert(after_links(adj, pair, p, one.drop_last()) == adj);
    assert(after_links(adj, pair, p, one) == first);
    lemma_back_links(adj, pair, p, node, selected, level, one);
}

proof fn lemma_back_links(
    adj: Adjacency,
    pair: spec_fn(u32, u32) -> u32,
    p: HnswParams,
    node: u32,
    selected: Seq<u32>,
    level: int,
    before: Seq<LinkStep>,
)
    ensures
        linked_back(
            after_links(adj, pair, p, before),
            pair,
            node,
            selected,
            level,
            cap_at(p, level),
        ) == after_links(
            adj,
            pair,
            p,
            before + Seq::new(
                selected.len(),
                |i: int| LinkStep { target: selected[i], adds: seq![node], level },
            ),
        ),
    decreases selected.len(),
{
    let back = Seq::new(
        selected.len(),
        |i: int| LinkStep { target: selected[i], adds: seq![node], level },
    );
    if selected.len() == 0 {
        assert(before + back =~= before);
    } else {
        let front = selected.drop_last();
        let less = Seq::new(
            front.len(),
            |i: int| LinkStep { target: front[i], adds: seq![node], level },
        );
        lemma_back_links(adj, pair, p, node, front, level, before);
        assert((before + back).drop_last() =~= before + less);
        assert((before + back).last() == LinkStep {
            target: selected.last(),
            adds: seq![node],
            level,
        });
    }
}

// ---------------- what linking leaves alone ----------------

/// From `a` to `b`, the list of a node below `from` gained no node but those
/// at or above `from`.
pub open spec fn gains_only(a: Adjacency, b: Adjacency, from: int) -> bool {
    &&& same_towers(a, b)
    &&& forall|v: int, l: int, i: int|
        #![trigger b[v][l][i]]
        0 <= v < b.len() && v < from && 0 <= l < b[v].len() && 0 <= i < b[v][l].len() ==> b[v][l][i]
            >= from || a[v][l].contains(b[v][l][i])
}

proof fn lemma_gains_trans(a: Adjacency, b: Adjacency, c: Adjacency, from: int)
    requires
        gains_only(a, b, from),
        gains_only(b, c, from),
    ensures
        gains_only(a, c, from),
{
    lemma_same_towers_trans(a, b, c);
    assert forall|v: int, l: int, i: int|
        #![trigger c[v][l][i]]
        0 <= v < c.len() && v < from && 0 <= l < c[v].len() && 0 <= i < c[v][l].len() implies
        c[v][l][i] >= from || a[v][l].contains(c[v][l][i]) by {
        assert(b[v].len() == c[v].len());
        if c[v][l][i] < from {
            assert(b[v][l].contains(c[v][l][i]));
            let j = choose|j: int| 0 <= j < b[v][l].len() && b[v][l][j] == c[v][l][i];
            assert(b[v][l][j] == c[v][l][i]);
        }
    }
}

proof fn lemma_merged_members(list: Seq<u32>, target: u32, adds: Seq<u32>, i: int)
    requires
        0 <= i < merged(list, target, adds).len(),
    ensures
        list.contains(merged(list, target, adds)[i]) || adds.contains(
            merged(list, target, adds)[i],
        ),
    decreases adds.len(),
{
    if adds.len() > 0 {
        let d = adds.drop_last();
        let p = merged(list, target, d);
        if i < p.len() {
            lemma_merged_members(list, target, d, i);
            if d.contains(p[i]) {
                let j = choose|j: int| 0 <= j < d.len() && d[j] == p[i];
                assert(adds[j] == p[i]);
            }
        } else {
            assert(adds[adds.len() - 1] == adds.last());
        }
    } else {
        assert(list[i] == merged(list, target, adds)[i]);
    }
}

/// A list that had to be cut comes out nearest to its node first, ties by
/// node id; one that fits stays as it is.
pub proof fn law_cut_list_is_nearest_first(
    pair: spec_fn(u32, u32) -> u32,
    target: u32,
    list: Seq<u32>,
    cap: nat,
)
    ensures
        list.len() <= cap ==> shrunk(pair, target, list, cap) == list,
        list.len() > cap ==> sorted(
            rescored(pair, target, shrunk(pair, target, list, cap)),
        ),
{
    if list.len() > cap {
        let f = |x: u32| pair(target, x);
        law_selection_is_nearest_first(pair, f, rescored(pair, target, list), cap);
        let r = shrunk(pair, target, list, cap);
        assert(scored_by(f, r) =~= rescored(pair, target, r));
    }
}

proof fn lemma_shrunk_members(
    pair: spec_fn(u32, u32) -> u32,
    target: u32,
    list: Seq<u32>,
    cap: nat,
    i: int,
)
    requires
        0 <= i < shrunk(pair, target, list, cap).len(),
    ensures
        list.contains(shrunk(pair, target, list, cap)[i]),
{
    if list.len() > cap {
        let cands = rescored(pair, target, list);
        law_selection(pair, cands, cap);
        let r = select_neighbors(pair, cands, cap);
        assert(node_among(cands, r[i]));
        let k = choose|k: int| 0 <= k < cands.len() && (#[trigger] cands[k]).node == r[i];
        assert(list[k] == r[i]);
    } else {
        assert(list[i] == shrunk(pair, target, list, cap)[i]);
    }
}

proof fn lemma_linked_gains(
    adj: Adjacency,
    pair: spec_fn(u32, u32) -> u32,
    target: u32,
    adds: Seq<u32>,
    level: int,
    cap: nat,
    from: int,
)
    requires
        0 <= level,
        reaches(adj, target, level),
        target >= from || forall|i: int| 0 <= i < adds.len() ==> (#[trigger] adds[i]) >= from,
    ensures
        gains_only(adj, linked(adj, pair, target, adds, level, cap), from),
{
    let out = linked(adj, pair, target, adds, level, cap);
    let list = list_at(adj, target, level);
    assert forall|v: int, l: int, i: int|
        #![trigger out[v][l][i]]
        0 <= v < out.len() && v < from && 0 <= l < out[v].len() && 0 <= i < out[v][l].len() implies
        out[v][l][i] >= from || adj[v][l].contains(out[v][l][i]) by {
        if v == target && l == level {
            let mg = merged(list, target, adds);
            lemma_shrunk_members(pair, target, mg, cap, i);
            let j = choose|j: int| 0 <= j < mg.len() && mg[j] == out[v][l][i];
            lemma_merged_members(list, target, adds, j);
            if adds.contains(out[v][l][i]) {
                let k = choose|k: int| 0 <= k < adds.len() && adds[k] == out[v][l][i];
                assert(adds[k] >= from);
            }
        } else {
            assert(out[v][l] == adj[v][l]);
            assert(adj[v][l][i] == out[v][l][i]);
        }
    }
}

proof fn lemma_linked_back_gains(
    adj: Adjacency,
    pair: spec_fn(u32, u32) -> u32,
    node: u32,
    selected: Seq<u32>,
    level: int,
    cap: nat,
    from: int,
)
    requires
        0 <= level,
        node >= from,
        all_reach(adj, selected, level),
    ensures
        gains_only(adj, linked_back(adj, pair, node, selected, level, cap), from),
    decreases selected.len(),
{
    if selected.len() > 0 {
        let d = selected.drop_last();
        assert(all_reach(adj, d, level)) by {
            assert forall|i: int| 0 <= i < d.len() implies reaches(adj, #[trigger] d[i], level) by {
                assert(d[i] == selected[i]);
            }
        }
        lemma_linked_back_gains(adj, pair, node, d, level, cap, from);
        let mid = linked_back(adj, pair, node, d, level, cap);
        lemma_same_towers_reach(adj, mid, selected, level);
        assert(reaches(mid, selected[selected.len() - 1], level));
        lemma_linked_gains(mid, pair, selected.last(), seq![node], level, cap, from);
        lemma_gains_trans(adj, mid, linked_back(adj, pair, node, selected, level, cap), from);
    } else {
        lemma_gains_none(adj, from);
    }
}

proof fn lemma_gains_none(adj: Adjacency, from: int)
    ensures
        gains_only(adj, adj, from),
{
}

proof fn lemma_attached_gains(
    adj: Adjacency,
    pair: spec_fn(u32, u32) -> u32,
    p: HnswParams,
    node: u32,
    entries: Seq<u32>,
    ep: u32,
    level: int,
    from: int,
)
    requires
        edges_ok(adj),
        reaches(adj, node, level),
        all_reach(adj, entries, level),
        reaches(adj, ep, level),
        node >= from,
    ensures
        gains_only(adj, attached(adj, pair, p, node, entries, ep, level), from),
    decreases level + 1,
{
    if level >= 0 {
        let f = from_node(pair, node);
        law_beam_result(adj, level, f, entries, p.ef_construction as nat);
        let found = beam_search(adj, level, f, entries, p.ef_construction as nat);
        let cap = cap_at(p, level);
        lemma_found(adj, pair, f, found, level, cap);
        let selected = select_neighbors(pair, found, cap);
        lemma_connected(adj, pair, p, node, selected, level);
        lemma_linked_gains(adj, pair, node, selected, level, cap, from);
        let mid = linked(adj, pair, node, selected, level, cap);
        lemma_same_towers_reach(adj, mid, selected, level);
        lemma_linked_back_gains(mid, pair, node, selected, level, cap, from);
        let next = connected(adj, pair, node, selected, level, cap);
        lemma_gains_trans(adj, mid, next, from);
        let entries2 = if found.len() == 0 {
            seq![ep]
        } else {
            nodes_of(found)
        };
        assert(all_reach(adj, entries2, level - 1));
        assert(all_reach(adj, seq![node, ep], level - 1));
        lemma_same_towers_reach(adj, next, entries2, level - 1);
        lemma_same_towers_reach(adj, next, seq![node, ep], level - 1);
        assert(seq![node, ep][0] == node && seq![node, ep][1] == ep);
        lemma_attached_gains(next, pair, p, node, entries2, ep, level - 1, from);
        lemma_gains_trans(adj, next, attached(adj, pair, p, node, entries, ep, level), from);
    } else {
        lemma_gains_none(adj, from);
    }
}

/// Inserting nodes leaves the lists of earlier nodes alone but for the new
/// nodes that link back into them, and for what such a link displaces.
pub proof fn law_insertion_adds_only_new_links(
    adj: Adjacency,
    pair: spec_fn(u32, u32) -> u32,
    p: HnswParams,
    entry: u32,
    from: int,
    to: int,
)
    requires
        edges_ok(adj),
        0 <= from <= to <= adj.len(),
        adj.len() <= u32::MAX,
        entry < adj.len(),
        forall|v: int| 0 <= v < adj.len() ==> (#[trigger] adj[v]).len() > 0,
    ensures
        gains_only(adj, inserted_range(adj, pair, p, entry, from, to).0, from),
    decreases to - from,
{
    if to > from {
        law_insertion_adds_only_new_links(adj, pair, p, entry, from, to - 1);
        lemma_inserted_range(adj, pair, p, entry, from, to - 1);
        let g = inserted_range(adj, pair, p, entry, from, to - 1);
        let node = (to - 1) as u32;
        assert(adj[node as int].len() == g.0[node as int].len());
        assert(adj[g.1 as int].len() == g.0[g.1 as int].len());
        let level = top_of(g.0, node);
        let high = top_of(g.0, g.1);
        let ep = descend(g.0, from_node(pair, node), g.1, high, level);
        lemma_descend(g.0, from_node(pair, node), g.1, high, level);
        assert(all_reach(g.0, seq![ep], lesser(level, high)));
        lemma_attached_gains(g.0, pair, p, node, seq![ep], ep, lesser(level, high), from);
        lemma_gains_trans(adj, g.0, inserted_range(adj, pair, p, entry, from, to).0, from);
    } else {
        lemma_gains_none(adj, from);
    }
}

} // verus!
