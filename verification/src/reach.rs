//! When a search is exact: a beam at least as wide as a connected layer keeps
//! every node, so the nearest it gives are the nearest there are.
use vstd::prelude::*;

use crate::calibrate::{all_scored, true_topk};
use crate::graph::{search_hits, GraphModel};
use crate::link::nodes_of;
use crate::scored::{
    before, law_sort_is_sorted_permutation, lemma_insert_sorted, sort_scored, sorted, Scored,
};
use crate::walk::{
    beam_ok, beam_over, beam_run, beam_search, beam_step, descend, edges_ok, lemma_descend,
    lemma_edges_at, lemma_offer_neighbors, lemma_pop, lemma_seen_bound, lemma_take_in, list_at,
    no_beam, node_among, offer_entries, offer_neighbors, reaches, scored_under, strictly_ascending,
    take_in, Adjacency, Beam,
};

verus! {

/// Each node of the path is a neighbor of the one before it.
pub open spec fn is_path(adj: Adjacency, level: int, path: Seq<u32>) -> bool {
    &&& path.len() > 0
    &&& forall|i: int|
        #![trigger path[i]]
        0 < i < path.len() ==> list_at(adj, path[i - 1], level).contains(path[i])
}

/// A path leads from `a` to `b`.
pub open spec fn leads_to(adj: Adjacency, level: int, a: u32, b: u32) -> bool {
    exists|path: Seq<u32>|
        #[trigger] is_path(adj, level, path) && path[0] == a && path[path.len() - 1] == b
}

/// A path leads from every node to every other.
pub open spec fn strongly_connected(adj: Adjacency, level: int) -> bool {
    forall|a: u32, b: u32|
        a < adj.len() && b < adj.len() ==> #[trigger] leads_to(adj, level, a, b)
}

// ---------------- a wide beam ----------------

/// Every node that was seen was kept.
spec fn keeps_all(b: Beam) -> bool {
    &&& b.kept.len() == b.seen.len()
    &&& forall|x: u32| #[trigger] b.seen.contains(x) ==> node_among(b.kept, x)
}

/// The neighbors of every seen node that is no longer to be expanded are seen.
spec fn closed_behind(adj: Adjacency, level: int, b: Beam) -> bool {
    forall|x: u32, i: int|
        #![trigger list_at(adj, x, level)[i]]
        b.seen.contains(x) && !node_among(b.cand, x) && 0 <= i < list_at(adj, x, level).len()
            ==> b.seen.contains(list_at(adj, x, level)[i])
}

proof fn lemma_among_inserted(s: Seq<Scored>, x: Scored)
    requires
        sorted(s),
    ensures
        forall|y: u32|
            #[trigger] node_among(crate::scored::insert_sorted(s, x), y) <==> node_among(s, y) || y
                == x.node,
{
    lemma_insert_sorted(s, x);
    let t = crate::scored::insert_sorted(s, x);
    assert forall|y: u32| #[trigger] node_among(t, y) <==> node_among(s, y) || y == x.node by {
        if node_among(t, y) {
            let k = choose|k: int| 0 <= k < t.len() && (#[trigger] t[k]).node == y;
            assert(t.contains(t[k]));
            if t[k] != x {
                let j = choose|j: int| 0 <= j < s.len() && s[j] == t[k];
                assert(s[j].node == y);
            }
        }
        if node_among(s, y) {
            let k = choose|k: int| 0 <= k < s.len() && (#[trigger] s[k]).node == y;
            assert(s.contains(s[k]));
            assert(t.contains(s[k]));
            let j = choose|j: int| 0 <= j < t.len() && t[j] == s[k];
            assert(t[j].node == y);
        }
        if y == x.node {
            assert(t.contains(x));
            let j = choose|j: int| 0 <= j < t.len() && t[j] == x;
            assert(t[j].node == y);
        }
    }
}

proof fn lemma_wide_take_in(
    adj: Adjacency,
    level: int,
    f: spec_fn(u32) -> u32,
    ef: nat,
    b: Beam,
    node: u32,
)
    requires
        beam_ok(adj, level, f, ef, b),
        keeps_all(b),
        adj.len() <= ef,
        !b.seen.contains(node),
        reaches(adj, node, level),
    ensures
        beam_ok(adj, level, f, ef, take_in(b, ef, scored_under(f, node))),
        keeps_all(take_in(b, ef, scored_under(f, node))),
        b.kept.len() < ef,
        forall|y: u32|
            #[trigger] node_among(take_in(b, ef, scored_under(f, node)).cand, y) <==> node_among(
                b.cand,
                y,
            ) || y == node,
{
    let x = scored_under(f, node);
    let out = take_in(b, ef, x);
    lemma_take_in(adj, level, f, ef, b, node);
    lemma_seen_bound(adj, level, out.seen);
    lemma_among_inserted(b.cand, x);
    lemma_among_inserted(b.kept, x);
    lemma_insert_sorted(b.kept, x);
    assert forall|y: u32| #[trigger] out.seen.contains(y) implies node_among(out.kept, y) by {
        let i = choose|i: int| 0 <= i < out.seen.len() && out.seen[i] == y;
        if i < b.seen.len() {
            assert(b.seen[i] == y);
            assert(b.seen.contains(y));
        }
        assert(node_among(crate::scored::insert_sorted(b.kept, x), y));
    }
}

proof fn lemma_wide_neighbors(
    adj: Adjacency,
    level: int,
    f: spec_fn(u32) -> u32,
    ef: nat,
    b: Beam,
    nodes: Seq<u32>,
)
    requires
        beam_ok(adj, level, f, ef, b),
        keeps_all(b),
        adj.len() <= ef,
        forall|i: int| 0 <= i < nodes.len() ==> reaches(adj, #[trigger] nodes[i], level),
    ensures
        beam_ok(adj, level, f, ef, offer_neighbors(f, ef, b, nodes)),
        keeps_all(offer_neighbors(f, ef, b, nodes)),
        forall|x: u32|
            #[trigger] offer_neighbors(f, ef, b, nodes).seen.contains(x) <==> b.seen.contains(x)
                || nodes.contains(x),
        forall|x: u32|
            #[trigger] node_among(offer_neighbors(f, ef, b, nodes).cand, x) <==> node_among(
                b.cand,
                x,
            ) || (nodes.contains(x) && !b.seen.contains(x)),
        offer_entries(f, ef, b, nodes) == offer_neighbors(f, ef, b, nodes),
    decreases nodes.len(),
{
    if nodes.len() > 0 {
        let d = nodes.drop_last();
        let last = nodes.last();
        assert forall|i: int| 0 <= i < d.len() implies reaches(adj, #[trigger] d[i], level) by {
            assert(d[i] == nodes[i]);
        }
        lemma_wide_neighbors(adj, level, f, ef, b, d);
        let p = offer_neighbors(f, ef, b, d);
        let out = offer_neighbors(f, ef, b, nodes);
        assert(reaches(adj, nodes[nodes.len() - 1], level));
        assert forall|x: u32| #[trigger] nodes.contains(x) <==> d.contains(x) || x == last by {
            if nodes.contains(x) {
                let i = choose|i: int| 0 <= i < nodes.len() && nodes[i] == x;
                if i < d.len() {
                    assert(d[i] == x);
                }
            }
            if d.contains(x) {
                let i = choose|i: int| 0 <= i < d.len() && d[i] == x;
                assert(nodes[i] == x);
            }
            assert(nodes[nodes.len() - 1] == last);
        }
        if !p.seen.contains(last) {
            lemma_wide_take_in(adj, level, f, ef, p, last);
            assert forall|x: u32|
                #[trigger] out.seen.contains(x) <==> p.seen.contains(x) || x == last by {
                if p.seen.contains(x) {
                    let i = choose|i: int| 0 <= i < p.seen.len() && p.seen[i] == x;
                    assert(out.seen[i] == x);
                }
                if out.seen.contains(x) {
                    let i = choose|i: int| 0 <= i < out.seen.len() && out.seen[i] == x;
                    if i < p.seen.len() {
                        assert(p.seen[i] == x);
                    }
                }
                assert(out.seen[p.seen.len() as int] == last);
            }
        }
    }
}

proof fn lemma_pop_among(f: spec_fn(u32) -> u32, seen: Seq<u32>, cand: Seq<Scored>)
    requires
        cand.len() > 0,
        crate::walk::hits_ok(f, seen, cand),
    ensures
        forall|y: u32|
            #[trigger] node_among(cand.drop_first(), y) <==> node_among(cand, y) && y
                != cand[0].node,
{
    let t = cand.drop_first();
    assert forall|y: u32| #[trigger] node_among(t, y) <==> node_among(cand, y) && y
        != cand[0].node by {
        if node_among(t, y) {
            let k = choose|k: int| 0 <= k < t.len() && (#[trigger] t[k]).node == y;
            assert(cand[k + 1].node == y);
            assert(before(cand[0], cand[k + 1]));
            assert(cand[0] == scored_under(f, cand[0].node));
            assert(cand[k + 1] == scored_under(f, cand[k + 1].node));
        }
        if node_among(cand, y) && y != cand[0].node {
            let k = choose|k: int| 0 <= k < cand.len() && (#[trigger] cand[k]).node == y;
            assert(t[k - 1].node == y);
        }
    }
}

/// What a wide beam keeps when it is over holds every node that a path from a
/// seen node leads to.
proof fn lemma_wide_run(
    adj: Adjacency,
    level: int,
    f: spec_fn(u32) -> u32,
    ef: nat,
    b: Beam,
    steps: nat,
    from: u32,
    to: u32,
)
    requires
        edges_ok(adj),
        0 <= level,
        adj.len() <= ef,
        beam_ok(adj, level, f, ef, b),
        keeps_all(b),
        closed_behind(adj, level, b),
        b.cand.len() + adj.len() - b.seen.len() <= steps,
        b.seen.contains(from),
        leads_to(adj, level, from, to),
        to < adj.len(),
        reaches(adj, to, level),
    ensures
        node_among(beam_run(adj, level, f, ef, b, steps), to),
    decreases steps,
{
    lemma_seen_bound(adj, level, b.seen);
    if steps == 0 || beam_over(b, ef) {
        if b.cand.len() == 0 {
            let path = choose|path: Seq<u32>|
                #[trigger] is_path(adj, level, path) && path[0] == from && path[path.len() - 1]
                    == to;
            lemma_path_seen(adj, level, b, path, path.len() - 1);
        } else {
            lemma_all_seen(adj, level, b.seen, to);
        }
        assert(node_among(b.kept, to));
    } else {
        lemma_pop(adj, level, f, ef, b);
        let x0 = b.cand[0].node;
        lemma_edges_at(adj, x0, level);
        let popped = Beam { cand: b.cand.drop_first(), ..b };
        let list = list_at(adj, x0, level);
        assert(keeps_all(popped));
        lemma_pop_among(f, b.seen, b.cand);
        lemma_wide_neighbors(adj, level, f, ef, popped, list);
        lemma_offer_neighbors(adj, level, f, ef, popped, list);
        let next = beam_step(adj, level, f, ef, b);
        assert(closed_behind(adj, level, next)) by {
            assert forall|x: u32, i: int|
                #![trigger list_at(adj, x, level)[i]]
                next.seen.contains(x) && !node_among(next.cand, x) && 0 <= i < list_at(
                    adj,
                    x,
                    level,
                ).len() implies next.seen.contains(list_at(adj, x, level)[i]) by {
                assert(b.seen.contains(x));
                if x == x0 {
                    assert(list.contains(list[i]));
                } else {
                    assert(!node_among(b.cand, x));
                    assert(b.seen.contains(list_at(adj, x, level)[i]));
                }
            }
        }
        lemma_wide_run(adj, level, f, ef, next, (steps - 1) as nat, from, to);
    }
}

/// With nothing left to expand, a path from a seen node stays among the seen.
proof fn lemma_path_seen(adj: Adjacency, level: int, b: Beam, path: Seq<u32>, i: int)
    requires
        b.cand.len() == 0,
        closed_behind(adj, level, b),
        is_path(adj, level, path),
        b.seen.contains(path[0]),
        0 <= i < path.len(),
    ensures
        b.seen.contains(path[i]),
    decreases i,
{
    if i > 0 {
        lemma_path_seen(adj, level, b, path, i - 1);
        let list = list_at(adj, path[i - 1], level);
        assert(list.contains(path[i]));
        let k = choose|k: int| 0 <= k < list.len() && list[k] == path[i];
        assert(!node_among(b.cand, path[i - 1]));
        assert(b.seen.contains(list[k]));
    }
}

/// As many different nodes as there are hold every node.
proof fn lemma_all_seen(adj: Adjacency, level: int, seen: Seq<u32>, to: u32)
    requires
        seen.no_duplicates(),
        forall|i: int| 0 <= i < seen.len() ==> reaches(adj, #[trigger] seen[i], level),
        seen.len() >= adj.len(),
        reaches(adj, to, level),
    ensures
        seen.contains(to),
{
    if !seen.contains(to) {
        let more = seen.push(to);
        assert forall|i: int, j: int|
            0 <= i < more.len() && 0 <= j < more.len() && i != j implies more[i] != more[j] by {
            if i == seen.len() {
                assert(seen.contains(more[j]));
            } else if j == seen.len() {
                assert(seen.contains(more[i]));
            }
        }
        lemma_seen_bound(adj, level, more);
    }
}

/// A beam at least as wide as there are nodes finds every node that a path
/// leads to from one of its entry points.
pub proof fn law_wide_beam_finds_what_it_can_reach(
    adj: Adjacency,
    level: int,
    f: spec_fn(u32) -> u32,
    entries: Seq<u32>,
    ef: nat,
    from: u32,
    to: u32,
)
    requires
        edges_ok(adj),
        0 <= level,
        adj.len() <= ef,
        forall|i: int| 0 <= i < entries.len() ==> reaches(adj, #[trigger] entries[i], level),
        entries.contains(from),
        leads_to(adj, level, from, to),
        reaches(adj, to, level),
    ensures
        node_among(beam_search(adj, level, f, entries, ef), to),
{
    let none = no_beam();
    lemma_wide_neighbors(adj, level, f, ef, none, entries);
    lemma_offer_neighbors(adj, level, f, ef, none, entries);
    let b = offer_entries(f, ef, none, entries);
    assert(closed_behind(adj, level, b)) by {
        assert forall|x: u32, i: int|
            #![trigger list_at(adj, x, level)[i]]
            b.seen.contains(x) && !node_among(b.cand, x) && 0 <= i < list_at(
                adj,
                x,
                level,
            ).len() implies b.seen.contains(list_at(adj, x, level)[i]) by {
            assert(!none.seen.contains(x));
        }
    }
    lemma_wide_run(adj, level, f, ef, b, adj.len(), from, to);
}

// ---------------- the exact nearest ----------------

/// Hits in strict ascending order are determined by which hits they are.
pub proof fn law_ascending_hits_are_unique(a: Seq<Scored>, b: Seq<Scored>)
    requires
        strictly_ascending(a),
        strictly_ascending(b),
        forall|y: Scored| #[trigger] a.contains(y) <==> b.contains(y),
    ensures
        a == b,
    decreases a.len(),
{
    if a.len() == 0 {
        if b.len() > 0 {
            assert(b.contains(b[0]));
            assert(a.contains(b[0]));
        }
        assert(a =~= b);
    } else {
        let x = a.last();
        assert(a.contains(a[a.len() - 1]));
        let j = choose|j: int| 0 <= j < b.len() && b[j] == x;
        if j < b.len() - 1 {
            let y = b[b.len() - 1];
            assert(before(b[j], y));
            assert(b.contains(y));
            assert(a.contains(y));
            let i = choose|i: int| 0 <= i < a.len() && a[i] == y;
            if i < a.len() - 1 {
                assert(before(a[i], a[a.len() - 1]));
            }
        }
        let c = a.drop_last();
        let d = b.drop_last();
        assert forall|y: Scored| #[trigger] c.contains(y) <==> d.contains(y) by {
            if c.contains(y) {
                let i = choose|i: int| 0 <= i < c.len() && c[i] == y;
                assert(a[i] == y && before(a[i], a[a.len() - 1]));
                assert(a.contains(y));
                let k = choose|k: int| 0 <= k < b.len() && b[k] == y;
                assert(d[k] == y);
            }
            if d.contains(y) {
                let i = choose|i: int| 0 <= i < d.len() && d[i] == y;
                assert(b[i] == y && before(b[i], b[b.len() - 1]));
                assert(b.contains(y));
                assert(a.contains(y));
                let k = choose|k: int| 0 <= k < a.len() && a[k] == y;
                assert(c[k] == y);
            }
        }
        assert forall|p: int, q: int| 0 <= p < q < c.len() implies before(
            #[trigger] c[p],
            #[trigger] c[q],
        ) by {
            assert(before(a[p], a[q]));
        }
        assert forall|p: int, q: int| 0 <= p < q < d.len() implies before(
            #[trigger] d[p],
            #[trigger] d[q],
        ) by {
            assert(before(b[p], b[q]));
        }
        law_ascending_hits_are_unique(c, d);
        assert(a =~= c.push(x));
        assert(b =~= d.push(x));
    }
}

/// All nodes by distance are in strict ascending order.
pub proof fn lemma_all_ascend(f: spec_fn(u32) -> u32, n: nat)
    requires
        n <= u32::MAX,
    ensures
        strictly_ascending(sort_scored(all_scored(f, n))),
        forall|y: Scored| #[trigger]
            sort_scored(all_scored(f, n)).contains(y) <==> y.node < n && y == scored_under(
                f,
                y.node,
            ),
{
    let all = all_scored(f, n);
    let s = sort_scored(all);
    law_sort_is_sorted_permutation(all);
    assert forall|y: Scored| #[trigger] s.contains(y) <==> y.node < n && y == scored_under(
        f,
        y.node,
    ) by {
        if s.contains(y) {
            let i = choose|i: int| 0 <= i < all.len() && all[i] == y;
            assert(all[i] == scored_under(f, i as u32));
        }
        if y.node < n && y == scored_under(f, y.node) {
            assert(all[y.node as int] == y);
            assert(all.contains(y));
        }
    }
    assert(all.no_duplicates()) by {
        assert forall|i: int, j: int|
            0 <= i < all.len() && 0 <= j < all.len() && i != j implies all[i] != all[j] by {
            assert(all[i].node == i as u32 && all[j].node == j as u32);
        }
    }
    all.lemma_multiset_has_no_duplicates();
    s.lemma_multiset_has_no_duplicates_conv();
    assert forall|i: int, j: int| 0 <= i < j < s.len() implies before(
        #[trigger] s[i],
        #[trigger] s[j],
    ) by {
        assert(!before(s[j], s[i]));
        assert(s[i] != s[j]);
        assert(s.contains(s[i]) && s.contains(s[j]));
        assert(s[i].node != s[j].node);
    }
}

/// A search is exact where its beam, widened to `k`, is at least as wide as
/// the graph has nodes and paths on level 0 lead from every node to every
/// other: it then gives what scoring all nodes gives.
pub proof fn law_wide_search_is_exhaustive(
    g: GraphModel,
    f: spec_fn(u32) -> u32,
    k: nat,
    ef: nat,
)
    requires
        g.wf(),
        g.adj.len() <= u32::MAX,
        ef >= g.adj.len() || k >= g.adj.len(),
        strongly_connected(g.adj, 0),
    ensures
        nodes_of(search_hits(g, f, k, ef)) == true_topk(f, g.adj.len(), k),
{
    let n = g.adj.len();
    let all = sort_scored(all_scored(f, n));
    law_sort_is_sorted_permutation(all_scored(f, n));
    if n == 0 || k == 0 {
        assert(nodes_of(search_hits(g, f, k, ef)) =~= true_topk(f, n, k));
    } else {
        let top = g.levels[g.entry as int] as int;
        assert(g.adj[g.entry as int].len() == top + 1);
        lemma_descend(g.adj, f, g.entry, top, 0);
        let ep = descend(g.adj, f, g.entry, top, 0);
        let width = if ef >= k {
            ef
        } else {
            k
        };
        let entries = seq![ep];
        assert(forall|i: int| 0 <= i < entries.len() ==> reaches(g.adj, #[trigger] entries[i], 0));
        let found = beam_search(g.adj, 0, f, entries, width);
        crate::walk::law_beam_result(g.adj, 0, f, entries, width);
        lemma_all_ascend(f, n);
        assert(entries[0] == ep);
        assert forall|y: Scored| #[trigger] found.contains(y) <==> all.contains(y) by {
            if found.contains(y) {
                let i = choose|i: int| 0 <= i < found.len() && found[i] == y;
                assert(reaches(g.adj, found[i].node, 0));
            }
            if all.contains(y) {
                assert(g.adj[y.node as int].len() > 0);
                assert(leads_to(g.adj, 0, ep, y.node));
                law_wide_beam_finds_what_it_can_reach(g.adj, 0, f, entries, width, ep, y.node);
                let i = choose|i: int| 0 <= i < found.len() && (#[trigger] found[i]).node == y.node;
                assert(found[i] == scored_under(f, y.node));
            }
        }
        law_ascending_hits_are_unique(found, all);
        assert(nodes_of(search_hits(g, f, k, ef)) =~= true_topk(f, n, k));
    }
}

} // verus!
