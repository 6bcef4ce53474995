//! What an insertion does to the graph, level by level: the new node's list is
//! a diverse choice of what the beam found, every chosen neighbor links back,
//! and nothing else changes.
use vstd::prelude::*;

use crate::float_bits::f32_lt;
use crate::graph::{built, extended, heights_ok, law_build_is_well_formed, pruned, GraphModel};
use crate::link::{
    all_reach, attached, cap_at, connected, empty_towers, from_node, inserted, inserted_range,
    lemma_connected, lemma_found, lemma_inserted_range, lemma_same_towers_reach, lesser, linked,
    linked_back, list_ok, lists_ok, merged, nodes_of, rescored, same_towers, set_list, shrunk,
    top_of, HnswParams,
};
use crate::reach::{is_path, leads_to};
use crate::scored::{before, Scored};
use crate::settled::law_beam_is_settled;
use crate::walk::{
    beam_over, beam_run, beam_search, beam_step, crowded_out, descend, distinct_nodes, edges_ok,
    law_beam_result, law_selection, law_selection_is_diverse, lemma_descend, list_at, node_among,
    offer_entries, no_beam, reaches, scored_under, select_neighbors, Adjacency, Beam,
};

verus! {

// ---------------- one list ----------------

/// `a` comes before `b` as seen from `target`: nearer to it, or as near with a
/// smaller id.
pub open spec fn nearer(pair: spec_fn(u32, u32) -> u32, target: u32, a: u32, b: u32) -> bool {
    before(Scored { dist: pair(target, a), node: a }, Scored { dist: pair(target, b), node: b })
}

/// `y` is left out of `r` with reason: `cap` nearer ones are kept, or a nearer
/// one that `y` is nearer to than to `target`.
pub open spec fn outdone(
    pair: spec_fn(u32, u32) -> u32,
    target: u32,
    cap: nat,
    r: Seq<u32>,
    y: u32,
) -> bool {
    ||| r.len() == cap && (forall|i: int| 0 <= i < r.len() ==> nearer(pair, target, #[trigger] r[i], y))
    ||| exists|i: int|
        0 <= i < r.len() && nearer(pair, target, #[trigger] r[i], y) && f32_lt(
            pair(y, r[i]),
            pair(target, y),
        )
}

/// `r` is the diverse choice of up to `cap` nodes of `list` for `target`: it
/// goes nearest first, no kept node is nearer to one kept before it than to
/// `target`, and whatever is left out is outdone.
pub open spec fn keeps_diverse(
    pair: spec_fn(u32, u32) -> u32,
    target: u32,
    list: Seq<u32>,
    cap: nat,
    r: Seq<u32>,
) -> bool {
    &&& r.len() <= cap
    &&& forall|i: int| 0 <= i < r.len() ==> list.contains(#[trigger] r[i])
    &&& forall|i: int, j: int|
        0 <= i < j < r.len() ==> nearer(pair, target, #[trigger] r[i], #[trigger] r[j]) && !f32_lt(
            pair(r[j], r[i]),
            pair(target, r[j]),
        )
    &&& forall|y: u32| #[trigger]
        list.contains(y) && !r.contains(y) ==> outdone(pair, target, cap, r, y)
}

proof fn lemma_keeps_diverse(
    pair: spec_fn(u32, u32) -> u32,
    target: u32,
    list: Seq<u32>,
    cands: Seq<Scored>,
    cap: nat,
)
    requires
        list.no_duplicates(),
        cands.len() == list.len(),
        forall|i: int|
            0 <= i < list.len() ==> #[trigger] cands[i] == (Scored {
                dist: pair(target, list[i]),
                node: list[i],
            }),
    ensures
        keeps_diverse(pair, target, list, cap, select_neighbors(pair, cands, cap)),
        cap > 0 && list.len() > 0 ==> select_neighbors(pair, cands, cap).len() > 0,
        select_neighbors(pair, cands, cap).no_duplicates(),
{
    let r = select_neighbors(pair, cands, cap);
    assert(distinct_nodes(cands)) by {
        assert forall|i: int, j: int| 0 <= i < j < cands.len() implies (#[trigger] cands[i]).node
            != (#[trigger] cands[j]).node by {
            assert(list[i] != list[j]);
        }
    }
    law_selection(pair, cands, cap);
    law_selection_is_diverse(pair, cands, cap);
    assert forall|i: int| 0 <= i < r.len() implies list.contains(#[trigger] r[i]) by {
        assert(node_among(cands, r[i]));
        let k = choose|k: int| 0 <= k < cands.len() && (#[trigger] cands[k]).node == r[i];
        assert(list[k] == r[i]);
    }
    assert forall|i: int, j: int| 0 <= i < j < r.len() implies nearer(
        pair,
        target,
        #[trigger] r[i],
        #[trigger] r[j],
    ) && !f32_lt(pair(r[j], r[i]), pair(target, r[j])) by {
        assert(node_among(cands, r[i]) && node_among(cands, r[j]));
        let p = choose|k: int| 0 <= k < cands.len() && (#[trigger] cands[k]).node == r[i];
        let q = choose|k: int| 0 <= k < cands.len() && (#[trigger] cands[k]).node == r[j];
        assert(before(cands[p], cands[q]));
        assert(!f32_lt(pair(cands[q].node, r[i]), cands[q].dist));
    }
    assert forall|y: u32| #[trigger] list.contains(y) && !r.contains(y) implies outdone(
        pair,
        target,
        cap,
        r,
        y,
    ) by {
        let k = choose|k: int| 0 <= k < list.len() && list[k] == y;
        assert(cands[k].node == y);
        assert(crowded_out(pair, cands, cap, r, k));
        if r.len() == cap && (forall|i: int, p: int|
            0 <= i < r.len() && 0 <= p < cands.len() && (#[trigger] cands[p]).node
                == #[trigger] r[i] ==> before(cands[p], cands[k])) {
            assert forall|i: int| 0 <= i < r.len() implies nearer(
                pair,
                target,
                #[trigger] r[i],
                y,
            ) by {
                assert(node_among(cands, r[i]));
                let p = choose|p: int| 0 <= p < cands.len() && (#[trigger] cands[p]).node == r[i];
                assert(before(cands[p], cands[k]));
            }
        } else {
            let (i, p) = choose|i: int, p: int|
                0 <= i < r.len() && 0 <= p < cands.len() && (#[trigger] cands[p]).node
                    == #[trigger] r[i] && before(cands[p], cands[k]) && f32_lt(
                    pair(cands[k].node, r[i]),
                    cands[k].dist,
                );
            assert(nearer(pair, target, r[i], y));
        }
    }
}

/// Merging keeps the list as it is and appends the added nodes that are new,
/// but never the list's own node.
pub proof fn law_merging_appends_what_is_new(list: Seq<u32>, target: u32, adds: Seq<u32>)
    ensures
        merged(list, target, adds).len() >= list.len(),
        merged(list, target, adds).subrange(0, list.len() as int) == list,
        forall|y: u32| #[trigger]
            merged(list, target, adds).contains(y) <==> list.contains(y) || (adds.contains(y) && y
                != target),
        list.no_duplicates() ==> merged(list, target, adds).no_duplicates(),
        adds.no_duplicates() && !adds.contains(target) && (forall|i: int|
            0 <= i < adds.len() ==> !list.contains(#[trigger] adds[i])) ==> merged(
            list,
            target,
            adds,
        ) == list + adds,
    decreases adds.len(),
{
    let out = merged(list, target, adds);
    if adds.len() == 0 {
        assert(list.subrange(0, list.len() as int) =~= list);
        assert(list + adds =~= list);
    } else {
        let d = adds.drop_last();
        let a = adds.last();
        law_merging_appends_what_is_new(list, target, d);
        let p = merged(list, target, d);
        assert(adds[adds.len() - 1] == a);
        assert forall|y: u32| #[trigger] adds.contains(y) <==> d.contains(y) || y == a by {
            if adds.contains(y) {
                let i = choose|i: int| 0 <= i < adds.len() && adds[i] == y;
                if i < d.len() {
                    assert(d[i] == y);
                }
            }
            if d.contains(y) {
                let i = choose|i: int| 0 <= i < d.len() && d[i] == y;
                assert(adds[i] == y);
            }
        }
        if a != target && !p.contains(a) {
            assert forall|y: u32| #[trigger] out.contains(y) <==> p.contains(y) || y == a by {
                if p.contains(y) {
                    let i = choose|i: int| 0 <= i < p.len() && p[i] == y;
                    assert(out[i] == y);
                }
                assert(out[p.len() as int] == a);
                if out.contains(y) {
                    let i = choose|i: int| 0 <= i < out.len() && out[i] == y;
                    if i < p.len() {
                        assert(p[i] == y);
                    }
                }
            }
            assert(out.subrange(0, list.len() as int) =~= p.subrange(0, list.len() as int));
            if list.no_duplicates() {
                assert forall|i: int, j: int|
                    0 <= i < out.len() && 0 <= j < out.len() && i != j implies out[i] != out[j] by {
                    if i == p.len() {
                        assert(p.contains(p[j]));
                    } else if j == p.len() {
                        assert(p.contains(p[i]));
                    }
                }
            }
        }
        if adds.no_duplicates() && !adds.contains(target) && (forall|i: int|
            0 <= i < adds.len() ==> !list.contains(#[trigger] adds[i])) {
            assert forall|i: int| 0 <= i < d.len() implies !list.contains(#[trigger] d[i]) by {
                assert(d[i] == adds[i]);
            }
            assert(d.no_duplicates()) by {
                assert forall|i: int, j: int|
                    0 <= i < d.len() && 0 <= j < d.len() && i != j implies d[i] != d[j] by {
                    assert(adds[i] != adds[j]);
                }
            }
            if d.contains(a) {
                let i = choose|i: int| 0 <= i < d.len() && d[i] == a;
                assert(adds[i] == adds[adds.len() - 1]);
            }
            assert(adds.contains(a));
            assert(!list.contains(adds[adds.len() - 1]));
            assert(out =~= list + adds);
        }
    }
}

/// A list that is too long is cut to a diverse choice of it, and one that fits
/// is left alone.
pub proof fn law_cut_list_is_diverse(
    pair: spec_fn(u32, u32) -> u32,
    target: u32,
    list: Seq<u32>,
    cap: nat,
)
    requires
        list.no_duplicates(),
    ensures
        list.len() <= cap ==> shrunk(pair, target, list, cap) == list,
        list.len() > cap ==> keeps_diverse(
            pair,
            target,
            list,
            cap,
            shrunk(pair, target, list, cap),
        ),
        cap > 0 && list.len() > 0 ==> shrunk(pair, target, list, cap).len() > 0,
{
    if list.len() > cap {
        lemma_keeps_diverse(pair, target, list, rescored(pair, target, list), cap);
    }
}

// ---------------- one level ----------------

/// How the list of a chosen neighbor `s` takes the new node in: behind its
/// other nodes while there is room, else by a diverse choice of them all.
pub open spec fn takes_back(
    pair: spec_fn(u32, u32) -> u32,
    s: u32,
    node: u32,
    cap: nat,
    old_list: Seq<u32>,
    new_list: Seq<u32>,
) -> bool {
    if old_list.len() < cap {
        new_list == old_list.push(node)
    } else {
        keeps_diverse(pair, s, old_list.push(node), cap, new_list)
    }
}

/// From `a` to `b`, the new node got the list `selected` at `level`, each node
/// in it took the new node back, and no other list of the level changed.
pub open spec fn links_at(
    a: Adjacency,
    b: Adjacency,
    pair: spec_fn(u32, u32) -> u32,
    node: u32,
    selected: Seq<u32>,
    level: int,
    cap: nat,
) -> bool {
    &&& list_at(b, node, level) == selected
    &&& forall|i: int|
        0 <= i < selected.len() ==> takes_back(
            pair,
            #[trigger] selected[i],
            node,
            cap,
            list_at(a, selected[i], level),
            list_at(b, selected[i], level),
        )
    &&& forall|v: u32|
        v != node && !selected.contains(v) ==> #[trigger] list_at(b, v, level) == list_at(
            a,
            v,
            level,
        )
}

/// Lists of other levels are the same.
pub open spec fn same_elsewhere(a: Adjacency, b: Adjacency, level: int) -> bool {
    forall|v: u32, l: int| l != level ==> #[trigger] list_at(b, v, l) == list_at(a, v, l)
}

proof fn lemma_set_list(adj: Adjacency, t: u32, level: int, list: Seq<u32>)
    requires
        reaches(adj, t, level),
        0 <= level,
    ensures
        forall|v: u32, l: int| #[trigger]
            list_at(set_list(adj, t, level, list), v, l) == (if v == t && l == level {
                list
            } else {
                list_at(adj, v, l)
            }),
        same_towers(adj, set_list(adj, t, level, list)),
{
    let out = set_list(adj, t, level, list);
    assert forall|v: u32, l: int| #[trigger] list_at(out, v, l) == (if v == t && l == level {
        list
    } else {
        list_at(adj, v, l)
    }) by {
        if v < adj.len() {
            if v == t {
                if 0 <= l < adj[v as int].len() && l != level {
                    assert(out[v as int][l] == adj[v as int][l]);
                }
            } else {
                assert(out[v as int] == adj[v as int]);
            }
        }
    }
}

proof fn lemma_back(
    adj: Adjacency,
    pair: spec_fn(u32, u32) -> u32,
    node: u32,
    selected: Seq<u32>,
    level: int,
    cap: nat,
)
    requires
        0 <= level,
        all_reach(adj, selected, level),
        selected.no_duplicates(),
        !selected.contains(node),
        forall|i: int|
            0 <= i < selected.len() ==> !list_at(adj, #[trigger] selected[i], level).contains(node)
                && list_at(adj, selected[i], level).no_duplicates() && list_at(
                adj,
                selected[i],
                level,
            ).len() <= cap,
    ensures
        same_towers(adj, linked_back(adj, pair, node, selected, level, cap)),
        same_elsewhere(adj, linked_back(adj, pair, node, selected, level, cap), level),
        forall|v: u32|
            !selected.contains(v) ==> #[trigger] list_at(
                linked_back(adj, pair, node, selected, level, cap),
                v,
                level,
            ) == list_at(adj, v, level),
        forall|i: int|
            0 <= i < selected.len() ==> takes_back(
                pair,
                #[trigger] selected[i],
                node,
                cap,
                list_at(adj, selected[i], level),
                list_at(linked_back(adj, pair, node, selected, level, cap), selected[i], level),
            ),
        cap > 0 ==> forall|i: int|
            0 <= i < selected.len() ==> list_at(
                linked_back(adj, pair, node, selected, level, cap),
                #[trigger] selected[i],
                level,
            ).len() > 0,
    decreases selected.len(),
{
    if selected.len() > 0 {
        let d = selected.drop_last();
        let s = selected.last();
        assert(selected[selected.len() - 1] == s);
        assert forall|i: int| 0 <= i < d.len() implies d[i] == selected[i] && #[trigger] d[i] != s by {
            assert(selected[i] != selected[selected.len() - 1]);
        }
        assert(all_reach(adj, d, level)) by {
            assert forall|i: int| 0 <= i < d.len() implies reaches(adj, #[trigger] d[i], level) by {
                assert(reaches(adj, selected[i], level));
            }
        }
        assert(d.no_duplicates()) by {
            assert forall|i: int, j: int|
                0 <= i < d.len() && 0 <= j < d.len() && i != j implies d[i] != d[j] by {
                assert(selected[i] != selected[j]);
            }
        }
        if d.contains(node) {
            let i = choose|i: int| 0 <= i < d.len() && d[i] == node;
            assert(selected[i] == node);
        }
        if d.contains(s) {
            let i = choose|i: int| 0 <= i < d.len() && d[i] == s;
            assert(d[i] != s);
        }
        lemma_back(adj, pair, node, d, level, cap);
        let mid = linked_back(adj, pair, node, d, level, cap);
        let out = linked_back(adj, pair, node, selected, level, cap);
        let old_list = list_at(adj, s, level);
        assert(list_at(mid, s, level) == old_list);
        let one = seq![node];
        assert(one.drop_last() =~= Seq::<u32>::empty());
        assert(one.last() == node);
        assert(merged(old_list, s, one.drop_last()) == old_list);
        assert(selected.contains(s));
        let more = old_list.push(node);
        assert(merged(old_list, s, one) == more);
        assert(more.no_duplicates()) by {
            assert forall|i: int, j: int|
                0 <= i < more.len() && 0 <= j < more.len() && i != j implies more[i] != more[j] by {
                if i == old_list.len() {
                    assert(old_list.contains(more[j]));
                } else if j == old_list.len() {
                    assert(old_list.contains(more[i]));
                }
            }
        }
        law_cut_list_is_diverse(pair, s, more, cap);
        let new_list = shrunk(pair, s, more, cap);
        assert(reaches(mid, s, level)) by {
            assert(reaches(adj, selected[selected.len() - 1], level));
            assert(adj[s as int].len() == mid[s as int].len());
        }
        lemma_set_list(mid, s, level, new_list);
        assert(out == set_list(mid, s, level, new_list));
        crate::link::lemma_same_towers_trans(adj, mid, out);
        assert forall|v: u32| !selected.contains(v) implies #[trigger] list_at(out, v, level)
            == list_at(adj, v, level) by {
            if d.contains(v) {
                let i = choose|i: int| 0 <= i < d.len() && d[i] == v;
                assert(selected[i] == v);
            }
            assert(list_at(mid, v, level) == list_at(adj, v, level));
        }
        assert forall|i: int| 0 <= i < selected.len() implies takes_back(
            pair,
            #[trigger] selected[i],
            node,
            cap,
            list_at(adj, selected[i], level),
            list_at(out, selected[i], level),
        ) && (cap > 0 ==> list_at(out, selected[i], level).len() > 0) by {
            if i < d.len() {
                assert(d[i] == selected[i]);
                assert(list_at(out, d[i], level) == list_at(mid, d[i], level));
            }
        }
        assert forall|v: u32, l: int| l != level implies #[trigger] list_at(out, v, l) == list_at(
            adj,
            v,
            l,
        ) by {
            assert(list_at(mid, v, l) == list_at(adj, v, l));
        }
    }
}

/// The new node stands in no list yet, and its own are empty.
pub open spec fn is_fresh(adj: Adjacency, node: u32) -> bool {
    &&& forall|v: u32, l: int| !(#[trigger] list_at(adj, v, l)).contains(node)
    &&& forall|l: int| (#[trigger] list_at(adj, node, l)).len() == 0
}

spec fn lists_fit(adj: Adjacency, level: int, cap: nat) -> bool {
    forall|v: u32|
        (#[trigger] list_at(adj, v, level)).no_duplicates() && list_at(adj, v, level).len() <= cap
}

/// Connecting a new node to chosen neighbors gives it exactly those, has each
/// of them take it back, and leaves every other list alone.
pub proof fn law_connecting_links_both_ways(
    adj: Adjacency,
    pair: spec_fn(u32, u32) -> u32,
    node: u32,
    selected: Seq<u32>,
    level: int,
    cap: nat,
)
    requires
        0 <= level,
        reaches(adj, node, level),
        all_reach(adj, selected, level),
        selected.no_duplicates(),
        !selected.contains(node),
        selected.len() <= cap,
        forall|v: u32| !(#[trigger] list_at(adj, v, level)).contains(node),
        list_at(adj, node, level).len() == 0,
        forall|v: u32|
            (#[trigger] list_at(adj, v, level)).no_duplicates() && list_at(adj, v, level).len()
                <= cap,
    ensures
        links_at(
            adj,
            connected(adj, pair, node, selected, level, cap),
            pair,
            node,
            selected,
            level,
            cap,
        ),
        same_elsewhere(adj, connected(adj, pair, node, selected, level, cap), level),
        same_towers(adj, connected(adj, pair, node, selected, level, cap)),
        cap > 0 ==> forall|i: int|
            0 <= i < selected.len() ==> list_at(
                connected(adj, pair, node, selected, level, cap),
                #[trigger] selected[i],
                level,
            ).len() > 0,
{
    let own = list_at(adj, node, level);
    assert(own =~= Seq::<u32>::empty());
    law_merging_appends_what_is_new(own, node, selected);
    assert(own + selected =~= selected);
    assert(merged(own, node, selected) == selected);
    let mid = linked(adj, pair, node, selected, level, cap);
    lemma_set_list(adj, node, level, selected);
    assert(mid == set_list(adj, node, level, selected));
    lemma_same_towers_reach(adj, mid, selected, level);
    assert forall|i: int| 0 <= i < selected.len() implies !list_at(
        mid,
        #[trigger] selected[i],
        level,
    ).contains(node) && list_at(mid, selected[i], level).no_duplicates() && list_at(
        mid,
        selected[i],
        level,
    ).len() <= cap && list_at(mid, selected[i], level) == list_at(adj, selected[i], level) by {
        assert(selected.contains(selected[i]));
    }
    lemma_back(mid, pair, node, selected, level, cap);
    let out = connected(adj, pair, node, selected, level, cap);
    crate::link::lemma_same_towers_trans(adj, mid, out);
    assert forall|v: u32, l: int| l != level implies #[trigger] list_at(out, v, l) == list_at(
        adj,
        v,
        l,
    ) by {
        assert(list_at(mid, v, l) == list_at(adj, v, l));
    }
}

// ---------------- a whole insertion ----------------

/// A beam sees no list but those of its level.
pub proof fn law_beam_stays_on_its_level(
    a: Adjacency,
    b: Adjacency,
    level: int,
    f: spec_fn(u32) -> u32,
    entries: Seq<u32>,
    ef: nat,
)
    requires
        a.len() == b.len(),
        forall|v: u32| #[trigger] list_at(a, v, level) == list_at(b, v, level),
    ensures
        beam_search(a, level, f, entries, ef) == beam_search(b, level, f, entries, ef),
{
    lemma_run_local(a, b, level, f, ef, offer_entries(f, ef, no_beam(), entries), a.len());
}

proof fn lemma_run_local(
    a: Adjacency,
    b: Adjacency,
    level: int,
    f: spec_fn(u32) -> u32,
    ef: nat,
    beam: Beam,
    steps: nat,
)
    requires
        forall|v: u32| #[trigger] list_at(a, v, level) == list_at(b, v, level),
    ensures
        beam_run(a, level, f, ef, beam, steps) == beam_run(b, level, f, ef, beam, steps),
    decreases steps,
{
    if steps > 0 && !beam_over(beam, ef) {
        assert(list_at(a, beam.cand[0].node, level) == list_at(b, beam.cand[0].node, level));
        lemma_run_local(a, b, level, f, ef, beam_step(a, level, f, ef, beam), (steps - 1) as nat);
    }
}

/// No path leads to a node that stands in no list, but from itself.
proof fn lemma_never_reached(adj: Adjacency, level: int, from: u32, to: u32, node: u32)
    requires
        leads_to(adj, level, from, to),
        from != node,
        forall|v: u32| !(#[trigger] list_at(adj, v, level)).contains(node),
    ensures
        to != node,
{
    let path = choose|path: Seq<u32>|
        #[trigger] is_path(adj, level, path) && path[0] == from && path[path.len() - 1] == to;
    if to == node {
        let n = path.len() - 1;
        assert(list_at(adj, path[n - 1], level).contains(path[n]));
    }
}

proof fn lemma_not_found(
    adj: Adjacency,
    level: int,
    f: spec_fn(u32) -> u32,
    entries: Seq<u32>,
    ef: nat,
    node: u32,
)
    requires
        edges_ok(adj),
        all_reach(adj, entries, level),
        !entries.contains(node),
        forall|v: u32| !(#[trigger] list_at(adj, v, level)).contains(node),
    ensures
        !nodes_of(beam_search(adj, level, f, entries, ef)).contains(node),
        nodes_of(beam_search(adj, level, f, entries, ef)).no_duplicates(),
{
    law_beam_result(adj, level, f, entries, ef);
    let found = beam_search(adj, level, f, entries, ef);
    let ids = nodes_of(found);
    assert forall|i: int, j: int|
        0 <= i < ids.len() && 0 <= j < ids.len() && i != j implies ids[i] != ids[j] by {
        assert(found[i] == scored_under(f, found[i].node));
        assert(found[j] == scored_under(f, found[j].node));
        if i < j {
            assert(before(found[i], found[j]));
        } else {
            assert(before(found[j], found[i]));
        }
    }
    if ef > 0 && ids.contains(node) {
        law_beam_is_settled(adj, level, f, entries, ef);
        let i = choose|i: int| 0 <= i < ids.len() && ids[i] == node;
        assert(found[i].node == node);
        assert(node_among(found, node));
        let e = choose|e: u32| entries.contains(e) && #[trigger] leads_to(adj, level, e, node);
        lemma_never_reached(adj, level, e, node, node);
    }
}

/// Where the beam of a level starts: the top one from the given entries, each
/// other from what the beam above it found, or from `ep` where that is nothing.
pub open spec fn starts_of(
    found: Seq<Seq<Scored>>,
    entries: Seq<u32>,
    ep: u32,
    top: int,
    l: int,
) -> Seq<u32> {
    if l == top {
        entries
    } else if found[l + 1].len() == 0 {
        seq![ep]
    } else {
        nodes_of(found[l + 1])
    }
}

/// What happens at level `l`: the beam, on the graph as it was, finds
/// `found[l]`; the new node's list is the diverse choice of it; and the links
/// are made both ways.
pub open spec fn attached_at(
    a: Adjacency,
    b: Adjacency,
    pair: spec_fn(u32, u32) -> u32,
    p: HnswParams,
    node: u32,
    found: Seq<Seq<Scored>>,
    entries: Seq<u32>,
    ep: u32,
    top: int,
    l: int,
) -> bool {
    let cap = if l == 0 {
        p.m0 as nat
    } else {
        p.m as nat
    };
    &&& found[l] == beam_search(
        a,
        l,
        from_node(pair, node),
        starts_of(found, entries, ep, top, l),
        p.ef_construction as nat,
    )
    &&& keeps_diverse(pair, node, nodes_of(found[l]), cap, list_at(b, node, l))
    &&& links_at(a, b, pair, node, list_at(b, node, l), l, cap)
}

/// From `a` to `b`, `node` was attached at every level from `top` down to 0,
/// and no list above `top` changed.
pub open spec fn attached_levels(
    a: Adjacency,
    b: Adjacency,
    pair: spec_fn(u32, u32) -> u32,
    p: HnswParams,
    node: u32,
    found: Seq<Seq<Scored>>,
    entries: Seq<u32>,
    ep: u32,
    top: int,
) -> bool {
    &&& same_towers(a, b)
    &&& found.len() == top + 1
    &&& forall|l: int|
        0 <= l <= top ==> #[trigger] attached_at(a, b, pair, p, node, found, entries, ep, top, l)
    &&& forall|v: u32, l: int| l > top ==> #[trigger] list_at(b, v, l) == list_at(a, v, l)
}

proof fn lemma_links_carry(
    a: Adjacency,
    cur: Adjacency,
    next: Adjacency,
    b: Adjacency,
    pair: spec_fn(u32, u32) -> u32,
    node: u32,
    selected: Seq<u32>,
    level: int,
    cap: nat,
)
    requires
        links_at(cur, next, pair, node, selected, level, cap),
        forall|v: u32| #[trigger] list_at(cur, v, level) == list_at(a, v, level),
        forall|v: u32| #[trigger] list_at(b, v, level) == list_at(next, v, level),
    ensures
        links_at(a, b, pair, node, selected, level, cap),
{
    assert forall|i: int| 0 <= i < selected.len() implies takes_back(
        pair,
        #[trigger] selected[i],
        node,
        cap,
        list_at(a, selected[i], level),
        list_at(b, selected[i], level),
    ) by {
        assert(list_at(cur, selected[i], level) == list_at(a, selected[i], level));
        assert(list_at(b, selected[i], level) == list_at(next, selected[i], level));
    }
    assert forall|v: u32| v != node && !selected.contains(v) implies #[trigger] list_at(b, v, level)
        == list_at(a, v, level) by {
        assert(list_at(next, v, level) == list_at(cur, v, level));
    }
    assert(list_at(b, node, level) == list_at(next, node, level));
}

proof fn lemma_level_lists(adj: Adjacency, p: HnswParams, level: int)
    requires
        lists_ok(adj, p),
    ensures
        lists_fit(adj, level, cap_at(p, level)),
{
    assert forall|v: u32|
        (#[trigger] list_at(adj, v, level)).no_duplicates() && list_at(adj, v, level).len()
            <= cap_at(p, level) by {
        if v < adj.len() && 0 <= level < adj[v as int].len() {
            assert(list_ok(adj[v as int][level], v as int, cap_at(p, level)));
        }
    }
}

proof fn lemma_attach(
    a: Adjacency,
    cur: Adjacency,
    pair: spec_fn(u32, u32) -> u32,
    p: HnswParams,
    node: u32,
    entries: Seq<u32>,
    ep: u32,
    level: int,
) -> (found: Seq<Seq<Scored>>)
    requires
        edges_ok(a),
        lists_ok(a, p),
        is_fresh(a, node),
        same_towers(a, cur),
        level >= -1,
        reaches(a, node, level),
        all_reach(a, entries, level),
        reaches(a, ep, level),
        !entries.contains(node),
        ep != node,
        forall|v: u32, l: int| l <= level ==> #[trigger] list_at(cur, v, l) == list_at(a, v, l),
    ensures
        same_towers(a, attached(cur, pair, p, node, entries, ep, level)),
        found.len() == level + 1,
        forall|l: int|
            0 <= l <= level ==> #[trigger] attached_at(
                a,
                attached(cur, pair, p, node, entries, ep, level),
                pair,
                p,
                node,
                found,
                entries,
                ep,
                level,
                l,
            ),
        forall|v: u32, l: int|
            l > level ==> #[trigger] list_at(
                attached(cur, pair, p, node, entries, ep, level),
                v,
                l,
            ) == list_at(cur, v, l),
    decreases level + 1,
{
    let b = attached(cur, pair, p, node, entries, ep, level);
    if level < 0 {
        Seq::empty()
    } else {
        let f = from_node(pair, node);
        let ef = p.ef_construction as nat;
        let cap = cap_at(p, level);
        law_beam_stays_on_its_level(cur, a, level, f, entries, ef);
        let here = beam_search(a, level, f, entries, ef);
        law_beam_result(a, level, f, entries, ef);
        lemma_found(a, pair, f, here, level, cap);
        lemma_not_found(a, level, f, entries, ef, node);
        let ids = nodes_of(here);
        assert forall|i: int| 0 <= i < ids.len() implies #[trigger] here[i] == (Scored {
            dist: pair(node, ids[i]),
            node: ids[i],
        }) by {
            assert(here[i] == scored_under(f, here[i].node));
        }
        lemma_keeps_diverse(pair, node, ids, here, cap);
        let selected = select_neighbors(pair, here, cap);
        if selected.contains(node) {
            let i = choose|i: int| 0 <= i < selected.len() && selected[i] == node;
            assert(ids.contains(selected[i]));
        }
        lemma_level_lists(a, p, level);
        assert forall|v: u32|
            (#[trigger] list_at(cur, v, level)).no_duplicates() && list_at(cur, v, level).len()
                <= cap && !list_at(cur, v, level).contains(node) by {
            assert(list_at(cur, v, level) == list_at(a, v, level));
        }
        assert(list_at(a, node, level).len() == 0);
        lemma_same_towers_reach(a, cur, selected, level);
        assert(reaches(cur, node, level)) by {
            assert(a[node as int].len() == cur[node as int].len());
        }
        law_connecting_links_both_ways(cur, pair, node, selected, level, cap);
        let next = connected(cur, pair, node, selected, level, cap);
        crate::link::lemma_same_towers_trans(a, cur, next);
        let entries2 = if here.len() == 0 {
            seq![ep]
        } else {
            ids
        };
        assert(!entries2.contains(node)) by {
            assert(seq![ep][0] == ep);
        }
        assert(all_reach(a, entries2, level - 1));
        assert forall|v: u32, l: int| l <= level - 1 implies #[trigger] list_at(next, v, l)
            == list_at(a, v, l) by {
            assert(list_at(next, v, l) == list_at(cur, v, l));
        }
        let rest = lemma_attach(a, next, pair, p, node, entries2, ep, level - 1);
        let found = rest.push(here);
        assert(b == attached(next, pair, p, node, entries2, ep, level - 1));
        assert forall|l: int| 0 <= l <= level implies #[trigger] attached_at(
            a,
            b,
            pair,
            p,
            node,
            found,
            entries,
            ep,
            level,
            l,
        ) by {
            if l == level {
                assert forall|v: u32| #[trigger] list_at(b, v, level) == list_at(next, v, level) by {}
                lemma_links_carry(a, cur, next, b, pair, node, selected, level, cap);
                assert(found[l] == here);
                assert(list_at(b, node, l) == selected);
            } else {
                assert(attached_at(a, b, pair, p, node, rest, entries2, ep, level - 1, l));
                assert(found[l] == rest[l]);
                if l < level - 1 {
                    assert(found[l + 1] == rest[l + 1]);
                } else {
                    assert(found[l + 1] == here);
                }
                assert(starts_of(found, entries, ep, level, l) == starts_of(
                    rest,
                    entries2,
                    ep,
                    level - 1,
                    l,
                ));
            }
        }
        assert forall|v: u32, l: int| l > level implies #[trigger] list_at(b, v, l) == list_at(
            cur,
            v,
            l,
        ) by {
            assert(list_at(b, v, l) == list_at(next, v, l));
            assert(list_at(next, v, l) == list_at(cur, v, l));
        }
        found
    }
}

proof fn lemma_descend_elsewhere(
    adj: Adjacency,
    f: spec_fn(u32) -> u32,
    x: u32,
    from: int,
    to: int,
    node: u32,
)
    requires
        x != node,
        forall|v: u32, l: int| !(#[trigger] list_at(adj, v, l)).contains(node),
    ensures
        descend(adj, f, x, from, to) != node,
    decreases from - to,
{
    if from > to {
        let path = seq![x];
        assert(is_path(adj, from, path));
        assert(path[0] == x && path[path.len() - 1] == x);
        assert(leads_to(adj, from, x, x));
        crate::settled::lemma_downhill_path(adj, from, f, scored_under(f, x), x);
        let y = crate::walk::greedy_end(adj, from, f, x);
        lemma_never_reached(adj, from, x, y, node);
        lemma_descend_elsewhere(adj, f, y, from - 1, to, node);
    }
}

/// What an insertion does. The descent through the levels above the new node's
/// tower leads to where the first beam starts. From the lower of the two
/// towers' tops down to level 0, the new node's list becomes the diverse choice
/// of what the beam finds from there, and every node in it takes the new node
/// back. All other lists stay as they were. The new node becomes the entry
/// point exactly where its tower is the taller one.
pub proof fn law_insertion_links_level_by_level(
    adj: Adjacency,
    pair: spec_fn(u32, u32) -> u32,
    p: HnswParams,
    node: u32,
    entry: u32,
) -> (found: Seq<Seq<Scored>>)
    requires
        edges_ok(adj),
        lists_ok(adj, p),
        reaches(adj, node, 0),
        reaches(adj, entry, 0),
        node != entry,
        is_fresh(adj, node),
    ensures
        ({
            let level = adj[node as int].len() - 1;
            let high = adj[entry as int].len() - 1;
            let top = if level <= high {
                level
            } else {
                high
            };
            let ep = descend(adj, from_node(pair, node), entry, high, level);
            attached_levels(
                adj,
                inserted(adj, pair, p, node, entry).0,
                pair,
                p,
                node,
                found,
                seq![ep],
                ep,
                top,
            )
        }),
        adj[node as int].len() > adj[entry as int].len() ==> inserted(adj, pair, p, node, entry).1
            == node,
        adj[node as int].len() <= adj[entry as int].len() ==> inserted(adj, pair, p, node, entry).1
            == entry,
        forall|x: u32| #[trigger] from_node(pair, node)(x) == pair(node, x),
{
    let level = top_of(adj, node);
    let high = top_of(adj, entry);
    let f = from_node(pair, node);
    let ep = descend(adj, f, entry, high, level);
    lemma_descend(adj, f, entry, high, level);
    lemma_descend_elsewhere(adj, f, entry, high, level, node);
    let entries = seq![ep];
    assert(entries[0] == ep);
    assert(all_reach(adj, entries, lesser(level, high)));
    let found = lemma_attach(adj, adj, pair, p, node, entries, ep, lesser(level, high));
    found
}

// ---------------- a whole build ----------------

/// Inserting a run of nodes is inserting its first part and then the rest.
pub proof fn law_runs_join(
    adj: Adjacency,
    pair: spec_fn(u32, u32) -> u32,
    p: HnswParams,
    entry: u32,
    from: int,
    mid: int,
    to: int,
)
    requires
        from <= mid <= to,
    ensures
        inserted_range(adj, pair, p, entry, from, to) == inserted_range(
            inserted_range(adj, pair, p, entry, from, mid).0,
            pair,
            p,
            inserted_range(adj, pair, p, entry, from, mid).1,
            mid,
            to,
        ),
    decreases to - mid,
{
    if mid < to {
        law_runs_join(adj, pair, p, entry, from, mid, to - 1);
    }
}

/// Only nodes below `n` are linked.
pub open spec fn linked_below(adj: Adjacency, n: int) -> bool {
    &&& forall|v: u32, l: int, i: int|
        #![trigger list_at(adj, v, l)[i]]
        0 <= i < list_at(adj, v, l).len() ==> list_at(adj, v, l)[i] < n
    &&& forall|v: u32, l: int| v >= n ==> (#[trigger] list_at(adj, v, l)).len() == 0
}

proof fn lemma_below_is_fresh(adj: Adjacency, node: u32)
    requires
        linked_below(adj, node as int),
    ensures
        is_fresh(adj, node),
{
    assert forall|v: u32, l: int| !(#[trigger] list_at(adj, v, l)).contains(node) by {
        if list_at(adj, v, l).contains(node) {
            let i = choose|i: int| 0 <= i < list_at(adj, v, l).len() && list_at(adj, v, l)[i] == node;
            assert(list_at(adj, v, l)[i] < node);
        }
    }
}

proof fn lemma_path_below(adj: Adjacency, level: int, n: int, path: Seq<u32>, i: int)
    requires
        linked_below(adj, n),
        is_path(adj, level, path),
        path[0] < n,
        0 <= i < path.len(),
    ensures
        path[i] < n,
    decreases i,
{
    if i > 0 {
        let list = list_at(adj, path[i - 1], level);
        assert(list.contains(path[i]));
        let k = choose|k: int| 0 <= k < list.len() && list[k] == path[i];
        assert(list[k] < n);
    }
}

proof fn lemma_found_below(
    adj: Adjacency,
    level: int,
    f: spec_fn(u32) -> u32,
    entries: Seq<u32>,
    ef: nat,
    n: int,
)
    requires
        edges_ok(adj),
        linked_below(adj, n),
        all_reach(adj, entries, level),
        forall|i: int| 0 <= i < entries.len() ==> (#[trigger] entries[i]) < n,
    ensures
        forall|i: int|
            0 <= i < nodes_of(beam_search(adj, level, f, entries, ef)).len() ==> (
            #[trigger] nodes_of(beam_search(adj, level, f, entries, ef))[i]) < n,
{
    law_beam_result(adj, level, f, entries, ef);
    let found = beam_search(adj, level, f, entries, ef);
    let ids = nodes_of(found);
    if ef > 0 {
        law_beam_is_settled(adj, level, f, entries, ef);
        assert forall|i: int| 0 <= i < ids.len() implies (#[trigger] ids[i]) < n by {
            assert(found[i].node == ids[i]);
            assert(node_among(found, ids[i]));
            let e = choose|e: u32| entries.contains(e) && #[trigger] leads_to(adj, level, e, ids[i]);
            let path = choose|path: Seq<u32>|
                #[trigger] is_path(adj, level, path) && path[0] == e && path[path.len() - 1]
                    == ids[i];
            let k = choose|k: int| 0 <= k < entries.len() && entries[k] == e;
            assert(entries[k] < n);
            lemma_path_below(adj, level, n, path, path.len() - 1);
        }
    }
}

proof fn lemma_descend_below(
    adj: Adjacency,
    f: spec_fn(u32) -> u32,
    x: u32,
    from: int,
    to: int,
    n: int,
)
    requires
        x < n,
        linked_below(adj, n),
    ensures
        descend(adj, f, x, from, to) < n,
    decreases from - to,
{
    if from > to {
        let path = seq![x];
        assert(is_path(adj, from, path));
        assert(path[0] == x && path[path.len() - 1] == x);
        assert(leads_to(adj, from, x, x));
        crate::settled::lemma_downhill_path(adj, from, f, scored_under(f, x), x);
        let y = crate::walk::greedy_end(adj, from, f, x);
        let way = choose|way: Seq<u32>|
            #[trigger] is_path(adj, from, way) && way[0] == x && way[way.len() - 1] == y;
        lemma_path_below(adj, from, n, way, way.len() - 1);
        lemma_descend_below(adj, f, y, from - 1, to, n);
    }
}

/// What an insertion leaves of a list: the same, the new node's choice, or the
/// old list with the new node taken in.
proof fn lemma_list_after(
    a: Adjacency,
    b: Adjacency,
    pair: spec_fn(u32, u32) -> u32,
    p: HnswParams,
    node: u32,
    found: Seq<Seq<Scored>>,
    entries: Seq<u32>,
    ep: u32,
    top: int,
    v: u32,
    l: int,
)
    requires
        attached_levels(a, b, pair, p, node, found, entries, ep, top),
        0 <= l <= top,
        v != node,
    ensures
        ({
            let cap = if l == 0 {
                p.m0 as nat
            } else {
                p.m as nat
            };
            list_at(b, v, l) == list_at(a, v, l) || (list_at(b, node, l).contains(v) && takes_back(
                pair,
                v,
                node,
                cap,
                list_at(a, v, l),
                list_at(b, v, l),
            ))
        }),
        attached_at(a, b, pair, p, node, found, entries, ep, top, l),
{
    assert(attached_at(a, b, pair, p, node, found, entries, ep, top, l));
    let selected = list_at(b, node, l);
    if selected.contains(v) {
        let i = choose|i: int| 0 <= i < selected.len() && selected[i] == v;
        assert(selected[i] == v);
    }
}

proof fn lemma_chosen_below(
    pair: spec_fn(u32, u32) -> u32,
    target: u32,
    list: Seq<u32>,
    cap: nat,
    r: Seq<u32>,
    n: int,
)
    requires
        keeps_diverse(pair, target, list, cap, r),
        forall|i: int| 0 <= i < list.len() ==> (#[trigger] list[i]) < n,
    ensures
        forall|i: int| 0 <= i < r.len() ==> (#[trigger] r[i]) < n,
        cap > 0 && list.len() > 0 ==> r.len() > 0,
{
    assert forall|i: int| 0 <= i < r.len() implies (#[trigger] r[i]) < n by {
        assert(list.contains(r[i]));
        let k = choose|k: int| 0 <= k < list.len() && list[k] == r[i];
        assert(list[k] < n);
    }
    if cap > 0 && list.len() > 0 && r.len() == 0 {
        assert(list.contains(list[0]));
        assert(!r.contains(list[0]));
        assert(outdone(pair, target, cap, r, list[0]));
    }
}

proof fn lemma_insert_below(
    adj: Adjacency,
    pair: spec_fn(u32, u32) -> u32,
    p: HnswParams,
    node: u32,
    entry: u32,
)
    requires
        edges_ok(adj),
        lists_ok(adj, p),
        reaches(adj, node, 0),
        reaches(adj, entry, 0),
        entry < node,
        linked_below(adj, node as int),
    ensures
        linked_below(inserted(adj, pair, p, node, entry).0, node + 1),
        p.ef_construction > 0 && p.m0 > 0 ==> {
            let b = inserted(adj, pair, p, node, entry).0;
            &&& list_at(b, node, 0).len() > 0
            &&& forall|v: u32|
                list_at(adj, v, 0).len() > 0 ==> (#[trigger] list_at(b, v, 0)).len() > 0
            &&& forall|i: int|
                0 <= i < list_at(b, node, 0).len() ==> list_at(
                    b,
                    #[trigger] list_at(b, node, 0)[i],
                    0,
                ).len() > 0 && list_at(b, node, 0)[i] < node
        },
{
    lemma_below_is_fresh(adj, node);
    let found = law_insertion_links_level_by_level(adj, pair, p, node, entry);
    let level = top_of(adj, node);
    let high = top_of(adj, entry);
    let top = lesser(level, high);
    let f = from_node(pair, node);
    let ep = descend(adj, f, entry, high, level);
    lemma_descend_below(adj, f, entry, high, level, node as int);
    lemma_descend(adj, f, entry, high, level);
    let entries = seq![ep];
    let b = inserted(adj, pair, p, node, entry).0;
    assert forall|l: int| 0 <= l <= top implies (forall|i: int|
        0 <= i < list_at(b, node, l).len() ==> (#[trigger] list_at(b, node, l)[i]) < node) && (
    p.ef_construction > 0 && p.m0 > 0 && l == 0 ==> list_at(b, node, l).len() > 0) by {
        lemma_start_below(adj, b, pair, p, node, found, entries, ep, top, l);
        assert(attached_at(adj, b, pair, p, node, found, entries, ep, top, l));
        let s = starts_of(found, entries, ep, top, l);
        lemma_found_below(adj, l, f, s, p.ef_construction as nat, node as int);
        law_beam_result(adj, l, f, s, p.ef_construction as nat);
        let cap = if l == 0 {
            p.m0 as nat
        } else {
            p.m as nat
        };
        lemma_chosen_below(
            pair,
            node,
            nodes_of(found[l]),
            cap,
            list_at(b, node, l),
            node as int,
        );
    }
    assert forall|v: u32, l: int, i: int|
        #![trigger list_at(b, v, l)[i]]
        0 <= i < list_at(b, v, l).len() implies list_at(b, v, l)[i] < node + 1 by {
        if l > top || l < 0 {
            assert(list_at(b, v, l) == list_at(adj, v, l));
            assert(list_at(adj, v, l)[i] < node);
        } else if v == node {
            assert(list_at(b, node, l)[i] < node);
        } else {
            lemma_list_after(adj, b, pair, p, node, found, entries, ep, top, v, l);
            lemma_taken_below(adj, b, pair, p, node, v, l);
            assert(list_at(b, v, l)[i] < node + 1);
        }
    }
    assert forall|v: u32, l: int| v >= node + 1 implies (#[trigger] list_at(b, v, l)).len() == 0 by {
        assert(list_at(adj, v, l).len() == 0);
        if 0 <= l <= top {
            lemma_list_after(adj, b, pair, p, node, found, entries, ep, top, v, l);
            let own = list_at(b, node, l);
            if own.contains(v) {
                let i = choose|i: int| 0 <= i < own.len() && own[i] == v;
                assert(list_at(b, node, l)[i] < node);
            }
        } else {
            assert(list_at(b, v, l) == list_at(adj, v, l));
        }
    }
    if p.ef_construction > 0 && p.m0 > 0 {
        assert forall|v: u32| list_at(adj, v, 0).len() > 0 implies (#[trigger] list_at(
            b,
            v,
            0,
        )).len() > 0 by {
            if v != node {
                lemma_list_after(adj, b, pair, p, node, found, entries, ep, top, v, 0);
                lemma_taken_some(pair, v, node, p.m0 as nat, list_at(adj, v, 0), list_at(b, v, 0));
            }
        }
        assert forall|i: int| 0 <= i < list_at(b, node, 0).len() implies list_at(
            b,
            #[trigger] list_at(b, node, 0)[i],
            0,
        ).len() > 0 && list_at(b, node, 0)[i] < node by {
            assert(attached_at(adj, b, pair, p, node, found, entries, ep, top, 0));
            let s = list_at(b, node, 0)[i];
            assert(takes_back(
                pair,
                s,
                node,
                p.m0 as nat,
                list_at(adj, s, 0),
                list_at(b, s, 0),
            ));
            lemma_taken_some(pair, s, node, p.m0 as nat, list_at(adj, s, 0), list_at(b, s, 0));
        }
    }
}

proof fn lemma_taken_some(
    pair: spec_fn(u32, u32) -> u32,
    s: u32,
    node: u32,
    cap: nat,
    old_list: Seq<u32>,
    new_list: Seq<u32>,
)
    requires
        cap > 0,
    ensures
        takes_back(pair, s, node, cap, old_list, new_list) ==> new_list.len() > 0,
{
    if takes_back(pair, s, node, cap, old_list, new_list) && old_list.len() >= cap {
        let all = old_list.push(node);
        assert forall|i: int| 0 <= i < all.len() implies (#[trigger] all[i]) < 0x1_0000_0000 by {}
        lemma_chosen_below(pair, s, all, cap, new_list, 0x1_0000_0000);
    }
}

proof fn lemma_taken_below(
    a: Adjacency,
    b: Adjacency,
    pair: spec_fn(u32, u32) -> u32,
    p: HnswParams,
    node: u32,
    v: u32,
    l: int,
)
    requires
        linked_below(a, node as int),
        ({
            let cap = if l == 0 {
                p.m0 as nat
            } else {
                p.m as nat
            };
            list_at(b, v, l) == list_at(a, v, l) || takes_back(
                pair,
                v,
                node,
                cap,
                list_at(a, v, l),
                list_at(b, v, l),
            )
        }),
    ensures
        forall|i: int|
            0 <= i < list_at(b, v, l).len() ==> (#[trigger] list_at(b, v, l)[i]) < node + 1,
{
    let old_list = list_at(a, v, l);
    let all = old_list.push(node);
    let cap = if l == 0 {
        p.m0 as nat
    } else {
        p.m as nat
    };
    assert forall|i: int| 0 <= i < all.len() implies (#[trigger] all[i]) < node + 1 by {
        if i < old_list.len() {
            assert(list_at(a, v, l)[i] < node);
        }
    }
    if list_at(b, v, l) != old_list && old_list.len() >= cap {
        lemma_chosen_below(pair, v, all, cap, list_at(b, v, l), node + 1);
    } else {
        assert forall|i: int| 0 <= i < list_at(b, v, l).len() implies (#[trigger] list_at(
            b,
            v,
            l,
        )[i]) < node + 1 by {
            assert(all[i] == list_at(b, v, l)[i]);
        }
    }
}

/// Every beam of an insertion starts from nodes below the new one, and from
/// one at least.
proof fn lemma_start_below(
    a: Adjacency,
    b: Adjacency,
    pair: spec_fn(u32, u32) -> u32,
    p: HnswParams,
    node: u32,
    found: Seq<Seq<Scored>>,
    entries: Seq<u32>,
    ep: u32,
    top: int,
    l: int,
)
    requires
        edges_ok(a),
        linked_below(a, node as int),
        attached_levels(a, b, pair, p, node, found, entries, ep, top),
        0 <= l <= top,
        entries == seq![ep],
        ep < node,
        reaches(a, ep, top),
    ensures
        ({
            let s = starts_of(found, entries, ep, top, l);
            &&& s.len() > 0
            &&& all_reach(a, s, l)
            &&& forall|i: int| 0 <= i < s.len() ==> (#[trigger] s[i]) < node
        }),
    decreases top - l,
{
    let s = starts_of(found, entries, ep, top, l);
    if l < top {
        lemma_start_below(a, b, pair, p, node, found, entries, ep, top, l + 1);
        assert(attached_at(a, b, pair, p, node, found, entries, ep, top, l + 1));
        let up = starts_of(found, entries, ep, top, l + 1);
        let f = from_node(pair, node);
        lemma_found_below(a, l + 1, f, up, p.ef_construction as nat, node as int);
        law_beam_result(a, l + 1, f, up, p.ef_construction as nat);
        assert forall|i: int| 0 <= i < s.len() implies reaches(a, #[trigger] s[i], l) by {
            if found[l + 1].len() > 0 {
                assert(reaches(a, found[l + 1][i].node, l + 1));
            }
        }
    }
}

/// What a build has made when it comes to node `k`: only the nodes below it
/// are linked, so that inserting it finds its lists empty and no list that
/// holds it; and each of those has a neighbor on level 0, once there are two.
pub proof fn law_build_comes_to_a_new_node(
    pair: spec_fn(u32, u32) -> u32,
    p: HnswParams,
    levels: Seq<u32>,
    k: int,
)
    requires
        heights_ok(levels),
        levels.len() <= u32::MAX,
        1 <= k <= levels.len(),
    ensures
        ({
            let g = inserted_range(empty_towers(levels), pair, p, 0, 1, k);
            &&& linked_below(g.0, k)
            &&& g.1 < k
            &&& edges_ok(g.0)
            &&& lists_ok(g.0, p)
            &&& same_towers(empty_towers(levels), g.0)
            &&& k < levels.len() ==> is_fresh(g.0, k as u32)
            &&& p.ef_construction > 0 && p.m0 > 0 && k >= 2 ==> forall|v: u32|
                v < k ==> (#[trigger] list_at(g.0, v, 0)).len() > 0
        }),
    decreases k,
{
    let adj = empty_towers(levels);
    let g = inserted_range(adj, pair, p, 0, 1, k);
    assert(lists_ok(adj, p)) by {
        assert forall|v: int, l: int| 0 <= v < adj.len() && 0 <= l < adj[v].len() implies list_ok(
            #[trigger] adj[v][l],
            v,
            cap_at(p, l),
        ) by {
            assert(adj[v][l] =~= Seq::<u32>::empty());
        }
    }
    lemma_inserted_range(adj, pair, p, 0, 1, k);
    if k == 1 {
        assert forall|v: u32, l: int, i: int|
            #![trigger list_at(adj, v, l)[i]]
            0 <= i < list_at(adj, v, l).len() implies list_at(adj, v, l)[i] < 1 by {
            if v < adj.len() && 0 <= l < adj[v as int].len() {
                assert(adj[v as int][l] =~= Seq::<u32>::empty());
            }
        }
        assert forall|v: u32, l: int| v >= 1 implies (#[trigger] list_at(adj, v, l)).len() == 0 by {
            if v < adj.len() && 0 <= l < adj[v as int].len() {
                assert(adj[v as int][l] =~= Seq::<u32>::empty());
            }
        }
    } else {
        law_build_comes_to_a_new_node(pair, p, levels, k - 1);
        let h = inserted_range(adj, pair, p, 0, 1, k - 1);
        let node = (k - 1) as u32;
        assert(adj[node as int].len() == h.0[node as int].len());
        assert(adj[h.1 as int].len() == h.0[h.1 as int].len());
        lemma_insert_below(h.0, pair, p, node, h.1);
        law_insertion_links_level_by_level(h.0, pair, p, node, h.1);
        if p.ef_construction > 0 && p.m0 > 0 {
            assert forall|v: u32| v < k implies (#[trigger] list_at(g.0, v, 0)).len() > 0 by {
                if v < node {
                    if k == 2 {
                        assert(list_at(g.0, node, 0)[0] < node);
                        assert(list_at(g.0, list_at(g.0, node, 0)[0], 0).len() > 0);
                    } else {
                        assert(list_at(h.0, v, 0).len() > 0);
                    }
                }
            }
        }
    }
    if k < levels.len() {
        lemma_below_is_fresh(g.0, k as u32);
    }
}

/// A build leaves no node alone: with room for a neighbor and a beam to find
/// one, every node of a graph of two or more has a neighbor on level 0.
pub proof fn law_no_node_is_left_alone(
    pair: spec_fn(u32, u32) -> u32,
    p: HnswParams,
    levels: Seq<u32>,
    v: int,
)
    requires
        heights_ok(levels),
        2 <= levels.len() <= u32::MAX,
        p.ef_construction > 0,
        p.m0 > 0,
        0 <= v < levels.len(),
    ensures
        built(pair, p, levels).adj[v][0].len() > 0,
{
    law_build_comes_to_a_new_node(pair, p, levels, levels.len() as int);
    let g = built(pair, p, levels);
    assert(list_at(g.adj, v as u32, 0).len() > 0);
}

// ---------------- extension ----------------

/// Towers that hold no edges.
spec fn bare(t: Adjacency) -> bool {
    forall|v: int, l: int|
        0 <= v < t.len() && 0 <= l < t[v].len() ==> (#[trigger] t[v][l]).len() == 0
}

proof fn lemma_more_towers_same_lists(adj: Adjacency, t: Adjacency)
    requires
        bare(t),
    ensures
        forall|v: u32, l: int| #[trigger] list_at(adj + t, v, l) == list_at(adj, v, l),
{
    let all = adj + t;
    assert forall|v: u32, l: int| #[trigger] list_at(all, v, l) == list_at(adj, v, l) by {
        if v < adj.len() {
            assert(all[v as int] == adj[v as int]);
        } else if v < all.len() {
            assert(all[v as int] == t[v - adj.len()]);
            if 0 <= l < all[v as int].len() {
                assert(t[v - adj.len()][l].len() == 0);
                assert(t[v - adj.len()][l] =~= Seq::<u32>::empty());
            }
        }
    }
}

/// Once a beam has steps enough, more change nothing.
proof fn lemma_enough_steps(
    adj: Adjacency,
    level: int,
    f: spec_fn(u32) -> u32,
    ef: nat,
    b: Beam,
    few: nat,
    many: nat,
)
    requires
        edges_ok(adj),
        crate::walk::beam_ok(adj, level, f, ef, b),
        b.cand.len() + adj.len() - b.seen.len() <= few <= many,
    ensures
        beam_run(adj, level, f, ef, b, few) == beam_run(adj, level, f, ef, b, many),
    decreases few,
{
    crate::walk::lemma_seen_bound(adj, level, b.seen);
    if few > 0 && !beam_over(b, ef) {
        crate::walk::lemma_pop(adj, level, f, ef, b);
        let popped = Beam { cand: b.cand.drop_first(), ..b };
        let list = list_at(adj, b.cand[0].node, level);
        crate::walk::lemma_edges_at(adj, b.cand[0].node, level);
        crate::walk::lemma_offer_neighbors(adj, level, f, ef, popped, list);
        lemma_enough_steps(
            adj,
            level,
            f,
            ef,
            beam_step(adj, level, f, ef, b),
            (few - 1) as nat,
            (many - 1) as nat,
        );
    }
}

proof fn lemma_beam_with_more_towers(
    adj: Adjacency,
    t: Adjacency,
    level: int,
    f: spec_fn(u32) -> u32,
    entries: Seq<u32>,
    ef: nat,
)
    requires
        bare(t),
        edges_ok(adj),
        all_reach(adj, entries, level),
    ensures
        beam_search(adj + t, level, f, entries, ef) == beam_search(adj, level, f, entries, ef),
{
    lemma_more_towers_same_lists(adj, t);
    let b = offer_entries(f, ef, no_beam(), entries);
    crate::walk::lemma_offer_entries(adj, level, f, ef, no_beam(), entries);
    lemma_run_local(adj + t, adj, level, f, ef, b, (adj + t).len());
    lemma_enough_steps(adj, level, f, ef, b, adj.len(), (adj + t).len());
}

proof fn lemma_downhill_local(
    a: Adjacency,
    b: Adjacency,
    level: int,
    f: spec_fn(u32) -> u32,
    at: Scored,
)
    requires
        forall|v: u32, l: int| #[trigger] list_at(a, v, l) == list_at(b, v, l),
    ensures
        crate::walk::downhill(a, level, f, at) == crate::walk::downhill(b, level, f, at),
    decreases (crate::float_bits::f32_key(at.dist) + 0x8000_0000) as nat,
{
    assert(list_at(a, at.node, level) == list_at(b, at.node, level));
    let next = crate::walk::nearest_of(f, list_at(a, at.node, level), at);
    if f32_lt(next.dist, at.dist) {
        lemma_downhill_local(a, b, level, f, next);
    }
}

proof fn lemma_descend_local(
    a: Adjacency,
    b: Adjacency,
    f: spec_fn(u32) -> u32,
    node: u32,
    from: int,
    to: int,
)
    requires
        forall|v: u32, l: int| #[trigger] list_at(a, v, l) == list_at(b, v, l),
    ensures
        descend(a, f, node, from, to) == descend(b, f, node, from, to),
    decreases from - to,
{
    if from > to {
        lemma_downhill_local(a, b, from, f, scored_under(f, node));
        lemma_descend_local(a, b, f, crate::walk::greedy_end(a, from, f, node), from - 1, to);
    }
}

proof fn lemma_linked_with_more_towers(
    adj: Adjacency,
    t: Adjacency,
    pair: spec_fn(u32, u32) -> u32,
    target: u32,
    adds: Seq<u32>,
    level: int,
    cap: nat,
)
    requires
        bare(t),
        target < adj.len(),
    ensures
        linked(adj + t, pair, target, adds, level, cap) == linked(
            adj,
            pair,
            target,
            adds,
            level,
            cap,
        ) + t,
{
    lemma_more_towers_same_lists(adj, t);
    assert(list_at(adj + t, target, level) == list_at(adj, target, level));
    assert((adj + t)[target as int] == adj[target as int]);
    assert(linked(adj + t, pair, target, adds, level, cap) =~= linked(
        adj,
        pair,
        target,
        adds,
        level,
        cap,
    ) + t);
}

proof fn lemma_back_with_more_towers(
    adj: Adjacency,
    t: Adjacency,
    pair: spec_fn(u32, u32) -> u32,
    node: u32,
    selected: Seq<u32>,
    level: int,
    cap: nat,
)
    requires
        bare(t),
        forall|i: int| 0 <= i < selected.len() ==> (#[trigger] selected[i]) < adj.len(),
    ensures
        linked_back(adj + t, pair, node, selected, level, cap) == linked_back(
            adj,
            pair,
            node,
            selected,
            level,
            cap,
        ) + t,
        linked_back(adj, pair, node, selected, level, cap).len() == adj.len(),
    decreases selected.len(),
{
    if selected.len() > 0 {
        let d = selected.drop_last();
        assert forall|i: int| 0 <= i < d.len() implies (#[trigger] d[i]) < adj.len() by {
            assert(d[i] == selected[i]);
        }
        lemma_back_with_more_towers(adj, t, pair, node, d, level, cap);
        assert(selected[selected.len() - 1] < adj.len());
        lemma_linked_with_more_towers(
            linked_back(adj, pair, node, d, level, cap),
            t,
            pair,
            selected.last(),
            seq![node],
            level,
            cap,
        );
    }
}

proof fn lemma_attached_with_more_towers(
    adj: Adjacency,
    t: Adjacency,
    pair: spec_fn(u32, u32) -> u32,
    p: HnswParams,
    node: u32,
    entries: Seq<u32>,
    ep: u32,
    level: int,
)
    requires
        bare(t),
        edges_ok(adj),
        reaches(adj, node, level),
        all_reach(adj, entries, level),
        reaches(adj, ep, level),
    ensures
        attached(adj + t, pair, p, node, entries, ep, level) == attached(
            adj,
            pair,
            p,
            node,
            entries,
            ep,
            level,
        ) + t,
    decreases level + 1,
{
    if level >= 0 {
        let f = from_node(pair, node);
        let ef = p.ef_construction as nat;
        let cap = cap_at(p, level);
        lemma_beam_with_more_towers(adj, t, level, f, entries, ef);
        law_beam_result(adj, level, f, entries, ef);
        let found = beam_search(adj, level, f, entries, ef);
        lemma_found(adj, pair, f, found, level, cap);
        let selected = select_neighbors(pair, found, cap);
        lemma_linked_with_more_towers(adj, t, pair, node, selected, level, cap);
        let mid = linked(adj, pair, node, selected, level, cap);
        assert forall|i: int| 0 <= i < selected.len() implies (#[trigger] selected[i]) < mid.len() by {
            assert(reaches(adj, selected[i], level));
        }
        lemma_back_with_more_towers(mid, t, pair, node, selected, level, cap);
        let next = connected(adj, pair, node, selected, level, cap);
        lemma_connected(adj, pair, p, node, selected, level);
        let entries2 = if found.len() == 0 {
            seq![ep]
        } else {
            nodes_of(found)
        };
        assert(all_reach(adj, entries2, level - 1));
        assert(all_reach(adj, seq![node, ep], level - 1));
        lemma_same_towers_reach(adj, next, entries2, level - 1);
        lemma_same_towers_reach(adj, next, seq![node, ep], level - 1);
        assert(seq![node, ep][0] == node && seq![node, ep][1] == ep);
        lemma_attached_with_more_towers(next, t, pair, p, node, entries2, ep, level - 1);
    }
}

proof fn lemma_range_with_more_towers(
    adj: Adjacency,
    t: Adjacency,
    pair: spec_fn(u32, u32) -> u32,
    p: HnswParams,
    entry: u32,
    from: int,
    to: int,
)
    requires
        bare(t),
        edges_ok(adj),
        0 <= from <= to <= adj.len(),
        adj.len() <= u32::MAX,
        entry < adj.len(),
        forall|v: int| 0 <= v < adj.len() ==> (#[trigger] adj[v]).len() > 0,
    ensures
        inserted_range(adj + t, pair, p, entry, from, to).0 == inserted_range(
            adj,
            pair,
            p,
            entry,
            from,
            to,
        ).0 + t,
        inserted_range(adj + t, pair, p, entry, from, to).1 == inserted_range(
            adj,
            pair,
            p,
            entry,
            from,
            to,
        ).1,
    decreases to - from,
{
    if from < to {
        lemma_range_with_more_towers(adj, t, pair, p, entry, from, to - 1);
        lemma_inserted_range(adj, pair, p, entry, from, to - 1);
        let g = inserted_range(adj, pair, p, entry, from, to - 1);
        let node = (to - 1) as u32;
        assert(adj[node as int].len() == g.0[node as int].len());
        assert(adj[g.1 as int].len() == g.0[g.1 as int].len());
        let all = g.0 + t;
        assert(all[node as int] == g.0[node as int]);
        assert(all[g.1 as int] == g.0[g.1 as int]);
        let f = from_node(pair, node);
        let level = top_of(g.0, node);
        let high = top_of(g.0, g.1);
        lemma_more_towers_same_lists(g.0, t);
        lemma_descend_local(all, g.0, f, g.1, high, level);
        let ep = descend(g.0, f, g.1, high, level);
        lemma_descend(g.0, f, g.1, high, level);
        assert(all_reach(g.0, seq![ep], lesser(level, high)));
        lemma_attached_with_more_towers(
            g.0,
            t,
            pair,
            p,
            node,
            seq![ep],
            ep,
            lesser(level, high),
        );
    }
}

/// Extending a built graph gives what building all nodes at once gives.
pub proof fn law_extending_is_building_on(
    pair: spec_fn(u32, u32) -> u32,
    p: HnswParams,
    levels: Seq<u32>,
    more: Seq<u32>,
)
    requires
        heights_ok(levels),
        heights_ok(more),
        levels.len() > 0,
        levels.len() + more.len() <= u32::MAX,
    ensures
        extended(built(pair, p, levels), pair, p, more) == built(pair, p, levels + more),
{
    let n = levels.len() as int;
    let a = empty_towers(levels);
    let t = empty_towers(more);
    let all = levels + more;
    assert(empty_towers(all) =~= a + t) by {
        assert forall|v: int| 0 <= v < all.len() implies #[trigger] empty_towers(all)[v] == (a
            + t)[v] by {
            if v < n {
                assert(empty_towers(all)[v] =~= a[v]);
            } else {
                assert(empty_towers(all)[v] =~= t[v - n]);
            }
        }
    }
    assert(bare(t));
    assert(edges_ok(a));
    assert(forall|v: int| 0 <= v < a.len() ==> (#[trigger] a[v]).len() > 0);
    lemma_range_with_more_towers(a, t, pair, p, 0, 1, n);
    law_runs_join(a + t, pair, p, 0, 1, n, n + more.len());
    let g = built(pair, p, levels);
    assert(g.adj == inserted_range(a, pair, p, 0, 1, n).0);
    law_build_is_well_formed(pair, p, levels);
    if more.len() == 0 {
        assert(t =~= Seq::empty());
        assert(a + t =~= a);
        assert(all =~= levels);
    }
}

/// Pruning cuts each base list that is longer than the new degree to a diverse
/// choice of it for its node, and changes nothing else but the degree.
pub proof fn law_pruning_keeps_a_diverse_choice(
    g: GraphModel,
    pair: spec_fn(u32, u32) -> u32,
    m0: nat,
    v: int,
    l: int,
)
    requires
        g.wf(),
        0 <= v < g.adj.len() <= u32::MAX,
        0 <= l < g.adj[v].len(),
        g.adj[v][0].no_duplicates(),
    ensures
        ({
            let r = pruned(g, pair, m0);
            &&& r.adj.len() == g.adj.len()
            &&& r.adj[v].len() == g.adj[v].len()
            &&& l > 0 || g.adj[v][0].len() <= m0 ==> r.adj[v][l] == g.adj[v][l]
            &&& l == 0 && g.adj[v][0].len() > m0 ==> keeps_diverse(
                pair,
                v as u32,
                g.adj[v][0],
                m0,
                r.adj[v][0],
            )
            &&& r.m0 == m0
            &&& r.levels == g.levels
            &&& r.entry == g.entry
            &&& r.m == g.m
            &&& r.ef_construction == g.ef_construction
        }),
{
    law_cut_list_is_diverse(pair, v as u32, g.adj[v][0], m0);
}

} // verus!
