//! What a walk leaves behind: a descent ends where no neighbor is nearer, a
//! beam ends where none of its neighbors could still join it, and a search
//! hands out the nearest of what its beam kept.
use vstd::prelude::*;

use crate::float_bits::{f32_key, f32_lt, f32_nan, f32_total_key};
use crate::graph::{search_hits, GraphModel};
use crate::link::nodes_of;
use crate::reach::{is_path, leads_to};
use crate::scored::{before, insert_sorted, lemma_insert_sorted, sorted, Scored};
use crate::walk::{
    beam_ok, beam_over, beam_run, beam_search, beam_step, descend, downhill, edges_ok, farthest,
    greedy_end, keep_nearest, law_beam_result, law_greedy_ends_at_local_minimum, lemma_descend,
    lemma_edges_at, lemma_offer_entries, lemma_offer_neighbors, lemma_pop, lemma_seen_bound,
    lemma_take_in, list_at, nearest_of, no_beam, node_among, offer_entries, offer_neighbors,
    reaches, scored_under, strictly_ascending, take_in, Adjacency, Beam,
};

verus! {

// ---------------- what is kept ----------------

/// Every seen node is kept, or the beam is full and the node is not nearer
/// than its farthest.
pub open spec fn settled(f: spec_fn(u32) -> u32, ef: nat, seen: Seq<u32>, kept: Seq<Scored>) -> bool {
    forall|y: u32| #[trigger] seen.contains(y) ==> kept_or_no_nearer(f, ef, kept, y)
}

/// `y` is kept, or as many as fit are kept and `y` is not nearer than the
/// farthest of them.
pub open spec fn kept_or_no_nearer(f: spec_fn(u32) -> u32, ef: nat, kept: Seq<Scored>, y: u32) -> bool {
    node_among(kept, y) || (kept.len() == ef && !f32_lt(f(y), kept.last().dist))
}

/// The same by the total order, as long as only entry points have joined.
spec fn ranked(f: spec_fn(u32) -> u32, ef: nat, seen: Seq<u32>, kept: Seq<Scored>) -> bool {
    forall|y: u32| #[trigger]
        seen.contains(y) ==> node_among(kept, y) || (kept.len() == ef && f32_total_key(f(y))
            >= f32_total_key(kept.last().dist))
}

/// The neighbors of every kept node that is no longer to be expanded are seen.
spec fn expanded(adj: Adjacency, level: int, b: Beam) -> bool {
    forall|x: u32, i: int|
        #![trigger list_at(adj, x, level)[i]]
        node_among(b.kept, x) && !node_among(b.cand, x) && 0 <= i < list_at(adj, x, level).len()
            ==> b.seen.contains(list_at(adj, x, level)[i])
}

/// A path leads from an entry point to every seen node.
spec fn traced(adj: Adjacency, level: int, entries: Seq<u32>, seen: Seq<u32>) -> bool {
    forall|y: u32| #[trigger] seen.contains(y) ==> traced_from(adj, level, entries, y)
}

/// A path leads from one of the entry points to `y`.
pub open spec fn traced_from(adj: Adjacency, level: int, entries: Seq<u32>, y: u32) -> bool {
    exists|e: u32| entries.contains(e) && #[trigger] leads_to(adj, level, e, y)
}

/// What joining does to the kept nodes: all stay while there is room; after
/// that the last by distance leaves, and the farthest does not recede.
proof fn lemma_keep(kept: Seq<Scored>, ef: nat, x: Scored)
    requires
        sorted(kept),
        kept.len() <= ef,
        ef > 0,
    ensures
        kept.len() < ef ==> keep_nearest(kept, ef, x).len() == kept.len() + 1,
        kept.len() == ef ==> keep_nearest(kept, ef, x).len() == ef && f32_total_key(
            keep_nearest(kept, ef, x).last().dist,
        ) <= f32_total_key(kept.last().dist),
        forall|c: Scored| #[trigger]
            keep_nearest(kept, ef, x).contains(c) ==> c == x || kept.contains(c),
        forall|c: Scored| #[trigger]
            kept.contains(c) ==> keep_nearest(kept, ef, x).contains(c) || (kept.len() == ef
                && f32_total_key(c.dist) >= f32_total_key(keep_nearest(kept, ef, x).last().dist)),
        keep_nearest(kept, ef, x).contains(x) || (kept.len() == ef && f32_total_key(x.dist)
            >= f32_total_key(keep_nearest(kept, ef, x).last().dist)),
{
    lemma_insert_sorted(kept, x);
    let t = insert_sorted(kept, x);
    let k = keep_nearest(kept, ef, x);
    let p = choose|p: int| 0 <= p <= kept.len() && t == #[trigger] kept.insert(p, x);
    if t.len() > ef {
        assert forall|c: Scored| #[trigger] k.contains(c) implies c == x || kept.contains(c) by {
            let i = choose|i: int| 0 <= i < k.len() && k[i] == c;
            assert(t[i] == c);
            assert(t.contains(c));
        }
        assert(!before(t[ef as int], t[ef - 1]));
        assert(k.last() == t[ef - 1]);
        assert forall|c: Scored| #[trigger] t.contains(c) implies k.contains(c) || f32_total_key(
            c.dist,
        ) >= f32_total_key(k.last().dist) by {
            let i = choose|i: int| 0 <= i < t.len() && t[i] == c;
            if i < ef {
                assert(k[i] == c);
            }
        }
        assert(t.contains(x));
        assert forall|c: Scored| #[trigger] kept.contains(c) implies k.contains(c) || f32_total_key(
            c.dist,
        ) >= f32_total_key(k.last().dist) by {
            assert(t.contains(c));
        }
        if p == ef {
            assert(k =~= kept);
        } else {
            assert(t[ef as int] == kept[ef - 1]);
        }
    }
}

proof fn lemma_among(s: Seq<Scored>, f: spec_fn(u32) -> u32, y: u32)
    requires
        forall|i: int| 0 <= i < s.len() ==> #[trigger] s[i] == scored_under(f, s[i].node),
    ensures
        node_among(s, y) <==> s.contains(scored_under(f, y)),
{
    if node_among(s, y) {
        let k = choose|k: int| 0 <= k < s.len() && (#[trigger] s[k]).node == y;
        assert(s[k] == scored_under(f, y));
    }
    if s.contains(scored_under(f, y)) {
        let k = choose|k: int| 0 <= k < s.len() && s[k] == scored_under(f, y);
        assert(s[k].node == y);
    }
}

proof fn lemma_pushed(seen: Seq<u32>, node: u32)
    ensures
        forall|y: u32| #[trigger] seen.push(node).contains(y) <==> seen.contains(y) || y == node,
{
    let s = seen.push(node);
    assert forall|y: u32| #[trigger] s.contains(y) <==> seen.contains(y) || y == node by {
        if seen.contains(y) {
            let i = choose|i: int| 0 <= i < seen.len() && seen[i] == y;
            assert(s[i] == y);
        }
        assert(s[seen.len() as int] == node);
        if s.contains(y) {
            let i = choose|i: int| 0 <= i < s.len() && s[i] == y;
            if i < seen.len() {
                assert(seen[i] == y);
            }
        }
    }
}

/// `y` is in the kept nodes after a join, or it had to leave a full beam and
/// does not come before the farthest.
spec fn outlasts(
    f: spec_fn(u32) -> u32,
    ef: nat,
    old_kept: Seq<Scored>,
    new_kept: Seq<Scored>,
    y: u32,
) -> bool {
    node_among(new_kept, y) || (old_kept.len() == ef && f32_total_key(f(y)) >= f32_total_key(
        new_kept.last().dist,
    ))
}

/// A node that joins is kept or no nearer than the farthest, whatever leaves
/// for it is no nearer than the farthest, and nothing else leaves.
proof fn lemma_joined(
    adj: Adjacency,
    level: int,
    f: spec_fn(u32) -> u32,
    ef: nat,
    b: Beam,
    node: u32,
)
    requires
        beam_ok(adj, level, f, ef, b),
        ef > 0,
        !b.seen.contains(node),
        reaches(adj, node, level),
    ensures
        beam_ok(adj, level, f, ef, take_in(b, ef, scored_under(f, node))),
        b.kept.len() < ef ==> take_in(b, ef, scored_under(f, node)).kept.len() == b.kept.len() + 1,
        b.kept.len() == ef ==> take_in(b, ef, scored_under(f, node)).kept.len() == ef
            && f32_total_key(take_in(b, ef, scored_under(f, node)).kept.last().dist)
            <= f32_total_key(b.kept.last().dist),
        forall|y: u32| #[trigger]
            node_among(take_in(b, ef, scored_under(f, node)).kept, y) ==> y == node || node_among(
                b.kept,
                y,
            ),
        forall|y: u32| #[trigger]
            node_among(b.kept, y) ==> outlasts(
                f,
                ef,
                b.kept,
                take_in(b, ef, scored_under(f, node)).kept,
                y,
            ),
        outlasts(f, ef, b.kept, take_in(b, ef, scored_under(f, node)).kept, node),
        forall|y: u32| #[trigger]
            node_among(take_in(b, ef, scored_under(f, node)).cand, y) <==> y == node || node_among(
                b.cand,
                y,
            ),
{
    let x = scored_under(f, node);
    let out = take_in(b, ef, x);
    lemma_take_in(adj, level, f, ef, b, node);
    lemma_keep(b.kept, ef, x);
    lemma_insert_sorted(b.cand, x);
    assert forall|y: u32| #[trigger] node_among(out.kept, y) implies y == node || node_among(
        b.kept,
        y,
    ) by {
        lemma_among(out.kept, f, y);
        lemma_among(b.kept, f, y);
    }
    assert forall|y: u32| #[trigger] node_among(b.kept, y) implies outlasts(
        f,
        ef,
        b.kept,
        out.kept,
        y,
    ) by {
        lemma_among(out.kept, f, y);
        lemma_among(b.kept, f, y);
        assert(b.kept.contains(scored_under(f, y)));
    }
    lemma_among(out.kept, f, node);
    assert(out.kept.contains(x) || (b.kept.len() == ef && f32_total_key(x.dist) >= f32_total_key(
        out.kept.last().dist,
    )));
    assert forall|y: u32| #[trigger] node_among(out.cand, y) <==> y == node || node_among(
        b.cand,
        y,
    ) by {
        lemma_among(out.cand, f, y);
        lemma_among(b.cand, f, y);
        assert(insert_sorted(b.cand, x).contains(scored_under(f, y)) <==> (scored_under(f, y) == x
            || b.cand.contains(scored_under(f, y))));
    }
}

/// What holds of the beam between two steps.
spec fn walk_ok(
    adj: Adjacency,
    level: int,
    f: spec_fn(u32) -> u32,
    ef: nat,
    entries: Seq<u32>,
    b: Beam,
) -> bool {
    &&& beam_ok(adj, level, f, ef, b)
    &&& settled(f, ef, b.seen, b.kept)
    &&& traced(adj, level, entries, b.seen)
}

proof fn lemma_entries_ranked(
    adj: Adjacency,
    level: int,
    f: spec_fn(u32) -> u32,
    ef: nat,
    entries: Seq<u32>,
)
    requires
        ef > 0,
        forall|i: int| 0 <= i < entries.len() ==> reaches(adj, #[trigger] entries[i], level),
    ensures
        beam_ok(adj, level, f, ef, offer_entries(f, ef, no_beam(), entries)),
        ranked(
            f,
            ef,
            offer_entries(f, ef, no_beam(), entries).seen,
            offer_entries(f, ef, no_beam(), entries).kept,
        ),
        forall|y: u32| #[trigger]
            offer_entries(f, ef, no_beam(), entries).seen.contains(y) <==> entries.contains(y),
        forall|y: u32|
            node_among(offer_entries(f, ef, no_beam(), entries).kept, y) ==> #[trigger] node_among(
                offer_entries(f, ef, no_beam(), entries).cand,
                y,
            ),
    decreases entries.len(),
{
    let out = offer_entries(f, ef, no_beam(), entries);
    lemma_offer_entries(adj, level, f, ef, no_beam(), entries);
    if entries.len() > 0 {
        let d = entries.drop_last();
        let last = entries.last();
        assert forall|i: int| 0 <= i < d.len() implies reaches(adj, #[trigger] d[i], level) by {
            assert(d[i] == entries[i]);
        }
        lemma_entries_ranked(adj, level, f, ef, d);
        let p = offer_entries(f, ef, no_beam(), d);
        assert(entries[entries.len() - 1] == last);
        assert(d.push(last) =~= entries);
        lemma_pushed(d, last);
        if !p.seen.contains(last) {
            lemma_joined(adj, level, f, ef, p, last);
            lemma_pushed(p.seen, last);
            assert forall|y: u32| #[trigger] out.seen.contains(y) implies node_among(out.kept, y) || (
            out.kept.len() == ef && f32_total_key(f(y)) >= f32_total_key(out.kept.last().dist)) by {
                if y != last {
                    assert(p.seen.contains(y));
                    if node_among(p.kept, y) {
                        assert(outlasts(f, ef, p.kept, out.kept, y));
                    }
                }
            }
            assert forall|y: u32| node_among(out.kept, y) implies #[trigger] node_among(
                out.cand,
                y,
            ) by {
                if y != last {
                    assert(node_among(p.kept, y));
                    assert(node_among(p.cand, y));
                }
            }
        }
    }
}

/// Nearer in number is nearer in the total order.
proof fn lemma_rank(a: u32, b: u32)
    requires
        f32_total_key(a) >= f32_total_key(b),
    ensures
        !f32_lt(a, b),
{
}

/// A node that was no nearer than the farthest stays so when the farthest is
/// replaced by one that does not come after it.
proof fn lemma_no_nearer(y: u32, x: u32, old_far: u32, new_far: u32)
    requires
        !f32_lt(y, old_far),
        f32_lt(x, old_far),
        f32_total_key(new_far) <= f32_total_key(old_far),
    ensures
        !f32_lt(y, new_far),
{
}

proof fn lemma_neighbors_settled(
    adj: Adjacency,
    level: int,
    f: spec_fn(u32) -> u32,
    ef: nat,
    b: Beam,
    nodes: Seq<u32>,
)
    requires
        ef > 0,
        beam_ok(adj, level, f, ef, b),
        settled(f, ef, b.seen, b.kept),
        forall|i: int| 0 <= i < nodes.len() ==> reaches(adj, #[trigger] nodes[i], level),
    ensures
        beam_ok(adj, level, f, ef, offer_neighbors(f, ef, b, nodes)),
        settled(
            f,
            ef,
            offer_neighbors(f, ef, b, nodes).seen,
            offer_neighbors(f, ef, b, nodes).kept,
        ),
        forall|y: u32| #[trigger]
            offer_neighbors(f, ef, b, nodes).seen.contains(y) <==> b.seen.contains(y)
                || nodes.contains(y),
        forall|y: u32| #[trigger]
            node_among(offer_neighbors(f, ef, b, nodes).kept, y) ==> node_among(b.kept, y)
                || node_among(offer_neighbors(f, ef, b, nodes).cand, y),
        forall|y: u32| #[trigger]
            node_among(b.cand, y) ==> node_among(offer_neighbors(f, ef, b, nodes).cand, y),
    decreases nodes.len(),
{
    if nodes.len() > 0 {
        let d = nodes.drop_last();
        let last = nodes.last();
        assert forall|i: int| 0 <= i < d.len() implies reaches(adj, #[trigger] d[i], level) by {
            assert(d[i] == nodes[i]);
        }
        lemma_neighbors_settled(adj, level, f, ef, b, d);
        lemma_offer_neighbors(adj, level, f, ef, b, nodes);
        let p = offer_neighbors(f, ef, b, d);
        let out = offer_neighbors(f, ef, b, nodes);
        assert(reaches(adj, nodes[nodes.len() - 1], level));
        assert(d.push(last) =~= nodes);
        lemma_pushed(d, last);
        if !p.seen.contains(last) {
            lemma_pushed(p.seen, last);
            if p.kept.len() < ef || f32_lt(f(last), farthest(p.kept)) {
                lemma_joined(adj, level, f, ef, p, last);
                assert forall|y: u32| #[trigger] out.seen.contains(y) implies kept_or_no_nearer(
                    f,
                    ef,
                    out.kept,
                    y,
                ) by {
                    if y == last || node_among(p.kept, y) {
                        assert(outlasts(f, ef, p.kept, out.kept, y));
                        if !node_among(out.kept, y) {
                            lemma_rank(f(y), out.kept.last().dist);
                        }
                    } else {
                        assert(p.seen.contains(y));
                        lemma_no_nearer(
                            f(y),
                            f(last),
                            p.kept.last().dist,
                            out.kept.last().dist,
                        );
                    }
                }
                assert forall|y: u32| #[trigger] node_among(out.kept, y) implies node_among(
                    b.kept,
                    y,
                ) || node_among(out.cand, y) by {
                    if y != last {
                        assert(node_among(p.kept, y));
                        if node_among(p.cand, y) {
                            assert(node_among(out.cand, y));
                        }
                    } else {
                        assert(node_among(out.cand, y));
                    }
                }
            } else {
                assert forall|y: u32| #[trigger] out.seen.contains(y) implies kept_or_no_nearer(
                    f,
                    ef,
                    out.kept,
                    y,
                ) by {
                    if y != last {
                        assert(p.seen.contains(y));
                    }
                }
            }
        }
    }
}

/// With one more edge, a path leads to a neighbor of where it led.
proof fn lemma_one_more(adj: Adjacency, level: int, entries: Seq<u32>, x: u32, y: u32)
    requires
        traced_from(adj, level, entries, x),
        list_at(adj, x, level).contains(y),
    ensures
        traced_from(adj, level, entries, y),
{
    let e = choose|e: u32| entries.contains(e) && #[trigger] leads_to(adj, level, e, x);
    let path = choose|path: Seq<u32>|
        #[trigger] is_path(adj, level, path) && path[0] == e && path[path.len() - 1] == x;
    let longer = path.push(y);
    assert(is_path(adj, level, longer)) by {
        assert forall|i: int|
            #![trigger longer[i]]
            0 < i < longer.len() implies list_at(adj, longer[i - 1], level).contains(
            longer[i],
        ) by {
            if i < path.len() {
                assert(longer[i] == path[i] && longer[i - 1] == path[i - 1]);
            }
        }
    }
    assert(longer[0] == e && longer[longer.len() - 1] == y);
    assert(leads_to(adj, level, e, y));
}

/// `r` is what a beam with these entry points may end with.
pub open spec fn beam_end(
    adj: Adjacency,
    level: int,
    f: spec_fn(u32) -> u32,
    ef: nat,
    entries: Seq<u32>,
    r: Seq<Scored>,
) -> bool {
    &&& forall|i: int|
        0 <= i < entries.len() ==> kept_or_no_nearer(f, ef, r, #[trigger] entries[i])
    &&& forall|x: u32, i: int|
        node_among(r, x) && 0 <= i < list_at(adj, x, level).len() ==> kept_or_no_nearer(
            f,
            ef,
            r,
            #[trigger] list_at(adj, x, level)[i],
        )
    &&& forall|x: u32| #[trigger] node_among(r, x) ==> traced_from(adj, level, entries, x)
}

proof fn lemma_run_settles(
    adj: Adjacency,
    level: int,
    f: spec_fn(u32) -> u32,
    ef: nat,
    entries: Seq<u32>,
    b: Beam,
    steps: nat,
)
    requires
        edges_ok(adj),
        ef > 0,
        walk_ok(adj, level, f, ef, entries, b),
        expanded(adj, level, b),
        forall|i: int| 0 <= i < entries.len() ==> b.seen.contains(#[trigger] entries[i]),
        b.cand.len() + adj.len() - b.seen.len() <= steps,
    ensures
        beam_end(adj, level, f, ef, entries, beam_run(adj, level, f, ef, b, steps)),
    decreases steps,
{
    lemma_seen_bound(adj, level, b.seen);
    if steps == 0 || beam_over(b, ef) {
        let r = b.kept;
        assert forall|x: u32, i: int|
            node_among(r, x) && 0 <= i < list_at(adj, x, level).len() implies kept_or_no_nearer(
            f,
            ef,
            r,
            #[trigger] list_at(adj, x, level)[i],
        ) by {
            if node_among(b.cand, x) {
                let k = choose|k: int| 0 <= k < r.len() && (#[trigger] r[k]).node == x;
                let c = choose|c: int| 0 <= c < b.cand.len() && (#[trigger] b.cand[c]).node == x;
                assert(r[k] == scored_under(f, x) && b.cand[c] == scored_under(f, x));
                if c > 0 {
                    assert(before(b.cand[0], b.cand[c]));
                }
                if k < r.len() - 1 {
                    assert(before(r[k], r[r.len() - 1]));
                }
                assert(false);
            }
            assert(b.seen.contains(list_at(adj, x, level)[i]));
        }
        assert forall|x: u32| #[trigger] node_among(r, x) implies traced_from(
            adj,
            level,
            entries,
            x,
        ) by {
            let k = choose|k: int| 0 <= k < r.len() && (#[trigger] r[k]).node == x;
            assert(b.seen.contains(r[k].node));
        }
    } else {
        lemma_pop(adj, level, f, ef, b);
        let x0 = b.cand[0].node;
        lemma_edges_at(adj, x0, level);
        let popped = Beam { cand: b.cand.drop_first(), ..b };
        let list = list_at(adj, x0, level);
        lemma_neighbors_settled(adj, level, f, ef, popped, list);
        lemma_offer_neighbors(adj, level, f, ef, popped, list);
        let next = beam_step(adj, level, f, ef, b);
        assert(b.seen.contains(x0));
        assert forall|y: u32| #[trigger] next.seen.contains(y) implies traced_from(
            adj,
            level,
            entries,
            y,
        ) by {
            if !b.seen.contains(y) {
                lemma_one_more(adj, level, entries, x0, y);
            }
        }
        assert(expanded(adj, level, next)) by {
            assert forall|x: u32, i: int|
                #![trigger list_at(adj, x, level)[i]]
                node_among(next.kept, x) && !node_among(next.cand, x) && 0 <= i < list_at(
                    adj,
                    x,
                    level,
                ).len() implies next.seen.contains(list_at(adj, x, level)[i]) by {
                assert(node_among(b.kept, x));
                assert(!node_among(popped.cand, x));
                if x == x0 {
                    assert(list.contains(list[i]));
                } else {
                    if node_among(b.cand, x) {
                        let c = choose|c: int|
                            0 <= c < b.cand.len() && (#[trigger] b.cand[c]).node == x;
                        assert(popped.cand[c - 1].node == x);
                    }
                    assert(b.seen.contains(list_at(adj, x, level)[i]));
                }
            }
        }
        assert forall|i: int| 0 <= i < entries.len() implies next.seen.contains(
            #[trigger] entries[i],
        ) by {
            assert(b.seen.contains(entries[i]));
        }
        lemma_run_settles(adj, level, f, ef, entries, next, (steps - 1) as nat);
    }
}

/// A beam ends where it can gain no more: each entry point and each neighbor
/// of a node it keeps is kept too, or the beam is full and that node is not
/// nearer than its farthest. And it keeps only what a path leads to from an
/// entry point.
pub proof fn law_beam_is_settled(
    adj: Adjacency,
    level: int,
    f: spec_fn(u32) -> u32,
    entries: Seq<u32>,
    ef: nat,
)
    requires
        edges_ok(adj),
        forall|i: int| 0 <= i < entries.len() ==> reaches(adj, #[trigger] entries[i], level),
        ef > 0,
    ensures
        beam_end(adj, level, f, ef, entries, beam_search(adj, level, f, entries, ef)),
{
    let b = offer_entries(f, ef, no_beam(), entries);
    lemma_entries_ranked(adj, level, f, ef, entries);
    lemma_offer_entries(adj, level, f, ef, no_beam(), entries);
    assert forall|y: u32| #[trigger] b.seen.contains(y) implies kept_or_no_nearer(f, ef, b.kept, y) by {
        if !node_among(b.kept, y) {
            lemma_rank(f(y), b.kept.last().dist);
        }
    }
    assert forall|y: u32| #[trigger] b.seen.contains(y) implies traced_from(adj, level, entries, y) by {
        let path = seq![y];
        assert(is_path(adj, level, path));
        assert(path[0] == y && path[path.len() - 1] == y);
        assert(leads_to(adj, level, y, y));
    }
    assert forall|i: int| 0 <= i < entries.len() implies b.seen.contains(#[trigger] entries[i]) by {
        assert(entries.contains(entries[i]));
    }
    assert(expanded(adj, level, b)) by {
        assert forall|x: u32, i: int|
            #![trigger list_at(adj, x, level)[i]]
            node_among(b.kept, x) && !node_among(b.cand, x) && 0 <= i < list_at(
                adj,
                x,
                level,
            ).len() implies b.seen.contains(list_at(adj, x, level)[i]) by {
            assert(node_among(b.cand, x));
        }
    }
    lemma_run_settles(adj, level, f, ef, entries, b, adj.len());
}

proof fn lemma_path_kept(
    adj: Adjacency,
    level: int,
    f: spec_fn(u32) -> u32,
    ef: nat,
    entries: Seq<u32>,
    r: Seq<Scored>,
    path: Seq<u32>,
    i: int,
)
    requires
        beam_end(adj, level, f, ef, entries, r),
        r.len() < ef,
        is_path(adj, level, path),
        entries.contains(path[0]),
        0 <= i < path.len(),
    ensures
        node_among(r, path[i]),
    decreases i,
{
    if i == 0 {
        let k = choose|k: int| 0 <= k < entries.len() && entries[k] == path[0];
        assert(kept_or_no_nearer(f, ef, r, entries[k]));
    } else {
        lemma_path_kept(adj, level, f, ef, entries, r, path, i - 1);
        let list = list_at(adj, path[i - 1], level);
        assert(list.contains(path[i]));
        let k = choose|k: int| 0 <= k < list.len() && list[k] == path[i];
        assert(kept_or_no_nearer(f, ef, r, list[k]));
    }
}

/// A beam comes back with fewer nodes than it has room for only where there
/// are no more: it then keeps exactly the nodes that a path leads to from an
/// entry point.
pub proof fn law_short_beam_holds_all_it_can_reach(
    adj: Adjacency,
    level: int,
    f: spec_fn(u32) -> u32,
    entries: Seq<u32>,
    ef: nat,
    to: u32,
)
    requires
        edges_ok(adj),
        forall|i: int| 0 <= i < entries.len() ==> reaches(adj, #[trigger] entries[i], level),
        beam_search(adj, level, f, entries, ef).len() < ef,
    ensures
        node_among(beam_search(adj, level, f, entries, ef), to) <==> traced_from(
            adj,
            level,
            entries,
            to,
        ),
{
    law_beam_is_settled(adj, level, f, entries, ef);
    let r = beam_search(adj, level, f, entries, ef);
    if traced_from(adj, level, entries, to) {
        let e = choose|e: u32| entries.contains(e) && #[trigger] leads_to(adj, level, e, to);
        let path = choose|path: Seq<u32>|
            #[trigger] is_path(adj, level, path) && path[0] == e && path[path.len() - 1] == to;
        lemma_path_kept(adj, level, f, ef, entries, r, path, path.len() - 1);
    }
}

/// Where paths lead from the entry points to `some` different nodes, a beam
/// keeps at least as many of them as it has room for.
pub proof fn law_beam_fills_up(
    adj: Adjacency,
    level: int,
    f: spec_fn(u32) -> u32,
    entries: Seq<u32>,
    ef: nat,
    some: Seq<u32>,
)
    requires
        edges_ok(adj),
        forall|i: int| 0 <= i < entries.len() ==> reaches(adj, #[trigger] entries[i], level),
        some.no_duplicates(),
        forall|i: int|
            0 <= i < some.len() ==> traced_from(adj, level, entries, #[trigger] some[i]),
    ensures
        beam_search(adj, level, f, entries, ef).len() == ef || beam_search(
            adj,
            level,
            f,
            entries,
            ef,
        ).len() >= some.len(),
{
    let r = beam_search(adj, level, f, entries, ef);
    law_beam_result(adj, level, f, entries, ef);
    if r.len() < ef {
        let ids = nodes_of(r);
        assert forall|i: int| 0 <= i < some.len() implies ids.contains(#[trigger] some[i]) by {
            law_short_beam_holds_all_it_can_reach(adj, level, f, entries, ef, some[i]);
            let k = choose|k: int| 0 <= k < r.len() && (#[trigger] r[k]).node == some[i];
            assert(ids[k] == some[i]);
        }
        some.unique_seq_to_set();
        assert(some.to_set().subset_of(ids.to_set())) by {
            assert forall|x: u32| some.to_set().contains(x) implies ids.to_set().contains(x) by {
                let i = choose|i: int| 0 <= i < some.len() && some[i] == x;
                assert(ids.contains(some[i]));
            }
        }
        vstd::seq_lib::seq_to_set_is_finite(ids);
        vstd::set_lib::lemma_len_subset(some.to_set(), ids.to_set());
        ids.lemma_cardinality_of_set();
    }
}

// ---------------- descent ----------------

/// The nearest improving place of a list is where the walk goes: nothing is
/// nearer, and nothing before it is as near.
pub open spec fn first_nearest_place(f: spec_fn(u32) -> u32, list: Seq<u32>, from: u32, i: int) -> bool {
    &&& 0 <= i < list.len()
    &&& f32_lt(f(list[i]), f(from))
    &&& forall|j: int| 0 <= j < list.len() ==> !f32_lt(f(#[trigger] list[j]), f(list[i]))
    &&& forall|j: int|
        0 <= j < i ==> f32_lt(f(list[i]), f(#[trigger] list[j])) || f32_nan(f(list[j]))
}

proof fn lemma_nearest_place(f: spec_fn(u32) -> u32, list: Seq<u32>, from: u32, i: int, n: int)
    requires
        first_nearest_place(f, list, from, i),
        0 <= n <= list.len(),
    ensures
        n > i ==> nearest_of(f, list.subrange(0, n), scored_under(f, from)) == scored_under(
            f,
            list[i],
        ),
        n <= i ==> f32_lt(
            f(list[i]),
            nearest_of(f, list.subrange(0, n), scored_under(f, from)).dist,
        ),
    decreases n,
{
    let t = list.subrange(0, n);
    if n > 0 {
        lemma_nearest_place(f, list, from, i, n - 1);
        assert(t.drop_last() =~= list.subrange(0, n - 1));
        assert(t.last() == list[n - 1]);
    }
}

/// The walk at a level goes from a node to its nearest neighbor, the first in
/// the list of equally near ones, as long as that is nearer, and on from there.
pub proof fn law_greedy_moves_to_the_nearest(
    adj: Adjacency,
    level: int,
    f: spec_fn(u32) -> u32,
    node: u32,
    i: int,
)
    requires
        first_nearest_place(f, list_at(adj, node, level), node, i),
    ensures
        greedy_end(adj, level, f, node) == greedy_end(
            adj,
            level,
            f,
            list_at(adj, node, level)[i],
        ),
{
    let list = list_at(adj, node, level);
    lemma_nearest_place(f, list, node, i, list.len() as int);
    assert(list.subrange(0, list.len() as int) =~= list);
}

proof fn lemma_none_nearer(f: spec_fn(u32) -> u32, list: Seq<u32>, from: Scored)
    requires
        forall|j: int| 0 <= j < list.len() ==> !f32_lt(f(#[trigger] list[j]), from.dist),
    ensures
        nearest_of(f, list, from) == from,
    decreases list.len(),
{
    if list.len() > 0 {
        let d = list.drop_last();
        assert forall|j: int| 0 <= j < d.len() implies !f32_lt(f(#[trigger] d[j]), from.dist) by {
            assert(d[j] == list[j]);
        }
        lemma_none_nearer(f, d, from);
        assert(list[list.len() - 1] == list.last());
    }
}

/// The walk stays on a node that no neighbor is nearer than.
pub proof fn law_greedy_stays_at_a_local_minimum(
    adj: Adjacency,
    level: int,
    f: spec_fn(u32) -> u32,
    node: u32,
)
    requires
        forall|j: int|
            0 <= j < list_at(adj, node, level).len() ==> !f32_lt(
                f(#[trigger] list_at(adj, node, level)[j]),
                f(node),
            ),
    ensures
        greedy_end(adj, level, f, node) == node,
{
    lemma_none_nearer(f, list_at(adj, node, level), scored_under(f, node));
}

proof fn lemma_nearest_is_listed(f: spec_fn(u32) -> u32, list: Seq<u32>, from: Scored)
    ensures
        nearest_of(f, list, from) == from || list.contains(nearest_of(f, list, from).node),
    decreases list.len(),
{
    if list.len() > 0 {
        let d = list.drop_last();
        lemma_nearest_is_listed(f, d, from);
        let r = nearest_of(f, list, from);
        if d.contains(r.node) {
            let i = choose|i: int| 0 <= i < d.len() && d[i] == r.node;
            assert(list[i] == r.node);
        }
        assert(list[list.len() - 1] == list.last());
    }
}

pub proof fn lemma_downhill_path(adj: Adjacency, level: int, f: spec_fn(u32) -> u32, at: Scored, from: u32)
    requires
        leads_to(adj, level, from, at.node),
    ensures
        leads_to(adj, level, from, downhill(adj, level, f, at)),
    decreases (f32_key(at.dist) + 0x8000_0000) as nat,
{
    let list = list_at(adj, at.node, level);
    let next = nearest_of(f, list, at);
    lemma_nearest_is_listed(f, list, at);
    if f32_lt(next.dist, at.dist) {
        let entries = seq![from];
        assert(entries[0] == from);
        assert(entries.contains(from));
        assert(traced_from(adj, level, entries, at.node));
        lemma_one_more(adj, level, entries, at.node, next.node);
        let e = choose|e: u32|
            entries.contains(e) && #[trigger] leads_to(adj, level, e, next.node);
        assert(e == from);
        lemma_downhill_path(adj, level, f, next, from);
    }
}

/// A stop of the descent: `b` is where the walk at `level` from `a` ends. A
/// path leads there, it is no farther, and no neighbor is nearer.
pub open spec fn next_stop(adj: Adjacency, level: int, f: spec_fn(u32) -> u32, a: u32, b: u32) -> bool {
    &&& b == greedy_end(adj, level, f, a)
    &&& leads_to(adj, level, a, b)
    &&& !f32_lt(f(a), f(b))
    &&& forall|i: int|
        0 <= i < list_at(adj, b, level).len() ==> !f32_lt(
            f(#[trigger] list_at(adj, b, level)[i]),
            f(b),
        )
}

/// One stop for each level from `from` down to `to + 1`, the first reached
/// from `node` and the last being `end`.
pub open spec fn stops_at(
    adj: Adjacency,
    f: spec_fn(u32) -> u32,
    node: u32,
    from: int,
    to: int,
    end: u32,
    stops: Seq<u32>,
) -> bool {
    &&& stops.len() == from - to + 1
    &&& stops[0] == node
    &&& stops[from - to] == end
    &&& forall|i: int|
        #![trigger stops[i]]
        0 < i <= from - to ==> next_stop(adj, from - i + 1, f, stops[i - 1], stops[i])
}

/// The descent stops once at every level above `to`, each time where no
/// neighbor of that level is nearer, and leaves none out.
pub proof fn law_descent_settles_every_level(
    adj: Adjacency,
    f: spec_fn(u32) -> u32,
    node: u32,
    from: int,
    to: int,
)
    requires
        edges_ok(adj),
        reaches(adj, node, from),
        0 <= to <= from,
    ensures
        exists|stops: Seq<u32>| #[trigger]
            stops_at(adj, f, node, from, to, descend(adj, f, node, from, to), stops),
    decreases from - to,
{
    let end = descend(adj, f, node, from, to);
    if from == to {
        assert(stops_at(adj, f, node, from, to, end, seq![node]));
    } else {
        let g = greedy_end(adj, from, f, node);
        law_greedy_ends_at_local_minimum(adj, from, f, node);
        let path = seq![node];
        assert(is_path(adj, from, path));
        assert(path[0] == node && path[path.len() - 1] == node);
        assert(leads_to(adj, from, node, node));
        lemma_downhill_path(adj, from, f, scored_under(f, node), node);
        assert(next_stop(adj, from, f, node, g));
        law_descent_settles_every_level(adj, f, g, from - 1, to);
        let rest = choose|rest: Seq<u32>| #[trigger]
            stops_at(adj, f, g, from - 1, to, descend(adj, f, g, from - 1, to), rest);
        let stops = seq![node] + rest;
        assert forall|i: int|
            #![trigger stops[i]]
            0 < i <= from - to implies next_stop(adj, from - i + 1, f, stops[i - 1], stops[i]) by {
            assert(stops[i] == rest[i - 1]);
            if i > 1 {
                assert(stops[i - 1] == rest[i - 2]);
                assert(next_stop(adj, (from - 1) - (i - 1) + 1, f, rest[i - 2], rest[i - 1]));
            }
        }
        assert(stops[from - to] == rest[from - 1 - to]);
        assert(stops_at(adj, f, node, from, to, end, stops));
    }
}

// ---------------- search ----------------

/// Where the descent of a search ends and its beam on level 0 starts.
pub open spec fn landing(g: GraphModel, f: spec_fn(u32) -> u32) -> u32 {
    descend(g.adj, f, g.entry, g.levels[g.entry as int] as int, 0)
}

proof fn lemma_landing(g: GraphModel, f: spec_fn(u32) -> u32)
    requires
        g.wf(),
        g.adj.len() > 0,
    ensures
        edges_ok(g.adj),
        reaches(g.adj, landing(g, f), 0),
{
    let top = g.levels[g.entry as int] as int;
    assert(g.adj[g.entry as int].len() == top + 1);
    lemma_descend(g.adj, f, g.entry, top, 0);
}

/// A search hands out exactly the `k` nearest of what the beam of width
/// `max(k, ef)` keeps on level 0, or all of it where that is fewer: none that
/// is left out is nearer than one that is handed out.
pub proof fn law_search_gives_the_nearest_of_its_beam(
    g: GraphModel,
    f: spec_fn(u32) -> u32,
    k: nat,
    ef: nat,
    width: nat,
)
    requires
        g.wf(),
        g.adj.len() > 0,
        k > 0,
        width == k || width == ef,
        width >= k,
        width >= ef,
    ensures
        ({
            let kept = beam_search(g.adj, 0, f, seq![landing(g, f)], width);
            let r = search_hits(g, f, k, ef);
            &&& kept.len() >= k ==> r.len() == k
            &&& kept.len() <= k ==> r.len() == kept.len()
            &&& forall|i: int| 0 <= i < r.len() ==> #[trigger] r[i] == kept[i]
            &&& forall|i: int, j: int|
                0 <= i < r.len() <= j < kept.len() ==> before(#[trigger] r[i], #[trigger] kept[j])
                    && !f32_lt(kept[j].dist, r[i].dist)
        }),
{
    lemma_landing(g, f);
    let entries = seq![landing(g, f)];
    law_beam_result(g.adj, 0, f, entries, width);
    let kept = beam_search(g.adj, 0, f, entries, width);
    let r = search_hits(g, f, k, ef);
    assert forall|i: int, j: int| 0 <= i < r.len() <= j < kept.len() implies before(
        #[trigger] r[i],
        #[trigger] kept[j],
    ) && !f32_lt(kept[j].dist, r[i].dist) by {
        assert(r[i] == kept[i]);
        assert(before(kept[i], kept[j]));
        lemma_rank(kept[j].dist, kept[i].dist);
    }
}

/// A search gives exactly `k` hits wherever `k` different nodes can be reached
/// on level 0 from where its beam starts, however narrow the beam.
pub proof fn law_search_gives_k_where_k_are_reached(
    g: GraphModel,
    f: spec_fn(u32) -> u32,
    k: nat,
    ef: nat,
    some: Seq<u32>,
)
    requires
        g.wf(),
        g.adj.len() > 0,
        some.no_duplicates(),
        some.len() >= k,
        forall|i: int|
            0 <= i < some.len() ==> leads_to(g.adj, 0, landing(g, f), #[trigger] some[i]),
    ensures
        search_hits(g, f, k, ef).len() == k,
{
    if k > 0 {
        lemma_landing(g, f);
        let entries = seq![landing(g, f)];
        let width = if ef >= k {
            ef
        } else {
            k
        };
        assert(entries[0] == landing(g, f));
        assert(entries.contains(landing(g, f)));
        assert forall|i: int| 0 <= i < some.len() implies traced_from(
            g.adj,
            0,
            entries,
            #[trigger] some[i],
        ) by {
            assert(leads_to(g.adj, 0, landing(g, f), some[i]));
        }
        law_beam_fills_up(g.adj, 0, f, entries, width, some);
        law_search_gives_the_nearest_of_its_beam(g, f, k, ef, width);
    }
}

/// Where paths on level 0 lead from every node to every other, a search gives
/// exactly `k` hits, or all nodes where there are fewer, for every beam.
pub proof fn law_connected_search_gives_k(g: GraphModel, f: spec_fn(u32) -> u32, k: nat, ef: nat)
    requires
        g.wf(),
        g.adj.len() <= u32::MAX,
        crate::reach::strongly_connected(g.adj, 0),
    ensures
        k <= g.adj.len() ==> search_hits(g, f, k, ef).len() == k,
        k >= g.adj.len() ==> search_hits(g, f, k, ef).len() == g.adj.len(),
{
    let n = g.adj.len();
    if n > 0 && k > 0 {
        lemma_landing(g, f);
        let all = Seq::new(n, |i: int| i as u32);
        assert(all.no_duplicates()) by {
            assert forall|i: int, j: int|
                0 <= i < all.len() && 0 <= j < all.len() && i != j implies all[i] != all[j] by {
                assert(all[i] == i as u32 && all[j] == j as u32);
            }
        }
        assert forall|i: int| 0 <= i < all.len() implies leads_to(
            g.adj,
            0,
            landing(g, f),
            #[trigger] all[i],
        ) by {
            assert(all[i] == i as u32);
        }
        if k <= n {
            law_search_gives_k_where_k_are_reached(g, f, k, ef, all);
        } else {
            let entries = seq![landing(g, f)];
            assert(entries[0] == landing(g, f));
            assert(entries.contains(landing(g, f)));
            let width = if ef >= k {
                ef
            } else {
                k
            };
            assert forall|i: int| 0 <= i < all.len() implies traced_from(
                g.adj,
                0,
                entries,
                #[trigger] all[i],
            ) by {
                assert(leads_to(g.adj, 0, landing(g, f), all[i]));
            }
            law_beam_fills_up(g.adj, 0, f, entries, width, all);
            law_search_gives_the_nearest_of_its_beam(g, f, k, ef, width);
            crate::graph::law_search_result(g, f, k, ef);
        }
    }
}

/// Asking the same beam for fewer gives the first of the same hits.
pub proof fn law_search_for_fewer_is_a_prefix(
    g: GraphModel,
    f: spec_fn(u32) -> u32,
    few: nat,
    many: nat,
    ef: nat,
)
    requires
        g.wf(),
        few <= many <= ef,
    ensures
        search_hits(g, f, few, ef).len() <= search_hits(g, f, many, ef).len(),
        forall|i: int|
            0 <= i < search_hits(g, f, few, ef).len() ==> #[trigger] search_hits(g, f, few, ef)[i]
                == search_hits(g, f, many, ef)[i],
        search_hits(g, f, few, ef).len() < few ==> search_hits(g, f, few, ef) == search_hits(
            g,
            f,
            many,
            ef,
        ),
{
    if g.adj.len() > 0 && few > 0 {
        law_search_gives_the_nearest_of_its_beam(g, f, few, ef, ef);
        law_search_gives_the_nearest_of_its_beam(g, f, many, ef, ef);
        if search_hits(g, f, few, ef).len() < few {
            assert(search_hits(g, f, few, ef) =~= search_hits(g, f, many, ef));
        }
    }
}

/// Where every distance is a number, the first hit is no farther than where
/// the beam started, and none of its neighbors on level 0 is nearer.
pub proof fn law_first_hit_is_a_local_minimum(g: GraphModel, f: spec_fn(u32) -> u32, k: nat, ef: nat)
    requires
        g.wf(),
        g.adj.len() > 0,
        k > 0,
        forall|x: u32| x < g.adj.len() ==> !f32_nan(#[trigger] f(x)),
    ensures
        search_hits(g, f, k, ef).len() > 0,
        !f32_lt(f(landing(g, f)), f(search_hits(g, f, k, ef)[0].node)),
        forall|i: int|
            0 <= i < list_at(g.adj, search_hits(g, f, k, ef)[0].node, 0).len() ==> !f32_lt(
                f(#[trigger] list_at(g.adj, search_hits(g, f, k, ef)[0].node, 0)[i]),
                f(search_hits(g, f, k, ef)[0].node),
            ),
{
    lemma_landing(g, f);
    let entries = seq![landing(g, f)];
    let width = if ef >= k {
        ef
    } else {
        k
    };
    let kept = beam_search(g.adj, 0, f, entries, width);
    let r = search_hits(g, f, k, ef);
    crate::graph::law_search_result(g, f, k, ef);
    law_search_gives_the_nearest_of_its_beam(g, f, k, ef, width);
    law_beam_result(g.adj, 0, f, entries, width);
    law_beam_is_settled(g.adj, 0, f, entries, width);
    assert(r[0] == kept[0]);
    assert(kept[0] == scored_under(f, kept[0].node));
    assert(kept[kept.len() - 1] == scored_under(f, kept.last().node));
    assert(node_among(kept, kept[0].node));
    assert(kept_or_no_nearer(f, width, kept, entries[0]));
    lemma_first_is_nearest(f, width, kept, landing(g, f));
    let list = list_at(g.adj, r[0].node, 0);
    assert forall|i: int| 0 <= i < list.len() implies !f32_lt(
        f(#[trigger] list[i]),
        f(r[0].node),
    ) by {
        assert(kept_or_no_nearer(f, width, kept, list[i]));
        lemma_first_is_nearest(f, width, kept, list[i]);
    }
}

proof fn lemma_first_is_nearest(f: spec_fn(u32) -> u32, ef: nat, kept: Seq<Scored>, y: u32)
    requires
        kept.len() > 0,
        strictly_ascending(kept),
        forall|i: int| 0 <= i < kept.len() ==> #[trigger] kept[i] == scored_under(f, kept[i].node),
        kept_or_no_nearer(f, ef, kept, y),
        !f32_nan(kept.last().dist),
    ensures
        !f32_lt(f(y), kept[0].dist),
{
    if node_among(kept, y) {
        let i = choose|i: int| 0 <= i < kept.len() && (#[trigger] kept[i]).node == y;
        assert(kept[i].dist == f(y));
        if i > 0 {
            assert(before(kept[0], kept[i]));
        }
        lemma_rank(f(y), kept[0].dist);
    } else if kept.len() > 1 {
        let far = kept[kept.len() - 1].dist;
        assert(before(kept[0], kept[kept.len() - 1]));
        if f32_lt(f(y), kept[0].dist) {
            lemma_rank(far, kept[0].dist);
            assert(f32_key(kept[0].dist) <= f32_key(far));
        }
    }
}

/// A full beam is left as it is by neighbors that are no nearer than its
/// farthest, ties too: they are only marked as seen.
pub proof fn law_no_nearer_neighbors_leave_a_full_beam(
    f: spec_fn(u32) -> u32,
    ef: nat,
    b: Beam,
    nodes: Seq<u32>,
)
    requires
        0 < ef == b.kept.len(),
        forall|i: int| 0 <= i < nodes.len() ==> !f32_lt(f(#[trigger] nodes[i]), b.kept.last().dist),
    ensures
        offer_neighbors(f, ef, b, nodes).kept == b.kept,
        offer_neighbors(f, ef, b, nodes).cand == b.cand,
        forall|y: u32|
            #[trigger] offer_neighbors(f, ef, b, nodes).seen.contains(y) <==> b.seen.contains(y)
                || nodes.contains(y),
    decreases nodes.len(),
{
    if nodes.len() > 0 {
        let rest = nodes.drop_last();
        let x = nodes.last();
        assert forall|i: int| 0 <= i < rest.len() implies !f32_lt(
            f(#[trigger] rest[i]),
            b.kept.last().dist,
        ) by {
            assert(rest[i] == nodes[i]);
        }
        law_no_nearer_neighbors_leave_a_full_beam(f, ef, b, rest);
        let p = offer_neighbors(f, ef, b, rest);
        let out = offer_neighbors(f, ef, b, nodes);
        assert(nodes[nodes.len() - 1] == x);
        assert forall|y: u32| #[trigger]
            out.seen.contains(y) <==> b.seen.contains(y) || nodes.contains(y) by {
            assert(nodes =~= rest.push(x));
            assert(p.seen.contains(y) <==> b.seen.contains(y) || rest.contains(y));
            if rest.contains(y) {
                let i = choose|i: int| 0 <= i < rest.len() && rest[i] == y;
                assert(nodes[i] == y);
            }
            if nodes.contains(y) && y != x {
                let i = choose|i: int| 0 <= i < nodes.len() && nodes[i] == y;
                assert(rest[i] == y);
            }
            if !p.seen.contains(x) {
                assert(out.seen == p.seen.push(x));
                assert(p.seen.push(x).last() == x);
                assert(p.seen.push(x)[p.seen.len() as int] == x);
                if p.seen.contains(y) {
                    let i = choose|i: int| 0 <= i < p.seen.len() && p.seen[i] == y;
                    assert(p.seen.push(x)[i] == y);
                }
                if out.seen.contains(y) && y != x {
                    let i = choose|i: int| 0 <= i < out.seen.len() && out.seen[i] == y;
                    assert(p.seen[i] == y);
                }
            }
        }
    }
}

/// A neighbor that is nearer than the farthest joins a full beam and takes the
/// farthest's place; one that was seen before changes nothing.
pub proof fn law_nearer_neighbor_joins_a_full_beam(
    f: spec_fn(u32) -> u32,
    ef: nat,
    b: Beam,
    y: u32,
)
    requires
        0 < ef == b.kept.len(),
        sorted(b.kept),
        sorted(b.cand),
    ensures
        b.seen.contains(y) ==> offer_neighbors(f, ef, b, seq![y]) == b,
        !b.seen.contains(y) && f32_lt(f(y), b.kept.last().dist) ==> {
            let out = offer_neighbors(f, ef, b, seq![y]);
            &&& out.kept.len() == ef
            &&& node_among(out.kept, y)
            &&& out.kept.to_multiset() == b.kept.drop_last().to_multiset().insert(
                Scored { dist: f(y), node: y },
            )
            &&& out.cand.to_multiset() == b.cand.to_multiset().insert(
                Scored { dist: f(y), node: y },
            )
        },
{
    let none = Seq::<u32>::empty();
    assert(seq![y].drop_last() =~= none);
    assert(seq![y].last() == y);
    assert(offer_neighbors(f, ef, b, none) == b);
    let x = scored_under(f, y);
    if !b.seen.contains(y) && f32_lt(f(y), b.kept.last().dist) {
        let rest = b.kept.drop_last();
        let last = b.kept.last();
        crate::float_bits::law_total_order_refines_less(f(y), last.dist);
        assert(before(x, last));
        let k = insert_sorted(b.kept, x);
        assert(k == insert_sorted(rest, x).push(last));
        assert(k.drop_last() =~= insert_sorted(rest, x));
        lemma_insert_sorted(rest, x);
        lemma_insert_sorted(b.cand, x);
        assert(insert_sorted(rest, x).contains(x));
        let i = choose|i: int|
            0 <= i < insert_sorted(rest, x).len() && insert_sorted(rest, x)[i] == x;
        assert(insert_sorted(rest, x)[i].node == y);
    }
}

/// A full beam is over where its nearest candidate is farther than its
/// farthest: nothing behind such a candidate is looked at, whatever the graph.
pub proof fn law_full_beam_stops_at_a_farther_candidate(
    adj: Adjacency,
    level: int,
    f: spec_fn(u32) -> u32,
    ef: nat,
    b: Beam,
    steps: nat,
)
    requires
        0 < ef == b.kept.len(),
        b.cand.len() > 0,
        f32_lt(b.kept.last().dist, b.cand[0].dist),
    ensures
        beam_run(adj, level, f, ef, b, steps) == b.kept,
{
}

/// A beam that is not full, or whose nearest candidate is no farther than its
/// farthest, goes on: the candidate's neighbors are offered to what is left.
pub proof fn law_beam_goes_on_from_its_nearest_candidate(
    adj: Adjacency,
    level: int,
    f: spec_fn(u32) -> u32,
    ef: nat,
    b: Beam,
    steps: nat,
)
    requires
        b.cand.len() > 0,
        steps > 0,
        b.kept.len() < ef || (b.kept.len() > 0 && !f32_lt(b.kept.last().dist, b.cand[0].dist)),
    ensures
        beam_run(adj, level, f, ef, b, steps) == beam_run(
            adj,
            level,
            f,
            ef,
            offer_neighbors(
                f,
                ef,
                Beam { seen: b.seen, cand: b.cand.drop_first(), kept: b.kept },
                list_at(adj, b.cand[0].node, level),
            ),
            (steps - 1) as nat,
        ),
{
}

} // verus!
