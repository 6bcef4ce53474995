//! The graph as a self-describing byte section.
//!
//! ```text
//! magic u64 | n u64 | m u32 | m0 u32 | ef_construction u32 | entry u32
//! top level of each node                       n x u32
//! level-0 lists at a fixed stride              n x max(m0, 1) x u32
//! number of upper lists                        u64
//! upper lists: node u32, level u32, len u32, ids
//! ```
//!
//! Unused slots of the level-0 lists hold a sentinel.
use vstd::prelude::*;

use crate::graph::{
    adjacency_of, built, extended, heights_ok, law_build_is_well_formed, law_extend_is_well_formed,
    law_prune_base_layer, pruned, towers_ok, GraphModel, Hnsw, MAX_LEVEL,
};
use crate::link::{cap_at, empty_towers, list_ok, lists_ok, set_list, HnswParams};
use crate::walk::{reaches, Adjacency};
use crate::wire::{
    field, le_bytes, lemma_field_of_bytes, lemma_le_bytes_len, lemma_le_value_bound,
    lemma_pow256_values, lemma_prefix_field, lemma_word_at, lemma_word_bytes_concat, lemma_word_bytes_len,
    lemma_words_read_back, put_le, put_u32, put_u64, put_words, word_bytes, words, Cursor,
};

verus! {

/// The bytes `INFHNSW1`, read as a little-endian number.
pub const HNSW_GRAPH_MAGIC: u64 = 0x3157_534E_4846_4E49;

/// Fills unused level-0 slots. Node ids stay below it.
pub const ADJ_SENTINEL: u32 = u32::MAX;

/// `list` filled up to `stride` slots, or cut to it.
pub open spec fn padded(list: Seq<u32>, stride: nat) -> Seq<u32> {
    Seq::new(
        stride,
        |i: int|
            if i < list.len() {
                list[i]
            } else {
                ADJ_SENTINEL
            },
    )
}

/// The level-0 slots of the first `v` nodes.
pub open spec fn base_words(adj: Adjacency, stride: nat, v: int) -> Seq<u32>
    decreases v,
{
    if v <= 0 {
        Seq::empty()
    } else {
        base_words(adj, stride, v - 1) + padded(adj[v - 1][0], stride)
    }
}

/// One upper list with its place in front.
pub open spec fn record(adj: Adjacency, v: int, l: int) -> Seq<u32> {
    seq![v as u32, l as u32, adj[v][l].len() as u32] + adj[v][l]
}

/// The upper lists from level `l` of node `v` on.
pub open spec fn upper_words(adj: Adjacency, v: int, l: int) -> Seq<u32>
    decreases adj.len() - v, (if 0 <= v < adj.len() { adj[v].len() - l } else { 0 }),
{
    if v < 0 || v >= adj.len() {
        Seq::empty()
    } else if l >= adj[v].len() {
        upper_words(adj, v + 1, 1)
    } else {
        record(adj, v, l) + upper_words(adj, v, l + 1)
    }
}

/// How many upper lists there are from level `l` of node `v` on.
pub open spec fn upper_count(adj: Adjacency, v: int, l: int) -> nat
    decreases adj.len() - v, (if 0 <= v < adj.len() { adj[v].len() - l } else { 0 }),
{
    if v < 0 || v >= adj.len() {
        0
    } else if l >= adj[v].len() {
        upper_count(adj, v + 1, 1)
    } else {
        1 + upper_count(adj, v, l + 1)
    }
}

pub open spec fn stride_of(m0: nat) -> nat {
    if m0 == 0 {
        1
    } else {
        m0
    }
}

/// The stored form of a graph.
pub open spec fn graph_bytes(g: GraphModel) -> Seq<u8> {
    le_bytes(HNSW_GRAPH_MAGIC as nat, 8) + le_bytes(g.adj.len(), 8) + le_bytes(g.m, 4) + le_bytes(
        g.m0,
        4,
    ) + le_bytes(g.ef_construction, 4) + le_bytes(g.entry as nat, 4) + word_bytes(g.levels)
        + word_bytes(base_words(g.adj, stride_of(g.m0), g.adj.len() as int)) + le_bytes(
        upper_count(g.adj, 0, 1),
        8,
    ) + word_bytes(upper_words(g.adj, 0, 1))
}

/// The ids among the slots.
pub open spec fn real_ids(s: Seq<u32>) -> Seq<u32>
    decreases s.len(),
{
    if s.len() == 0 {
        Seq::empty()
    } else if s.last() == ADJ_SENTINEL {
        real_ids(s.drop_last())
    } else {
        real_ids(s.drop_last()).push(s.last())
    }
}

/// The level-0 slots of node `v`.
pub open spec fn base_row(b: Seq<u8>, n: int, m0: int, v: int) -> Seq<u32> {
    words(b, 32 + 4 * n + 4 * (v * m0), m0)
}

/// Every slot holds the sentinel or an id below `n`.
pub open spec fn slots_ok(s: Seq<u32>, n: int) -> bool {
    forall|i: int| 0 <= i < s.len() ==> #[trigger] s[i] == ADJ_SENTINEL || s[i] < n
}

/// Towers of the given heights with only their level-0 lists filled in.
pub open spec fn base_towers(b: Seq<u8>, levels: Seq<u32>, m0: int) -> Adjacency {
    Seq::new(
        levels.len(),
        |v: int|
            Seq::new(
                (levels[v] + 1) as nat,
                |l: int|
                    if l == 0 {
                        real_ids(base_row(b, levels.len() as int, m0, v))
                    } else {
                        Seq::empty()
                    },
            ),
    )
}

/// Every id is a node whose tower reaches the level.
pub open spec fn ids_reach(levels: Seq<u32>, ids: Seq<u32>, level: int) -> bool {
    forall|i: int|
        0 <= i < ids.len() ==> #[trigger] ids[i] < levels.len() && level <= levels[ids[i] as int]
}

/// The towers after the next `count` upper lists are read from `pos`; `None`
/// where one is cut short, has no place, or leads to a node that does not
/// reach its level.
pub open spec fn read_upper(
    b: Seq<u8>,
    pos: int,
    count: nat,
    levels: Seq<u32>,
    adj: Adjacency,
) -> Option<Adjacency>
    decreases count,
{
    if count == 0 {
        Some(adj)
    } else if pos + 12 > b.len() {
        None
    } else {
        let node = field(b, pos, 4) as u32;
        let level = field(b, pos + 4, 4) as int;
        let len = field(b, pos + 8, 4) as int;
        if node >= levels.len() || level > levels[node as int] || 4 * len > b.len() - (pos + 12) {
            None
        } else {
            let ids = words(b, pos + 12, len);
            if !ids_reach(levels, ids, level) {
                None
            } else {
                read_upper(
                    b,
                    pos + 12 + 4 * len,
                    (count - 1) as nat,
                    levels,
                    set_list(adj, node, level, ids),
                )
            }
        }
    }
}

/// The graph that `b` stores: `None` on a wrong magic, a truncation, no nodes,
/// a stride of 0, an entry point or an id out of range, or a tower that is too
/// tall. Bytes behind the last list are not looked at.
pub open spec fn parse_graph(b: Seq<u8>) -> Option<GraphModel> {
    if b.len() < 32 || field(b, 0, 8) != HNSW_GRAPH_MAGIC {
        None
    } else {
        let n = field(b, 8, 8) as int;
        let m = field(b, 16, 4);
        let m0 = field(b, 20, 4) as int;
        let ef_construction = field(b, 24, 4);
        let entry = field(b, 28, 4);
        let levels = words(b, 32, n);
        let upper = 32 + 4 * n + 4 * (n * m0);
        if n == 0 || entry >= n || m0 == 0 || upper + 8 > b.len() {
            None
        } else if !heights_ok(levels) || !(forall|v: int|
            0 <= v < n ==> slots_ok(#[trigger] base_row(b, n, m0, v), n)) {
            None
        } else {
            match read_upper(b, upper + 8, field(b, upper, 8), levels, base_towers(b, levels, m0)) {
                None => None,
                Some(adj) => Some(
                    GraphModel {
                        adj,
                        levels,
                        entry: entry as u32,
                        m,
                        m0: m0 as nat,
                        ef_construction,
                    },
                ),
            }
        }
    }
}

proof fn lemma_upper_count_bound(adj: Adjacency, v: int, l: int)
    requires
        0 <= v <= adj.len(),
        1 <= l,
        forall|w: int| 0 <= w < adj.len() ==> (#[trigger] adj[w]).len() <= 64,
    ensures
        upper_count(adj, v, l) <= 64 * (adj.len() - v),
        v < adj.len() && l <= adj[v].len() ==> upper_count(adj, v, l) <= adj[v].len() - l + 64 * (
        adj.len() - v - 1),
    decreases adj.len() - v, (if 0 <= v < adj.len() { adj[v].len() - l } else { 0 }),
{
    if v < adj.len() {
        if l >= adj[v].len() {
            lemma_upper_count_bound(adj, v + 1, 1);
        } else {
            lemma_upper_count_bound(adj, v, l + 1);
        }
    }
}

proof fn lemma_base_words_len(adj: Adjacency, stride: nat, v: int)
    requires
        0 <= v,
    ensures
        base_words(adj, stride, v).len() == v * stride,
    decreases v,
{
    if v > 0 {
        lemma_base_words_len(adj, stride, v - 1);
        assert((v - 1) * stride + stride == v * stride) by (nonlinear_arith);
    } else {
        assert(0 * stride == 0);
    }
}

impl Hnsw {
    /// Serialize the graph.
    pub fn to_bytes(&self) -> (r: Vec<u8>)
        requires
            self@.wf(),
            self@.len() <= u32::MAX,
        ensures
            r@ == graph_bytes(self@),
    {
        let ghost g = self@;
        let ghost adj = g.adj;
        let n: usize = self.len();
        let m0: usize = self.base_degree();
        let stride: usize = if m0 == 0 {
            1
        } else {
            m0
        };
        let mut out: Vec<u8> = Vec::new();
        put_u64(&mut out, HNSW_GRAPH_MAGIC);
        put_u64(&mut out, n as u64);
        put_le(&mut out, self.upper_degree() as u128, 4);
        put_le(&mut out, m0 as u128, 4);
        put_le(&mut out, self.construction_beam() as u128, 4);
        put_u32(&mut out, self.entry_point());
        let ghost head = out@;
        proof {
            assert(head =~= le_bytes(HNSW_GRAPH_MAGIC as nat, 8) + le_bytes(adj.len(), 8)
                + le_bytes(g.m, 4) + le_bytes(g.m0, 4) + le_bytes(g.ef_construction, 4) + le_bytes(
                g.entry as nat,
                4,
            ));
            assert(g.levels.subrange(0, 0) =~= Seq::<u32>::empty());
            assert(head + word_bytes(g.levels.subrange(0, 0)) =~= head);
        }
        let mut v: usize = 0;
        while v < n
            invariant
                v <= n,
                n == g.adj.len(),
                g == self@,
                g.wf(),
                out@ == head + word_bytes(g.levels.subrange(0, v as int)),
            decreases n - v,
        {
            put_u32(&mut out, self.level_of(v));
            v = v + 1;
            proof {
                let t = g.levels.subrange(0, v as int);
                assert(t.drop_last() =~= g.levels.subrange(0, v - 1));
                assert(out@ =~= head + word_bytes(t));
            }
        }
        let ghost mid = out@;
        proof {
            assert(g.levels.subrange(0, v as int) =~= g.levels);
            assert(mid + word_bytes(base_words(adj, stride as nat, 0)) =~= mid);
        }
        v = 0;
        while v < n
            invariant
                v <= n,
                n == adj.len(),
                g == self@,
                adj == g.adj,
                g.wf(),
                out@ == mid + word_bytes(base_words(adj, stride as nat, v as int)),
            decreases n - v,
        {
            assert(adj[v as int].len() > 0);
            let l0: &Vec<u32> = self.neighbors_at(v, 0);
            let ghost row = padded(adj[v as int][0], stride as nat);
            let ghost start = out@;
            proof {
                assert(row.subrange(0, 0) =~= Seq::<u32>::empty());
                assert(start + word_bytes(row.subrange(0, 0)) =~= start);
            }
            let mut slot: usize = 0;
            while slot < stride
                invariant
                    slot <= stride,
                    v < n,
                    l0@ == adj[v as int][0],
                    row == padded(adj[v as int][0], stride as nat),
                    out@ == start + word_bytes(row.subrange(0, slot as int)),
                decreases stride - slot,
            {
                let id: u32 = if slot < l0.len() {
                    l0[slot]
                } else {
                    ADJ_SENTINEL
                };
                put_u32(&mut out, id);
                slot = slot + 1;
                proof {
                    let t = row.subrange(0, slot as int);
                    assert(t.drop_last() =~= row.subrange(0, slot - 1));
                    assert(t.last() == id);
                    assert(out@ =~= start + word_bytes(t));
                }
            }
            v = v + 1;
            proof {
                assert(row.subrange(0, slot as int) =~= row);
                lemma_word_bytes_concat(base_words(adj, stride as nat, v - 1), row);
                assert(out@ =~= mid + word_bytes(base_words(adj, stride as nat, v as int)));
            }
        }
        let ghost low = out@;
        let mut upper: Vec<u8> = Vec::new();
        let mut records: u64 = 0;
        let ghost total = upper_count(adj, 0, 1);
        let ghost all = word_bytes(upper_words(adj, 0, 1));
        proof {
            assert forall|w: int| 0 <= w < adj.len() implies (#[trigger] adj[w]).len() <= 64 by {}
            lemma_upper_count_bound(adj, 0, 1);
            assert(upper@ + all =~= all);
        }
        v = 0;
        while v < n
            invariant
                v <= n,
                n == adj.len(),
                adj.len() <= u32::MAX,
                g == self@,
                adj == g.adj,
                g.wf(),
                total <= 64 * adj.len(),
                records + upper_count(adj, v as int, 1) == total,
                upper@ + word_bytes(upper_words(adj, v as int, 1)) == all,
            decreases n - v,
        {
            let levels: usize = self.tower_len(v);
            assert(adj[v as int].len() > 0);
            let mut l: usize = 1;
            while l < levels
                invariant
                    v < n,
                    1 <= l <= levels,
                    levels == adj[v as int].len(),
                    levels <= 64,
                    n == adj.len(),
                    adj.len() <= u32::MAX,
                    g == self@,
                    adj == g.adj,
                    total <= 64 * adj.len(),
                    records + upper_count(adj, v as int, l as int) == total,
                    upper@ + word_bytes(upper_words(adj, v as int, l as int)) == all,
                decreases levels - l,
            {
                let list: &Vec<u32> = self.neighbors_at(v, l);
                let ghost before = upper@;
                put_u32(&mut upper, v as u32);
                put_u32(&mut upper, l as u32);
                put_u32(&mut upper, list.len() as u32);
                put_words(&mut upper, list);
                proof {
                    let head3 = seq![v as u32, l as u32, list@.len() as u32];
                    let rec = record(adj, v as int, l as int);
                    lemma_word_bytes_concat(head3, list@);
                    lemma_three_words(v as u32, l as u32, list@.len() as u32);
                    assert(upper@ =~= before + word_bytes(rec));
                    let rest = upper_words(adj, v as int, l + 1);
                    lemma_word_bytes_concat(rec, rest);
                    assert(upper@ + word_bytes(rest) =~= before + word_bytes(rec + rest));
                }
                records = records + 1;
                l = l + 1;
            }
            v = v + 1;
        }
        put_u64(&mut out, records);
        let ghost counted = out@;
        out.append(&mut upper);
        proof {
            assert(word_bytes(upper_words(adj, n as int, 1)) =~= Seq::<u8>::empty());
            assert(out@ =~= graph_bytes(g));
        }
        out
    }

    /// Read a graph back. `None` where the bytes do not hold one.
    #[verifier::rlimit(40)]
    pub fn from_bytes(bytes: &[u8]) -> (r: Option<Hnsw>)
        ensures
            match r {
                Some(g) => parse_graph(bytes@) == Some(g@) && g@.wf(),
                None => parse_graph(bytes@) is None,
            },
    {
        let ghost b = bytes@;
        proof {
            lemma_pow256_values();
        }
        if bytes.len() < 32 {
            return None;
        }
        let mut c = Cursor::new(bytes);
        let magic: u64 = match c.u64() {
            Some(x) => x,
            None => {
                return None;
            },
        };
        let n64: u64 = match c.u64() {
            Some(x) => x,
            None => {
                return None;
            },
        };
        let m: u32 = match c.u32() {
            Some(x) => x,
            None => {
                return None;
            },
        };
        let m0: u32 = match c.u32() {
            Some(x) => x,
            None => {
                return None;
            },
        };
        let efc: u32 = match c.u32() {
            Some(x) => x,
            None => {
                return None;
            },
        };
        let entry: u32 = match c.u32() {
            Some(x) => x,
            None => {
                return None;
            },
        };
        if magic != HNSW_GRAPH_MAGIC || n64 == 0 || entry as u64 >= n64 || m0 == 0 {
            return None;
        }
        let ghost upper_at = 32 + 4 * n64 + 4 * (n64 * m0);
        let product: u128 = mul_wide(n64, m0);
        if 32 + 4 * (n64 as u128) + 4 * product + 8 > bytes.len() as u128 {
            return None;
        }
        proof {
            assert(n64 * m0 >= 0) by (nonlinear_arith);
        }
        let n: usize = n64 as usize;
        let stride: usize = m0 as usize;
        let levels: Vec<u32> = match c.words(n) {
            Some(x) => x,
            None => {
                return None;
            },
        };
        if !heights_fit(&levels) {
            return None;
        }
        let mut neighbors = Hnsw::towers(&levels);
        let ghost want = base_towers(b, levels@, m0 as int);
        let mut v: usize = 0;
        proof {
            assert(0 * m0 == 0);
            let empty = adjacency_of(neighbors@);
            assert(neighbors@.len() == empty.len());
            assert forall|w: int| 0 <= w < n implies (#[trigger] neighbors@[w])@.len() == levels@[w]
                + 1 && forall|l: int|
                1 <= l < neighbors@[w]@.len() ==> (#[trigger] neighbors@[w]@[l])@ == Seq::<
                    u32,
                >::empty() by {
                assert(empty[w] == empty_towers(levels@)[w]);
                assert(neighbors@[w]@.len() == empty[w].len());
                assert forall|l: int| 1 <= l < neighbors@[w]@.len() implies (
                #[trigger] neighbors@[w]@[l])@ == Seq::<u32>::empty() by {
                    assert(neighbors@[w]@[l]@ == empty[w][l]);
                }
            }
        }
        while v < n
            invariant
                v <= n,
                n == n64,
                stride == m0,
                b == bytes@,
                field(b, 8, 8) == n,
                field(b, 20, 4) == m0,
                c.wf(),
                c.bytes() == b,
                c.at() == 32 + 4 * n + 4 * (v * stride),
                32 + 4 * n + 4 * (n * stride) + 8 <= b.len(),
                levels@ == words(b, 32, n as int),
                levels@.len() == n,
                heights_ok(levels@),
                want == base_towers(b, levels@, m0 as int),
                neighbors@.len() == n,
                forall|w: int|
                    0 <= w < n ==> (#[trigger] neighbors@[w])@.len() == levels@[w] + 1 && forall|
                        l: int,
                    |
                        1 <= l < neighbors@[w]@.len() ==> (#[trigger] neighbors@[w]@[l])@ == Seq::<
                            u32,
                        >::empty(),
                forall|w: int| 0 <= w < v ==> (#[trigger] neighbors@[w])@[0]@ == want[w][0],
                forall|w: int|
                    0 <= w < v ==> slots_ok(#[trigger] base_row(b, n as int, stride as int, w), n as int),
            decreases n - v,
        {
            proof {
                assert((v + 1) * stride == v * stride + stride) by (nonlinear_arith);
                assert((v + 1) * stride <= n * stride) by (nonlinear_arith)
                    requires
                        v + 1 <= n,
                ;
            }
            let row: Vec<u32> = match c.words(stride) {
                Some(x) => x,
                None => {
                    return None;
                },
            };
            assert(row@ == base_row(b, n as int, stride as int, v as int));
            match keep_ids(&row, n) {
                Some(list) => {
                    let ghost nb0 = neighbors@;
                    neighbors[v][0] = list;
                    proof {
                        assert forall|w: int| 0 <= w < n implies (
                        #[trigger] neighbors@[w])@.len() == levels@[w] + 1 && forall|l: int|
                            1 <= l < neighbors@[w]@.len() ==> (#[trigger] neighbors@[w]@[l])@
                                == Seq::<u32>::empty() by {
                            if w != v {
                                assert(neighbors@[w] == nb0[w]);
                            }
                            assert forall|l: int| 1 <= l < neighbors@[w]@.len() implies (
                            #[trigger] neighbors@[w]@[l])@ == Seq::<u32>::empty() by {
                                assert(neighbors@[w]@[l] == nb0[w]@[l]);
                            }
                        }
                        assert forall|w: int| 0 <= w < v + 1 implies (
                        #[trigger] neighbors@[w])@[0]@ == want[w][0] by {
                            if w != v {
                                assert(neighbors@[w] == nb0[w]);
                            }
                        }
                    }
                },
                None => {
                    proof {
                        assert(!slots_ok(base_row(b, n as int, stride as int, v as int), n as int));
                    }
                    return None;
                },
            }
            v = v + 1;
        }
        proof {
            let adj = adjacency_of(neighbors@);
            assert forall|w: int| 0 <= w < adj.len() implies adj[w] == #[trigger] want[w] by {
                assert(adj[w] =~= want[w]) by {
                    assert forall|l: int| 0 <= l < adj[w].len() implies adj[w][l] == #[trigger] want[w][l] by {
                        if l == 0 {
                            assert(neighbors@[w]@[0]@ == want[w][0]);
                        } else {
                            assert(neighbors@[w]@[l]@ =~= Seq::<u32>::empty());
                        }
                    }
                }
            }
            assert(adj =~= want);
            lemma_base_towers_ok(b, levels@, m0 as int);
        }
        let records: u64 = match c.u64() {
            Some(x) => x,
            None => {
                return None;
            },
        };
        let filled = read_upper_lists(&mut c, records, &levels, neighbors);
        match filled {
            Some(nb) => Some(
                Hnsw::from_parts(nb, levels, entry, m as usize, stride, efc as usize),
            ),
            None => None,
        }
    }
}

proof fn lemma_three_words(a: u32, b: u32, c: u32)
    ensures
        word_bytes(seq![a, b, c]) == le_bytes(a as nat, 4) + le_bytes(b as nat, 4) + le_bytes(
            c as nat,
            4,
        ),
{
    reveal_with_fuel(word_bytes, 4);
    let s = seq![a, b, c];
    assert(s.drop_last() =~= seq![a, b]);
    assert(seq![a, b].drop_last() =~= seq![a]);
    assert(seq![a].drop_last() =~= Seq::<u32>::empty());
    assert(word_bytes(s) =~= le_bytes(a as nat, 4) + le_bytes(b as nat, 4) + le_bytes(c as nat, 4));
}

/// The exact product.
fn mul_wide(a: u64, b: u32) -> (r: u128)
    ensures
        r == a * b,
        r <= 0xffff_ffff_ffff_ffff * 0xffff_ffff,
{
    proof {
        assert(0 <= a * b <= 0xffff_ffff_ffff_ffff * 0xffff_ffff) by (nonlinear_arith)
            requires
                0 <= a <= 0xffff_ffff_ffff_ffff,
                0 <= b <= 0xffff_ffff,
        ;
    }
    (a as u128) * (b as u128)
}

/// Whether no tower is taller than the cap.
fn heights_fit(levels: &Vec<u32>) -> (r: bool)
    ensures
        r == heights_ok(levels@),
{
    let mut i: usize = 0;
    while i < levels.len()
        invariant
            i <= levels.len(),
            forall|j: int| 0 <= j < i ==> #[trigger] levels@[j] <= MAX_LEVEL,
        decreases levels.len() - i,
    {
        if levels[i] > MAX_LEVEL {
            assert(!(levels@[i as int] <= MAX_LEVEL));
            return false;
        }
        i = i + 1;
    }
    true
}

/// The ids among the slots; `None` where one is out of range.
fn keep_ids(row: &Vec<u32>, n: usize) -> (r: Option<Vec<u32>>)
    ensures
        match r {
            Some(list) => slots_ok(row@, n as int) && list@ == real_ids(row@),
            None => !slots_ok(row@, n as int),
        },
{
    let mut list: Vec<u32> = Vec::new();
    let mut i: usize = 0;
    proof {
        assert(row@.subrange(0, 0) =~= Seq::<u32>::empty());
    }
    while i < row.len()
        invariant
            i <= row.len(),
            list@ == real_ids(row@.subrange(0, i as int)),
            forall|j: int| 0 <= j < i ==> #[trigger] row@[j] == ADJ_SENTINEL || row@[j] < n,
        decreases row.len() - i,
    {
        let id: u32 = row[i];
        proof {
            let t = row@.subrange(0, i + 1);
            assert(t.drop_last() =~= row@.subrange(0, i as int));
            assert(t.last() == id);
        }
        if id != ADJ_SENTINEL {
            if id as usize >= n {
                assert(!(row@[i as int] == ADJ_SENTINEL || row@[i as int] < n));
                return None;
            }
            list.push(id);
        }
        i = i + 1;
    }
    proof {
        assert(row@.subrange(0, i as int) =~= row@);
    }
    Some(list)
}

/// Whether every id is a node whose tower reaches `level`.
fn ids_fit(levels: &Vec<u32>, ids: &Vec<u32>, level: u32) -> (r: bool)
    ensures
        r == ids_reach(levels@, ids@, level as int),
{
    let mut i: usize = 0;
    while i < ids.len()
        invariant
            i <= ids.len(),
            forall|j: int|
                0 <= j < i ==> #[trigger] ids@[j] < levels@.len() && level <= levels@[ids@[j] as int],
        decreases ids.len() - i,
    {
        let id: u32 = ids[i];
        if id as usize >= levels.len() || levels[id as usize] < level {
            assert(!(ids@[i as int] < levels@.len() && level <= levels@[ids@[i as int] as int]));
            return false;
        }
        i = i + 1;
    }
    true
}

/// Read `records` upper lists into the towers.
#[verifier::rlimit(40)]
fn read_upper_lists(
    c: &mut Cursor,
    records: u64,
    levels: &Vec<u32>,
    towers: Vec<Vec<Vec<u32>>>,
) -> (r: Option<Vec<Vec<Vec<u32>>>>)
    requires
        old(c).wf(),
        towers_ok(adjacency_of(towers@), levels@),
    ensures
        match r {
            Some(nb) => read_upper(
                old(c).bytes(),
                old(c).at(),
                records as nat,
                levels@,
                adjacency_of(towers@),
            ) == Some(adjacency_of(nb@)) && towers_ok(adjacency_of(nb@), levels@),
            None => read_upper(
                old(c).bytes(),
                old(c).at(),
                records as nat,
                levels@,
                adjacency_of(towers@),
            ) is None,
        },
{
    let ghost b = c.bytes();
    let ghost all = read_upper(b, c.at(), records as nat, levels@, adjacency_of(towers@));
    let mut nb = towers;
    let mut left: u64 = records;
    while left > 0
        invariant
            c.wf(),
            c.bytes() == b,
            b == old(c).bytes(),
            all == read_upper(
                old(c).bytes(),
                old(c).at(),
                records as nat,
                levels@,
                adjacency_of(towers@),
            ),
            towers_ok(adjacency_of(nb@), levels@),
            read_upper(b, c.at(), left as nat, levels@, adjacency_of(nb@)) == all,
        decreases left,
    {
        let ghost adj = adjacency_of(nb@);
        proof {
            lemma_pow256_values();
            if c.at() + 12 <= b.len() {
                lemma_le_value_bound(b.subrange(c.at(), c.at() + 4));
                lemma_le_value_bound(b.subrange(c.at() + 8, c.at() + 12));
            }
        }
        if c.remaining() < 12 {
            return None;
        }
        let node: u32 = match c.u32() {
            Some(x) => x,
            None => {
                return None;
            },
        };
        let level: u32 = match c.u32() {
            Some(x) => x,
            None => {
                return None;
            },
        };
        let len: u32 = match c.u32() {
            Some(x) => x,
            None => {
                return None;
            },
        };
        if node as usize >= levels.len() || level > levels[node as usize] {
            return None;
        }
        let ids: Vec<u32> = match c.words(len as usize) {
            Some(x) => x,
            None => {
                return None;
            },
        };
        if !ids_fit(levels, &ids, level) {
            return None;
        }
        let ghost list = ids@;
        assert(adj[node as int].len() == levels@[node as int] + 1);
        nb[node as usize][level as usize] = ids;
        proof {
            assert(adjacency_of(nb@) =~= set_list(adj, node, level as int, list)) by {
                assert(adjacency_of(nb@)[node as int] =~= adj[node as int].update(
                    level as int,
                    list,
                ));
            }
            lemma_set_list_ok(adj, levels@, node, level as int, list);
        }
        left = left - 1;
    }
    Some(nb)
}

proof fn lemma_set_list_ok(adj: Adjacency, levels: Seq<u32>, node: u32, level: int, list: Seq<u32>)
    requires
        towers_ok(adj, levels),
        node < adj.len(),
        0 <= level <= levels[node as int],
        ids_reach(levels, list, level),
    ensures
        towers_ok(set_list(adj, node, level, list), levels),
{
    let out = set_list(adj, node, level, list);
    assert(adj[node as int].len() == levels[node as int] + 1);
    assert forall|v: int| 0 <= v < out.len() implies (#[trigger] out[v]).len() == levels[v] + 1
        && levels[v] <= MAX_LEVEL by {
        assert(adj[v].len() == levels[v] + 1);
    }
    assert forall|v: int, l: int, i: int|
        0 <= v < out.len() && 0 <= l < out[v].len() && 0 <= i < out[v][l].len() implies reaches(
        out,
        #[trigger] out[v][l][i],
        l,
    ) by {
        if v == node && l == level {
            assert(out[v][l] == list);
            assert(list[i] < levels.len() && level <= levels[list[i] as int]);
            assert(adj[list[i] as int].len() == levels[list[i] as int] + 1);
        } else {
            assert(out[v][l] == adj[v][l]);
            assert(reaches(adj, adj[v][l][i], l));
        }
    }
}

proof fn lemma_real_ids(s: Seq<u32>, n: int)
    requires
        slots_ok(s, n),
    ensures
        forall|i: int| 0 <= i < real_ids(s).len() ==> #[trigger] real_ids(s)[i] < n,
    decreases s.len(),
{
    if s.len() > 0 {
        let d = s.drop_last();
        assert forall|i: int| 0 <= i < d.len() implies #[trigger] d[i] == ADJ_SENTINEL || d[i] < n by {
            assert(d[i] == s[i]);
        }
        lemma_real_ids(d, n);
        assert(s[s.len() - 1] == ADJ_SENTINEL || s[s.len() - 1] < n);
        assert forall|i: int| 0 <= i < real_ids(s).len() implies #[trigger] real_ids(s)[i] < n by {
            if i < real_ids(d).len() {
                assert(real_ids(s)[i] == real_ids(d)[i]);
            }
        }
    }
}

proof fn lemma_base_towers_ok(b: Seq<u8>, levels: Seq<u32>, m0: int)
    requires
        heights_ok(levels),
        forall|v: int|
            0 <= v < levels.len() ==> slots_ok(
                #[trigger] base_row(b, levels.len() as int, m0, v),
                levels.len() as int,
            ),
    ensures
        towers_ok(base_towers(b, levels, m0), levels),
{
    let adj = base_towers(b, levels, m0);
    let n = levels.len() as int;
    assert forall|v: int| 0 <= v < adj.len() implies (#[trigger] adj[v]).len() == levels[v] + 1
        && levels[v] <= MAX_LEVEL by {
        assert(levels[v] <= MAX_LEVEL);
    }
    assert forall|v: int, l: int, i: int|
        0 <= v < adj.len() && 0 <= l < adj[v].len() && 0 <= i < adj[v][l].len() implies reaches(
        adj,
        #[trigger] adj[v][l][i],
        l,
    ) by {
        if l == 0 {
            lemma_real_ids(base_row(b, n, m0, v), n);
            let id = real_ids(base_row(b, n, m0, v))[i];
            assert(id < n);
            assert(adj[id as int].len() > 0);
        }
    }
}

// ---------------- reading back what was written ----------------

proof fn lemma_base_words_at(adj: Adjacency, stride: nat, n: int, v: int, i: int)
    requires
        0 <= v < n,
        0 <= i < stride,
    ensures
        0 <= v * stride + i < base_words(adj, stride, n).len(),
        base_words(adj, stride, n)[v * stride + i] == padded(adj[v][0], stride)[i],
    decreases n,
{
    lemma_base_words_len(adj, stride, n);
    lemma_base_words_len(adj, stride, n - 1);
    assert(0 <= v * stride) by (nonlinear_arith)
        requires
            0 <= v,
    ;
    assert(n * stride == (n - 1) * stride + stride) by (nonlinear_arith);
    if v == n - 1 {
    } else {
        lemma_base_words_at(adj, stride, n - 1, v, i);
    }
}

proof fn lemma_real_ids_of_padded(list: Seq<u32>, stride: nat)
    requires
        forall|i: int| 0 <= i < list.len() ==> #[trigger] list[i] < ADJ_SENTINEL,
    ensures
        real_ids(padded(list, stride)) == list.subrange(
            0,
            if stride <= list.len() {
                stride as int
            } else {
                list.len() as int
            },
        ),
    decreases stride,
{
    let s = padded(list, stride);
    if stride == 0 {
        assert(list.subrange(0, 0) =~= Seq::<u32>::empty());
    } else {
        let d = (stride - 1) as nat;
        lemma_real_ids_of_padded(list, d);
        assert(s.drop_last() =~= padded(list, d));
        if stride <= list.len() {
            assert(s.last() == list[d as int]);
            assert(list.subrange(0, stride as int) =~= list.subrange(0, d as int).push(
                list[d as int],
            ));
        }
    }
}

/// The towers with only level 0 and the upper lists before level `l` of node
/// `v` filled in.
spec fn filled_to(adj: Adjacency, v: int, l: int) -> Adjacency {
    Seq::new(
        adj.len(),
        |w: int|
            Seq::new(
                adj[w].len(),
                |q: int|
                    if q == 0 || w < v || (w == v && q < l) {
                        adj[w][q]
                    } else {
                        Seq::empty()
                    },
            ),
    )
}

#[verifier::rlimit(60)]
proof fn lemma_read_upper(b: Seq<u8>, pos: int, adj: Adjacency, levels: Seq<u32>, v: int, l: int)
    requires
        towers_ok(adj, levels),
        adj.len() <= u32::MAX,
        forall|w: int, q: int|
            0 <= w < adj.len() && 0 <= q < adj[w].len() ==> (#[trigger] adj[w][q]).len() <= u32::MAX,
        0 <= pos,
        0 <= v <= adj.len(),
        1 <= l,
        v < adj.len() ==> l <= adj[v].len(),
        pos + 4 * upper_words(adj, v, l).len() <= b.len(),
        b.subrange(pos, pos + 4 * upper_words(adj, v, l).len()) == word_bytes(
            upper_words(adj, v, l),
        ),
    ensures
        read_upper(b, pos, upper_count(adj, v, l), levels, filled_to(adj, v, l)) == Some(adj),
    decreases adj.len() - v, (if 0 <= v < adj.len() { adj[v].len() - l } else { 0 }),
{
    if v >= adj.len() {
        assert(filled_to(adj, v, l) =~= adj) by {
            assert forall|w: int| 0 <= w < adj.len() implies filled_to(adj, v, l)[w] == adj[w] by {
                assert(filled_to(adj, v, l)[w] =~= adj[w]);
            }
        }
    } else if l >= adj[v].len() {
        assert(filled_to(adj, v, l) =~= filled_to(adj, v + 1, 1)) by {
            assert forall|w: int| 0 <= w < adj.len() implies filled_to(adj, v, l)[w] == filled_to(
                adj,
                v + 1,
                1,
            )[w] by {
                assert(filled_to(adj, v, l)[w] =~= filled_to(adj, v + 1, 1)[w]);
            }
        }
        if v + 1 < adj.len() {
            assert(adj[v + 1].len() >= 1);
        }
        lemma_read_upper(b, pos, adj, levels, v + 1, 1);
    } else {
        let list = adj[v][l];
        let rec = record(adj, v, l);
        let rest = upper_words(adj, v, l + 1);
        let all = upper_words(adj, v, l);
        let next = pos + 12 + 4 * list.len();
        assert(adj[v].len() == levels[v] + 1);
        lemma_word_bytes_concat(rec, rest);
        lemma_word_bytes_len(rec);
        lemma_word_bytes_len(rest);
        lemma_word_bytes_len(all);
        lemma_word_at(b, pos, all, 0);
        lemma_word_at(b, pos, all, 1);
        lemma_word_at(b, pos, all, 2);
        assert(all[0] == v as u32 && all[1] == l as u32 && all[2] == list.len() as u32);
        let whole = b.subrange(pos, pos + 4 * all.len());
        assert(b.subrange(pos + 12, next) =~= word_bytes(list)) by {
            let head = seq![v as u32, l as u32, list.len() as u32];
            lemma_word_bytes_concat(head, list);
            lemma_word_bytes_len(head);
            lemma_word_bytes_len(list);
            assert(b.subrange(pos + 12, next) =~= whole.subrange(12, (12 + 4 * list.len()) as int));
            assert(whole.subrange(12, (12 + 4 * list.len()) as int) =~= word_bytes(rec).subrange(
                12,
                (12 + 4 * list.len()) as int,
            ));
        }
        lemma_words_read_back(b, pos + 12, list);
        assert(ids_reach(levels, list, l)) by {
            assert forall|i: int| 0 <= i < list.len() implies #[trigger] list[i] < levels.len() && l
                <= levels[list[i] as int] by {
                assert(reaches(adj, adj[v][l][i], l));
                assert(adj[list[i] as int].len() == levels[list[i] as int] + 1);
            }
        }
        assert(b.subrange(next, next + 4 * rest.len()) =~= word_bytes(rest)) by {
            assert(b.subrange(next, next + 4 * rest.len()) =~= whole.subrange(
                4 * rec.len() as int,
                4 * all.len() as int,
            ));
        }
        let before = filled_to(adj, v, l);
        let after = filled_to(adj, v, l + 1);
        assert(set_list(before, v as u32, l, list) =~= after) by {
            assert forall|w: int| 0 <= w < adj.len() implies set_list(
                before,
                v as u32,
                l,
                list,
            )[w] == after[w] by {
                assert(set_list(before, v as u32, l, list)[w] =~= after[w]);
            }
        }
        lemma_read_upper(b, next, adj, levels, v, l + 1);
    }
}

/// A graph that can be stored: there are nodes, every number fits its field
/// and every level-0 list fits the stride.
pub open spec fn storable(g: GraphModel) -> bool {
    &&& g.wf()
    &&& 0 < g.adj.len() <= u32::MAX
    &&& g.m <= u32::MAX
    &&& 0 < g.m0 <= u32::MAX
    &&& g.ef_construction <= u32::MAX
    &&& g.base_fits()
    &&& forall|w: int, q: int|
        0 <= w < g.adj.len() && 0 <= q < g.adj[w].len() ==> (#[trigger] g.adj[w][q]).len()
            <= u32::MAX
}

/// Where each part of the stored form of a graph stands.
#[verifier::rlimit(60)]
proof fn lemma_graph_layout(g: GraphModel)
    requires
        storable(g),
    ensures
        ({
            let b = graph_bytes(g);
            let n = g.adj.len();
            let low: int = (32 + 4 * n) as int;
            let u: int = (32 + 4 * n + 4 * (n * g.m0)) as int;
            let base = base_words(g.adj, g.m0, n as int);
            let ups = upper_words(g.adj, 0, 1);
            &&& n * g.m0 >= 0
            &&& base.len() == n * g.m0
            &&& b.len() == u + 8 + 4 * ups.len()
            &&& field(b, 0, 8) == HNSW_GRAPH_MAGIC
            &&& field(b, 8, 8) == n
            &&& field(b, 16, 4) == g.m
            &&& field(b, 20, 4) == g.m0
            &&& field(b, 24, 4) == g.ef_construction
            &&& field(b, 28, 4) == g.entry
            &&& words(b, 32, n as int) == g.levels
            &&& b.subrange(low, u) == word_bytes(base)
            &&& field(b, u, 8) == upper_count(g.adj, 0, 1)
            &&& b.subrange(u + 8, u + 8 + 4 * ups.len()) == word_bytes(ups)
        }),
{
    let adj = g.adj;
    let n = adj.len();
    let m0 = g.m0;
    let base = base_words(adj, m0, n as int);
    let ups = upper_words(adj, 0, 1);
    let count = upper_count(adj, 0, 1);
    let b = graph_bytes(g);
    lemma_pow256_values();
    lemma_le_bytes_len(HNSW_GRAPH_MAGIC as nat, 8);
    lemma_le_bytes_len(n, 8);
    lemma_le_bytes_len(g.m, 4);
    lemma_le_bytes_len(m0, 4);
    lemma_le_bytes_len(g.ef_construction, 4);
    lemma_le_bytes_len(g.entry as nat, 4);
    lemma_word_bytes_len(g.levels);
    lemma_base_words_len(adj, m0, n as int);
    lemma_word_bytes_len(base);
    lemma_le_bytes_len(count, 8);
    lemma_word_bytes_len(ups);
    assert(n * m0 >= 0) by (nonlinear_arith);
    let u: int = (32 + 4 * n + 4 * (n * m0)) as int;
    let low: int = (32 + 4 * n) as int;
    assert(b.len() == u + 8 + 4 * ups.len());
    assert(b.subrange(0, 8) =~= le_bytes(HNSW_GRAPH_MAGIC as nat, 8));
    lemma_field_of_bytes(b, 0, HNSW_GRAPH_MAGIC as nat, 8);
    assert(b.subrange(8, 16) =~= le_bytes(n, 8));
    lemma_field_of_bytes(b, 8, n, 8);
    assert(b.subrange(16, 20) =~= le_bytes(g.m, 4));
    lemma_field_of_bytes(b, 16, g.m, 4);
    assert(b.subrange(20, 24) =~= le_bytes(m0, 4));
    lemma_field_of_bytes(b, 20, m0, 4);
    assert(b.subrange(24, 28) =~= le_bytes(g.ef_construction, 4));
    lemma_field_of_bytes(b, 24, g.ef_construction, 4);
    assert(b.subrange(28, 32) =~= le_bytes(g.entry as nat, 4));
    lemma_field_of_bytes(b, 28, g.entry as nat, 4);
    assert(b.subrange(32, low) =~= word_bytes(g.levels));
    lemma_words_read_back(b, 32, g.levels);
    assert(b.subrange(low, u) =~= word_bytes(base));
    assert(b.subrange(u, u + 8) =~= le_bytes(count, 8));
    assert forall|w: int| 0 <= w < adj.len() implies (#[trigger] adj[w]).len() <= 64 by {}
    lemma_upper_count_bound(adj, 0, 1);
    lemma_field_of_bytes(b, u, count, 8);
    assert(b.subrange(u + 8, u + 8 + 4 * ups.len()) =~= word_bytes(ups));
}

/// Reading the stored form of a graph gives the graph.
#[verifier::rlimit(60)]
pub proof fn law_graph_round_trip(g: GraphModel)
    requires
        storable(g),
    ensures
        parse_graph(graph_bytes(g)) == Some(g),
{
    let adj = g.adj;
    let n = adj.len();
    let m0 = g.m0;
    let base = base_words(adj, m0, n as int);
    let b = graph_bytes(g);
    lemma_graph_layout(g);
    let u: int = (32 + 4 * n + 4 * (n * m0)) as int;
    let low: int = (32 + 4 * n) as int;
    assert(heights_ok(g.levels)) by {
        assert forall|i: int| 0 <= i < g.levels.len() implies #[trigger] g.levels[i] <= MAX_LEVEL by {
            assert(adj[i].len() == g.levels[i] + 1);
        }
    }
    assert forall|v: int| 0 <= v < n implies slots_ok(
        #[trigger] base_row(b, n as int, m0 as int, v),
        n as int,
    ) && real_ids(base_row(b, n as int, m0 as int, v)) == adj[v][0] by {
        let row = base_row(b, n as int, m0 as int, v);
        let list = adj[v][0];
        assert(adj[v].len() > 0);
        assert(row =~= padded(list, m0)) by {
            assert forall|i: int| 0 <= i < m0 implies #[trigger] row[i] == padded(list, m0)[i] by {
                lemma_base_words_at(adj, m0, n as int, v, i);
                lemma_word_at(b, low, base, v * m0 + i);
            }
        }
        assert forall|i: int| 0 <= i < list.len() implies #[trigger] list[i] < n by {
            assert(reaches(adj, adj[v][0][i], 0));
        }
        lemma_real_ids_of_padded(list, m0);
        assert(list.subrange(0, list.len() as int) =~= list);
    }
    let towers = base_towers(b, g.levels, m0 as int);
    assert(towers =~= filled_to(adj, 0, 1)) by {
        assert forall|w: int| 0 <= w < n implies #[trigger] towers[w] == filled_to(adj, 0, 1)[w] by {
            assert(adj[w].len() == g.levels[w] + 1);
            assert(slots_ok(base_row(b, n as int, m0 as int, w), n as int));
            assert(towers[w] =~= filled_to(adj, 0, 1)[w]);
        }
    }
    assert(adj[0].len() >= 1);
    lemma_read_upper(b, u + 8, adj, g.levels, 0, 1);
}

/// A prefix that ends inside the upper lists does not read as them, whatever
/// the lists read so far.
#[verifier::rlimit(60)]
proof fn lemma_cut_upper(
    b: Seq<u8>,
    cut: int,
    pos: int,
    adj: Adjacency,
    levels: Seq<u32>,
    so_far: Adjacency,
    v: int,
    l: int,
)
    requires
        adj.len() <= u32::MAX,
        forall|w: int| 0 <= w < adj.len() ==> (#[trigger] adj[w]).len() <= u32::MAX,
        forall|w: int, q: int|
            0 <= w < adj.len() && 0 <= q < adj[w].len() ==> (#[trigger] adj[w][q]).len() <= u32::MAX,
        0 <= v <= adj.len(),
        1 <= l,
        0 <= pos <= cut < pos + 4 * upper_words(adj, v, l).len() <= b.len(),
        b.subrange(pos, pos + 4 * upper_words(adj, v, l).len()) == word_bytes(
            upper_words(adj, v, l),
        ),
    ensures
        read_upper(b.subrange(0, cut), pos, upper_count(adj, v, l), levels, so_far) is None,
    decreases adj.len() - v, (if 0 <= v < adj.len() { adj[v].len() - l } else { 0 }),
{
    if v < adj.len() {
        if l >= adj[v].len() {
            lemma_cut_upper(b, cut, pos, adj, levels, so_far, v + 1, 1);
        } else if pos + 12 <= cut {
            let c = b.subrange(0, cut);
            let list = adj[v][l];
            let rec = record(adj, v, l);
            let rest = upper_words(adj, v, l + 1);
            let all = upper_words(adj, v, l);
            let next = pos + 12 + 4 * list.len();
            lemma_word_bytes_concat(rec, rest);
            lemma_word_bytes_len(rec);
            lemma_word_bytes_len(rest);
            lemma_word_bytes_len(all);
            lemma_word_at(b, pos, all, 2);
            lemma_prefix_field(b, cut, pos + 8, 4);
            assert(field(c, pos + 8, 4) == list.len());
            if next <= cut {
                let whole = b.subrange(pos, pos + 4 * all.len());
                assert(b.subrange(next, next + 4 * rest.len()) =~= word_bytes(rest)) by {
                    assert(b.subrange(next, next + 4 * rest.len()) =~= whole.subrange(
                        4 * rec.len() as int,
                        4 * all.len() as int,
                    ));
                }
                let node = field(c, pos, 4) as u32;
                let level = field(c, pos + 4, 4) as int;
                let ids = words(c, pos + 12, list.len() as int);
                lemma_cut_upper(
                    b,
                    cut,
                    next,
                    adj,
                    levels,
                    set_list(so_far, node, level, ids),
                    v,
                    l + 1,
                );
            }
        }
    }
}

/// A truncated graph is refused: no strict prefix of the stored form of a
/// graph reads as a graph.
#[verifier::rlimit(60)]
pub proof fn law_truncated_graph_is_refused(g: GraphModel, cut: int)
    requires
        storable(g),
        0 <= cut < graph_bytes(g).len(),
    ensures
        parse_graph(graph_bytes(g).subrange(0, cut)) is None,
{
    let adj = g.adj;
    let n = adj.len();
    let m0 = g.m0;
    let b = graph_bytes(g);
    let c = b.subrange(0, cut);
    let ups = upper_words(adj, 0, 1);
    let u: int = (32 + 4 * n + 4 * (n * m0)) as int;
    lemma_graph_layout(g);
    if cut >= 32 {
        lemma_prefix_field(b, cut, 8, 8);
        lemma_prefix_field(b, cut, 20, 4);
        if cut >= u + 8 {
            lemma_prefix_field(b, cut, u, 8);
            assert forall|w: int| 0 <= w < adj.len() implies (#[trigger] adj[w]).len()
                <= u32::MAX by {
                assert(adj[w].len() == g.levels[w] + 1);
            }
            let levels = words(c, 32, n as int);
            lemma_cut_upper(
                b,
                cut,
                u + 8,
                adj,
                levels,
                base_towers(c, levels, m0 as int),
                0,
                1,
            );
        }
    }
}

/// A graph whose lists keep to their caps can be stored.
proof fn lemma_capped_is_storable(g: GraphModel, p: HnswParams)
    requires
        g.wf(),
        lists_ok(g.adj, p),
        0 < g.adj.len() <= u32::MAX,
        g.m == p.m <= u32::MAX,
        0 < g.m0 == p.m0 <= u32::MAX,
        g.ef_construction <= u32::MAX,
    ensures
        storable(g),
{
    assert forall|v: int| 0 <= v < g.adj.len() implies (#[trigger] g.adj[v])[0].len() <= g.m0 by {
        assert(list_ok(g.adj[v][0], v, cap_at(p, 0)));
    }
    assert forall|w: int, q: int| 0 <= w < g.adj.len() && 0 <= q < g.adj[w].len() implies (
    #[trigger] g.adj[w][q]).len() <= u32::MAX by {
        assert(list_ok(g.adj[w][q], w, cap_at(p, q)));
    }
}

/// A built graph reads back from its stored form as it was built.
pub proof fn law_built_graph_round_trip(
    pair: spec_fn(u32, u32) -> u32,
    p: HnswParams,
    levels: Seq<u32>,
)
    requires
        heights_ok(levels),
        0 < levels.len() <= u32::MAX,
        p.m <= u32::MAX,
        0 < p.m0 <= u32::MAX,
        p.ef_construction <= u32::MAX,
    ensures
        parse_graph(graph_bytes(built(pair, p, levels))) == Some(built(pair, p, levels)),
{
    law_build_is_well_formed(pair, p, levels);
    lemma_capped_is_storable(built(pair, p, levels), p);
    law_graph_round_trip(built(pair, p, levels));
}

/// So does a graph that was extended under the caps it was built with.
pub proof fn law_extended_graph_round_trip(
    g: GraphModel,
    pair: spec_fn(u32, u32) -> u32,
    p: HnswParams,
    new_levels: Seq<u32>,
)
    requires
        g.wf(),
        lists_ok(g.adj, p),
        heights_ok(new_levels),
        0 < new_levels.len(),
        g.adj.len() + new_levels.len() <= u32::MAX,
        p.m <= u32::MAX,
        0 < p.m0 <= u32::MAX,
        p.ef_construction <= u32::MAX,
    ensures
        parse_graph(graph_bytes(extended(g, pair, p, new_levels))) == Some(
            extended(g, pair, p, new_levels),
        ),
{
    law_extend_is_well_formed(g, pair, p, new_levels);
    lemma_capped_is_storable(extended(g, pair, p, new_levels), p);
    law_graph_round_trip(extended(g, pair, p, new_levels));
}

/// And so does a storable graph after its base layer is cut back.
pub proof fn law_pruned_graph_round_trip(
    g: GraphModel,
    pair: spec_fn(u32, u32) -> u32,
    m0: nat,
)
    requires
        storable(g),
        0 < m0 <= u32::MAX,
    ensures
        parse_graph(graph_bytes(pruned(g, pair, m0))) == Some(pruned(g, pair, m0)),
{
    law_prune_base_layer(g, pair, m0);
    let out = pruned(g, pair, m0);
    assert forall|w: int, q: int| 0 <= w < out.adj.len() && 0 <= q < out.adj[w].len() implies (
    #[trigger] out.adj[w][q]).len() <= u32::MAX by {
        if q == 0 {
            assert(out.adj[w][0].len() <= m0);
        } else {
            assert(out.adj[w][q] == g.adj[w][q]);
        }
    }
    law_graph_round_trip(out);
}

// ---------------- where things stand ----------------

/// The stored form begins with its magic, the node count, the three build
/// settings and the entry point, then one word per node for its top level and
/// one row of slots per node for its level-0 list, unused ones filled with
/// ones, then the count of upper lists.
pub proof fn law_graph_fields_stand_in_place(g: GraphModel, v: int, i: int)
    requires
        storable(g),
        0 <= v < g.adj.len(),
        0 <= i < g.m0,
    ensures
        ({
            let b = graph_bytes(g);
            let n = g.adj.len() as int;
            &&& field(b, 0, 8) == 0x3157_534E_4846_4E49
            &&& field(b, 8, 8) == n
            &&& field(b, 16, 4) == g.m
            &&& field(b, 20, 4) == g.m0
            &&& field(b, 24, 4) == g.ef_construction
            &&& field(b, 28, 4) == g.entry
            &&& field(b, 32 + 4 * v, 4) == g.levels[v]
            &&& field(b, 32 + 4 * n + 4 * (v * g.m0 + i), 4) == (if i < g.adj[v][0].len() {
                g.adj[v][0][i] as int
            } else {
                0xffff_ffff
            })
            &&& field(b, 32 + 4 * n + 4 * (n * g.m0), 8) == upper_count(g.adj, 0, 1)
        }),
{
    let b = graph_bytes(g);
    let n = g.adj.len();
    lemma_graph_layout(g);
    let base = base_words(g.adj, g.m0, n as int);
    let low = (32 + 4 * n) as int;
    lemma_base_words_at(g.adj, g.m0, n as int, v, i);
    lemma_word_at(b, low, base, v * g.m0 + i);
    assert(g.levels.len() == n);
    assert(words(b, 32, n as int)[v] == g.levels[v]);
    assert(field(b, 32 + 4 * v, 4) as u32 == g.levels[v]);
    crate::wire::lemma_le_value_bound(b.subrange(32 + 4 * v, 32 + 4 * v + 4));
    lemma_pow256_values();
}

/// The upper lists of node `v`, each with its place and length in front.
pub open spec fn node_records(adj: Adjacency, v: int) -> Seq<Seq<u32>> {
    Seq::new(
        (adj[v].len() - 1) as nat,
        |i: int| seq![v as u32, (i + 1) as u32, adj[v][i + 1].len() as u32] + adj[v][i + 1],
    )
}

proof fn lemma_node_records(adj: Adjacency, v: int, l: int)
    requires
        0 <= v < adj.len(),
        1 <= l <= adj[v].len(),
    ensures
        upper_words(adj, v, l) == node_records(adj, v).subrange(
            l - 1,
            node_records(adj, v).len() as int,
        ).flatten() + upper_words(adj, v + 1, 1),
        upper_count(adj, v, l) == adj[v].len() - l + upper_count(adj, v + 1, 1),
    decreases adj[v].len() - l,
{
    let r = node_records(adj, v);
    let left = r.subrange(l - 1, r.len() as int);
    if l == adj[v].len() {
        assert(left =~= Seq::empty());
        assert(left.flatten() =~= Seq::<u32>::empty());
        assert(left.flatten() + upper_words(adj, v + 1, 1) =~= upper_words(adj, v + 1, 1));
    } else {
        lemma_node_records(adj, v, l + 1);
        let rest = r.subrange(l, r.len() as int);
        assert(left.drop_first() =~= rest);
        assert(left.first() == record(adj, v, l));
        assert(left.flatten() == left.first() + left.drop_first().flatten());
        assert(record(adj, v, l) + (rest.flatten() + upper_words(adj, v + 1, 1)) =~= (record(
            adj,
            v,
            l,
        ) + rest.flatten()) + upper_words(adj, v + 1, 1));
    }
}

proof fn lemma_all_records(adj: Adjacency, v: int)
    requires
        0 <= v <= adj.len(),
        forall|w: int| 0 <= w < adj.len() ==> (#[trigger] adj[w]).len() > 0,
    ensures
        upper_words(adj, v, 1) == Seq::new(
            (adj.len() - v) as nat,
            |i: int| node_records(adj, v + i).flatten(),
        ).flatten(),
    decreases adj.len() - v,
{
    let parts = Seq::new((adj.len() - v) as nat, |i: int| node_records(adj, v + i).flatten());
    if v < adj.len() {
        assert(adj[v].len() > 0);
        lemma_all_records(adj, v + 1);
        lemma_node_records(adj, v, 1);
        let r = node_records(adj, v);
        assert(r.subrange(0, r.len() as int) =~= r);
        let rest = Seq::new(
            (adj.len() - (v + 1)) as nat,
            |i: int| node_records(adj, v + 1 + i).flatten(),
        );
        assert(parts.drop_first() =~= rest) by {
            assert forall|i: int| 0 <= i < rest.len() implies parts.drop_first()[i] == rest[i] by {
                assert(v + (i + 1) == v + 1 + i);
            }
        }
        assert(parts.first() == r.flatten());
        assert(parts.flatten() == parts.first() + parts.drop_first().flatten());
    } else {
        assert(parts =~= Seq::empty());
    }
}

/// The upper lists are stored node by node and level by level, each with its
/// node, its level and its length in front, and are counted.
pub proof fn law_upper_lists_follow_in_order(adj: Adjacency)
    requires
        forall|w: int| 0 <= w < adj.len() ==> (#[trigger] adj[w]).len() > 0,
    ensures
        upper_words(adj, 0, 1) == Seq::new(
            adj.len(),
            |v: int| node_records(adj, v).flatten(),
        ).flatten(),
        forall|v: int|
            0 <= v < adj.len() ==> upper_count(adj, v, 1) == node_records(adj, v).len()
                + #[trigger] upper_count(adj, v + 1, 1),
        upper_count(adj, adj.len() as int, 1) == 0,
{
    lemma_all_records(adj, 0);
    assert(Seq::new((adj.len() - 0) as nat, |i: int| node_records(adj, 0 + i).flatten()) =~= Seq::new(
        adj.len(),
        |v: int| node_records(adj, v).flatten(),
    ));
    assert forall|v: int| 0 <= v < adj.len() implies upper_count(adj, v, 1) == node_records(
        adj,
        v,
    ).len() + #[trigger] upper_count(adj, v + 1, 1) by {
        assert(adj[v].len() > 0);
        lemma_node_records(adj, v, 1);
    }
}

/// The ids of a row of slots are the slots that are in use, in order.
pub proof fn law_used_slots_are_kept(s: Seq<u32>)
    ensures
        real_ids(s) == s.filter(|x: u32| x != 0xffff_ffff),
    decreases s.len(),
{
    reveal(Seq::filter);
    if s.len() > 0 {
        law_used_slots_are_kept(s.drop_last());
    }
}

proof fn lemma_words_of_prefix(b: Seq<u8>, extra: Seq<u8>, off: int, n: int)
    requires
        0 <= off,
        0 <= n,
        off + 4 * n <= b.len(),
    ensures
        words(b + extra, off, n) == words(b, off, n),
{
    let all = b + extra;
    assert(all.subrange(0, b.len() as int) =~= b);
    assert forall|i: int| 0 <= i < n implies words(all, off, n)[i] == words(b, off, n)[i] by {
        lemma_prefix_field(all, b.len() as int, off + 4 * i, 4);
    }
    assert(words(all, off, n) =~= words(b, off, n));
}

proof fn lemma_read_upper_longer(
    b: Seq<u8>,
    extra: Seq<u8>,
    pos: int,
    count: nat,
    levels: Seq<u32>,
    adj: Adjacency,
)
    requires
        0 <= pos,
        read_upper(b, pos, count, levels, adj) is Some,
    ensures
        read_upper(b + extra, pos, count, levels, adj) == read_upper(b, pos, count, levels, adj),
    decreases count,
{
    if count > 0 {
        let all = b + extra;
        assert(all.subrange(0, b.len() as int) =~= b);
        lemma_prefix_field(all, b.len() as int, pos, 4);
        lemma_prefix_field(all, b.len() as int, pos + 4, 4);
        lemma_prefix_field(all, b.len() as int, pos + 8, 4);
        let node = field(b, pos, 4) as u32;
        let level = field(b, pos + 4, 4) as int;
        let len = field(b, pos + 8, 4) as int;
        lemma_words_of_prefix(b, extra, pos + 12, len);
        lemma_read_upper_longer(
            b,
            extra,
            pos + 12 + 4 * len,
            (count - 1) as nat,
            levels,
            set_list(adj, node, level, words(b, pos + 12, len)),
        );
    }
}

/// Bytes behind the last list are not looked at.
pub proof fn law_bytes_behind_a_graph_change_nothing(b: Seq<u8>, extra: Seq<u8>)
    requires
        parse_graph(b) is Some,
    ensures
        parse_graph(b + extra) == parse_graph(b),
{
    let all = b + extra;
    let cut = b.len() as int;
    assert(all.subrange(0, cut) =~= b);
    lemma_prefix_field(all, cut, 0, 8);
    lemma_prefix_field(all, cut, 8, 8);
    lemma_prefix_field(all, cut, 16, 4);
    lemma_prefix_field(all, cut, 20, 4);
    lemma_prefix_field(all, cut, 24, 4);
    lemma_prefix_field(all, cut, 28, 4);
    let n = field(b, 8, 8) as int;
    let m0 = field(b, 20, 4) as int;
    let upper = 32 + 4 * n + 4 * (n * m0);
    assert(n * m0 >= 0) by (nonlinear_arith)
        requires
            n >= 0,
            m0 >= 0,
    ;
    lemma_prefix_field(all, cut, upper, 8);
    lemma_words_of_prefix(b, extra, 32, n);
    let levels = words(b, 32, n);
    assert forall|v: int| 0 <= v < n implies #[trigger] base_row(all, n, m0, v) == base_row(
        b,
        n,
        m0,
        v,
    ) by {
        assert(0 <= v * m0 && v * m0 + m0 <= n * m0) by (nonlinear_arith)
            requires
                0 <= v,
                v + 1 <= n,
                m0 >= 0,
        ;
        lemma_words_of_prefix(b, extra, 32 + 4 * n + 4 * (v * m0), m0);
    }
    assert(base_towers(all, levels, m0) =~= base_towers(b, levels, m0)) by {
        assert forall|v: int| 0 <= v < n implies #[trigger] base_towers(all, levels, m0)[v]
            == base_towers(b, levels, m0)[v] by {
            assert(base_row(all, n, m0, v) == base_row(b, n, m0, v));
            assert(base_towers(all, levels, m0)[v] =~= base_towers(b, levels, m0)[v]);
        }
    }
    assert forall|v: int| 0 <= v < n implies slots_ok(#[trigger] base_row(all, n, m0, v), n) by {
        assert(slots_ok(base_row(b, n, m0, v), n));
    }
    lemma_read_upper_longer(
        b,
        extra,
        upper + 8,
        field(b, upper, 8),
        levels,
        base_towers(b, levels, m0),
    );
}

} // verus!
