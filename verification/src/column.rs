//! Building one column's subsection from its rows.
//!
//! A build has three steps. Centroids come in, and the rows with their
//! assignments, one by one or at once, and a plan is made: the rulers of the
//! clusters and their physical order. Then the rows are encoded, on the plan's
//! rulers where the codec has rulers. Last, the encoded rows are moved into
//! their clusters and the subsection is assembled.
use vstd::prelude::*;

use crate::builder::{BuildError, MaterializedIvfRow, VectorConfig};
use crate::codes::Metric;
use crate::float_bits::{f32_lt, F32_INFINITY};
use crate::ivf::{
    members, n_cent_row_count_cap, physical_n_cent, subsection_size, trained_centroids, RerankCodec,
};
use crate::order::centroid_storage_order;
use crate::span::{
    derive_sq8_quantizer_from_min_max, greatest_in, least_in, ruler_entry, update_min_max,
    F32_NEG_INFINITY,
};
use crate::subsection::{
    assemble_subsection, clustered, is_id_order, is_order, order_by_doc_id, rows_before, rows_of,
    stable_of, stable_region, IvfParts, IvfRow, SubsectionBytes,
};
use crate::wire::{put_words, word_bytes};

verus! {

/// The centroids of a column and what follows from them.
#[derive(Debug)]
pub struct ColumnPlan {
    pub dim: usize,
    pub metric: Metric,
    pub codec: RerankCodec,
    pub n_cent: usize,
    pub summary: Vec<u32>,
    pub centroids: Vec<u32>,
    /// Cluster of every row.
    pub assign: Vec<u32>,
    /// Ruler scales by cluster, for the codec that has rulers.
    pub scales: Vec<u32>,
    pub offsets: Vec<u32>,
    /// Physical order of the clusters.
    pub order: Vec<usize>,
}

impl ColumnPlan {
    pub open spec fn wf(&self) -> bool {
        &&& self.summary@.len() == self.dim
        &&& self.centroids@.len() == self.n_cent * self.dim
        &&& forall|i: int| 0 <= i < self.assign@.len() ==> (#[trigger] self.assign@[i]) < self.n_cent
        &&& self.codec == RerankCodec::Sq8Residual ==> {
            &&& self.scales@.len() == self.n_cent * self.dim
            &&& self.offsets@.len() == self.n_cent * self.dim
        }
        &&& is_order(self.order@, self.n_cent as int)
    }
}

// ---------------- centroid counts ----------------

/// How many centroids a column gets: one per provided row of `dim` values,
/// else what is asked for, bounded by the cap, the rows and the sample.
pub open spec fn column_centroids(
    cfg: VectorConfig,
    n_docs: int,
    sample_rows: int,
    cap: int,
) -> int {
    match cfg.provided_centroids {
        Some(p) => crate::ivf::at_least_one(p@.len() as int / cfg.dim as int),
        None => trained_centroids(cfg.n_cent as int, cap, n_docs, sample_rows),
    }
}

/// How many centroids a column gets; `explicit` lifts the cap by row count.
pub fn choose_n_cent(cfg: &VectorConfig, n_docs: usize, sample_rows: usize, explicit: bool) -> (r:
    usize)
    requires
        cfg.dim > 0,
    ensures
        r == column_centroids(
            *cfg,
            n_docs as int,
            sample_rows as int,
            if explicit {
                usize::MAX as int
            } else {
                crate::ivf::centroid_cap(n_docs as int)
            },
        ),
        r >= 1,
{
    match &cfg.provided_centroids {
        Some(p) => {
            let n: usize = p.len() / cfg.dim;
            if n >= 1 {
                n
            } else {
                1
            }
        },
        None => {
            let cap: usize = n_cent_row_count_cap(n_docs, explicit);
            physical_n_cent(cfg.n_cent, cap, n_docs, sample_rows)
        },
    }
}

// ---------------- the plan ----------------

/// The ruler entry of cluster `c` in coordinate `d`, from the rows that are
/// assigned to it.
pub open spec fn cluster_entry(
    rows: Seq<Vec<u32>>,
    assign: Seq<u32>,
    c: int,
    d: int,
) -> (u32, u32) {
    let picks = members(assign, c, assign.len());
    ruler_entry(least_in(rows, picks, d, picks.len()), greatest_in(rows, picks, d, picks.len()))
}

proof fn lemma_place(c: int, d: int, n: int, dim: int)
    requires
        0 <= c < n,
        0 <= d < dim,
    ensures
        0 <= c * dim,
        c * dim + d < n * dim,
        c * dim + dim <= n * dim,
{
    assert(0 <= c * dim && c * dim + dim <= n * dim) by (nonlinear_arith)
        requires
            0 <= c,
            c + 1 <= n,
            0 <= dim,
    ;
}

proof fn lemma_members_in_range(assign: Seq<u32>, c: int, n: nat, rows: int, i: int)
    requires
        n <= rows,
        rows <= usize::MAX,
        0 <= i < members(assign, c, n).len(),
    ensures
        members(assign, c, n)[i] < rows,
    decreases n,
{
    if n > 0 {
        let less = members(assign, c, (n - 1) as nat);
        if i < less.len() {
            lemma_members_in_range(assign, c, (n - 1) as nat, rows, i);
        }
    }
}

fn append(out: &mut Vec<u32>, s: &Vec<u32>)
    ensures
        final(out)@ == old(out)@ + s@,
{
    let ghost start = out@;
    let mut i: usize = 0;
    while i < s.len()
        invariant
            i <= s@.len(),
            out@ == start + s@.subrange(0, i as int),
        decreases s.len() - i,
    {
        out.push(s[i]);
        i = i + 1;
        proof {
            assert(out@ =~= start + s@.subrange(0, i as int));
        }
    }
    proof {
        assert(s@.subrange(0, i as int) =~= s@);
    }
}

// ---------------- ranges of a stream ----------------

/// Least coordinate `d` of the rows of cluster `c`.
pub open spec fn cluster_low(rows: Seq<Vec<u32>>, assign: Seq<u32>, c: int, d: int) -> u32 {
    let picks = members(assign, c, assign.len());
    least_in(rows, picks, d, picks.len())
}

/// Greatest coordinate `d` of the rows of cluster `c`.
pub open spec fn cluster_high(rows: Seq<Vec<u32>>, assign: Seq<u32>, c: int, d: int) -> u32 {
    let picks = members(assign, c, assign.len());
    greatest_in(rows, picks, d, picks.len())
}

/// The range of every cluster in each coordinate, kept up to date row by row,
/// so that the rows need not be held.
#[derive(Debug)]
pub struct ClusterRanges {
    pub dim: usize,
    /// Minima by cluster.
    pub min: Vec<Vec<u32>>,
    /// Maxima by cluster.
    pub max: Vec<Vec<u32>>,
}

impl ClusterRanges {
    /// Every cluster has one minimum and one maximum per coordinate.
    pub open spec fn wf(&self) -> bool {
        &&& self.min@.len() == self.max@.len()
        &&& forall|c: int| 0 <= c < self.min@.len() ==> (#[trigger] self.min@[c])@.len() == self.dim
        &&& forall|c: int| 0 <= c < self.max@.len() ==> (#[trigger] self.max@[c])@.len() == self.dim
    }

    /// The ranges are those of the rows, each in its cluster.
    pub open spec fn covers(&self, rows: Seq<Vec<u32>>, assign: Seq<u32>) -> bool {
        &&& rows.len() == assign.len()
        &&& forall|c: int, d: int|
            #![trigger self.min@[c]@[d]]
            0 <= c < self.min@.len() && 0 <= d < self.dim ==> self.min@[c]@[d] == cluster_low(
                rows,
                assign,
                c,
                d,
            )
        &&& forall|c: int, d: int|
            #![trigger self.max@[c]@[d]]
            0 <= c < self.min@.len() && 0 <= d < self.dim ==> self.max@[c]@[d] == cluster_high(
                rows,
                assign,
                c,
                d,
            )
    }

    /// The ranges of no rows.
    pub fn new(n_cent: usize, dim: usize) -> (r: Self)
        ensures
            r.wf(),
            r.dim == dim,
            r.min@.len() == n_cent,
            r.covers(Seq::empty(), Seq::empty()),
    {
        let mut min: Vec<Vec<u32>> = Vec::new();
        let mut max: Vec<Vec<u32>> = Vec::new();
        let mut c: usize = 0;
        while c < n_cent
            invariant
                c <= n_cent,
                min@.len() == c,
                max@.len() == c,
                forall|q: int|
                    0 <= q < c ==> (#[trigger] min@[q])@ == Seq::new(
                        dim as nat,
                        |d: int| F32_INFINITY,
                    ),
                forall|q: int|
                    0 <= q < c ==> (#[trigger] max@[q])@ == Seq::new(
                        dim as nat,
                        |d: int| F32_NEG_INFINITY,
                    ),
            decreases n_cent - c,
        {
            min.push(repeated(F32_INFINITY, dim));
            max.push(repeated(F32_NEG_INFINITY, dim));
            c = c + 1;
        }
        let r = ClusterRanges { dim, min, max };
        proof {
            assert forall|c: int, d: int|
                #![trigger r.min@[c]@[d]]
                0 <= c < n_cent && 0 <= d < dim implies r.min@[c]@[d] == cluster_low(
                Seq::empty(),
                Seq::empty(),
                c,
                d,
            ) by {
                assert(r.min@[c]@ == Seq::new(dim as nat, |d: int| F32_INFINITY));
            }
            assert forall|c: int, d: int|
                #![trigger r.max@[c]@[d]]
                0 <= c < n_cent && 0 <= d < dim implies r.max@[c]@[d] == cluster_high(
                Seq::empty(),
                Seq::empty(),
                c,
                d,
            ) by {
                assert(r.max@[c]@ == Seq::new(dim as nat, |d: int| F32_NEG_INFINITY));
            }
        }
        r
    }

    /// Widen the range of a cluster by one of its rows.
    pub fn absorb(&mut self, row: &Vec<u32>, cluster: u32)
        requires
            old(self).wf(),
            row@.len() == old(self).dim,
            cluster < old(self).min@.len(),
        ensures
            final(self).wf(),
            final(self).dim == old(self).dim,
            final(self).min@.len() == old(self).min@.len(),
            forall|rows: Seq<Vec<u32>>, assign: Seq<u32>| #[trigger]
                old(self).covers(rows, assign) && rows.len() < usize::MAX ==> final(self).covers(
                    rows.push(*row),
                    assign.push(cluster),
                ),
    {
        let c: usize = cluster as usize;
        let ghost was = *self;
        assert(self.min@[c as int]@.len() == self.dim);
        assert(self.max@[c as int]@.len() == self.dim);
        update_min_max(row, &mut self.min[c], &mut self.max[c]);
        proof {
            assert forall|rows: Seq<Vec<u32>>, assign: Seq<u32>| #[trigger]
                was.covers(rows, assign) && rows.len() < usize::MAX implies self.covers(
                rows.push(*row),
                assign.push(cluster),
            ) by {
                assert forall|q: int, d: int|
                    #![trigger self.min@[q]@[d]]
                    0 <= q < self.min@.len() && 0 <= d < self.dim implies self.min@[q]@[d]
                    == cluster_low(rows.push(*row), assign.push(cluster), q, d) by {
                    lemma_absorbed(rows, assign, *row, cluster, q, d);
                    assert(was.min@[q]@[d] == cluster_low(rows, assign, q, d));
                }
                assert forall|q: int, d: int|
                    #![trigger self.max@[q]@[d]]
                    0 <= q < self.min@.len() && 0 <= d < self.dim implies self.max@[q]@[d]
                    == cluster_high(rows.push(*row), assign.push(cluster), q, d) by {
                    lemma_absorbed(rows, assign, *row, cluster, q, d);
                    assert(was.max@[q]@[d] == cluster_high(rows, assign, q, d));
                }
            }
        }
    }

    /// The rulers of all clusters, scales and offsets, one behind the other.
    fn rulers(&self) -> (r: (Vec<u32>, Vec<u32>))
        requires
            self.wf(),
        ensures
            r.0@.len() == self.min@.len() * self.dim,
            r.1@.len() == self.min@.len() * self.dim,
            forall|c: int, d: int|
                #![trigger self.min@[c]@[d]]
                0 <= c < self.min@.len() && 0 <= d < self.dim ==> (
                    r.0@[c * self.dim + d],
                    r.1@[c * self.dim + d],
                ) == ruler_entry(self.min@[c]@[d], self.max@[c]@[d]),
    {
        let dim: usize = self.dim;
        let mut scales: Vec<u32> = Vec::new();
        let mut offsets: Vec<u32> = Vec::new();
        let mut c: usize = 0;
        proof {
            assert(0 * dim == 0);
        }
        while c < self.min.len()
            invariant
                c <= self.min@.len(),
                self.wf(),
                dim == self.dim,
                scales@.len() == c * dim,
                offsets@.len() == c * dim,
                forall|q: int, d: int|
                    #![trigger self.min@[q]@[d]]
                    0 <= q < c && 0 <= d < dim ==> (scales@[q * dim + d], offsets@[q * dim + d])
                        == ruler_entry(self.min@[q]@[d], self.max@[q]@[d]),
            decreases self.min.len() - c,
        {
            assert(self.min@[c as int]@.len() == dim);
            assert(self.max@[c as int]@.len() == dim);
            let (scale, offset) = derive_sq8_quantizer_from_min_max(&self.min[c], &self.max[c]);
            let ghost s0 = scales@;
            let ghost o0 = offsets@;
            append(&mut scales, &scale);
            append(&mut offsets, &offset);
            proof {
                assert((c + 1) * dim == c * dim + dim) by (nonlinear_arith);
                assert forall|q: int, d: int|
                    #![trigger self.min@[q]@[d]]
                    0 <= q < c + 1 && 0 <= d < dim implies (
                    scales@[q * dim + d],
                    offsets@[q * dim + d],
                ) == ruler_entry(self.min@[q]@[d], self.max@[q]@[d]) by {
                    if q < c {
                        lemma_place(q, d, c as int, dim as int);
                        assert(scales@[q * dim + d] == s0[q * dim + d]);
                        assert(offsets@[q * dim + d] == o0[q * dim + d]);
                    } else {
                        assert(q * dim + d == s0.len() + d);
                        assert(scales@[q * dim + d] == scale@[d]);
                        assert(offsets@[q * dim + d] == offset@[d]);
                    }
                }
            }
            c = c + 1;
        }
        (scales, offsets)
    }
}

fn repeated(x: u32, n: usize) -> (r: Vec<u32>)
    ensures
        r@ == Seq::new(n as nat, |i: int| x),
{
    let mut out: Vec<u32> = Vec::new();
    let mut i: usize = 0;
    while i < n
        invariant
            i <= n,
            out@ == Seq::new(i as nat, |j: int| x),
        decreases n - i,
    {
        out.push(x);
        i = i + 1;
        proof {
            assert(out@ =~= Seq::new(i as nat, |j: int| x));
        }
    }
    out
}

/// Which rows a cluster has does not depend on the rows behind them.
proof fn lemma_members_prefix(assign: Seq<u32>, x: u32, c: int, n: nat)
    requires
        n <= assign.len(),
    ensures
        members(assign.push(x), c, n) == members(assign, c, n),
    decreases n,
{
    if n > 0 {
        lemma_members_prefix(assign, x, c, (n - 1) as nat);
    }
}

/// The range of picked rows depends on those rows only.
proof fn lemma_range_same(
    rows: Seq<Vec<u32>>,
    more: Seq<Vec<u32>>,
    picks: Seq<usize>,
    longer: Seq<usize>,
    d: int,
    n: nat,
)
    requires
        n <= picks.len(),
        n <= longer.len(),
        forall|i: int|
            0 <= i < n ==> (#[trigger] picks[i]) < rows.len() && longer[i] == picks[i],
        forall|i: int| 0 <= i < rows.len() ==> #[trigger] more[i] == rows[i],
    ensures
        least_in(more, longer, d, n) == least_in(rows, picks, d, n),
        greatest_in(more, longer, d, n) == greatest_in(rows, picks, d, n),
    decreases n,
{
    if n > 0 {
        lemma_range_same(rows, more, picks, longer, d, (n - 1) as nat);
        assert(picks[n - 1] < rows.len());
        assert(more[picks[n - 1] as int] == rows[picks[n - 1] as int]);
    }
}

/// One more row widens the range of its own cluster and no other.
proof fn lemma_absorbed(
    rows: Seq<Vec<u32>>,
    assign: Seq<u32>,
    row: Vec<u32>,
    cluster: u32,
    c: int,
    d: int,
)
    requires
        rows.len() == assign.len(),
        rows.len() < usize::MAX,
    ensures
        ({
            let low = cluster_low(rows, assign, c, d);
            let high = cluster_high(rows, assign, c, d);
            let v = row@[d];
            &&& cluster_low(rows.push(row), assign.push(cluster), c, d) == (if cluster == c
                && f32_lt(v, low) {
                v
            } else {
                low
            })
            &&& cluster_high(rows.push(row), assign.push(cluster), c, d) == (if cluster == c
                && f32_lt(high, v) {
                v
            } else {
                high
            })
        }),
{
    let n = assign.len();
    let more = assign.push(cluster);
    let picks = members(assign, c, n);
    let all = members(more, c, more.len());
    lemma_members_prefix(assign, cluster, c, n);
    assert(more.len() == n + 1 && more[n as int] == cluster);
    assert forall|i: int| 0 <= i < picks.len() implies (#[trigger] picks[i]) < rows.len()
        && all[i] == picks[i] by {
        lemma_members_in_range(assign, c, n, rows.len() as int, i);
    }
    lemma_range_same(rows, rows.push(row), picks, all, d, picks.len());
}

/// The rulers that follow from the ranges of a stream are those of its rows.
pub proof fn law_ranges_give_the_rulers(
    ranges: ClusterRanges,
    rows: Seq<Vec<u32>>,
    assign: Seq<u32>,
    c: int,
    d: int,
)
    requires
        ranges.covers(rows, assign),
        0 <= c < ranges.min@.len(),
        0 <= d < ranges.dim,
    ensures
        ruler_entry(ranges.min@[c]@[d], ranges.max@[c]@[d]) == cluster_entry(rows, assign, c, d),
{
}

/// Plan a column from the ranges of its clusters: rulers where the codec has
/// rulers, and the physical order. The rulers are those of the rows that the
/// ranges cover.
pub fn plan_column(
    cfg: &VectorConfig,
    n_cent: usize,
    summary: Vec<u32>,
    centroids: Vec<u32>,
    ranges: &ClusterRanges,
    assign: Vec<u32>,
) -> (r: ColumnPlan)
    requires
        n_cent <= u32::MAX,
        summary@.len() == cfg.dim,
        centroids@.len() == n_cent * cfg.dim,
        ranges.wf(),
        ranges.dim == cfg.dim,
        ranges.min@.len() == n_cent,
        forall|i: int| 0 <= i < assign@.len() ==> (#[trigger] assign@[i]) < n_cent,
    ensures
        r.wf(),
        r.dim == cfg.dim,
        r.metric == cfg.metric,
        r.codec == cfg.rerank_codec,
        r.n_cent == n_cent,
        r.summary == summary,
        r.centroids == centroids,
        r.assign == assign,
        cfg.rerank_codec == RerankCodec::Sq8Residual ==> forall|c: int, d: int|
            #![trigger ranges.min@[c]@[d]]
            0 <= c < n_cent && 0 <= d < cfg.dim ==> (
                r.scales@[c * cfg.dim + d],
                r.offsets@[c * cfg.dim + d],
            ) == ruler_entry(ranges.min@[c]@[d], ranges.max@[c]@[d]),
        cfg.rerank_codec == RerankCodec::Sq8Residual ==> forall|
            rows: Seq<Vec<u32>>,
            c: int,
            d: int,
        |
            #![trigger cluster_entry(rows, assign@, c, d)]
            ranges.covers(rows, assign@) && 0 <= c < n_cent && 0 <= d < cfg.dim ==> (
                r.scales@[c * cfg.dim + d],
                r.offsets@[c * cfg.dim + d],
            ) == cluster_entry(rows, assign@, c, d),
        forall|i: int|
            0 <= i < n_cent ==> (#[trigger] r.order@[i]) == crate::order::arranged(
                centroids@,
                cfg.dim as int,
                crate::order::all_ids(n_cent as nat),
            )[i],
{
    let order = centroid_storage_order(&centroids, n_cent, cfg.dim);
    let (scales, offsets) = match cfg.rerank_codec {
        RerankCodec::Sq8Residual => ranges.rulers(),
        _ => (Vec::new(), Vec::new()),
    };
    proof {
        let of = assign@;
        assert forall|rows: Seq<Vec<u32>>, c: int, d: int|
            #![trigger cluster_entry(rows, of, c, d)]
            ranges.covers(rows, of) && 0 <= c < n_cent && 0 <= d < cfg.dim implies ruler_entry(
            ranges.min@[c]@[d],
            ranges.max@[c]@[d],
        ) == cluster_entry(rows, of, c, d) by {
            law_ranges_give_the_rulers(*ranges, rows, of, c, d);
        }
    }
    ColumnPlan {
        dim: cfg.dim,
        metric: cfg.metric,
        codec: cfg.rerank_codec,
        n_cent,
        summary,
        centroids,
        assign,
        scales,
        offsets,
        order,
    }
}

// ---------------- encoded rows ----------------

/// The payload of a row whose codec needs no ruler: the vector, or nothing.
pub fn plain_payload(codec: RerankCodec, row: &Vec<u32>) -> (r: Vec<u8>)
    requires
        codec != RerankCodec::Sq8Residual,
    ensures
        r@ == (match codec {
            RerankCodec::Fp32 => word_bytes(row@),
            _ => Seq::<u8>::empty(),
        }),
        r@.len() == codec.row_bytes(row@.len() as int),
{
    let mut out: Vec<u8> = Vec::new();
    proof {
        crate::wire::lemma_word_bytes_len(row@);
    }
    match codec {
        RerankCodec::Fp32 => {
            put_words(&mut out, row);
        },
        _ => {},
    }
    proof {
        assert(Seq::<u8>::empty() + word_bytes(row@) =~= word_bytes(row@));
    }
    out
}

// ---------------- assembly ----------------

spec fn hits(order: Seq<usize>, x: int, n: nat) -> nat
    decreases n,
{
    if n == 0 {
        0
    } else {
        hits(order, x, (n - 1) as nat) + (if order[n - 1] == x {
            1nat
        } else {
            0nat
        })
    }
}

proof fn lemma_hits(order: Seq<usize>, x: int, n: nat)
    requires
        n <= order.len(),
        order.no_duplicates(),
    ensures
        hits(order, x, n) <= 1,
        hits(order, x, n) == 1 <==> exists|k: int| 0 <= k < n && (#[trigger] order[k]) == x,
    decreases n,
{
    if n > 0 {
        lemma_hits(order, x, (n - 1) as nat);
        if order[n - 1] == x {
            if hits(order, x, (n - 1) as nat) == 1 {
                let k = choose|k: int| 0 <= k < n - 1 && (#[trigger] order[k]) == x;
                assert(order[k] == order[n - 1]);
            }
        }
    }
}

/// Rows of the first `n` clusters in physical order, counting the first `m`
/// rows only.
spec fn counted(assign: Seq<u32>, order: Seq<usize>, n: nat, m: nat) -> nat
    decreases n,
{
    if n == 0 {
        0
    } else {
        counted(assign, order, (n - 1) as nat, m) + members(assign, order[n - 1] as int, m).len()
    }
}

proof fn lemma_counted_step(assign: Seq<u32>, order: Seq<usize>, n: nat, m: nat)
    requires
        m > 0,
    ensures
        counted(assign, order, n, m) == counted(assign, order, n, (m - 1) as nat) + hits(
            order,
            assign[m - 1] as int,
            n,
        ),
    decreases n,
{
    if n > 0 {
        lemma_counted_step(assign, order, (n - 1) as nat, m);
    }
}

proof fn lemma_counted_none(assign: Seq<u32>, order: Seq<usize>, n: nat)
    ensures
        counted(assign, order, n, 0) == 0,
    decreases n,
{
    if n > 0 {
        lemma_counted_none(assign, order, (n - 1) as nat);
    }
}

proof fn lemma_counted_all(assign: Seq<u32>, order: Seq<usize>, k: int, m: nat)
    requires
        is_order(order, k),
        m <= assign.len(),
        forall|i: int| 0 <= i < assign.len() ==> (#[trigger] assign[i]) < k,
    ensures
        counted(assign, order, order.len(), m) == m,
    decreases m,
{
    if m > 0 {
        lemma_counted_all(assign, order, k, (m - 1) as nat);
        lemma_counted_step(assign, order, order.len(), m);
        let x = assign[m - 1];
        assert(assign[m - 1] < k);
        assert(order.contains(x as usize));
        lemma_hits(order, x as int, order.len());
        let at = choose|i: int| 0 <= i < order.len() && order[i] == x as usize;
        assert(order[at] == x as int);
    } else {
        lemma_counted_none(assign, order, order.len());
    }
}

proof fn lemma_rows_before_is_counted(
    clusters: Seq<Vec<IvfRow>>,
    assign: Seq<u32>,
    order: Seq<usize>,
    n: nat,
)
    requires
        is_order(order, clusters.len() as int),
        n <= order.len(),
        forall|c: int|
            0 <= c < clusters.len() ==> (#[trigger] clusters[c])@.len() == members(
                assign,
                c,
                assign.len(),
            ).len(),
    ensures
        rows_before(clusters, order, n) == counted(assign, order, n, assign.len()),
    decreases n,
{
    if n > 0 {
        lemma_rows_before_is_counted(clusters, assign, order, (n - 1) as nat);
        assert(order[n - 1] < clusters.len());
        assert(clusters[order[n - 1] as int]@.len() == members(
            assign,
            order[n - 1] as int,
            assign.len(),
        ).len());
    }
}

/// However the clusters are ordered, their blocks together hold every row
/// once: moving rows into their clusters loses none and repeats none.
pub proof fn law_clusters_hold_all_rows(
    clusters: Seq<Vec<IvfRow>>,
    rows: Seq<IvfRow>,
    assign: Seq<u32>,
    order: Seq<usize>,
)
    requires
        rows.len() == assign.len(),
        is_order(order, clusters.len() as int),
        forall|i: int| 0 <= i < assign.len() ==> (#[trigger] assign[i]) < clusters.len(),
        forall|c: int|
            0 <= c < clusters.len() ==> (#[trigger] clusters[c])@ == rows_of(
                rows,
                assign,
                c,
                assign.len(),
            ),
    ensures
        rows_before(clusters, order, order.len()) == rows.len(),
{
    lemma_rows_before_is_counted(clusters, assign, order, order.len());
    lemma_counted_all(assign, order, clusters.len() as int, assign.len());
}

/// The parts that a plan and its encoded rows make.
pub open spec fn is_parts_of(
    p: IvfParts,
    plan: ColumnPlan,
    rows: Seq<IvfRow>,
    code_bytes: usize,
    stable_ids: Option<Vec<i128>>,
) -> bool {
    &&& p.dim == plan.dim
    &&& p.metric == plan.metric
    &&& p.codec == plan.codec
    &&& p.code_bytes == code_bytes
    &&& p.summary == plan.summary
    &&& p.centroids == plan.centroids
    &&& p.scales == plan.scales
    &&& p.offsets == plan.offsets
    &&& p.order == plan.order
    &&& p.stable_ids == stable_ids
    &&& p.clusters@.len() == plan.n_cent
    &&& forall|c: int|
        0 <= c < plan.n_cent ==> (#[trigger] p.clusters@[c])@ == rows_of(
            rows,
            plan.assign@,
            c,
            plan.assign@.len(),
        )
}

/// Size of the stable-id region.
pub open spec fn stable_region_size(stable_ids: Option<Vec<i128>>) -> int {
    match stable_ids {
        Some(ids) => (16 * ids@.len()) as int,
        None => 0,
    }
}

/// Move the encoded rows into their clusters and assemble the subsection.
pub fn build_column(
    plan: ColumnPlan,
    rows: Vec<IvfRow>,
    code_bytes: usize,
    stable_ids: Option<Vec<i128>>,
) -> (r: SubsectionBytes)
    requires
        plan.wf(),
        rows@.len() == plan.assign@.len(),
        forall|i: int|
            0 <= i < rows@.len() ==> (#[trigger] rows@[i]).code@.len() == code_bytes
                && rows@[i].payload@.len() == plan.codec.row_bytes(plan.dim as int),
        code_bytes + 4 + plan.codec.row_bytes(plan.dim as int) <= usize::MAX,
        subsection_size(
            plan.dim as int,
            plan.n_cent as int,
            rows@.len() as int,
            code_bytes + 4 + plan.codec.row_bytes(plan.dim as int),
            plan.codec.meta_bytes(
                plan.dim as int,
                rows@.len() as int,
                plan.n_cent as int,
                plan.metric,
            ),
            stable_region_size(stable_ids),
        ) + 4 <= usize::MAX,
    ensures
        exists|p: IvfParts|
            {
                &&& #[trigger] is_parts_of(p, plan, rows@, code_bytes, stable_ids)
                &&& p.wf()
                &&& r.bytes@ == p.bytes()
                &&& r.n_cent == p.n_cent()
                &&& r.summary_offset_in_sub == 56
                &&& r.codec_meta_size == p.meta_size()
                &&& r.codec_meta_offset_in_sub == (if p.meta_size() == 0 {
                    0
                } else {
                    p.meta_off()
                })
            },
{
    let ghost all = rows@;
    let clusters = clustered(rows, &plan.assign, plan.n_cent);
    proof {
        law_clusters_hold_all_rows(clusters@, all, plan.assign@, plan.order@);
        assert forall|c: int, i: int|
            #![trigger clusters@[c]@[i]]
            0 <= c < clusters@.len() && 0 <= i < clusters@[c]@.len() implies {
            &&& clusters@[c]@[i].code@.len() == code_bytes
            &&& clusters@[c]@[i].payload@.len() == plan.codec.row_bytes(plan.dim as int)
        } by {
            assert(clusters@[c]@ == rows_of(all, plan.assign@, c, plan.assign@.len()));
            assert(plan.assign@.len() == plan.assign.len());
            lemma_members_in_range(plan.assign@, c, plan.assign@.len(), all.len() as int, i);
            let m = members(plan.assign@, c, plan.assign@.len());
            assert(clusters@[c]@[i] == all[m[i] as int]);
        }
    }
    let parts = IvfParts {
        dim: plan.dim,
        metric: plan.metric,
        codec: plan.codec,
        code_bytes,
        summary: plan.summary,
        centroids: plan.centroids,
        scales: plan.scales,
        offsets: plan.offsets,
        clusters,
        order: plan.order,
        stable_ids,
    };
    let out = assemble_subsection(&parts);
    proof {
        assert(is_parts_of(parts, plan, all, code_bytes, stable_ids));
    }
    out
}

/// The order in which already encoded rows are taken: by document id. A
/// rebuild needs at least one row.
pub fn order_materialized(rows: &Vec<MaterializedIvfRow>) -> (r: Result<Vec<usize>, BuildError>)
    ensures
        match r {
            Ok(o) => rows@.len() > 0 && is_id_order(
                Seq::new(rows@.len(), |i: int| rows@[i].local_doc_id),
                o@,
            ),
            Err(e) => rows@.len() == 0 && (e matches BuildError::VectorSchemaMismatch(m) && m@
                == "materialized IVF rebuild requires at least one row"@),
        },
{
    if rows.len() == 0 {
        return Err(
            BuildError::VectorSchemaMismatch("materialized IVF rebuild requires at least one row"),
        );
    }
    let mut ids: Vec<u32> = Vec::new();
    let mut i: usize = 0;
    while i < rows.len()
        invariant
            i <= rows@.len(),
            ids@ == Seq::new(rows@.len(), |j: int| rows@[j].local_doc_id).subrange(0, i as int),
        decreases rows.len() - i,
    {
        ids.push(rows[i].local_doc_id);
        i = i + 1;
        proof {
            assert(ids@ =~= Seq::new(rows@.len(), |j: int| rows@[j].local_doc_id).subrange(
                0,
                i as int,
            ));
        }
    }
    proof {
        assert(ids@ =~= Seq::new(rows@.len(), |j: int| rows@[j].local_doc_id));
    }
    Ok(order_by_doc_id(&ids))
}

// ---------------- the two sources of rows ----------------

/// What is kept of a row for re-ranking, and the binary32 pattern of its
/// squared norm where the codec gives one.
#[derive(Debug)]
pub struct Payload {
    pub bytes: Vec<u8>,
    pub norm: Option<u32>,
}

/// The rows of a stream: they are numbered as they come.
pub open spec fn streamed(codes: Seq<Vec<u8>>, payloads: Seq<Payload>) -> Seq<IvfRow> {
    Seq::new(
        codes.len(),
        |i: int|
            IvfRow {
                local_doc_id: i as u32,
                code: codes[i],
                payload: payloads[i].bytes,
                norm: payloads[i].norm,
            },
    )
}

/// Rows that were encoded before, taken in the given order: they keep their
/// document ids and their codes.
pub open spec fn carried(
    rows: Seq<MaterializedIvfRow>,
    order: Seq<usize>,
    payloads: Seq<Payload>,
) -> Seq<IvfRow> {
    Seq::new(
        order.len(),
        |i: int|
            IvfRow {
                local_doc_id: rows[order[i] as int].local_doc_id,
                code: rows[order[i] as int].rabitq_code,
                payload: payloads[i].bytes,
                norm: payloads[i].norm,
            },
    )
}

/// Document and stable ids of such rows, in the given order.
pub open spec fn id_pairs(rows: Seq<MaterializedIvfRow>, order: Seq<usize>) -> Seq<(u32, i128)> {
    Seq::new(
        order.len(),
        |i: int| (rows[order[i] as int].local_doc_id, rows[order[i] as int].stable_id),
    )
}

/// Number the rows of a stream.
pub fn stream_rows(codes: Vec<Vec<u8>>, payloads: Vec<Payload>) -> (r: Vec<IvfRow>)
    requires
        codes@.len() == payloads@.len(),
        codes@.len() <= u32::MAX,
    ensures
        r@ == streamed(codes@, payloads@),
{
    let ghost all_codes = codes@;
    let ghost all_payloads = payloads@;
    let mut codes = codes;
    let mut payloads = payloads;
    let n: usize = codes.len();
    let mut out: Vec<IvfRow> = Vec::new();
    let mut i: usize = 0;
    while i < n
        invariant
            i <= n,
            n == all_codes.len(),
            n == all_payloads.len(),
            n <= u32::MAX,
            codes@.len() == n,
            payloads@.len() == n,
            forall|j: int| i <= j < n ==> #[trigger] codes@[j] == all_codes[j],
            forall|j: int| i <= j < n ==> #[trigger] payloads@[j] == all_payloads[j],
            out@ == streamed(all_codes, all_payloads).subrange(0, i as int),
        decreases n - i,
    {
        let mut code: Vec<u8> = Vec::new();
        std::mem::swap(&mut code, &mut codes[i]);
        let mut payload = Payload { bytes: Vec::new(), norm: None };
        std::mem::swap(&mut payload, &mut payloads[i]);
        out.push(
            IvfRow { local_doc_id: i as u32, code, payload: payload.bytes, norm: payload.norm },
        );
        i = i + 1;
        proof {
            assert(out@ =~= streamed(all_codes, all_payloads).subrange(0, i as int));
        }
    }
    proof {
        assert(out@ =~= streamed(all_codes, all_payloads));
    }
    out
}

/// Take over rows that were encoded before, and their stable ids by document.
pub fn carry_rows(
    rows: Vec<MaterializedIvfRow>,
    order: &Vec<usize>,
    payloads: Vec<Payload>,
) -> (r: (Vec<IvfRow>, Vec<i128>))
    requires
        is_order(order@, rows@.len() as int),
        payloads@.len() == rows@.len(),
        forall|i: int| 0 <= i < rows@.len() ==> (#[trigger] rows@[i]).local_doc_id < rows@.len(),
    ensures
        r.0@ == carried(rows@, order@, payloads@),
        r.1@.len() == rows@.len(),
        forall|d: int|
            0 <= d < rows@.len() ==> #[trigger] r.1@[d] == stable_of(
                id_pairs(rows@, order@),
                rows@.len(),
                d,
            ),
{
    let ghost all_rows = rows@;
    let ghost all_payloads = payloads@;
    let mut rows = rows;
    let mut payloads = payloads;
    let n: usize = rows.len();
    let mut pairs: Vec<(u32, i128)> = Vec::new();
    let mut out: Vec<IvfRow> = Vec::new();
    let mut i: usize = 0;
    while i < n
        invariant
            i <= n,
            n == all_rows.len(),
            n == all_payloads.len(),
            rows@.len() == n,
            payloads@.len() == n,
            is_order(order@, n as int),
            forall|j: int| i <= j < n ==> rows@[#[trigger] order@[j] as int] == all_rows[order@[j] as int],
            forall|j: int| i <= j < n ==> #[trigger] payloads@[j] == all_payloads[j],
            pairs@ == id_pairs(all_rows, order@).subrange(0, i as int),
            out@ == carried(all_rows, order@, all_payloads).subrange(0, i as int),
        decreases n - i,
    {
        let at: usize = order[i];
        assert(order@[i as int] < n);
        assert(rows@[at as int] == all_rows[at as int]);
        let ghost before = rows@;
        pairs.push((rows[at].local_doc_id, rows[at].stable_id));
        let id: u32 = rows[at].local_doc_id;
        let mut code: Vec<u8> = Vec::new();
        std::mem::swap(&mut code, &mut rows[at].rabitq_code);
        let mut payload = Payload { bytes: Vec::new(), norm: None };
        std::mem::swap(&mut payload, &mut payloads[i]);
        out.push(IvfRow { local_doc_id: id, code, payload: payload.bytes, norm: payload.norm });
        proof {
            assert forall|j: int| i + 1 <= j < n implies rows@[#[trigger] order@[j] as int]
                == all_rows[order@[j] as int] by {
                assert(order@[j] != order@[i as int]);
                assert(before[order@[j] as int] == all_rows[order@[j] as int]);
            }
        }
        i = i + 1;
        proof {
            assert(pairs@ =~= id_pairs(all_rows, order@).subrange(0, i as int));
            assert(out@ =~= carried(all_rows, order@, all_payloads).subrange(0, i as int));
        }
    }
    proof {
        assert(pairs@ =~= id_pairs(all_rows, order@));
        assert(out@ =~= carried(all_rows, order@, all_payloads));
        assert forall|j: int| 0 <= j < pairs@.len() implies (#[trigger] pairs@[j]).0 < n by {
            assert(order@[j] < n);
            assert(all_rows[order@[j] as int].local_doc_id < n);
        }
    }
    let stable = stable_region(&pairs, n);
    (out, stable)
}

/// Provided centroids are all used, whatever was asked for; else the count is
/// bounded by what was asked for, the cap, the rows and the sample.
pub proof fn law_column_takes_its_provided_centroids(
    cfg: VectorConfig,
    count: int,
    n_docs: int,
    sample_rows: int,
    cap: int,
)
    requires
        cfg.dim > 0,
        cap >= 1,
        count >= 1,
    ensures
        cfg.provided_centroids is Some && cfg.provided_centroids->0@.len() == count * cfg.dim
            ==> column_centroids(cfg, n_docs, sample_rows, cap) == count,
        cfg.provided_centroids is None ==> 1 <= column_centroids(cfg, n_docs, sample_rows, cap)
            <= cap,
        cfg.provided_centroids is None && cfg.n_cent >= 1 && n_docs >= cfg.n_cent && sample_rows
            >= cfg.n_cent && cap >= cfg.n_cent ==> column_centroids(cfg, n_docs, sample_rows, cap)
            == cfg.n_cent,
{
    if cfg.provided_centroids is Some && cfg.provided_centroids->0@.len() == count * cfg.dim {
        assert(count * cfg.dim == cfg.dim * count) by (nonlinear_arith);
        vstd::arithmetic::div_mod::lemma_fundamental_div_mod_converse(
            count * cfg.dim,
            cfg.dim as int,
            count,
            0,
        );
    }
}

} // verus!
