//! One column's clustered-index subsection: region layout, cluster index and
//! byte assembly.
//!
//! ```text
//! sub-header | summary centroid | centroids | cluster index | codec meta
//! [stable ids] | per-cluster blocks | checksum
//! ```
//!
//! Each block holds the 1-bit codes, the document ids and the rerank payload
//! of one cluster's rows, so that one range covers all that a probe needs.
use vstd::prelude::*;

use crate::codes::Metric;
use crate::float_bits::{f32_lt, f32_nan, less32};

verus! {

/// Size of the outer header: magic, version, column count, document count and
/// directory offset.
pub const OUTER_HEADER_SIZE: usize = 32;

/// Size of a directory entry.
pub const DIR_ENTRY_SIZE: usize = 64;

/// Size of the header of a subsection.
pub const SUB_HEADER_SIZE: usize = 56;

/// Size of a cluster-index entry: first row and row count.
pub const CLUSTER_IDX_ENTRY_BYTES: usize = 8;

/// Size of a stored document id.
pub const DOC_ID_BYTES: usize = 4;

/// Size of a stored stable id.
pub const STABLE_ID_BYTES: usize = 16;

/// Size of a checksum.
pub const CRC_BYTES: usize = 4;

/// The bytes `INFIVFS1`, read as a little-endian number.
pub const SUB_MAGIC: u64 = 0x3153_4656_4946_4E49;

/// Version of the subsection layout.
pub const SUBSECTION_VERSION: u32 = 2;

/// Smallest accepted vector dimension.
pub const VECTOR_DIM_MIN: usize = 16;

/// Largest accepted vector dimension.
pub const VECTOR_DIM_MAX: usize = 4096;

/// Budget for one rotated chunk.
pub const PASS2_CHUNK_MEM_BUDGET_BYTES: usize = 134_217_728;

/// Fewest rows of a chunk.
pub const PASS2_CHUNK_ROWS_MIN: usize = 1024;

/// Most rows of a chunk.
pub const PASS2_CHUNK_ROWS_MAX: usize = 65_536;

pub const N_CENT_LARGE_DOC_THRESHOLD: usize = 5_000_000;

pub const N_CENT_LARGE: usize = 4096;

pub const N_CENT_MEDIUM_DOC_THRESHOLD: usize = 100_000;

pub const N_CENT_MEDIUM: usize = 1024;

pub const N_CENT_SMALL: usize = 64;

/// How the rerank payload of a row is stored.
#[derive(Clone, Copy, Debug, PartialEq, Eq, Structural)]
pub enum RerankCodec {
    /// The vector itself.
    Fp32,
    /// 8-bit codes on a per-cluster ruler, with an 8-bit residual each.
    Sq8Residual,
    /// Nothing: the 1-bit codes are the final answer.
    RabitqOnly,
}

impl Default for RerankCodec {
    fn default() -> (r: Self)
        ensures
            r == RerankCodec::Sq8Residual,
    {
        RerankCodec::Sq8Residual
    }
}

impl RerankCodec {
    pub open spec fn id(self) -> u8 {
        match self {
            RerankCodec::Fp32 => 0,
            RerankCodec::Sq8Residual => 1,
            RerankCodec::RabitqOnly => 2,
        }
    }

    /// Bytes of rerank payload per row.
    pub open spec fn row_bytes(self, dim: int) -> int {
        match self {
            RerankCodec::Fp32 => 4 * dim,
            RerankCodec::Sq8Residual => 2 * dim,
            RerankCodec::RabitqOnly => 0,
        }
    }

    /// Bytes of the codec-meta region: rulers of every cluster, and one norm
    /// per row where the metric needs them.
    pub open spec fn meta_bytes(self, dim: int, n_docs: int, n_cent: int, metric: Metric) -> int {
        match self {
            RerankCodec::Sq8Residual => 8 * (n_cent * dim) + (if metric == Metric::NegDot {
                0
            } else {
                4 * n_docs
            }),
            _ => 0,
        }
    }

    /// Discriminator stored in the directory.
    pub fn codec_id(self) -> (r: u8)
        ensures
            r == self.id(),
    {
        match self {
            RerankCodec::Fp32 => 0,
            RerankCodec::Sq8Residual => 1,
            RerankCodec::RabitqOnly => 2,
        }
    }

    /// Whether rows can be written with the codec.
    pub fn is_implemented(self) -> (r: bool)
        ensures
            r == true,
    {
        true
    }

    /// Whether full vectors are kept until the rows are written.
    pub fn writes_full(self) -> (r: bool)
        ensures
            r == (self != RerankCodec::RabitqOnly),
    {
        match self {
            RerankCodec::RabitqOnly => false,
            _ => true,
        }
    }

    pub fn name(self) -> (r: &'static str)
        ensures
            r@ == (match self {
                RerankCodec::Fp32 => "fp32"@,
                RerankCodec::Sq8Residual => "sq8_residual"@,
                RerankCodec::RabitqOnly => "rabitq_only"@,
            }),
    {
        match self {
            RerankCodec::Fp32 => "fp32",
            RerankCodec::Sq8Residual => "sq8_residual",
            RerankCodec::RabitqOnly => "rabitq_only",
        }
    }
}

pub open spec fn metric_id_of(m: Metric) -> u32 {
    match m {
        Metric::L2Sq => 0,
        Metric::Cosine => 1,
        Metric::NegDot => 2,
    }
}

/// Metric of a directory entry.
pub fn metric_id(m: Metric) -> (r: u32)
    ensures
        r == metric_id_of(m),
{
    match m {
        Metric::L2Sq => 0,
        Metric::Cosine => 1,
        Metric::NegDot => 2,
    }
}

// ---------------- sizes ----------------

/// Most centroids for a number of rows.
pub open spec fn centroid_cap(n_docs: int) -> int {
    if n_docs >= 5_000_000 {
        4096
    } else if n_docs >= 100_000 {
        1024
    } else {
        64
    }
}

/// Most centroids for a number of rows; no cap where the count is set
/// explicitly.
pub fn n_cent_row_count_cap(n_docs: usize, explicit: bool) -> (r: usize)
    ensures
        r == (if explicit {
            usize::MAX as int
        } else {
            centroid_cap(n_docs as int)
        }),
{
    if explicit {
        usize::MAX
    } else if n_docs >= N_CENT_LARGE_DOC_THRESHOLD {
        N_CENT_LARGE
    } else if n_docs >= N_CENT_MEDIUM_DOC_THRESHOLD {
        N_CENT_MEDIUM
    } else {
        N_CENT_SMALL
    }
}

pub open spec fn least(a: int, b: int) -> int {
    if a <= b {
        a
    } else {
        b
    }
}

pub open spec fn at_least_one(a: int) -> int {
    if a >= 1 {
        a
    } else {
        1
    }
}

/// The centroid count that is trained: what was asked for, bounded by the cap,
/// the rows and the sample, and never 0.
pub open spec fn trained_centroids(asked: int, cap: int, n_docs: int, sample_rows: int) -> int {
    least(least(least(at_least_one(asked), cap), at_least_one(n_docs)), at_least_one(sample_rows))
}

/// The centroid count that is trained.
pub fn physical_n_cent(asked: usize, cap: usize, n_docs: usize, sample_rows: usize) -> (r: usize)
    requires
        cap >= 1,
    ensures
        r == trained_centroids(asked as int, cap as int, n_docs as int, sample_rows as int),
        1 <= r,
        n_docs >= 1 ==> r <= n_docs,
        sample_rows >= 1 ==> r <= sample_rows,
        r <= cap,
{
    let mut n: usize = if asked >= 1 {
        asked
    } else {
        1
    };
    if cap < n {
        n = cap;
    }
    let docs: usize = if n_docs >= 1 {
        n_docs
    } else {
        1
    };
    if docs < n {
        n = docs;
    }
    let sample: usize = if sample_rows >= 1 {
        sample_rows
    } else {
        1
    };
    if sample < n {
        n = sample;
    }
    n
}

/// Rows of a chunk: as many as the budget holds, within the bounds.
pub open spec fn chunk_rows_of(dim: int) -> int {
    let fit = 134_217_728int / (at_least_one(dim) * 4);
    if fit < 1024 {
        1024
    } else if fit > 65_536 {
        65_536
    } else {
        fit
    }
}

/// Rows of a chunk of `dim`-wide vectors.
pub fn chunk_rows_for_dim(dim: usize) -> (r: usize)
    requires
        dim <= usize::MAX / 4,
    ensures
        r == chunk_rows_of(dim as int),
        1024 <= r <= 65_536,
{
    let width: usize = if dim >= 1 {
        dim
    } else {
        1
    };
    let fit: usize = PASS2_CHUNK_MEM_BUDGET_BYTES / (width * 4);
    if fit < PASS2_CHUNK_ROWS_MIN {
        PASS2_CHUNK_ROWS_MIN
    } else if fit > PASS2_CHUNK_ROWS_MAX {
        PASS2_CHUNK_ROWS_MAX
    } else {
        fit
    }
}

/// The row that the `s`-th sample is taken from: all rows where the sample
/// holds them all, else evenly spread ones.
pub fn sample_index(s: usize, n_docs: usize, sample_size: usize) -> (r: usize)
    requires
        s < sample_size <= n_docs,
        n_docs <= u32::MAX,
    ensures
        r == (if sample_size == n_docs {
            s as int
        } else {
            s * n_docs / sample_size as int
        }),
        r * sample_size <= s * n_docs < (r + 1) * sample_size,
        r < n_docs,
{
    proof {
        let a = s * n_docs;
        let q = a / sample_size as int;
        assert(q * sample_size <= a < (q + 1) * sample_size) by (nonlinear_arith)
            requires
                sample_size > 0,
                q == a / sample_size as int,
        ;
        assert(s * sample_size < (s + 1) * sample_size) by (nonlinear_arith)
            requires
                sample_size > 0,
        ;
    }
    if sample_size == n_docs {
        s
    } else {
        proof {
            assert(0 <= s * n_docs < 0xffff_ffff * 0x1_0000_0000) by (nonlinear_arith)
                requires
                    0 <= s < 0xffff_ffff,
                    0 <= n_docs <= 0xffff_ffff,
            ;
            assert(s * n_docs / sample_size as int >= 0 && s * n_docs / (sample_size as int) < n_docs)
                by (nonlinear_arith)
                requires
                    0 <= s < sample_size,
                    n_docs > 0,
                    sample_size > 0,
            ;
        }
        ((s as u128) * (n_docs as u128) / (sample_size as u128)) as usize
    }
}

/// Byte offsets of the regions of a subsection.
#[derive(Clone, Copy, Debug, PartialEq, Eq, Structural)]
pub struct IvfSubsectionLayout {
    pub summary_off: usize,
    pub centroids_off: usize,
    pub cluster_idx_off: usize,
    /// Start of the codec-meta region.
    pub codec_meta_off: usize,
    pub per_cluster_blocks_off: usize,
    /// Start of the stable-id region, where there is one.
    pub stable_ids_off: Option<usize>,
    pub total_size_before_crc: usize,
}

/// Size of everything before the checksum.
pub open spec fn subsection_size(
    dim: int,
    n_cent: int,
    n_docs: int,
    stride: int,
    meta: int,
    stable: int,
) -> int {
    56 + 4 * dim + 4 * (n_cent * dim) + 8 * n_cent + meta + stable + n_docs * stride
}

impl IvfSubsectionLayout {
    /// Place the regions one behind the other. The stable-id region, if any,
    /// stands between codec meta and blocks, so that the blocks stay last.
    pub fn compute(
        dim: usize,
        n_cent: usize,
        n_docs: usize,
        per_cluster_stride: usize,
        codec_meta_size: usize,
        stable_ids_region_bytes: usize,
    ) -> (r: Self)
        requires
            subsection_size(
                dim as int,
                n_cent as int,
                n_docs as int,
                per_cluster_stride as int,
                codec_meta_size as int,
                stable_ids_region_bytes as int,
            ) <= usize::MAX,
        ensures
            r.summary_off == 56,
            r.centroids_off == 56 + 4 * dim,
            r.cluster_idx_off == 56 + 4 * dim + 4 * (n_cent * dim),
            r.codec_meta_off == r.cluster_idx_off + 8 * n_cent,
            r.stable_ids_off == (if stable_ids_region_bytes > 0 {
                Some((r.codec_meta_off + codec_meta_size) as usize)
            } else {
                None
            }),
            r.per_cluster_blocks_off == r.codec_meta_off + codec_meta_size
                + stable_ids_region_bytes,
            r.total_size_before_crc == subsection_size(
                dim as int,
                n_cent as int,
                n_docs as int,
                per_cluster_stride as int,
                codec_meta_size as int,
                stable_ids_region_bytes as int,
            ),
    {
        proof {
            assert(0 <= n_cent * dim) by (nonlinear_arith)
                requires
                    0 <= n_cent,
                    0 <= dim,
            ;
            assert(0 <= n_docs * per_cluster_stride) by (nonlinear_arith)
                requires
                    0 <= n_docs,
                    0 <= per_cluster_stride,
            ;
        }
        let summary_off: usize = SUB_HEADER_SIZE;
        let centroids_off: usize = summary_off + dim * 4;
        let cluster_idx_off: usize = centroids_off + n_cent * dim * 4;
        let codec_meta_off: usize = cluster_idx_off + n_cent * CLUSTER_IDX_ENTRY_BYTES;
        let codec_meta_end: usize = codec_meta_off + codec_meta_size;
        let stable_ids_off: Option<usize> = if stable_ids_region_bytes > 0 {
            Some(codec_meta_end)
        } else {
            None
        };
        let per_cluster_blocks_off: usize = codec_meta_end + stable_ids_region_bytes;
        let total_size_before_crc: usize = per_cluster_blocks_off + n_docs * per_cluster_stride;
        IvfSubsectionLayout {
            summary_off,
            centroids_off,
            cluster_idx_off,
            codec_meta_off,
            per_cluster_blocks_off,
            stable_ids_off,
            total_size_before_crc,
        }
    }
}

/// The regions follow each other without a gap, in the order in which a reader
/// needs them, and the blocks run to the end.
pub proof fn law_regions_are_contiguous(
    dim: int,
    n_cent: int,
    n_docs: int,
    stride: int,
    meta: int,
    stable: int,
)
    requires
        0 <= dim,
        0 <= n_cent,
        0 <= n_docs,
        0 <= stride,
        0 <= meta,
        0 <= stable,
    ensures
        subsection_size(dim, n_cent, n_docs, stride, meta, stable) - n_docs * stride
            == subsection_size(dim, n_cent, 0, stride, meta, stable),
        subsection_size(dim, n_cent, n_docs, stride, meta, stable) >= 56,
{
    assert(0 * stride == 0);
    assert(0 <= n_cent * dim) by (nonlinear_arith)
        requires
            0 <= n_cent,
            0 <= dim,
    ;
    assert(0 <= n_docs * stride) by (nonlinear_arith)
        requires
            0 <= n_docs,
            0 <= stride,
    ;
}

// ---------------- clusters ----------------

/// Place of the first number that no other is below, starting from infinity:
/// a row goes to its nearest centroid, to the first of equally near ones, and
/// to the first centroid where no distance is below infinity.
pub open spec fn first_nearest(dists: Seq<u32>, n: nat) -> (int, u32)
    decreases n,
{
    if n == 0 {
        (0, crate::float_bits::F32_INFINITY)
    } else {
        let best = first_nearest(dists, (n - 1) as nat);
        if f32_lt(dists[n - 1], best.1) {
            (n - 1, dists[n - 1])
        } else {
            best
        }
    }
}

/// No distance is below that of the chosen place, and none before it equals
/// it as nearest.
pub proof fn law_first_nearest(dists: Seq<u32>, n: nat, i: int)
    requires
        n <= dists.len(),
        0 <= i < n,
    ensures
        0 <= first_nearest(dists, n).0 < n,
        !f32_lt(dists[i], first_nearest(dists, n).1),
        first_nearest(dists, n).1 == crate::float_bits::F32_INFINITY || first_nearest(dists, n).1
            == dists[first_nearest(dists, n).0],
        i < first_nearest(dists, n).0 ==> f32_lt(first_nearest(dists, n).1, dists[i])
            || crate::float_bits::f32_nan(dists[i]),
    decreases n,
{
    reveal_with_fuel(first_nearest, 2);
    if n > 1 {
        if i < n - 1 {
            law_first_nearest(dists, (n - 1) as nat, i);
        } else {
            law_first_nearest(dists, (n - 1) as nat, 0);
        }
    }
}

/// The centroid that a row with these distances goes to.
pub fn nearest_centroid(dists: &Vec<u32>) -> (r: usize)
    ensures
        r == first_nearest(dists@, dists@.len()).0,
        dists@.len() > 0 ==> r < dists@.len(),
{
    let mut best_c: usize = 0;
    let mut best: u32 = crate::float_bits::F32_INFINITY;
    let mut i: usize = 0;
    while i < dists.len()
        invariant
            i <= dists@.len(),
            first_nearest(dists@, i as nat) == (best_c as int, best),
            best_c < i || best_c == 0,
        decreases dists.len() - i,
    {
        if less32(dists[i], best) {
            best = dists[i];
            best_c = i;
        }
        i = i + 1;
    }
    best_c
}

/// The rows of cluster `c` among the first `n`, in row order.
pub open spec fn members(assign: Seq<u32>, c: int, n: nat) -> Seq<usize>
    decreases n,
{
    if n == 0 {
        Seq::empty()
    } else if assign[n - 1] == c {
        members(assign, c, (n - 1) as nat).push((n - 1) as usize)
    } else {
        members(assign, c, (n - 1) as nat)
    }
}

/// Every row stands in the list of the cluster it is assigned to.
pub proof fn law_members_hold_their_rows(assign: Seq<u32>, n: nat, row: int)
    requires
        0 <= row < n <= assign.len(),
        n <= usize::MAX,
    ensures
        members(assign, assign[row] as int, n).contains(row as usize),
    decreases n,
{
    let c = assign[row] as int;
    let all = members(assign, c, n);
    if row == n - 1 {
        assert(all[all.len() - 1] == row as usize);
    } else {
        law_members_hold_their_rows(assign, (n - 1) as nat, row);
        let rest = members(assign, c, (n - 1) as nat);
        let i = choose|i: int| 0 <= i < rest.len() && rest[i] == row as usize;
        assert(all[i] == row as usize);
    }
}

/// Sort rows into the lists of their clusters, keeping row order.
pub fn bucket_rows(assign: &Vec<u32>, n_cent: usize) -> (r: Vec<Vec<usize>>)
    requires
        forall|i: int| 0 <= i < assign@.len() ==> #[trigger] assign@[i] < n_cent,
    ensures
        r@.len() == n_cent,
        forall|c: int|
            0 <= c < n_cent ==> (#[trigger] r@[c])@ == members(assign@, c, assign@.len()),
{
    let mut out: Vec<Vec<usize>> = Vec::new();
    let mut c: usize = 0;
    while c < n_cent
        invariant
            c <= n_cent,
            out@.len() == c,
            forall|q: int| 0 <= q < c ==> (#[trigger] out@[q])@ == members(assign@, q, 0),
        decreases n_cent - c,
    {
        out.push(Vec::new());
        c = c + 1;
    }
    let mut i: usize = 0;
    while i < assign.len()
        invariant
            i <= assign@.len(),
            forall|j: int| 0 <= j < assign@.len() ==> #[trigger] assign@[j] < n_cent,
            out@.len() == n_cent,
            forall|q: int| 0 <= q < n_cent ==> (#[trigger] out@[q])@ == members(assign@, q, i as nat),
        decreases assign.len() - i,
    {
        let to: usize = assign[i] as usize;
        assert(assign@[i as int] < n_cent);
        let ghost before = out@;
        out[to].push(i);
        proof {
            assert forall|q: int| 0 <= q < n_cent implies (#[trigger] out@[q])@ == members(
                assign@,
                q,
                (i + 1) as nat,
            ) by {
                assert(before[q]@ == members(assign@, q, i as nat));
            }
        }
        i = i + 1;
    }
    out
}

// ---------------- what the sizes and choices stand for ----------------

/// The trained count is the smallest of what was asked for, the cap, the rows
/// and the sample, none of them taken as less than 1.
pub proof fn law_trained_count_is_the_tightest_bound(
    asked: int,
    cap: int,
    n_docs: int,
    sample_rows: int,
)
    requires
        cap >= 1,
    ensures
        ({
            let r = trained_centroids(asked, cap, n_docs, sample_rows);
            &&& 1 <= r <= cap
            &&& asked >= 1 ==> r <= asked
            &&& asked < 1 ==> r == 1
            &&& n_docs >= 1 ==> r <= n_docs
            &&& n_docs < 1 ==> r == 1
            &&& sample_rows >= 1 ==> r <= sample_rows
            &&& sample_rows < 1 ==> r == 1
            &&& r == 1 || r == asked || r == cap || r == n_docs || r == sample_rows
            &&& r < asked && r < cap && r < n_docs ==> r == sample_rows || sample_rows < 1
            &&& r < asked && r < cap && r < sample_rows ==> r == n_docs || n_docs < 1
            &&& r < asked && r < n_docs && r < sample_rows ==> r == cap
        }),
{
}

/// The cap by row count: 64 below a hundred thousand rows, 1024 below five
/// million, 4096 from there on; it never falls as rows are added.
pub proof fn law_centroid_cap_grows_with_rows(few: int, many: int)
    requires
        few <= many,
    ensures
        centroid_cap(few) <= centroid_cap(many),
        few < 100_000 <==> centroid_cap(few) == 64,
        100_000 <= few < 5_000_000 <==> centroid_cap(few) == 1024,
        few >= 5_000_000 <==> centroid_cap(few) == 4096,
{
}

/// A chunk has as many rows as the budget of 128 MiB holds, but at least 1024
/// and at most 65536.
pub proof fn law_chunk_fills_the_budget(dim: int)
    requires
        dim >= 1,
    ensures
        1024 <= chunk_rows_of(dim) <= 65_536,
        chunk_rows_of(dim) > 1024 ==> chunk_rows_of(dim) * (4 * dim) <= 134_217_728,
        chunk_rows_of(dim) < 65_536 ==> (chunk_rows_of(dim) + 1) * (4 * dim) > 134_217_728,
{
    let w = dim * 4;
    let fit = 134_217_728int / w;
    vstd::arithmetic::div_mod::lemma_fundamental_div_mod(134_217_728, w);
    let r = chunk_rows_of(dim);
    assert(r > 1024 ==> r * w <= 134_217_728) by (nonlinear_arith)
        requires
            134_217_728 == w * fit + 134_217_728int % w,
            0 <= 134_217_728int % w < w,
            r > 1024 ==> r <= fit,
            w > 0,
    ;
    assert(r < 65_536 ==> (r + 1) * w > 134_217_728) by (nonlinear_arith)
        requires
            134_217_728 == w * fit + 134_217_728int % w,
            0 <= 134_217_728int % w < w,
            r < 65_536 ==> r >= fit,
            w > 0,
    ;
}

/// Place `i` holds the first of the least distances.
pub open spec fn first_least_at(dists: Seq<u32>, i: int) -> bool {
    &&& 0 <= i < dists.len()
    &&& f32_lt(dists[i], 0x7f80_0000)
    &&& forall|j: int| 0 <= j < dists.len() ==> !f32_lt(#[trigger] dists[j], dists[i])
    &&& forall|j: int|
        0 <= j < i ==> f32_lt(dists[i], #[trigger] dists[j]) || f32_nan(dists[j])
}

proof fn lemma_first_nearest(dists: Seq<u32>, n: nat)
    requires
        n <= dists.len(),
    ensures
        ({
            let best = first_nearest(dists, n);
            &&& best.1 == 0x7f80_0000 ==> best.0 == 0
            &&& best.1 != 0x7f80_0000 ==> 0 <= best.0 < n && best.1 == dists[best.0] && f32_lt(
                best.1,
                0x7f80_0000,
            )
            &&& forall|j: int| 0 <= j < n ==> !f32_lt(#[trigger] dists[j], best.1)
            &&& best.1 != 0x7f80_0000 ==> forall|j: int|
                0 <= j < best.0 ==> f32_lt(best.1, #[trigger] dists[j]) || f32_nan(dists[j])
        }),
    decreases n,
{
    if n > 0 {
        lemma_first_nearest(dists, (n - 1) as nat);
    }
}

/// A row goes to the first of its nearest centroids; to the first centroid of
/// all where no distance is below infinity.
pub proof fn law_row_goes_to_its_nearest_centroid(dists: Seq<u32>)
    ensures
        forall|i: int| #[trigger]
            first_least_at(dists, i) ==> first_nearest(dists, dists.len()).0 == i,
        (exists|j: int| 0 <= j < dists.len() && f32_lt(#[trigger] dists[j], 0x7f80_0000))
            ==> first_least_at(dists, first_nearest(dists, dists.len()).0),
        (forall|j: int| 0 <= j < dists.len() ==> !f32_lt(#[trigger] dists[j], 0x7f80_0000))
            ==> first_nearest(dists, dists.len()).0 == 0,
{
    lemma_first_nearest(dists, dists.len());
    let best = first_nearest(dists, dists.len());
    if best.1 != 0x7f80_0000 {
        assert(first_least_at(dists, best.0));
        assert forall|i: int| #[trigger] first_least_at(dists, i) implies best.0 == i by {
            assert(!f32_lt(dists[i], dists[best.0]));
            assert(!f32_lt(dists[best.0], dists[i]));
        }
    } else {
        assert forall|i: int| #[trigger] first_least_at(dists, i) implies best.0 == i by {
            assert(!f32_lt(dists[i], best.1));
        }
    }
}

/// A cluster's list holds the rows that are assigned to it, all of them and no
/// others, in row order and each once.
pub proof fn law_members_are_the_assigned_rows(assign: Seq<u32>, c: int, n: nat)
    requires
        n <= assign.len() <= usize::MAX,
    ensures
        forall|row: usize| #[trigger]
            members(assign, c, n).contains(row) <==> row < n && assign[row as int] == c,
        forall|i: int, j: int|
            0 <= i < j < members(assign, c, n).len() ==> (#[trigger] members(assign, c, n)[i]) < (
            #[trigger] members(assign, c, n)[j]),
    decreases n,
{
    let all = members(assign, c, n);
    if n > 0 {
        let less = members(assign, c, (n - 1) as nat);
        law_members_are_the_assigned_rows(assign, c, (n - 1) as nat);
        assert forall|row: usize| #[trigger] all.contains(row) <==> row < n && assign[row as int]
            == c by {
            if less.contains(row) {
                let i = choose|i: int| 0 <= i < less.len() && less[i] == row;
                assert(all[i] == row);
            }
            if all.contains(row) {
                let i = choose|i: int| 0 <= i < all.len() && all[i] == row;
                if i < less.len() {
                    assert(less[i] == row);
                }
            }
            if row == n - 1 && assign[row as int] == c {
                assert(all[less.len() as int] == row);
            }
        }
        assert forall|i: int, j: int| 0 <= i < j < all.len() implies (#[trigger] all[i]) < (
        #[trigger] all[j]) by {
            if j == less.len() {
                assert(less.contains(less[i]));
            } else {
                assert(less[i] < less[j]);
            }
        }
    }
}

} // verus!
