//! Byte assembly of one column's clustered-index subsection.
use vstd::prelude::*;

use crate::checksum::{crc32c, crc32c_of};
use crate::codes::Metric;
use crate::ivf::{
    members, subsection_size, IvfSubsectionLayout, RerankCodec, SUBSECTION_VERSION, SUB_MAGIC,
};
use crate::wire::{
    field, i128_pattern, le_bytes, lemma_field_of_bytes, lemma_le_bytes_len, lemma_pow256_values,
    lemma_word_bytes_len, put_i128, put_slice, put_u32, put_u64, put_words, word_bytes,
};

verus! {

/// One row of a cluster, encoded.
#[derive(Debug)]
pub struct IvfRow {
    pub local_doc_id: u32,
    /// The 1-bit code.
    pub code: Vec<u8>,
    /// The rerank payload.
    pub payload: Vec<u8>,
    /// Binary32 pattern of the squared norm, where the codec gives one.
    pub norm: Option<u32>,
}

/// What a subsection is assembled from. Vectors and rulers are binary32
/// patterns; `scales` and `offsets` hold one ruler per cluster for the codec
/// that has rulers.
#[derive(Debug)]
pub struct IvfParts {
    pub dim: usize,
    pub metric: Metric,
    pub codec: RerankCodec,
    pub code_bytes: usize,
    pub summary: Vec<u32>,
    pub centroids: Vec<u32>,
    pub scales: Vec<u32>,
    pub offsets: Vec<u32>,
    /// Rows by cluster.
    pub clusters: Vec<Vec<IvfRow>>,
    /// Physical order of the clusters.
    pub order: Vec<usize>,
    /// Stable ids by document, where they are stored inline.
    pub stable_ids: Option<Vec<i128>>,
}

/// An assembled subsection, with what its directory entry repeats.
#[derive(Debug)]
pub struct SubsectionBytes {
    pub bytes: Vec<u8>,
    /// Centroids written; may be fewer than were asked for.
    pub n_cent: usize,
    pub summary_offset_in_sub: usize,
    /// 0 where there is no codec meta.
    pub codec_meta_offset_in_sub: usize,
    pub codec_meta_size: usize,
}

// ---------------- contents ----------------

/// The codes of the first `n` rows.
pub open spec fn row_codes(rows: Seq<IvfRow>, n: nat) -> Seq<u8>
    decreases n,
{
    if n == 0 {
        Seq::empty()
    } else {
        row_codes(rows, (n - 1) as nat) + rows[n - 1].code@
    }
}

/// The document ids of the first `n` rows.
pub open spec fn row_ids(rows: Seq<IvfRow>, n: nat) -> Seq<u8>
    decreases n,
{
    if n == 0 {
        Seq::empty()
    } else {
        row_ids(rows, (n - 1) as nat) + le_bytes(rows[n - 1].local_doc_id as nat, 4)
    }
}

/// The payloads of the first `n` rows.
pub open spec fn row_payloads(rows: Seq<IvfRow>, n: nat) -> Seq<u8>
    decreases n,
{
    if n == 0 {
        Seq::empty()
    } else {
        row_payloads(rows, (n - 1) as nat) + rows[n - 1].payload@
    }
}

/// The norms of the first `n` rows, 0 where there is none.
pub open spec fn row_norms(rows: Seq<IvfRow>, n: nat) -> Seq<u8>
    decreases n,
{
    if n == 0 {
        Seq::empty()
    } else {
        row_norms(rows, (n - 1) as nat) + le_bytes(
            (match rows[n - 1].norm {
                Some(x) => x as nat,
                None => 0,
            }),
            4,
        )
    }
}

/// A cluster's block: codes, then ids, then payloads.
pub open spec fn block(rows: Seq<IvfRow>) -> Seq<u8> {
    row_codes(rows, rows.len()) + row_ids(rows, rows.len()) + row_payloads(rows, rows.len())
}

/// The blocks of the first `n` clusters in physical order.
pub open spec fn blocks(clusters: Seq<Vec<IvfRow>>, order: Seq<usize>, n: nat) -> Seq<u8>
    decreases n,
{
    if n == 0 {
        Seq::empty()
    } else {
        blocks(clusters, order, (n - 1) as nat) + block(clusters[order[n - 1] as int]@)
    }
}

/// The norms of the first `n` clusters in physical order.
pub open spec fn norms(clusters: Seq<Vec<IvfRow>>, order: Seq<usize>, n: nat) -> Seq<u8>
    decreases n,
{
    if n == 0 {
        Seq::empty()
    } else {
        norms(clusters, order, (n - 1) as nat) + row_norms(
            clusters[order[n - 1] as int]@,
            clusters[order[n - 1] as int]@.len(),
        )
    }
}

/// Rows of the first `n` clusters in physical order.
pub open spec fn rows_before(clusters: Seq<Vec<IvfRow>>, order: Seq<usize>, n: nat) -> nat
    decreases n,
{
    if n == 0 {
        0
    } else {
        rows_before(clusters, order, (n - 1) as nat) + clusters[order[n - 1] as int]@.len()
    }
}

/// Place of cluster `c` in the physical order.
pub open spec fn place_of(order: Seq<usize>, c: int) -> int {
    order.index_of(c as usize)
}

/// The index entries of clusters `0..n`: first row and row count, by id.
pub open spec fn index_entries(clusters: Seq<Vec<IvfRow>>, order: Seq<usize>, n: nat) -> Seq<u8>
    decreases n,
{
    if n == 0 {
        Seq::empty()
    } else {
        index_entries(clusters, order, (n - 1) as nat) + le_bytes(
            (rows_before(clusters, order, place_of(order, n - 1) as nat) as u32) as nat,
            4,
        ) + le_bytes((clusters[n - 1]@.len() as u32) as nat, 4)
    }
}

/// The first `n` stable ids.
pub open spec fn stable_bytes(ids: Seq<i128>, n: nat) -> Seq<u8>
    decreases n,
{
    if n == 0 {
        Seq::empty()
    } else {
        stable_bytes(ids, (n - 1) as nat) + le_bytes(i128_pattern(ids[n - 1]) as nat, 16)
    }
}

/// `order` names each of `0..n` once.
pub open spec fn is_order(order: Seq<usize>, n: int) -> bool {
    &&& order.len() == n
    &&& order.no_duplicates()
    &&& forall|k: int| 0 <= k < order.len() ==> (#[trigger] order[k]) < n
    &&& forall|c: usize| c < n ==> #[trigger] order.contains(c)
}

impl IvfParts {
    pub open spec fn n_cent(&self) -> int {
        self.clusters@.len() as int
    }

    pub open spec fn n_docs(&self) -> int {
        rows_before(self.clusters@, self.order@, self.order@.len()) as int
    }

    pub open spec fn stride(&self) -> int {
        self.code_bytes + 4 + self.codec.row_bytes(self.dim as int)
    }

    pub open spec fn meta_size(&self) -> int {
        self.codec.meta_bytes(self.dim as int, self.n_docs(), self.n_cent(), self.metric)
    }

    pub open spec fn stable_size(&self) -> int {
        match self.stable_ids {
            Some(ids) => (16 * ids@.len()) as int,
            None => 0,
        }
    }

    /// The codec-meta region: rulers of every cluster by id, then, where the
    /// metric needs them, the norms in physical row order.
    pub open spec fn meta(&self) -> Seq<u8> {
        match self.codec {
            RerankCodec::Sq8Residual => word_bytes(self.scales@) + word_bytes(self.offsets@) + (
            match self.metric {
                Metric::NegDot => Seq::<u8>::empty(),
                _ => norms(self.clusters@, self.order@, self.order@.len()),
            }),
            _ => Seq::empty(),
        }
    }

    pub open spec fn stable(&self) -> Seq<u8> {
        match self.stable_ids {
            Some(ids) => stable_bytes(ids@, ids@.len()),
            None => Seq::empty(),
        }
    }

    pub open spec fn centroids_off(&self) -> int {
        56 + 4 * self.dim
    }

    pub open spec fn index_off(&self) -> int {
        self.centroids_off() + 4 * (self.n_cent() * self.dim)
    }

    pub open spec fn meta_off(&self) -> int {
        self.index_off() + 8 * self.n_cent()
    }

    pub open spec fn blocks_off(&self) -> int {
        self.meta_off() + self.meta_size() + self.stable_size()
    }

    /// The header: magic, version, size of the codec meta, the four region
    /// offsets, padding.
    pub open spec fn header(&self) -> Seq<u8> {
        le_bytes(SUB_MAGIC as nat, 8) + le_bytes(SUBSECTION_VERSION as nat, 4) + le_bytes(
            (self.meta_size() as u32) as nat,
            4,
        ) + le_bytes(56, 8) + le_bytes((self.centroids_off() as u64) as nat, 8) + le_bytes(
            (self.index_off() as u64) as nat,
            8,
        ) + le_bytes((self.blocks_off() as u64) as nat, 8) + le_bytes(0, 8)
    }

    /// Everything before the blocks.
    pub open spec fn front(&self) -> Seq<u8> {
        self.header() + word_bytes(self.summary@) + word_bytes(self.centroids@) + index_entries(
            self.clusters@,
            self.order@,
            self.clusters@.len(),
        ) + self.meta() + self.stable()
    }

    /// Everything before the checksum.
    pub open spec fn body(&self) -> Seq<u8> {
        self.front() + blocks(self.clusters@, self.order@, self.order@.len())
    }

    /// The whole subsection.
    pub open spec fn bytes(&self) -> Seq<u8> {
        self.body() + le_bytes(crc32c_of(self.body()) as nat, 4)
    }

    /// The parts fit together, and the result fits in memory.
    pub open spec fn wf(&self) -> bool {
        &&& is_order(self.order@, self.n_cent())
        &&& self.summary@.len() == self.dim
        &&& self.centroids@.len() == self.n_cent() * self.dim
        &&& self.codec == RerankCodec::Sq8Residual ==> {
            &&& self.scales@.len() == self.n_cent() * self.dim
            &&& self.offsets@.len() == self.n_cent() * self.dim
        }
        &&& forall|c: int, i: int|
            #![trigger self.clusters@[c]@[i]]
            0 <= c < self.n_cent() && 0 <= i < self.clusters@[c]@.len() ==> {
                &&& self.clusters@[c]@[i].code@.len() == self.code_bytes
                &&& self.clusters@[c]@[i].payload@.len() == self.codec.row_bytes(self.dim as int)
            }
        &&& subsection_size(
            self.dim as int,
            self.n_cent(),
            self.n_docs(),
            self.stride(),
            self.meta_size(),
            self.stable_size(),
        ) + 4 <= usize::MAX
        &&& self.stride() <= usize::MAX
    }
}

// ---------------- lengths ----------------

pub proof fn lemma_rows_len(rows: Seq<IvfRow>, n: nat, code_bytes: int, payload: int)
    requires
        n <= rows.len(),
        forall|i: int|
            0 <= i < rows.len() ==> (#[trigger] rows[i]).code@.len() == code_bytes
                && rows[i].payload@.len() == payload,
    ensures
        row_codes(rows, n).len() == n * code_bytes,
        row_ids(rows, n).len() == 4 * n,
        row_payloads(rows, n).len() == n * payload,
        row_norms(rows, n).len() == 4 * n,
    decreases n,
{
    if n > 0 {
        lemma_rows_len(rows, (n - 1) as nat, code_bytes, payload);
        lemma_le_bytes_len(rows[n - 1].local_doc_id as nat, 4);
        lemma_le_bytes_len(
            (match rows[n - 1].norm {
                Some(x) => x as nat,
                None => 0,
            }),
            4,
        );
        assert(n * code_bytes == (n - 1) * code_bytes + code_bytes) by (nonlinear_arith);
        assert(n * payload == (n - 1) * payload + payload) by (nonlinear_arith);
    } else {
        assert(0 * code_bytes == 0);
        assert(0 * payload == 0);
    }
}

pub proof fn lemma_blocks_len(p: IvfParts, n: nat)
    requires
        p.wf(),
        n <= p.order@.len(),
    ensures
        blocks(p.clusters@, p.order@, n).len() == rows_before(p.clusters@, p.order@, n)
            * p.stride(),
        norms(p.clusters@, p.order@, n).len() == 4 * rows_before(p.clusters@, p.order@, n),
    decreases n,
{
    if n > 0 {
        lemma_blocks_len(p, (n - 1) as nat);
        let c = p.order@[n - 1] as int;
        let rows = p.clusters@[c]@;
        let pay = p.codec.row_bytes(p.dim as int);
        assert forall|i: int| 0 <= i < rows.len() implies (#[trigger] rows[i]).code@.len()
            == p.code_bytes && rows[i].payload@.len() == pay by {
            assert(p.clusters@[c]@[i].code@.len() == p.code_bytes);
        }
        lemma_rows_len(rows, rows.len(), p.code_bytes as int, pay);
        let k = rows.len() as int;
        let m = rows_before(p.clusters@, p.order@, (n - 1) as nat) as int;
        let cb = p.code_bytes as int;
        let st = p.stride();
        assert(k * cb + 4 * k + k * pay == k * (cb + 4 + pay)) by (nonlinear_arith);
        assert((m + k) * st == m * st + k * st) by (nonlinear_arith);
    } else {
        assert(0 * p.stride() == 0);
    }
}

pub proof fn lemma_index_len(clusters: Seq<Vec<IvfRow>>, order: Seq<usize>, n: nat)
    ensures
        index_entries(clusters, order, n).len() == 8 * n,
    decreases n,
{
    if n > 0 {
        lemma_index_len(clusters, order, (n - 1) as nat);
        lemma_le_bytes_len(
            (rows_before(clusters, order, place_of(order, n - 1) as nat) as u32) as nat,
            4,
        );
        lemma_le_bytes_len((clusters[n - 1]@.len() as u32) as nat, 4);
    }
}

pub proof fn lemma_stable_len(ids: Seq<i128>, n: nat)
    ensures
        stable_bytes(ids, n).len() == 16 * n,
    decreases n,
{
    if n > 0 {
        lemma_stable_len(ids, (n - 1) as nat);
        lemma_le_bytes_len(i128_pattern(ids[n - 1]) as nat, 16);
    }
}

pub proof fn lemma_header_len(p: IvfParts)
    ensures
        p.header().len() == 56,
{
    lemma_le_bytes_len(SUB_MAGIC as nat, 8);
    lemma_le_bytes_len(SUBSECTION_VERSION as nat, 4);
    lemma_le_bytes_len((p.meta_size() as u32) as nat, 4);
    lemma_le_bytes_len(56, 8);
    lemma_le_bytes_len((p.centroids_off() as u64) as nat, 8);
    lemma_le_bytes_len((p.index_off() as u64) as nat, 8);
    lemma_le_bytes_len((p.blocks_off() as u64) as nat, 8);
    lemma_le_bytes_len(0, 8);
}

pub proof fn lemma_meta_len(p: IvfParts)
    requires
        p.wf(),
    ensures
        p.meta().len() == p.meta_size(),
{
    lemma_word_bytes_len(p.scales@);
    lemma_word_bytes_len(p.offsets@);
    lemma_blocks_len(p, p.order@.len());
}

proof fn lemma_piece(front: Seq<u8>, x: Seq<u8>, back: Seq<u8>)
    ensures
        (front + x + back).subrange(front.len() as int, (front.len() + x.len()) as int) == x,
{
    assert((front + x + back).subrange(front.len() as int, (front.len() + x.len()) as int) =~= x);
}

proof fn lemma_four_pieces(front: Seq<u8>, a: Seq<u8>, b: Seq<u8>, c: Seq<u8>, d: Seq<u8>)
    ensures
        ({
            let s = front + a + b + c + d;
            let n0 = front.len() as int;
            let n1 = n0 + a.len();
            let n2 = n1 + b.len();
            let n3 = n2 + c.len();
            &&& s.subrange(n0, n1) == a
            &&& s.subrange(n1, n2) == b
            &&& s.subrange(n2, n3) == c
            &&& s.subrange(n3, n3 + d.len()) == d
        }),
{
    let s = front + a + b + c + d;
    lemma_piece(front, a, b + c + d);
    assert(s =~= front + a + (b + c + d));
    lemma_piece(front + a, b, c + d);
    assert(s =~= front + a + b + (c + d));
    lemma_piece(front + a + b, c, d);
    lemma_piece(front + a + b + c, d, Seq::empty());
    assert(s =~= s + Seq::<u8>::empty());
}

proof fn lemma_eight_pieces(
    a: Seq<u8>,
    b: Seq<u8>,
    c: Seq<u8>,
    d: Seq<u8>,
    e: Seq<u8>,
    f: Seq<u8>,
    g: Seq<u8>,
    h: Seq<u8>,
)
    ensures
        ({
            let s = a + b + c + d + e + f + g + h;
            let n1 = a.len() as int;
            let n2 = n1 + b.len();
            let n3 = n2 + c.len();
            let n4 = n3 + d.len();
            let n5 = n4 + e.len();
            let n6 = n5 + f.len();
            let n7 = n6 + g.len();
            &&& s.len() == n7 + h.len()
            &&& s.subrange(0, n1) == a
            &&& s.subrange(n1, n2) == b
            &&& s.subrange(n2, n3) == c
            &&& s.subrange(n3, n4) == d
            &&& s.subrange(n4, n5) == e
            &&& s.subrange(n5, n6) == f
            &&& s.subrange(n6, n7) == g
            &&& s.subrange(n7, s.len() as int) == h
            &&& s.subrange(0, n7) == a + b + c + d + e + f + g
        }),
{
    let first = a + b + c + d;
    let s = first + e + f + g + h;
    lemma_four_pieces(first, e, f, g, h);
    lemma_four_pieces(Seq::empty(), a, b, c, d);
    assert(Seq::<u8>::empty() + a + b + c + d =~= first);
    let n1 = a.len() as int;
    let n2 = n1 + b.len();
    let n3 = n2 + c.len();
    let n4 = n3 + d.len();
    assert(s.subrange(0, n1) =~= first.subrange(0, n1));
    assert(s.subrange(n1, n2) =~= first.subrange(n1, n2));
    assert(s.subrange(n2, n3) =~= first.subrange(n2, n3));
    assert(s.subrange(n3, n4) =~= first.subrange(n3, n4));
    lemma_piece(Seq::empty(), first + e + f + g, h);
    assert(Seq::<u8>::empty() + (first + e + f + g) + h =~= s);
}

/// The regions stand where the header says: the summary at 56, then the
/// centroids, the cluster index, the codec meta, the stable ids and the
/// blocks, each from its stated offset, and the checksum over all of it last.
pub proof fn law_regions_stand_at_their_offsets(p: IvfParts)
    requires
        p.wf(),
    ensures
        p.bytes().len() == subsection_size(
            p.dim as int,
            p.n_cent(),
            p.n_docs(),
            p.stride(),
            p.meta_size(),
            p.stable_size(),
        ) + 4,
        p.front().len() == p.blocks_off(),
        p.bytes().subrange(0, 56) == p.header(),
        p.bytes().subrange(56, p.centroids_off()) == word_bytes(p.summary@),
        p.bytes().subrange(p.centroids_off(), p.index_off()) == word_bytes(p.centroids@),
        p.bytes().subrange(p.index_off(), p.meta_off()) == index_entries(
            p.clusters@,
            p.order@,
            p.clusters@.len(),
        ),
        p.bytes().subrange(p.meta_off(), p.meta_off() + p.meta_size()) == p.meta(),
        p.bytes().subrange(p.meta_off() + p.meta_size(), p.blocks_off()) == p.stable(),
        p.bytes().subrange(p.blocks_off(), p.bytes().len() - 4) == blocks(
            p.clusters@,
            p.order@,
            p.order@.len(),
        ),
        p.bytes().subrange(p.bytes().len() - 4, p.bytes().len() as int) == le_bytes(
            crc32c_of(p.bytes().subrange(0, p.bytes().len() - 4)) as nat,
            4,
        ),
{
    lemma_header_len(p);
    lemma_word_bytes_len(p.summary@);
    lemma_word_bytes_len(p.centroids@);
    lemma_index_len(p.clusters@, p.order@, p.clusters@.len());
    lemma_meta_len(p);
    match p.stable_ids {
        Some(ids) => {
            lemma_stable_len(ids@, ids@.len());
        },
        None => {},
    }
    lemma_blocks_len(p, p.order@.len());
    lemma_le_bytes_len(crc32c_of(p.body()) as nat, 4);
    assert(0 <= p.n_cent() * p.dim) by (nonlinear_arith)
        requires
            0 <= p.n_cent(),
            0 <= p.dim,
    ;
    lemma_eight_pieces(
        p.header(),
        word_bytes(p.summary@),
        word_bytes(p.centroids@),
        index_entries(p.clusters@, p.order@, p.clusters@.len()),
        p.meta(),
        p.stable(),
        blocks(p.clusters@, p.order@, p.order@.len()),
        le_bytes(crc32c_of(p.body()) as nat, 4),
    );
}

proof fn lemma_block_in_blocks(p: IvfParts, n: nat, k: int)
    requires
        p.wf(),
        0 <= k < n <= p.order@.len(),
    ensures
        ({
            let from = rows_before(p.clusters@, p.order@, k as nat) * p.stride();
            let rows = p.clusters@[p.order@[k] as int]@;
            let all = blocks(p.clusters@, p.order@, n);
            &&& from >= 0
            &&& block(rows).len() == rows.len() * p.stride()
            &&& from + rows.len() * p.stride() <= all.len()
            &&& all.subrange(from, from + rows.len() * p.stride()) == block(rows)
        }),
    decreases n,
{
    lemma_blocks_len(p, n);
    lemma_blocks_len(p, (n - 1) as nat);
    let all = blocks(p.clusters@, p.order@, n);
    let less = blocks(p.clusters@, p.order@, (n - 1) as nat);
    if k == n - 1 {
        let rows = p.clusters@[p.order@[k] as int]@;
        let a = rows_before(p.clusters@, p.order@, k as nat) as int;
        let l = rows.len() as int;
        let st = p.stride();
        assert((a + l) * st == a * st + l * st) by (nonlinear_arith);
        assert(all.subrange(less.len() as int, all.len() as int) =~= block(rows));
    } else {
        lemma_block_in_blocks(p, (n - 1) as nat, k);
        let from = rows_before(p.clusters@, p.order@, k as nat) * p.stride();
        let to = from + p.clusters@[p.order@[k] as int]@.len() * p.stride();
        assert(all.subrange(from, to) =~= less.subrange(from, to));
    }
}

/// One range covers a cluster: the block of the `k`-th cluster in physical
/// order starts at the row count of the clusters before it times the row
/// stride, runs for its own row count times the stride, and holds its codes,
/// ids and payloads.
pub proof fn law_one_range_covers_a_cluster(p: IvfParts, k: int)
    requires
        p.wf(),
        0 <= k < p.order@.len(),
    ensures
        ({
            let from = p.blocks_off() + rows_before(p.clusters@, p.order@, k as nat) * p.stride();
            let rows = p.clusters@[p.order@[k] as int]@;
            p.bytes().subrange(from, from + rows.len() * p.stride()) == block(rows)
        }),
        place_of(p.order@, p.order@[k] as int) == k,
{
    law_regions_stand_at_their_offsets(p);
    lemma_block_in_blocks(p, p.order@.len(), k);
    let all = blocks(p.clusters@, p.order@, p.order@.len());
    let rel = rows_before(p.clusters@, p.order@, k as nat) * p.stride();
    let rows = p.clusters@[p.order@[k] as int]@;
    let len = rows.len() * p.stride();
    let from = p.blocks_off() + rel;
    assert(p.bytes().subrange(p.blocks_off(), p.bytes().len() - 4).subrange(rel, rel + len)
        =~= p.bytes().subrange(from, from + len));
    let i = place_of(p.order@, p.order@[k] as int);
    assert(p.order@[k] as int as usize == p.order@[k]);
    assert(p.order@.contains(p.order@[k]));
    assert(0 <= i < p.order@.len() && p.order@[i] == p.order@[k]);
}

proof fn lemma_header_fields(p: IvfParts)
    requires
        p.wf(),
    ensures
        field(p.header(), 32, 8) == p.index_off(),
        field(p.header(), 40, 8) == p.blocks_off(),
        p.meta_size() <= u32::MAX ==> field(p.header(), 12, 4) == p.meta_size(),
        0 <= p.meta_size(),
        p.blocks_off() <= p.bytes().len() - 4,
{
    law_regions_stand_at_their_offsets(p);
    lemma_pow256_values();
    lemma_header_len(p);
    lemma_meta_len(p);
    lemma_le_bytes_len(SUB_MAGIC as nat, 8);
    lemma_le_bytes_len(SUBSECTION_VERSION as nat, 4);
    lemma_le_bytes_len((p.meta_size() as u32) as nat, 4);
    lemma_le_bytes_len(56, 8);
    lemma_le_bytes_len((p.centroids_off() as u64) as nat, 8);
    lemma_le_bytes_len((p.index_off() as u64) as nat, 8);
    lemma_le_bytes_len((p.blocks_off() as u64) as nat, 8);
    lemma_le_bytes_len(0, 8);
    assert(0 <= p.n_cent() * p.dim && 0 <= p.n_docs() * p.stride()) by (nonlinear_arith)
        requires
            0 <= p.n_cent(),
            0 <= p.dim,
            0 <= p.n_docs(),
            0 <= p.stride(),
    ;
    let h = p.header();
    assert(h.subrange(12, 16) =~= le_bytes((p.meta_size() as u32) as nat, 4));
    lemma_field_of_bytes(h, 12, (p.meta_size() as u32) as nat, 4);
    assert(h.subrange(32, 40) =~= le_bytes((p.index_off() as u64) as nat, 8));
    lemma_field_of_bytes(h, 32, (p.index_off() as u64) as nat, 8);
    assert(h.subrange(40, 48) =~= le_bytes((p.blocks_off() as u64) as nat, 8));
    lemma_field_of_bytes(h, 40, (p.blocks_off() as u64) as nat, 8);
}

/// The bytes say how many rows there are and whether stable ids are stored:
/// the blocks are the last region, so its length gives the rows, and the gap
/// between the codec meta and the blocks is the stable-id region.
pub proof fn law_sizes_follow_from_the_bytes(p: IvfParts)
    requires
        p.wf(),
    ensures
        ({
            let b = p.bytes();
            let blocks = field(b, 40, 8);
            &&& b.len() - 4 - blocks == p.n_docs() * p.stride()
            &&& (b.len() - 4 - blocks) / p.stride() == p.n_docs()
            &&& p.meta_size() <= u32::MAX ==> blocks - (field(b, 32, 8) + 8 * p.n_cent() + field(
                b,
                12,
                4,
            )) == p.stable_size()
        }),
{
    law_regions_stand_at_their_offsets(p);
    lemma_header_fields(p);
    lemma_header_len(p);
    let b = p.bytes();
    assert(b.subrange(0, 56).subrange(12, 16) =~= b.subrange(12, 16));
    assert(b.subrange(0, 56).subrange(32, 40) =~= b.subrange(32, 40));
    assert(b.subrange(0, 56).subrange(40, 48) =~= b.subrange(40, 48));
    vstd::arithmetic::div_mod::lemma_div_by_multiple(p.n_docs(), p.stride());
}

// ---------------- writers ----------------

fn put_block(out: &mut Vec<u8>, rows: &Vec<IvfRow>)
    ensures
        final(out)@ == old(out)@ + block(rows@),
{
    let ghost start = out@;
    let mut i: usize = 0;
    while i < rows.len()
        invariant
            i <= rows@.len(),
            out@ == start + row_codes(rows@, i as nat),
        decreases rows.len() - i,
    {
        put_slice(out, rows[i].code.as_slice());
        i = i + 1;
        proof {
            assert(out@ =~= start + row_codes(rows@, i as nat));
        }
    }
    let ghost mid = out@;
    i = 0;
    while i < rows.len()
        invariant
            i <= rows@.len(),
            out@ == mid + row_ids(rows@, i as nat),
        decreases rows.len() - i,
    {
        put_u32(out, rows[i].local_doc_id);
        i = i + 1;
        proof {
            assert(out@ =~= mid + row_ids(rows@, i as nat));
        }
    }
    let ghost last = out@;
    i = 0;
    while i < rows.len()
        invariant
            i <= rows@.len(),
            out@ == last + row_payloads(rows@, i as nat),
        decreases rows.len() - i,
    {
        put_slice(out, rows[i].payload.as_slice());
        i = i + 1;
        proof {
            assert(out@ =~= last + row_payloads(rows@, i as nat));
        }
    }
    proof {
        assert(out@ =~= start + block(rows@));
    }
}

fn put_row_norms(out: &mut Vec<u8>, rows: &Vec<IvfRow>)
    ensures
        final(out)@ == old(out)@ + row_norms(rows@, rows@.len()),
{
    let ghost start = out@;
    let mut i: usize = 0;
    while i < rows.len()
        invariant
            i <= rows@.len(),
            out@ == start + row_norms(rows@, i as nat),
        decreases rows.len() - i,
    {
        let bits: u32 = match rows[i].norm {
            Some(x) => x,
            None => 0,
        };
        put_u32(out, bits);
        i = i + 1;
        proof {
            assert(out@ =~= start + row_norms(rows@, i as nat));
        }
    }
}

pub proof fn lemma_rows_before_monotone(
    clusters: Seq<Vec<IvfRow>>,
    order: Seq<usize>,
    a: nat,
    b: nat,
)
    requires
        a <= b,
    ensures
        rows_before(clusters, order, a) <= rows_before(clusters, order, b),
    decreases b - a,
{
    if a < b {
        lemma_rows_before_monotone(clusters, order, a, (b - 1) as nat);
    }
}

/// First row of every cluster, by id, and the number of rows.
fn cluster_starts(clusters: &Vec<Vec<IvfRow>>, order: &Vec<usize>) -> (r: (Vec<usize>, usize))
    requires
        is_order(order@, clusters@.len() as int),
        rows_before(clusters@, order@, order@.len()) <= usize::MAX,
    ensures
        r.0@.len() == clusters@.len(),
        forall|c: int|
            0 <= c < clusters@.len() ==> #[trigger] r.0@[c] == rows_before(
                clusters@,
                order@,
                place_of(order@, c) as nat,
            ),
        r.1 == rows_before(clusters@, order@, order@.len()),
{
    let mut starts: Vec<usize> = Vec::new();
    let mut i: usize = 0;
    while i < clusters.len()
        invariant
            i <= clusters@.len(),
            starts@.len() == i,
        decreases clusters.len() - i,
    {
        starts.push(0);
        i = i + 1;
    }
    let mut k: usize = 0;
    let mut acc: usize = 0;
    while k < order.len()
        invariant
            k <= order@.len(),
            is_order(order@, clusters@.len() as int),
            rows_before(clusters@, order@, order@.len()) <= usize::MAX,
            starts@.len() == clusters@.len(),
            acc == rows_before(clusters@, order@, k as nat),
            forall|j: int|
                0 <= j < k ==> starts@[#[trigger] order@[j] as int] == rows_before(
                    clusters@,
                    order@,
                    j as nat,
                ),
        decreases order.len() - k,
    {
        let c: usize = order[k];
        let ghost before = starts@;
        starts.set(c, acc);
        proof {
            lemma_rows_before_monotone(clusters@, order@, (k + 1) as nat, order@.len());
            assert forall|j: int| 0 <= j < k + 1 implies starts@[#[trigger] order@[j] as int]
                == rows_before(clusters@, order@, j as nat) by {
                if j < k {
                    assert(order@[j] != order@[k as int]);
                    assert(before[order@[j] as int] == rows_before(clusters@, order@, j as nat));
                }
            }
        }
        acc = acc + clusters[c].len();
        k = k + 1;
    }
    proof {
        assert forall|c: int| 0 <= c < clusters@.len() implies #[trigger] starts@[c] == rows_before(
            clusters@,
            order@,
            place_of(order@, c) as nat,
        ) by {
            assert(clusters@.len() == clusters.len());
            assert(order@.contains(c as usize));
            let j = place_of(order@, c);
            assert(0 <= j < order@.len() && order@[j] == c as usize);
        }
    }
    (starts, acc)
}

fn put_index(out: &mut Vec<u8>, clusters: &Vec<Vec<IvfRow>>, order: &Vec<usize>, starts: &Vec<usize>)
    requires
        starts@.len() == clusters@.len(),
        forall|c: int|
            0 <= c < clusters@.len() ==> #[trigger] starts@[c] == rows_before(
                clusters@,
                order@,
                place_of(order@, c) as nat,
            ),
    ensures
        final(out)@ == old(out)@ + index_entries(clusters@, order@, clusters@.len()),
{
    let ghost start = out@;
    let mut c: usize = 0;
    while c < clusters.len()
        invariant
            c <= clusters@.len(),
            starts@.len() == clusters@.len(),
            forall|q: int|
                0 <= q < clusters@.len() ==> #[trigger] starts@[q] == rows_before(
                    clusters@,
                    order@,
                    place_of(order@, q) as nat,
                ),
            out@ == start + index_entries(clusters@, order@, c as nat),
        decreases clusters.len() - c,
    {
        put_u32(out, #[verifier::truncate] (starts[c] as u32));
        put_u32(out, #[verifier::truncate] (clusters[c].len() as u32));
        proof {
            assert(starts@[c as int] == rows_before(
                clusters@,
                order@,
                place_of(order@, c as int) as nat,
            ));
        }
        c = c + 1;
        proof {
            assert(out@ =~= start + index_entries(clusters@, order@, c as nat));
        }
    }
}

fn put_norms(out: &mut Vec<u8>, clusters: &Vec<Vec<IvfRow>>, order: &Vec<usize>)
    requires
        is_order(order@, clusters@.len() as int),
    ensures
        final(out)@ == old(out)@ + norms(clusters@, order@, order@.len()),
{
    let ghost start = out@;
    let mut k: usize = 0;
    while k < order.len()
        invariant
            k <= order@.len(),
            is_order(order@, clusters@.len() as int),
            out@ == start + norms(clusters@, order@, k as nat),
        decreases order.len() - k,
    {
        let c: usize = order[k];
        put_row_norms(out, &clusters[c]);
        k = k + 1;
        proof {
            assert(out@ =~= start + norms(clusters@, order@, k as nat));
        }
    }
}

fn put_blocks(out: &mut Vec<u8>, clusters: &Vec<Vec<IvfRow>>, order: &Vec<usize>)
    requires
        is_order(order@, clusters@.len() as int),
    ensures
        final(out)@ == old(out)@ + blocks(clusters@, order@, order@.len()),
{
    let ghost start = out@;
    let mut k: usize = 0;
    while k < order.len()
        invariant
            k <= order@.len(),
            is_order(order@, clusters@.len() as int),
            out@ == start + blocks(clusters@, order@, k as nat),
        decreases order.len() - k,
    {
        let c: usize = order[k];
        put_block(out, &clusters[c]);
        k = k + 1;
        proof {
            assert(out@ =~= start + blocks(clusters@, order@, k as nat));
        }
    }
}

fn put_stable(out: &mut Vec<u8>, ids: &Vec<i128>)
    ensures
        final(out)@ == old(out)@ + stable_bytes(ids@, ids@.len()),
{
    let ghost start = out@;
    let mut i: usize = 0;
    while i < ids.len()
        invariant
            i <= ids@.len(),
            out@ == start + stable_bytes(ids@, i as nat),
        decreases ids.len() - i,
    {
        put_i128(out, ids[i]);
        i = i + 1;
        proof {
            assert(out@ =~= start + stable_bytes(ids@, i as nat));
        }
    }
}

impl RerankCodec {
    /// Bytes of rerank payload per row.
    pub fn per_vector_bytes(self, dim: usize) -> (r: usize)
        requires
            self.row_bytes(dim as int) <= usize::MAX,
        ensures
            r == self.row_bytes(dim as int),
    {
        match self {
            RerankCodec::Fp32 => 4 * dim,
            RerankCodec::Sq8Residual => 2 * dim,
            RerankCodec::RabitqOnly => 0,
        }
    }

    /// Bytes of the codec-meta region.
    pub fn codec_meta_bytes(self, dim: usize, n_docs: usize, n_cent: usize, metric: Metric) -> (r:
        usize)
        requires
            self.meta_bytes(dim as int, n_docs as int, n_cent as int, metric) <= usize::MAX,
        ensures
            r == self.meta_bytes(dim as int, n_docs as int, n_cent as int, metric),
    {
        proof {
            assert(0 <= n_cent * dim) by (nonlinear_arith)
                requires
                    0 <= n_cent,
                    0 <= dim,
            ;
        }
        match self {
            RerankCodec::Sq8Residual => {
                let rulers: usize = 8 * (n_cent * dim);
                match metric {
                    Metric::NegDot => rulers,
                    _ => rulers + 4 * n_docs,
                }
            },
            _ => 0,
        }
    }
}

fn put_header(out: &mut Vec<u8>, parts: &IvfParts, layout: &IvfSubsectionLayout, meta_size: usize)
    requires
        meta_size == parts.meta_size(),
        layout.summary_off == 56,
        layout.centroids_off == parts.centroids_off(),
        layout.cluster_idx_off == parts.index_off(),
        layout.per_cluster_blocks_off == parts.blocks_off(),
    ensures
        final(out)@ == old(out)@ + parts.header(),
{
    let ghost start = out@;
    put_u64(out, SUB_MAGIC);
    put_u32(out, SUBSECTION_VERSION);
    put_u32(out, #[verifier::truncate] (meta_size as u32));
    put_u64(out, layout.summary_off as u64);
    put_u64(out, layout.centroids_off as u64);
    put_u64(out, layout.cluster_idx_off as u64);
    put_u64(out, layout.per_cluster_blocks_off as u64);
    put_u64(out, 0);
    proof {
        assert(out@ =~= start + parts.header());
    }
}

fn put_meta(out: &mut Vec<u8>, parts: &IvfParts)
    requires
        is_order(parts.order@, parts.n_cent()),
    ensures
        final(out)@ == old(out)@ + parts.meta(),
{
    let ghost start = out@;
    match parts.codec {
        RerankCodec::Sq8Residual => {
            put_words(out, &parts.scales);
            put_words(out, &parts.offsets);
            match parts.metric {
                Metric::NegDot => {},
                _ => {
                    put_norms(out, &parts.clusters, &parts.order);
                },
            }
        },
        _ => {},
    }
    proof {
        assert(out@ =~= start + parts.meta());
    }
}

/// Lay out and write a subsection, checksum included.
pub fn assemble_subsection(parts: &IvfParts) -> (r: SubsectionBytes)
    requires
        parts.wf(),
    ensures
        r.bytes@ == parts.bytes(),
        r.n_cent == parts.n_cent(),
        r.summary_offset_in_sub == 56,
        r.codec_meta_size == parts.meta_size(),
        r.codec_meta_offset_in_sub == (if parts.meta_size() == 0 {
            0
        } else {
            parts.meta_off()
        }),
{
    let n_cent: usize = parts.clusters.len();
    proof {
        assert(0 <= parts.n_cent() * parts.dim) by (nonlinear_arith)
            requires
                0 <= parts.n_cent(),
                0 <= parts.dim,
        ;
        assert(parts.n_docs() <= parts.n_docs() * parts.stride()) by (nonlinear_arith)
            requires
                0 <= parts.n_docs(),
                1 <= parts.stride(),
        ;
    }
    let (starts, n_docs) = cluster_starts(&parts.clusters, &parts.order);
    let per_vec_bytes: usize = parts.codec.per_vector_bytes(parts.dim);
    let stride: usize = parts.code_bytes + 4 + per_vec_bytes;
    let meta_size: usize = parts.codec.codec_meta_bytes(parts.dim, n_docs, n_cent, parts.metric);
    let stable_size: usize = match &parts.stable_ids {
        Some(ids) => 16 * ids.len(),
        None => 0,
    };
    let layout = IvfSubsectionLayout::compute(
        parts.dim,
        n_cent,
        n_docs,
        stride,
        meta_size,
        stable_size,
    );
    let mut out: Vec<u8> = Vec::new();
    put_header(&mut out, parts, &layout, meta_size);
    put_words(&mut out, &parts.summary);
    put_words(&mut out, &parts.centroids);
    put_index(&mut out, &parts.clusters, &parts.order, &starts);
    put_meta(&mut out, parts);
    match &parts.stable_ids {
        Some(ids) => {
            put_stable(&mut out, ids);
        },
        None => {},
    }
    proof {
        assert(out@ =~= parts.front());
    }
    put_blocks(&mut out, &parts.clusters, &parts.order);
    let crc: u32 = crc32c(out.as_slice());
    put_u32(&mut out, crc);
    SubsectionBytes {
        bytes: out,
        n_cent,
        summary_offset_in_sub: layout.summary_off,
        codec_meta_offset_in_sub: if meta_size == 0 {
            0
        } else {
            layout.codec_meta_off
        },
        codec_meta_size: meta_size,
    }
}

// ---------------- stable ids ----------------

/// The stable id that the last of the first `n` rows with document id `doc`
/// gives, 0 where none does.
pub open spec fn stable_of(rows: Seq<(u32, i128)>, n: nat, doc: int) -> i128
    decreases n,
{
    if n == 0 {
        0
    } else if rows[n - 1].0 == doc {
        rows[n - 1].1
    } else {
        stable_of(rows, (n - 1) as nat, doc)
    }
}

/// The stable ids by document, from rows of document id and stable id.
pub fn stable_region(rows: &Vec<(u32, i128)>, n_docs: usize) -> (r: Vec<i128>)
    requires
        forall|i: int| 0 <= i < rows@.len() ==> (#[trigger] rows@[i]).0 < n_docs,
    ensures
        r@.len() == n_docs,
        forall|d: int|
            0 <= d < n_docs ==> #[trigger] r@[d] == stable_of(rows@, rows@.len(), d),
{
    let mut out: Vec<i128> = Vec::new();
    let mut d: usize = 0;
    while d < n_docs
        invariant
            d <= n_docs,
            out@.len() == d,
            forall|q: int| 0 <= q < d ==> #[trigger] out@[q] == 0,
        decreases n_docs - d,
    {
        out.push(0);
        d = d + 1;
    }
    let mut i: usize = 0;
    while i < rows.len()
        invariant
            i <= rows@.len(),
            out@.len() == n_docs,
            forall|j: int| 0 <= j < rows@.len() ==> (#[trigger] rows@[j]).0 < n_docs,
            forall|q: int| 0 <= q < n_docs ==> #[trigger] out@[q] == stable_of(rows@, i as nat, q),
        decreases rows.len() - i,
    {
        let (doc, id) = rows[i];
        assert(rows@[i as int].0 < n_docs);
        out.set(doc as usize, id);
        i = i + 1;
    }
    out
}

/// Where no two rows have the same document id, every document has the stable
/// id of its own row.
pub proof fn law_stable_id_is_its_rows(rows: Seq<(u32, i128)>, n: nat, i: int)
    requires
        n <= rows.len(),
        0 <= i < n,
        forall|a: int, b: int|
            0 <= a < b < rows.len() ==> (#[trigger] rows[a]).0 != (#[trigger] rows[b]).0,
    ensures
        stable_of(rows, n, rows[i].0 as int) == rows[i].1,
    decreases n,
{
    if i < n - 1 {
        assert(rows[i].0 != rows[n - 1].0);
        law_stable_id_is_its_rows(rows, (n - 1) as nat, i);
    }
}

// ---------------- rows into clusters ----------------

/// Row `a` comes before row `b`: a smaller document id, or the same one and an
/// earlier place.
pub open spec fn earlier(ids: Seq<u32>, a: usize, b: usize) -> bool {
    ids[a as int] < ids[b as int] || (ids[a as int] == ids[b as int] && a < b)
}

/// The rows of `ids` in the order of their document ids, equal ones in the
/// order they came in.
pub open spec fn is_id_order(ids: Seq<u32>, r: Seq<usize>) -> bool {
    &&& is_order(r, ids.len() as int)
    &&& forall|i: int, j: int|
        0 <= i < j < r.len() ==> earlier(ids, #[trigger] r[i], #[trigger] r[j])
}

/// No other order of the rows has their document ids ascending and keeps equal
/// ones in place.
pub proof fn law_id_order_is_unique(ids: Seq<u32>, a: Seq<usize>, b: Seq<usize>, n: nat)
    requires
        is_id_order(ids, a),
        is_id_order(ids, b),
        n <= ids.len(),
    ensures
        a.subrange(0, n as int) == b.subrange(0, n as int),
    decreases n,
{
    if n > 0 {
        law_id_order_is_unique(ids, a, b, (n - 1) as nat);
        let k = n - 1;
        assert forall|i: int| 0 <= i < k implies a[i] == b[i] by {
            assert(a.subrange(0, k)[i] == b.subrange(0, k)[i]);
        }
        if a[k] != b[k] {
            assert(b.contains(a[k]));
            assert(a.contains(b[k]));
            let i = choose|i: int| 0 <= i < b.len() && b[i] == a[k];
            let j = choose|j: int| 0 <= j < a.len() && a[j] == b[k];
            if i < k {
                assert(a[i] == a[k]);
                assert(false);
            }
            if j < k {
                assert(b[j] == b[k]);
                assert(false);
            }
            assert(earlier(ids, b[k], b[i]));
            assert(earlier(ids, a[k], a[j]));
            assert(false);
        }
        assert(a.subrange(0, n as int) =~= a.subrange(0, k).push(a[k]));
        assert(b.subrange(0, n as int) =~= b.subrange(0, k).push(b[k]));
    } else {
        assert(a.subrange(0, 0) =~= b.subrange(0, 0));
    }
}

/// Sort rows by document id.
pub fn order_by_doc_id(ids: &Vec<u32>) -> (r: Vec<usize>)
    ensures
        is_id_order(ids@, r@),
{
    let mut out: Vec<usize> = Vec::new();
    let mut n: usize = 0;
    while n < ids.len()
        invariant
            n <= ids@.len(),
            is_order(out@, n as int),
            forall|i: int, j: int|
                0 <= i < j < out@.len() ==> earlier(ids@, #[trigger] out@[i], #[trigger] out@[j]),
        decreases ids.len() - n,
    {
        let mut lo: usize = 0;
        let mut hi: usize = out.len();
        while lo < hi
            invariant
                n < ids@.len(),
                lo <= hi <= out@.len(),
                is_order(out@, n as int),
                forall|i: int, j: int|
                    0 <= i < j < out@.len() ==> earlier(
                        ids@,
                        #[trigger] out@[i],
                        #[trigger] out@[j],
                    ),
                forall|j: int| 0 <= j < lo ==> ids@[#[trigger] out@[j] as int] <= ids@[n as int],
                forall|j: int|
                    hi <= j < out@.len() ==> ids@[#[trigger] out@[j] as int] > ids@[n as int],
            decreases hi - lo,
        {
            let mid: usize = lo + (hi - lo) / 2;
            if ids[out[mid]] <= ids[n] {
                proof {
                    assert forall|j: int| 0 <= j < mid + 1 implies ids@[#[trigger] out@[j] as int]
                        <= ids@[n as int] by {
                        if j < mid {
                            assert(earlier(ids@, out@[j], out@[mid as int]));
                        }
                    }
                }
                lo = mid + 1;
            } else {
                proof {
                    assert forall|j: int| mid <= j < out@.len() implies ids@[#[trigger] out@[j] as int]
                        > ids@[n as int] by {
                        if mid < j {
                            assert(earlier(ids@, out@[mid as int], out@[j]));
                        }
                    }
                }
                hi = mid;
            }
        }
        let ghost before = out@;
        out.insert(lo, n);
        proof {
            assert(out@ == before.insert(lo as int, n));
            assert forall|k: int| 0 <= k < out@.len() implies (#[trigger] out@[k]) < n + 1 by {
                if k < lo {
                    assert(out@[k] == before[k]);
                } else if k > lo {
                    assert(out@[k] == before[k - 1]);
                }
            }
            assert forall|i: int, j: int| 0 <= i < j < out@.len() implies earlier(
                ids@,
                #[trigger] out@[i],
                #[trigger] out@[j],
            ) by {
                if j < lo {
                    assert(out@[i] == before[i] && out@[j] == before[j]);
                } else if i > lo {
                    assert(out@[i] == before[i - 1] && out@[j] == before[j - 1]);
                } else if i < lo && j > lo {
                    assert(out@[i] == before[i] && out@[j] == before[j - 1]);
                } else if i < lo {
                    assert(out@[i] == before[i] && out@[j] == n);
                    assert(before[i] < n);
                } else {
                    assert(out@[i] == n && out@[j] == before[j - 1]);
                }
            }
            assert forall|c: usize| c < n + 1 implies #[trigger] out@.contains(c) by {
                if c == n {
                    assert(out@[lo as int] == n);
                } else {
                    assert(before.contains(c));
                    let k = choose|k: int| 0 <= k < before.len() && before[k] == c;
                    if k < lo {
                        assert(out@[k] == c);
                    } else {
                        assert(out@[k + 1] == c);
                    }
                }
            }
            assert(out@.no_duplicates()) by {
                assert forall|i: int, j: int|
                    0 <= i < out@.len() && 0 <= j < out@.len() && i != j implies out@[i]
                    != out@[j] by {
                    if i < j {
                        assert(earlier(ids@, out@[i], out@[j]));
                    } else {
                        assert(earlier(ids@, out@[j], out@[i]));
                    }
                }
            }
        }
        n = n + 1;
    }
    out
}

/// The rows of cluster `c`, in row order.
pub open spec fn rows_of(rows: Seq<IvfRow>, assign: Seq<u32>, c: int, n: nat) -> Seq<IvfRow> {
    members(assign, c, n).map_values(|i: usize| rows[i as int])
}

/// Move each row to its cluster, keeping row order.
pub fn clustered(rows: Vec<IvfRow>, assign: &Vec<u32>, n_cent: usize) -> (r: Vec<Vec<IvfRow>>)
    requires
        rows@.len() == assign@.len(),
        forall|i: int| 0 <= i < assign@.len() ==> #[trigger] assign@[i] < n_cent,
    ensures
        r@.len() == n_cent,
        forall|c: int|
            0 <= c < n_cent ==> (#[trigger] r@[c])@ == rows_of(rows@, assign@, c, assign@.len()),
{
    let mut out: Vec<Vec<IvfRow>> = Vec::new();
    let mut c: usize = 0;
    while c < n_cent
        invariant
            c <= n_cent,
            out@.len() == c,
            forall|q: int| 0 <= q < c ==> (#[trigger] out@[q])@ == Seq::<IvfRow>::empty(),
        decreases n_cent - c,
    {
        out.push(Vec::new());
        c = c + 1;
    }
    let ghost all = rows@;
    let mut left = rows;
    let mut i: usize = 0;
    proof {
        assert forall|q: int| 0 <= q < n_cent implies (#[trigger] out@[q])@ == rows_of(
            all,
            assign@,
            q,
            0,
        ) by {
            assert(rows_of(all, assign@, q, 0) =~= Seq::empty());
        }
    }
    while i < assign.len()
        invariant
            i <= assign@.len(),
            all.len() == assign@.len(),
            left@.len() == all.len(),
            forall|j: int| i <= j < all.len() ==> #[trigger] left@[j] == all[j],
            forall|j: int| 0 <= j < assign@.len() ==> #[trigger] assign@[j] < n_cent,
            out@.len() == n_cent,
            forall|q: int|
                0 <= q < n_cent ==> (#[trigger] out@[q])@ == rows_of(all, assign@, q, i as nat),
        decreases assign.len() - i,
    {
        assert(assign@[i as int] < n_cent);
        let mut row = IvfRow { local_doc_id: 0, code: Vec::new(), payload: Vec::new(), norm: None };
        std::mem::swap(&mut row, &mut left[i]);
        let to: usize = assign[i] as usize;
        let ghost before = out@;
        out[to].push(row);
        proof {
            assert forall|q: int| 0 <= q < n_cent implies (#[trigger] out@[q])@ == rows_of(
                all,
                assign@,
                q,
                (i + 1) as nat,
            ) by {
                assert(before[q]@ == rows_of(all, assign@, q, i as nat));
                assert(out@[q]@ =~= rows_of(all, assign@, q, (i + 1) as nat));
            }
        }
        i = i + 1;
    }
    out
}

/// A document has the stable id of its last row, and 0 without a row.
pub proof fn law_last_row_gives_the_stable_id(rows: Seq<(u32, i128)>, doc: int)
    ensures
        (forall|i: int| 0 <= i < rows.len() ==> (#[trigger] rows[i]).0 != doc) ==> stable_of(
            rows,
            rows.len(),
            doc,
        ) == 0,
        forall|i: int|
            0 <= i < rows.len() && (#[trigger] rows[i]).0 == doc && (forall|j: int|
                i < j < rows.len() ==> (#[trigger] rows[j]).0 != doc) ==> stable_of(
                rows,
                rows.len(),
                doc,
            ) == rows[i].1,
{
    lemma_last_row(rows, rows.len(), doc);
}

proof fn lemma_last_row(rows: Seq<(u32, i128)>, n: nat, doc: int)
    requires
        n <= rows.len(),
    ensures
        (forall|i: int| 0 <= i < n ==> (#[trigger] rows[i]).0 != doc) ==> stable_of(rows, n, doc)
            == 0,
        forall|i: int|
            0 <= i < n && (#[trigger] rows[i]).0 == doc && (forall|j: int|
                i < j < n ==> (#[trigger] rows[j]).0 != doc) ==> stable_of(rows, n, doc)
                == rows[i].1,
    decreases n,
{
    if n > 0 {
        lemma_last_row(rows, (n - 1) as nat, doc);
        assert(rows[n - 1].0 == doc || rows[n - 1].0 != doc);
    }
}

} // verus!
