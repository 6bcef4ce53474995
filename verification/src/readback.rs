//! What a reader finds in a stored subsection: from the header's offsets and
//! the cluster index it gets to every centroid, ruler, norm, code, document id
//! and payload that was put in.
use vstd::prelude::*;

use crate::codes::Metric;
use crate::ivf::RerankCodec;
use crate::subsection::{
    block, blocks, index_entries, law_one_range_covers_a_cluster,
    law_regions_stand_at_their_offsets, lemma_blocks_len, lemma_header_len, lemma_index_len,
    lemma_meta_len, lemma_rows_before_monotone, lemma_rows_len, lemma_stable_len, norms, place_of,
    row_codes, row_ids, row_norms, row_payloads, rows_before, stable_bytes, IvfParts, IvfRow,
};
use crate::wire::{
    field, i128_pattern, le_bytes, lemma_field_of_bytes, lemma_le_bytes_len, lemma_pow256_values,
    lemma_word_at, lemma_word_bytes_len, word_bytes,
};

verus! {

// ---------------- pieces of equal size ----------------

proof fn lemma_slot(i: int, n: int, w: int)
    requires
        0 <= i < n,
        0 <= w,
    ensures
        0 <= i * w,
        i * w + w <= n * w,
        (n - 1) * w + w == n * w,
{
    assert(0 <= i * w && i * w + w <= n * w && (n - 1) * w + w == n * w) by (nonlinear_arith)
        requires
            0 <= i,
            i + 1 <= n,
            0 <= w,
    ;
}

/// A piece of a region reads in the whole as it does in the region.
proof fn lemma_inside(b: Seq<u8>, from: int, to: int, region: Seq<u8>, at: int, w: int)
    requires
        0 <= from <= to <= b.len(),
        b.subrange(from, to) == region,
        0 <= at,
        0 <= w,
        at + w <= to - from,
    ensures
        b.subrange(from + at, from + at + w) == region.subrange(at, at + w),
{
    assert(b.subrange(from + at, from + at + w) =~= region.subrange(at, at + w));
}

/// A piece of one of three parts reads in their concatenation as it does in
/// the part.
proof fn lemma_of_three(x: Seq<u8>, y: Seq<u8>, z: Seq<u8>, at: int, w: int)
    requires
        0 <= at,
        0 <= w,
    ensures
        at + w <= x.len() ==> (x + y + z).subrange(at, at + w) == x.subrange(at, at + w),
        at + w <= y.len() ==> (x + y + z).subrange(x.len() + at, x.len() + at + w) == y.subrange(
            at,
            at + w,
        ),
        at + w <= z.len() ==> (x + y + z).subrange(
            x.len() + y.len() + at,
            x.len() + y.len() + at + w,
        ) == z.subrange(at, at + w),
{
    let s = x + y + z;
    let n = (x.len() + y.len()) as int;
    if at + w <= x.len() {
        assert(s.subrange(at, at + w) =~= x.subrange(at, at + w));
    }
    if at + w <= y.len() {
        assert(s.subrange(x.len() + at, x.len() + at + w) =~= y.subrange(at, at + w));
    }
    if at + w <= z.len() {
        assert(s.subrange(n + at, n + at + w) =~= z.subrange(at, at + w));
    }
}

proof fn lemma_row_at(rows: Seq<IvfRow>, n: nat, i: int, w: int, pay: int)
    requires
        0 <= i < n <= rows.len(),
        forall|j: int|
            0 <= j < rows.len() ==> (#[trigger] rows[j]).code@.len() == w && rows[j].payload@.len()
                == pay,
    ensures
        row_codes(rows, n).subrange(i * w, i * w + w) == rows[i].code@,
        row_ids(rows, n).subrange(4 * i, 4 * i + 4) == le_bytes(rows[i].local_doc_id as nat, 4),
        row_payloads(rows, n).subrange(i * pay, i * pay + pay) == rows[i].payload@,
        row_norms(rows, n).subrange(4 * i, 4 * i + 4) == le_bytes(
            (match rows[i].norm {
                Some(x) => x as nat,
                None => 0,
            }),
            4,
        ),
    decreases n,
{
    let m = (n - 1) as nat;
    let norm = (match rows[n - 1].norm {
        Some(x) => x as nat,
        None => 0,
    });
    assert(rows[i].code@.len() == w && rows[i].payload@.len() == pay);
    lemma_rows_len(rows, n, w, pay);
    lemma_rows_len(rows, m, w, pay);
    lemma_le_bytes_len(rows[n - 1].local_doc_id as nat, 4);
    lemma_le_bytes_len(norm, 4);
    lemma_slot(i, n as int, w);
    lemma_slot(i, n as int, pay);
    if i == n - 1 {
        assert(row_codes(rows, n).subrange(i * w, i * w + w) =~= rows[i].code@);
        assert(row_ids(rows, n).subrange(4 * i, 4 * i + 4) =~= le_bytes(
            rows[i].local_doc_id as nat,
            4,
        ));
        assert(row_payloads(rows, n).subrange(i * pay, i * pay + pay) =~= rows[i].payload@);
        assert(row_norms(rows, n).subrange(4 * i, 4 * i + 4) =~= le_bytes(norm, 4));
    } else {
        lemma_row_at(rows, m, i, w, pay);
        lemma_slot(i, m as int, w);
        lemma_slot(i, m as int, pay);
        assert(row_codes(rows, n).subrange(i * w, i * w + w) =~= row_codes(rows, m).subrange(
            i * w,
            i * w + w,
        ));
        assert(row_ids(rows, n).subrange(4 * i, 4 * i + 4) =~= row_ids(rows, m).subrange(
            4 * i,
            4 * i + 4,
        ));
        assert(row_payloads(rows, n).subrange(i * pay, i * pay + pay) =~= row_payloads(
            rows,
            m,
        ).subrange(i * pay, i * pay + pay));
        assert(row_norms(rows, n).subrange(4 * i, 4 * i + 4) =~= row_norms(rows, m).subrange(
            4 * i,
            4 * i + 4,
        ));
    }
}

proof fn lemma_index_at(clusters: Seq<Vec<IvfRow>>, order: Seq<usize>, n: nat, c: int)
    requires
        0 <= c < n,
    ensures
        index_entries(clusters, order, n).subrange(8 * c, 8 * c + 4) == le_bytes(
            (rows_before(clusters, order, place_of(order, c) as nat) as u32) as nat,
            4,
        ),
        index_entries(clusters, order, n).subrange(8 * c + 4, 8 * c + 8) == le_bytes(
            (clusters[c]@.len() as u32) as nat,
            4,
        ),
    decreases n,
{
    let m = (n - 1) as nat;
    lemma_index_len(clusters, order, n);
    lemma_index_len(clusters, order, m);
    let first = (rows_before(clusters, order, place_of(order, n - 1) as nat) as u32) as nat;
    let count = (clusters[n - 1]@.len() as u32) as nat;
    lemma_le_bytes_len(first, 4);
    lemma_le_bytes_len(count, 4);
    let all = index_entries(clusters, order, n);
    let less = index_entries(clusters, order, m);
    if c == n - 1 {
        assert(all.subrange(8 * c, 8 * c + 4) =~= le_bytes(first, 4));
        assert(all.subrange(8 * c + 4, 8 * c + 8) =~= le_bytes(count, 4));
    } else {
        lemma_index_at(clusters, order, m, c);
        assert(all.subrange(8 * c, 8 * c + 4) =~= less.subrange(8 * c, 8 * c + 4));
        assert(all.subrange(8 * c + 4, 8 * c + 8) =~= less.subrange(8 * c + 4, 8 * c + 8));
    }
}

proof fn lemma_stable_at(ids: Seq<i128>, n: nat, d: int)
    requires
        0 <= d < n,
    ensures
        stable_bytes(ids, n).subrange(16 * d, 16 * d + 16) == le_bytes(
            i128_pattern(ids[d]) as nat,
            16,
        ),
    decreases n,
{
    let m = (n - 1) as nat;
    lemma_stable_len(ids, n);
    lemma_stable_len(ids, m);
    lemma_le_bytes_len(i128_pattern(ids[n - 1]) as nat, 16);
    let all = stable_bytes(ids, n);
    if d == n - 1 {
        assert(all.subrange(16 * d, 16 * d + 16) =~= le_bytes(i128_pattern(ids[d]) as nat, 16));
    } else {
        lemma_stable_at(ids, m, d);
        assert(all.subrange(16 * d, 16 * d + 16) =~= stable_bytes(ids, m).subrange(
            16 * d,
            16 * d + 16,
        ));
    }
}

proof fn lemma_norms_at(p: IvfParts, n: nat, k: int)
    requires
        p.wf(),
        0 <= k < n <= p.order@.len(),
    ensures
        ({
            let rows = p.clusters@[p.order@[k] as int]@;
            let from = 4 * rows_before(p.clusters@, p.order@, k as nat) as int;
            let all = norms(p.clusters@, p.order@, n);
            &&& all.len() == 4 * rows_before(p.clusters@, p.order@, n)
            &&& row_norms(rows, rows.len()).len() == 4 * rows.len()
            &&& from + 4 * rows.len() <= all.len()
            &&& all.subrange(from, from + 4 * rows.len()) == row_norms(rows, rows.len())
        }),
    decreases n,
{
    let m = (n - 1) as nat;
    let last = p.clusters@[p.order@[n - 1] as int]@;
    let pay = p.codec.row_bytes(p.dim as int);
    lemma_cluster_rows(p, p.order@[n - 1] as int);
    lemma_cluster_rows(p, p.order@[k] as int);
    lemma_rows_len(last, last.len(), p.code_bytes as int, pay);
    let rows = p.clusters@[p.order@[k] as int]@;
    lemma_rows_len(rows, rows.len(), p.code_bytes as int, pay);
    let from = 4 * rows_before(p.clusters@, p.order@, k as nat) as int;
    let all = norms(p.clusters@, p.order@, n);
    let less = norms(p.clusters@, p.order@, m);
    if n > 1 {
        lemma_norms_at(p, m, if k < m {
            k
        } else {
            0
        });
    }
    if k == n - 1 {
        assert(all.subrange(from, from + 4 * rows.len()) =~= row_norms(rows, rows.len()));
    } else {
        assert(all.subrange(from, from + 4 * rows.len()) =~= less.subrange(
            from,
            from + 4 * rows.len(),
        ));
    }
}

proof fn lemma_cluster_rows(p: IvfParts, c: int)
    requires
        p.wf(),
        0 <= c < p.n_cent(),
    ensures
        forall|j: int|
            0 <= j < p.clusters@[c]@.len() ==> (#[trigger] p.clusters@[c]@[j]).code@.len()
                == p.code_bytes && p.clusters@[c]@[j].payload@.len() == p.codec.row_bytes(
                p.dim as int,
            ),
{
}

// ---------------- what is read ----------------

/// First row of cluster `c`, as the index in `b` gives it.
pub open spec fn first_row(b: Seq<u8>, c: int) -> int {
    field(b, field(b, 32, 8) + 8 * c, 4) as int
}

/// Row count of cluster `c`, as the index in `b` gives it.
pub open spec fn row_count(b: Seq<u8>, c: int) -> int {
    field(b, field(b, 32, 8) + 8 * c + 4, 4) as int
}

/// Bytes that a row's payload takes.
pub open spec fn payload_width(codec: RerankCodec, dim: int) -> int {
    match codec {
        RerankCodec::Fp32 => 4 * dim,
        RerankCodec::Sq8Residual => 2 * dim,
        RerankCodec::RabitqOnly => 0,
    }
}

/// The header names the format and its version, and gives the offsets of the
/// summary, the centroids, the cluster index and the blocks.
pub proof fn law_header_gives_the_offsets(p: IvfParts)
    requires
        p.wf(),
    ensures
        ({
            let b = p.bytes();
            &&& field(b, 0, 8) == 0x3153_4656_4946_4E49
            &&& field(b, 8, 4) == 2
            &&& p.meta_size() <= u32::MAX ==> field(b, 12, 4) == p.meta_size()
            &&& field(b, 16, 8) == 56
            &&& field(b, 24, 8) == 56 + 4 * p.dim
            &&& field(b, 32, 8) == 56 + 4 * p.dim + 4 * (p.n_cent() * p.dim)
            &&& field(b, 40, 8) == 56 + 4 * p.dim + 4 * (p.n_cent() * p.dim) + 8 * p.n_cent()
                + p.meta_size() + p.stable_size()
            &&& field(b, 48, 8) == 0
            &&& p.blocks_off() == field(b, 40, 8)
            &&& p.index_off() == field(b, 32, 8)
            &&& p.blocks_off() <= b.len() - 4
            &&& 0 <= p.meta_size()
        }),
{
    law_regions_stand_at_their_offsets(p);
    lemma_pow256_values();
    lemma_header_len(p);
    lemma_meta_len(p);
    lemma_blocks_len(p, p.order@.len());
    let h = p.header();
    let b = p.bytes();
    let f1 = le_bytes(0x3153_4656_4946_4E49, 8);
    let f2 = le_bytes(2, 4);
    let f3 = le_bytes((p.meta_size() as u32) as nat, 4);
    let f4 = le_bytes(56, 8);
    let f5 = le_bytes((p.centroids_off() as u64) as nat, 8);
    let f6 = le_bytes((p.index_off() as u64) as nat, 8);
    let f7 = le_bytes((p.blocks_off() as u64) as nat, 8);
    let f8 = le_bytes(0, 8);
    lemma_le_bytes_len(0x3153_4656_4946_4E49, 8);
    lemma_le_bytes_len(2, 4);
    lemma_le_bytes_len((p.meta_size() as u32) as nat, 4);
    lemma_le_bytes_len(56, 8);
    lemma_le_bytes_len((p.centroids_off() as u64) as nat, 8);
    lemma_le_bytes_len((p.index_off() as u64) as nat, 8);
    lemma_le_bytes_len((p.blocks_off() as u64) as nat, 8);
    lemma_le_bytes_len(0, 8);
    assert(0 <= p.n_cent() * p.dim && 0 <= p.n_docs() * p.stride()) by (nonlinear_arith)
        requires
            0 <= p.n_cent(),
            0 <= p.dim,
            0 <= p.n_docs(),
            0 <= p.stride(),
    ;
    assert(h == f1 + f2 + f3 + f4 + f5 + f6 + f7 + f8);
    assert(h.subrange(0, 8) =~= f1);
    assert(h.subrange(8, 12) =~= f2);
    assert(h.subrange(12, 16) =~= f3);
    assert(h.subrange(16, 24) =~= f4);
    assert(h.subrange(24, 32) =~= f5);
    assert(h.subrange(32, 40) =~= f6);
    assert(h.subrange(40, 48) =~= f7);
    assert(h.subrange(48, 56) =~= f8);
    assert(b.subrange(0, 8) =~= b.subrange(0, 56).subrange(0, 8));
    assert(b.subrange(8, 12) =~= b.subrange(0, 56).subrange(8, 12));
    assert(b.subrange(12, 16) =~= b.subrange(0, 56).subrange(12, 16));
    assert(b.subrange(16, 24) =~= b.subrange(0, 56).subrange(16, 24));
    assert(b.subrange(24, 32) =~= b.subrange(0, 56).subrange(24, 32));
    assert(b.subrange(32, 40) =~= b.subrange(0, 56).subrange(32, 40));
    assert(b.subrange(40, 48) =~= b.subrange(0, 56).subrange(40, 48));
    assert(b.subrange(48, 56) =~= b.subrange(0, 56).subrange(48, 56));
    lemma_field_of_bytes(b, 0, 0x3153_4656_4946_4E49, 8);
    lemma_field_of_bytes(b, 8, 2, 4);
    lemma_field_of_bytes(b, 12, (p.meta_size() as u32) as nat, 4);
    lemma_field_of_bytes(b, 16, 56, 8);
    lemma_field_of_bytes(b, 24, (p.centroids_off() as u64) as nat, 8);
    lemma_field_of_bytes(b, 32, (p.index_off() as u64) as nat, 8);
    lemma_field_of_bytes(b, 40, (p.blocks_off() as u64) as nat, 8);
    lemma_field_of_bytes(b, 48, 0, 8);
}

proof fn lemma_index_entry(p: IvfParts, c: int)
    requires
        p.wf(),
        0 <= c < p.n_cent(),
    ensures
        ({
            let b = p.bytes();
            let first = rows_before(p.clusters@, p.order@, place_of(p.order@, c) as nat);
            &&& first_row(b, c) == first as u32
            &&& row_count(b, c) == p.clusters@[c]@.len() as u32
        }),
{
    let b = p.bytes();
    law_header_gives_the_offsets(p);
    law_regions_stand_at_their_offsets(p);
    lemma_pow256_values();
    let n = p.clusters@.len();
    let idx = index_entries(p.clusters@, p.order@, n);
    lemma_index_len(p.clusters@, p.order@, n);
    lemma_index_at(p.clusters@, p.order@, n, c);
    let at = p.index_off();
    assert(0 <= p.n_cent() * p.dim) by (nonlinear_arith)
        requires
            0 <= p.n_cent(),
            0 <= p.dim,
    ;
    lemma_inside(b, at, p.meta_off(), idx, 8 * c, 4);
    lemma_inside(b, at, p.meta_off(), idx, 8 * c + 4, 4);
    let first = rows_before(p.clusters@, p.order@, place_of(p.order@, c) as nat);
    lemma_field_of_bytes(b, at + 8 * c, (first as u32) as nat, 4);
    lemma_field_of_bytes(b, at + 8 * c + 4, (p.clusters@[c]@.len() as u32) as nat, 4);
}

/// The index gives each cluster its row count and its first row; in physical
/// order the clusters' rows follow each other without a gap, from row 0 on.
pub proof fn law_index_places_the_clusters(p: IvfParts, k: int)
    requires
        p.wf(),
        p.n_docs() <= u32::MAX,
        0 <= k < p.order@.len(),
    ensures
        ({
            let b = p.bytes();
            let c = p.order@[k] as int;
            &&& row_count(b, c) == p.clusters@[c]@.len()
            &&& first_row(b, c) == rows_before(p.clusters@, p.order@, k as nat)
            &&& k == 0 ==> first_row(b, c) == 0
            &&& k > 0 ==> first_row(b, c) == first_row(b, p.order@[k - 1] as int) + row_count(
                b,
                p.order@[k - 1] as int,
            )
        }),
{
    lemma_placed(p, k);
    if k > 0 {
        lemma_placed(p, k - 1);
    }
}

proof fn lemma_placed(p: IvfParts, k: int)
    requires
        p.wf(),
        p.n_docs() <= u32::MAX,
        0 <= k < p.order@.len(),
    ensures
        ({
            let c = p.order@[k] as int;
            &&& row_count(p.bytes(), c) == p.clusters@[c]@.len()
            &&& first_row(p.bytes(), c) == rows_before(p.clusters@, p.order@, k as nat)
        }),
{
    law_one_range_covers_a_cluster(p, k);
    lemma_index_entry(p, p.order@[k] as int);
    lemma_rows_before_monotone(p.clusters@, p.order@, k as nat, p.order@.len());
    lemma_rows_before_monotone(p.clusters@, p.order@, (k + 1) as nat, p.order@.len());
}

/// A row is read back through the index: its code, its document id and its
/// payload stand in its cluster's block, at its place among the cluster's
/// codes, ids and payloads.
pub proof fn law_row_reads_back(p: IvfParts, k: int, i: int)
    requires
        p.wf(),
        p.n_docs() <= u32::MAX,
        0 <= k < p.order@.len(),
        0 <= i < p.clusters@[p.order@[k] as int]@.len(),
    ensures
        ({
            let b = p.bytes();
            let c = p.order@[k] as int;
            let row = p.clusters@[c]@[i];
            let w = p.code_bytes as int;
            let pay = payload_width(p.codec, p.dim as int);
            let count = row_count(b, c);
            let from = field(b, 40, 8) + first_row(b, c) * (w + 4 + pay);
            let ids = from + count * w;
            let payloads = ids + 4 * count;
            &&& b.subrange(from + i * w, from + i * w + w) == row.code@
            &&& field(b, ids + 4 * i, 4) == row.local_doc_id
            &&& b.subrange(payloads + i * pay, payloads + i * pay + pay) == row.payload@
            &&& payloads + i * pay + pay <= b.len() - 4
        }),
{
    let b = p.bytes();
    let c = p.order@[k] as int;
    let rows = p.clusters@[c]@;
    let n = rows.len();
    let w = p.code_bytes as int;
    let pay = payload_width(p.codec, p.dim as int);
    law_header_gives_the_offsets(p);
    law_index_places_the_clusters(p, k);
    law_one_range_covers_a_cluster(p, k);
    law_regions_stand_at_their_offsets(p);
    lemma_pow256_values();
    lemma_cluster_rows(p, c);
    lemma_rows_len(rows, n, w, pay);
    lemma_row_at(rows, n, i, w, pay);
    lemma_slot(i, n as int, w);
    lemma_slot(i, n as int, pay);
    let st = p.stride();
    assert(st == w + 4 + pay);
    let from = p.blocks_off() + rows_before(p.clusters@, p.order@, k as nat) * st;
    let blk = block(rows);
    let codes = row_codes(rows, n);
    let ids = row_ids(rows, n);
    let pays = row_payloads(rows, n);
    assert(blk == codes + ids + pays);
    assert(n * st == n * w + 4 * n + n * pay) by (nonlinear_arith)
        requires
            st == w + 4 + pay,
    ;
    lemma_block_inside(p, k);
    assert(b.subrange(from, from + n * st) == blk);
    lemma_inside(b, from, from + n * st, blk, i * w, w);
    lemma_of_three(codes, ids, pays, i * w, w);
    let at = n * w + 4 * i;
    lemma_inside(b, from, from + n * st, blk, at, 4);
    lemma_of_three(codes, ids, pays, 4 * i, 4);
    lemma_field_of_bytes(b, from + at, rows[i].local_doc_id as nat, 4);
    let to = n * w + 4 * n + i * pay;
    lemma_inside(b, from, from + n * st, blk, to, pay);
    lemma_of_three(codes, ids, pays, i * pay, pay);
}

proof fn lemma_block_inside(p: IvfParts, k: int)
    requires
        p.wf(),
        0 <= k < p.order@.len(),
    ensures
        ({
            let rows = p.clusters@[p.order@[k] as int]@;
            let from = p.blocks_off() + rows_before(p.clusters@, p.order@, k as nat) * p.stride();
            0 <= from && from + rows.len() * p.stride() <= p.bytes().len() - 4
        }),
{
    law_header_gives_the_offsets(p);
    law_regions_stand_at_their_offsets(p);
    lemma_blocks_len(p, p.order@.len());
    lemma_rows_before_monotone(p.clusters@, p.order@, (k + 1) as nat, p.order@.len());
    let a = rows_before(p.clusters@, p.order@, k as nat) as int;
    let n = p.clusters@[p.order@[k] as int]@.len() as int;
    let all = rows_before(p.clusters@, p.order@, p.order@.len()) as int;
    let st = p.stride();
    assert(p.bytes().subrange(p.blocks_off(), p.bytes().len() - 4).len() == all * st);
    assert(0 <= a * st && a * st + n * st <= all * st) by (nonlinear_arith)
        requires
            0 <= a,
            0 <= n,
            a + n <= all,
            0 <= st,
    ;
}

/// Where the codec and the metric keep norms, the norm of a row stands behind
/// the rulers at the row's place in physical order, 0 for a row without one.
pub proof fn law_norm_reads_back(p: IvfParts, k: int, i: int)
    requires
        p.wf(),
        p.n_docs() <= u32::MAX,
        p.codec == RerankCodec::Sq8Residual,
        p.metric != Metric::NegDot,
        0 <= k < p.order@.len(),
        0 <= i < p.clusters@[p.order@[k] as int]@.len(),
    ensures
        ({
            let b = p.bytes();
            let c = p.order@[k] as int;
            let meta = field(b, 32, 8) + 8 * p.n_cent();
            field(b, meta + 8 * (p.n_cent() * p.dim) + 4 * (first_row(b, c) + i), 4) == (
            match p.clusters@[c]@[i].norm {
                Some(x) => x as int,
                None => 0,
            })
        }),
{
    let b = p.bytes();
    let c = p.order@[k] as int;
    let rows = p.clusters@[c]@;
    law_header_gives_the_offsets(p);
    law_index_places_the_clusters(p, k);
    law_regions_stand_at_their_offsets(p);
    lemma_pow256_values();
    lemma_norm_in_meta(p, k, i);
    let nd = p.n_cent() * p.dim;
    let meta = p.meta();
    let from = p.meta_off();
    let at = 8 * nd + 4 * (rows_before(p.clusters@, p.order@, k as nat) + i);
    assert(b.subrange(from, from + p.meta_size()) == meta);
    lemma_inside(b, from, from + p.meta_size(), meta, at, 4);
    let x = (match rows[i].norm {
        Some(x) => x as nat,
        None => 0,
    });
    lemma_field_of_bytes(b, from + at, x, 4);
}

/// The norm of a row in the codec meta.
proof fn lemma_norm_in_meta(p: IvfParts, k: int, i: int)
    requires
        p.wf(),
        p.codec == RerankCodec::Sq8Residual,
        p.metric != Metric::NegDot,
        0 <= k < p.order@.len(),
        0 <= i < p.clusters@[p.order@[k] as int]@.len(),
    ensures
        ({
            let nd = p.n_cent() * p.dim;
            let at = 8 * nd + 4 * (rows_before(p.clusters@, p.order@, k as nat) + i);
            &&& 0 <= nd
            &&& at + 4 <= p.meta().len() == p.meta_size()
            &&& p.meta().subrange(at, at + 4) == le_bytes(
                match p.clusters@[p.order@[k] as int]@[i].norm {
                    Some(x) => x as nat,
                    None => 0,
                },
                4,
            )
        }),
{
    let c = p.order@[k] as int;
    let rows = p.clusters@[c]@;
    lemma_cluster_rows(p, c);
    lemma_meta_len(p);
    lemma_word_bytes_len(p.scales@);
    lemma_word_bytes_len(p.offsets@);
    lemma_norms_at(p, p.order@.len(), k);
    lemma_row_at(rows, rows.len(), i, p.code_bytes as int, p.codec.row_bytes(p.dim as int));
    let nd = p.n_cent() * p.dim;
    assert(0 <= nd) by (nonlinear_arith)
        requires
            0 <= p.n_cent(),
            0 <= p.dim,
            nd == p.n_cent() * p.dim,
    ;
    let all = norms(p.clusters@, p.order@, p.order@.len());
    let scales = word_bytes(p.scales@);
    let offsets = word_bytes(p.offsets@);
    let part = row_norms(rows, rows.len());
    let first = 4 * rows_before(p.clusters@, p.order@, k as nat) as int;
    assert(p.meta() == scales + offsets + all);
    lemma_inside(all, first, first + 4 * rows.len(), part, 4 * i, 4);
    lemma_of_three(scales, offsets, all, first + 4 * i, 4);
}

/// The ruler of cluster `c` in coordinate `d`: its scale stands in the codec
/// meta at the place of the coordinate, by cluster id, and its offset as far
/// behind all scales.
pub proof fn law_ruler_reads_back(p: IvfParts, c: int, d: int)
    requires
        p.wf(),
        p.codec == RerankCodec::Sq8Residual,
        0 <= c < p.n_cent(),
        0 <= d < p.dim,
    ensures
        ({
            let b = p.bytes();
            let meta = field(b, 32, 8) + 8 * p.n_cent();
            let at = c * p.dim + d;
            &&& field(b, meta + 4 * at, 4) == p.scales@[at]
            &&& field(b, meta + 4 * (p.n_cent() * p.dim) + 4 * at, 4) == p.offsets@[at]
        }),
{
    let b = p.bytes();
    law_header_gives_the_offsets(p);
    law_regions_stand_at_their_offsets(p);
    lemma_meta_len(p);
    lemma_word_bytes_len(p.scales@);
    lemma_word_bytes_len(p.offsets@);
    lemma_slot(c, p.n_cent(), p.dim as int);
    let nd = p.n_cent() * p.dim;
    let at = c * p.dim + d;
    let from = p.meta_off();
    let meta = p.meta();
    assert(b.subrange(from, from + p.meta_size()) == meta);
    let rest = (match p.metric {
        Metric::NegDot => Seq::<u8>::empty(),
        _ => norms(p.clusters@, p.order@, p.order@.len()),
    });
    let scales = word_bytes(p.scales@);
    let offsets = word_bytes(p.offsets@);
    assert(meta == scales + offsets + rest);
    lemma_of_three(scales, offsets, rest, 0, 4 * nd);
    assert(scales.subrange(0, 4 * nd) =~= scales);
    assert(offsets.subrange(0, 4 * nd) =~= offsets);
    assert(meta.len() == p.meta_size());
    lemma_inside(b, from, from + p.meta_size(), meta, 0, 4 * nd);
    lemma_inside(b, from, from + p.meta_size(), meta, 4 * nd, 4 * nd);
    lemma_word_at(b, from, p.scales@, at);
    lemma_word_at(b, from + 4 * nd, p.offsets@, at);
}

/// The summary and the centroids are read back coordinate by coordinate.
pub proof fn law_centroids_read_back(p: IvfParts, c: int, d: int)
    requires
        p.wf(),
        0 <= c < p.n_cent(),
        0 <= d < p.dim,
    ensures
        ({
            let b = p.bytes();
            &&& field(b, field(b, 16, 8) + 4 * d, 4) == p.summary@[d]
            &&& field(b, field(b, 24, 8) + 4 * (c * p.dim + d), 4) == p.centroids@[c * p.dim + d]
        }),
{
    let b = p.bytes();
    law_header_gives_the_offsets(p);
    law_regions_stand_at_their_offsets(p);
    lemma_slot(c, p.n_cent(), p.dim as int);
    lemma_word_at(b, 56, p.summary@, d);
    lemma_word_at(b, p.centroids_off(), p.centroids@, c * p.dim + d);
}

/// Where stable ids are stored, that of document `d` stands between the codec
/// meta and the blocks.
pub proof fn law_stable_id_reads_back(p: IvfParts, d: int)
    requires
        p.wf(),
        p.stable_ids is Some,
        0 <= d < p.stable_ids->0@.len(),
    ensures
        ({
            let b = p.bytes();
            let from = field(b, 40, 8) - 16 * p.stable_ids->0@.len();
            (field(b, from + 16 * d, 16) as u128) as i128 == p.stable_ids->0@[d]
        }),
{
    let b = p.bytes();
    let ids = p.stable_ids->0@;
    law_header_gives_the_offsets(p);
    law_regions_stand_at_their_offsets(p);
    lemma_stable_len(ids, ids.len());
    lemma_stable_at(ids, ids.len(), d);
    lemma_pow256_values();
    let from = p.meta_off() + p.meta_size();
    let all = stable_bytes(ids, ids.len());
    assert(p.stable_size() == 16 * ids.len());
    assert(0 <= p.n_cent() * p.dim) by (nonlinear_arith)
        requires
            0 <= p.n_cent(),
            0 <= p.dim,
    ;
    assert(b.subrange(from, p.blocks_off()) == all);
    assert(b.subrange(from + 16 * d, from + 16 * d + 16) =~= all.subrange(16 * d, 16 * d + 16)) by {
        assert(b.subrange(from, p.blocks_off()).subrange(16 * d, 16 * d + 16) =~= b.subrange(
            from + 16 * d,
            from + 16 * d + 16,
        ));
    }
    lemma_field_of_bytes(b, from + 16 * d, i128_pattern(ids[d]) as nat, 16);
    let x = ids[d];
    assert((x as u128) as i128 == x) by (bit_vector);
}

} // verus!
