//! Column registration, intake, subsections and the blob.
use std::collections::HashSet;

use infino_core::builder::{
    AddStep, BuildError, ColumnFault, ColumnName, MaterializedIvfRow, VectorBuilder, VectorConfig,
    DEFAULT_SPILL_THRESHOLD_BYTES, OUTER_MAGIC, RESERVOIR_SEED_XOR_MASK, VERSION,
};
use infino_core::checksum::{crc32c, crc32c_append};
use infino_core::codes::Metric;
use infino_core::column::{
    build_column, carry_rows, choose_n_cent, order_materialized, plain_payload, plan_column,
    stream_rows, ClusterRanges, Payload,
};
use infino_core::ivf::{
    bucket_rows, chunk_rows_for_dim, metric_id, n_cent_row_count_cap, nearest_centroid,
    physical_n_cent, sample_index, IvfSubsectionLayout, RerankCodec, DIR_ENTRY_SIZE,
    OUTER_HEADER_SIZE, SUB_MAGIC,
};
use infino_core::kmeans::KMEANS_SEED_OFFSET;
use infino_core::order::centroid_storage_order;
use infino_core::span::range_of;
use infino_core::subsection::{
    assemble_subsection, clustered, order_by_doc_id, stable_region, IvfParts, IvfRow,
    SubsectionBytes,
};

fn cfg(name: &str, dim: usize) -> VectorConfig {
    VectorConfig {
        column: name.to_string(),
        dim,
        n_cent: 4,
        rot_seed: 7,
        metric: Metric::L2Sq,
        rerank_codec: RerankCodec::Fp32,
        provided_centroids: None,
    }
}

fn bits(v: &[f32]) -> Vec<u32> {
    v.iter().map(|x| x.to_bits()).collect()
}

fn l2(a: &[f32], b: &[f32]) -> f32 {
    a.iter().zip(b).map(|(x, y)| (x - y) * (x - y)).sum()
}

/// Build a column's subsection from raw rows, with the first rows as
/// centroids and sign bits as codes.
fn subsection(c: &VectorConfig, rows: &[Vec<f32>]) -> SubsectionBytes {
    subsection_with_ids(c, rows, None)
}

fn subsection_with_ids(
    c: &VectorConfig,
    rows: &[Vec<f32>],
    stable_ids: Option<Vec<i128>>,
) -> SubsectionBytes {
    let dim = c.dim;
    let n_cent = choose_n_cent(c, rows.len(), rows.len(), false);
    let centers: Vec<Vec<f32>> = (0..n_cent)
        .map(|i| rows.get(i).cloned().unwrap_or_else(|| vec![0.0; dim]))
        .collect();
    let summary: Vec<f32> = (0..dim)
        .map(|d| centers.iter().map(|x| x[d]).sum::<f32>() / n_cent as f32)
        .collect();
    let assign: Vec<u32> = rows
        .iter()
        .map(|r| {
            let dists: Vec<u32> = centers.iter().map(|x| l2(r, x).to_bits()).collect();
            nearest_centroid(&dists) as u32
        })
        .collect();
    let row_bits: Vec<Vec<u32>> = rows.iter().map(|r| bits(r)).collect();
    let flat: Vec<f32> = centers.iter().flatten().copied().collect();
    let mut ranges = ClusterRanges::new(n_cent, dim);
    for (row, cluster) in row_bits.iter().zip(&assign) {
        ranges.absorb(row, *cluster);
    }
    let plan = plan_column(c, n_cent, bits(&summary), bits(&flat), &ranges, assign);
    let code_bytes = dim.div_ceil(8);
    let mut codes: Vec<Vec<u8>> = Vec::new();
    let mut payloads: Vec<Payload> = Vec::new();
    for (i, r) in rows.iter().enumerate() {
        let mut code = vec![0u8; code_bytes];
        for (d, x) in r.iter().enumerate() {
            if *x >= 0.0 {
                code[d / 8] |= 1 << (d % 8);
            }
        }
        codes.push(code);
        payloads.push(if c.rerank_codec == RerankCodec::Sq8Residual {
            let at = plan.assign[i] as usize * dim;
            let mut p: Vec<u8> = Vec::new();
            for (d, x) in r.iter().enumerate() {
                let s = f32::from_bits(plan.scales[at + d]);
                let o = f32::from_bits(plan.offsets[at + d]);
                p.push(((x - o) / s).round().clamp(0.0, 255.0) as u8);
            }
            p.extend(vec![0u8; dim]);
            Payload {
                bytes: p,
                norm: Some(r.iter().map(|x| x * x).sum::<f32>().to_bits()),
            }
        } else {
            Payload {
                bytes: plain_payload(c.rerank_codec, &bits(r)),
                norm: None,
            }
        });
    }
    let encoded = stream_rows(codes, payloads);
    build_column(plan, encoded, code_bytes, stable_ids)
}

fn finish(b: &VectorBuilder, rows: &[Vec<Vec<f32>>]) -> Vec<u8> {
    let built: Vec<Option<SubsectionBytes>> = b
        .columns
        .iter()
        .zip(rows)
        .map(|(c, r)| Some(subsection(&c.config, r)))
        .collect();
    b.finish(&built)
}

fn u32_at(b: &[u8], at: usize) -> u32 {
    u32::from_le_bytes(b[at..at + 4].try_into().expect("4 bytes"))
}

fn u64_at(b: &[u8], at: usize) -> u64 {
    u64::from_le_bytes(b[at..at + 8].try_into().expect("8 bytes"))
}

#[test]
fn register_column_returns_sequential_ids() {
    let mut b = VectorBuilder::new();
    assert_eq!(b.register_column(cfg("a", 16)).expect("register column"), 0);
    assert_eq!(b.register_column(cfg("b", 32)).expect("register column"), 1);
}

#[test]
fn register_column_rejects_separator_in_name() {
    let mut b = VectorBuilder::new();
    let bad = cfg("a\x1Fb", 16);
    let err = b.register_column(bad).expect_err("expected error");
    assert!(matches!(err, BuildError::ReservedSeparatorInColumnName(_)));
}

#[test]
fn register_column_rejects_inf_prefix() {
    let mut b = VectorBuilder::new();
    let bad = cfg("inf.embedding", 16);
    let err = b.register_column(bad).expect_err("expected error");
    assert!(matches!(err, BuildError::ReservedPrefixInColumnName(_)));
}

#[test]
fn register_column_rejects_dim_too_small() {
    let mut b = VectorBuilder::new();
    let err = b.register_column(cfg("a", 8)).expect_err("expected error");
    assert!(matches!(err, BuildError::VectorDimOutOfRange { .. }));
}

#[test]
fn register_column_rejects_dim_too_large() {
    let mut b = VectorBuilder::new();
    let err = b
        .register_column(cfg("a", 5000))
        .expect_err("expected error");
    assert!(matches!(err, BuildError::VectorDimOutOfRange { .. }));
}

#[test]
fn register_column_rejects_duplicate() {
    let mut b = VectorBuilder::new();
    b.register_column(cfg("a", 16)).expect("register column");
    let err = b.register_column(cfg("a", 32)).expect_err("expected error");
    assert!(matches!(err, BuildError::DuplicateColumnName(_)));
}

#[test]
fn register_column_checks_in_order() {
    let mut b = VectorBuilder::new();
    let err = b.register_column(cfg("inf.\x1F", 8)).expect_err("separator");
    assert!(matches!(err, BuildError::ReservedSeparatorInColumnName(n) if n == "inf.\x1F"));
    let err = b.register_column(cfg("inf.a", 8)).expect_err("prefix");
    assert!(matches!(err, BuildError::ReservedPrefixInColumnName(n) if n == "inf.a"));
    b.register_column(cfg("a", 16)).expect("register column");
    let err = b.register_column(cfg("a", 15)).expect_err("dimension");
    assert!(matches!(err, BuildError::VectorDimOutOfRange { column, dim: 15 } if column == "a"));
    assert_eq!(b.columns.len(), 1);
    assert_eq!(b.register_column(cfg("inf", 4096)).expect("longest"), 1);
}

#[test]
fn add_rejects_unknown_column_id() {
    let mut b = VectorBuilder::new();
    b.register_column(cfg("a", 16)).expect("register column");
    let err = b.add(99, &bits(&[0.0; 16])).expect_err("expected error");
    assert!(matches!(
        err,
        BuildError::FtsColumnTypeInvalid {
            column: ColumnName::Unregistered(99),
            actual: ColumnFault::NotApplicable
        }
    ));
}

#[test]
fn add_rejects_wrong_dim() {
    let mut b = VectorBuilder::new();
    b.register_column(cfg("a", 16)).expect("register column");
    let err = b.add(0, &bits(&[0.0; 8])).expect_err("expected error");
    assert!(matches!(err, BuildError::FtsColumnTypeInvalid { .. }));
    assert_eq!(b.columns[0].n_docs, 0);
}

#[test]
fn add_keeps_the_whole_input_across_the_spill() {
    let mut b = VectorBuilder::new();
    assert_eq!(b.spill_threshold_bytes, DEFAULT_SPILL_THRESHOLD_BYTES);
    b.set_spill_threshold_bytes(2 * 64);
    b.register_column(cfg("a", 16)).expect("register column");
    let mut file: Vec<u32> = Vec::new();
    let mut input: Vec<u32> = Vec::new();
    let mut steps = Vec::new();
    for i in 0..5 {
        let v = bits(&[i as f32; 16]);
        input.extend_from_slice(&v);
        match b.add(0, &v).expect("add") {
            AddStep::Buffered => steps.push("buffered"),
            AddStep::Append => {
                file.extend_from_slice(&v);
                steps.push("append");
            }
            AddStep::StartSpill(head) => {
                file.extend_from_slice(&head);
                file.extend_from_slice(&v);
                steps.push("start");
            }
        }
        let mut all = file.clone();
        all.extend_from_slice(&b.columns[0].pre_spill_buffer);
        assert_eq!(all, input);
    }
    assert_eq!(steps, ["buffered", "buffered", "start", "append", "append"]);
    assert_eq!(b.columns[0].n_docs, 5);
}

#[test]
fn a_vector_that_could_not_be_written_is_taken_back() {
    let mut b = VectorBuilder::new();
    b.set_spill_threshold_bytes(64);
    b.register_column(cfg("a", 16)).expect("register column");
    let (first, second) = (bits(&[1.0; 16]), bits(&[2.0; 16]));
    b.add(0, &first).expect("add");
    let step = b.add(0, &second).expect("add");
    assert!(b.columns[0].spilled && b.columns[0].pre_spill_buffer.is_empty());
    assert_eq!(b.columns[0].n_docs, 2);
    b.take_back(0, step);
    assert!(!b.columns[0].spilled);
    assert_eq!(b.columns[0].pre_spill_buffer, first);
    assert_eq!(b.columns[0].n_docs, 1);
    let step = b.add(0, &second).expect("add");
    assert!(matches!(step, AddStep::StartSpill(head) if head == first));
    let step = b.add(0, &second).expect("add");
    b.take_back(0, step);
    assert!(b.columns[0].spilled && b.columns[0].pre_spill_buffer.is_empty());
    assert_eq!(b.columns[0].n_docs, 2);
}

#[test]
fn a_zero_threshold_spills_at_once() {
    let mut b = VectorBuilder::new();
    b.set_spill_threshold_bytes(0);
    b.register_column(cfg("a", 16)).expect("register column");
    let step = b.add(0, &bits(&[1.0; 16])).expect("add");
    assert!(matches!(step, AddStep::StartSpill(head) if head.is_empty()));
    assert!(matches!(
        b.add(0, &bits(&[1.0; 16])).expect("add"),
        AddStep::Append
    ));
}

#[test]
fn finish_emits_valid_outer_header() {
    let mut b = VectorBuilder::new();
    b.register_column(cfg("a", 16)).expect("register column");
    let mut rows = Vec::new();
    for i in 0..32 {
        let v: Vec<f32> = (0..16).map(|j| (i + j) as f32).collect();
        b.add(0, &bits(&v)).expect("add to vector builder");
        rows.push(v);
    }
    let blob = finish(&b, &[rows]);
    assert_eq!(blob[0..8], OUTER_MAGIC.to_le_bytes());
    assert_eq!(u32_at(&blob, 8), VERSION);
    assert_eq!(u32_at(&blob, 12), 1);
    assert_eq!(u64_at(&blob, 16), 32);
    assert_eq!(u64_at(&blob, 24), 32);
}

#[test]
fn finish_with_no_docs_produces_valid_blob() {
    let mut b = VectorBuilder::new();
    b.register_column(cfg("a", 16)).expect("register column");
    let blob = finish(&b, &[Vec::new()]);
    assert_eq!(blob[0..8], OUTER_MAGIC.to_le_bytes());
    assert_eq!(u64_at(&blob, 16), 0);
}

#[test]
fn sq8_tiny_shard_writes_physical_n_cent_to_directory() {
    let mut b = VectorBuilder::new();
    b.register_column(VectorConfig {
        column: "v".into(),
        dim: 16,
        n_cent: 4,
        rot_seed: 7,
        metric: Metric::Cosine,
        rerank_codec: RerankCodec::Sq8Residual,
        provided_centroids: None,
    })
    .expect("register sq8 column");
    b.add(0, &bits(&[1.0; 16])).expect("add single row");
    let blob = finish(&b, &[vec![vec![1.0; 16]]]);
    let dir_off = OUTER_HEADER_SIZE;
    assert_eq!(u32_at(&blob, dir_off + 8), 1);
    assert_eq!(u64_at(&blob, 16), 1);
}

#[test]
fn finish_two_columns_at_different_dims() {
    let mut b = VectorBuilder::new();
    b.register_column(cfg("a", 16)).expect("register column");
    b.register_column(cfg("b", 32)).expect("register column");
    for _ in 0..16 {
        b.add(0, &bits(&[1.0; 16])).expect("add to vector builder");
        b.add(1, &bits(&[1.0; 32])).expect("add to vector builder");
    }
    let blob = finish(&b, &[vec![vec![1.0; 16]; 16], vec![vec![1.0; 32]; 16]]);
    assert_eq!(u32_at(&blob, 12), 2);
    let dir_off = OUTER_HEADER_SIZE;
    assert_eq!(u32_at(&blob, dir_off + 4), 16);
    assert_eq!(u32_at(&blob, dir_off + DIR_ENTRY_SIZE + 4), 32);
}

fn wave(n: usize) -> (VectorBuilder, Vec<Vec<f32>>) {
    let mut b = VectorBuilder::new();
    b.register_column(cfg("v", 16)).expect("register column");
    let mut rows = Vec::new();
    for i in 0..n {
        let v: Vec<f32> = (0..16).map(|j| ((i + j) as f32) * 0.1).collect();
        b.add(0, &bits(&v)).expect("add to vector builder");
        rows.push(v);
    }
    (b, rows)
}

#[test]
fn finish_to_matches_finish_byte_for_byte() {
    let (b, rows) = wave(32);
    let blob_finish = finish(&b, &[rows.clone()]);
    let mut blob_finish_to: Vec<u8> = Vec::new();
    b.finish_to(&vec![Some(subsection(&b.columns[0].config, &rows))], &mut blob_finish_to);
    assert_eq!(blob_finish, blob_finish_to);
}

#[test]
fn finish_to_cursor_round_trips_outer_crc() {
    let (b, rows) = wave(32);
    let mut buf: Vec<u8> = Vec::new();
    b.finish_to(&vec![Some(subsection(&b.columns[0].config, &rows))], &mut buf);
    assert_eq!(buf[0..8], OUTER_MAGIC.to_le_bytes());
    assert!(buf.len() >= OUTER_HEADER_SIZE + DIR_ENTRY_SIZE + 4 + 4);
    let body_len = buf.len() - 4;
    assert_eq!(u32_at(&buf, body_len), crc32c(&buf[..body_len]));
    let dir = &buf[OUTER_HEADER_SIZE..OUTER_HEADER_SIZE + DIR_ENTRY_SIZE];
    assert_eq!(u32_at(&buf, OUTER_HEADER_SIZE + DIR_ENTRY_SIZE), crc32c(dir));
}

#[test]
fn directory_leads_to_each_subsection() {
    let mut b = VectorBuilder::new();
    b.register_column(cfg("a", 16)).expect("register column");
    b.register_column(VectorConfig {
        metric: Metric::Cosine,
        rerank_codec: RerankCodec::Sq8Residual,
        ..cfg("b", 24)
    })
    .expect("register column");
    let rows = [
        (0..20).map(|i| vec![i as f32; 16]).collect::<Vec<_>>(),
        (0..30).map(|i| vec![(i % 7) as f32; 24]).collect::<Vec<_>>(),
    ];
    let subs: Vec<SubsectionBytes> = (0..2).map(|c| subsection(&b.columns[c].config, &rows[c])).collect();
    let want: Vec<Vec<u8>> = subs.iter().map(|s| s.bytes.clone()).collect();
    let meta: Vec<usize> = subs.iter().map(|s| s.codec_meta_size).collect();
    assert_eq!(meta[0], 0);
    assert!(meta[1] > 0);
    let blob = b.finish(&subs.into_iter().map(Some).collect::<Vec<_>>());
    for c in 0..2 {
        let at = OUTER_HEADER_SIZE + c * DIR_ENTRY_SIZE;
        assert_eq!(u32_at(&blob, at) as usize, c);
        let start = u64_at(&blob, at + 24) as usize;
        let len = u64_at(&blob, at + 32) as usize;
        assert_eq!(blob[start..start + len], want[c][..]);
        assert_eq!(u64_at(&blob, at + 40) as usize, start + 56);
        assert_eq!(u32_at(&blob, at + 48) as usize, 4 * b.columns[c].config.dim);
        assert_eq!(blob[at + 52], b.columns[c].config.rerank_codec.codec_id());
        assert_eq!(u32_at(&blob, at + 60) as usize, meta[c]);
    }
}

#[test]
fn a_prebuilt_subsection_takes_the_place_of_a_built_one() {
    let mut b = VectorBuilder::new();
    b.register_column(cfg("a", 16)).expect("register column");
    let pre = SubsectionBytes {
        bytes: vec![7; 70],
        n_cent: 3,
        summary_offset_in_sub: 56,
        codec_meta_offset_in_sub: 0,
        codec_meta_size: 0,
    };
    b.set_prebuilt_subsection(0, 9, pre).expect("known column");
    assert_eq!(b.columns[0].n_docs, 9);
    let blob = b.finish(&vec![None]);
    assert_eq!(u64_at(&blob, 16), 9);
    assert_eq!(blob[100..170], [7u8; 70]);
    let other = SubsectionBytes {
        bytes: vec![],
        n_cent: 0,
        summary_offset_in_sub: 0,
        codec_meta_offset_in_sub: 0,
        codec_meta_size: 0,
    };
    let err = b.set_prebuilt_subsection(4, 1, other).expect_err("unknown");
    assert!(matches!(err, BuildError::FtsColumnTypeInvalid { .. }));
}

fn materialized(id: u32, stable: i128) -> MaterializedIvfRow {
    MaterializedIvfRow {
        local_doc_id: id,
        stable_id: stable,
        rabitq_code: vec![0; 2],
        scale: vec![],
        offset: vec![],
        codes: vec![],
        residuals: vec![],
    }
}

#[test]
fn materialized_rows_need_the_residual_codec() {
    let mut b = VectorBuilder::new();
    b.register_column(cfg("a", 16)).expect("register column");
    b.register_column(cfg("b", 16).with_rerank_codec(RerankCodec::Sq8Residual))
        .expect("register column");
    let err = b
        .load_materialized_rows(0, vec![materialized(0, 1)])
        .expect_err("wrong codec");
    assert!(matches!(
        err,
        BuildError::VectorRerankCodecUnimplemented { codec: RerankCodec::Fp32, .. }
    ));
    b.load_materialized_rows(1, vec![materialized(1, 5), materialized(0, 6)])
        .expect("right codec");
    assert_eq!(b.columns[1].n_docs, 2);
    let err = b.load_materialized_rows(2, vec![]).expect_err("unknown");
    assert!(matches!(err, BuildError::FtsColumnTypeInvalid { .. }));
}

#[test]
fn materialized_rows_are_taken_by_document_id() {
    let rows = vec![materialized(3, 30), materialized(1, 10), materialized(3, 31), materialized(0, 0)];
    assert_eq!(order_materialized(&rows).expect("rows"), [3, 1, 0, 2]);
    assert!(matches!(
        order_materialized(&vec![]),
        Err(BuildError::VectorSchemaMismatch(_))
    ));
    assert_eq!(order_by_doc_id(&vec![5, 5, 2]), [2, 0, 1]);
}

#[test]
fn build_via_forced_spill_path_round_trips() {
    let dim = 16;
    let n_docs = 64usize;
    let mut b = VectorBuilder::new();
    b.set_spill_threshold_bytes(0);
    b.register_column(cfg("v", dim)).expect("register column");
    let mut corpus = Vec::with_capacity(n_docs * dim);
    let mut spilled: Vec<u32> = Vec::new();
    for d in 0..n_docs {
        let mut row = vec![0.0f32; dim];
        row[0] = d as f32;
        row[1] = (d as f32) * 0.5;
        row[2] = -(d as f32);
        corpus.extend_from_slice(&row);
        match b.add(0, &bits(&row)).expect("add via forced-spill path") {
            AddStep::Buffered => unreachable!("the threshold is zero"),
            AddStep::Append => spilled.extend(bits(&row)),
            AddStep::StartSpill(head) => {
                spilled.extend(head);
                spilled.extend(bits(&row));
            }
        }
    }
    assert_eq!(spilled, bits(&corpus));
    let rows: Vec<Vec<f32>> = spilled
        .chunks(dim)
        .map(|r| r.iter().map(|x| f32::from_bits(*x)).collect())
        .collect();
    let blob = finish(&b, &[rows]);
    assert_eq!(u64_at(&blob, 0), OUTER_MAGIC);
    let n_cols = u32::from_le_bytes([blob[12], blob[13], blob[14], blob[15]]);
    assert_eq!(n_cols, 1);
    let n_docs_hdr = u64::from_le_bytes(blob[16..24].try_into().expect("8 bytes"));
    assert_eq!(n_docs_hdr, n_docs as u64);
}

/// Start and length of the stable-id region of the only column, from the
/// directory and the subsection's header.
fn stable_region_in(blob: &[u8]) -> (usize, usize) {
    let entry = OUTER_HEADER_SIZE;
    let sub = u64_at(blob, entry + 24) as usize;
    let meta_end = u32_at(blob, entry + 56) as usize + u32_at(blob, entry + 60) as usize;
    let blocks = u64_at(blob, sub + 40) as usize;
    (sub + meta_end, blocks - meta_end)
}

#[test]
fn materialized_build_round_trips_inline_stable_ids() {
    let dim = 16;
    let n = 24usize;
    let config = || VectorConfig {
        metric: Metric::Cosine,
        rerank_codec: RerankCodec::Sq8Residual,
        ..cfg("v", dim)
    };
    let mut b = VectorBuilder::new();
    b.register_column(config()).expect("register");
    let mut rows: Vec<Vec<f32>> = Vec::new();
    for i in 0..n {
        let mut v = vec![0.0f32; dim];
        v[i % dim] = 1.0 + (i as f32);
        v[(i * 7) % dim] += 0.5;
        b.add(0, &bits(&v)).expect("add");
        rows.push(v);
    }
    let stream_blob = finish(&b, &[rows.clone()]);
    assert_eq!(
        stable_region_in(&stream_blob).1,
        0,
        "streaming build must not carry inline stable_ids"
    );

    let want = |local: u32| -> i128 { 1_700_000_000_000i128 + local as i128 };
    let encoded: Vec<MaterializedIvfRow> = (0..n as u32).rev().map(|i| materialized(i, want(i))).collect();
    let order = order_materialized(&encoded).expect("rows");
    let pairs: Vec<(u32, i128)> = order
        .iter()
        .map(|&i| (encoded[i].local_doc_id, encoded[i].stable_id))
        .collect();
    let mut mb = VectorBuilder::new();
    mb.register_column(config()).expect("register mat");
    mb.load_materialized_rows(0, encoded)
        .expect("load materialized");
    let sub = subsection_with_ids(&config(), &rows, Some(stable_region(&pairs, n)));
    let mat_blob = mb.finish(&vec![Some(sub)]);
    assert_eq!(u64_at(&mat_blob, 16), n as u64);
    let (at, len) = stable_region_in(&mat_blob);
    assert_eq!(len, 16 * n);
    for local in 0..n {
        let id = i128::from_le_bytes(
            mat_blob[at + 16 * local..at + 16 * (local + 1)]
                .try_into()
                .expect("16 bytes"),
        );
        assert_eq!(
            id,
            want(local as u32),
            "inline stable_id must round-trip for local {local}"
        );
    }
}

#[test]
fn stable_ids_stand_by_document() {
    let region = stable_region(&vec![(2, -7), (0, 5), (2, 9)], 4);
    assert_eq!(region, [5, 0, 9, 0]);
}

#[test]
fn vector_config_new_and_with_rerank_codec() {
    let base = VectorConfig::new("v".into(), 16, 4, 7, Metric::Cosine);
    assert_eq!(base.column, "v");
    assert_eq!(base.dim, 16);
    assert_eq!(base.n_cent, 4);
    assert_eq!(base.rot_seed, 7);
    assert_eq!(base.metric, Metric::Cosine);
    assert_eq!(base.rerank_codec, RerankCodec::default());
    let overridden = base.with_rerank_codec(RerankCodec::Fp32);
    assert_eq!(overridden.rerank_codec, RerankCodec::Fp32);
    assert_eq!(overridden.column, "v");
    let provided = overridden.with_provided_centroids(Some(vec![1, 2]));
    assert_eq!(provided.provided_centroids, Some(vec![1, 2]));
}

#[test]
fn vector_builder_default_matches_new() {
    let mut b = VectorBuilder::default();
    assert_eq!(b.register_column(cfg("a", 16)).expect("register column"), 0);
}

#[test]
fn set_kmeans_sample_size_ok_and_unregistered() {
    const SAMPLE_SIZE: usize = 1024;
    let mut b = VectorBuilder::new();
    b.register_column(cfg("a", 16)).expect("register column");
    b.set_kmeans_sample_size(0, SAMPLE_SIZE)
        .expect("resize sample for registered column");
    assert_eq!(b.columns[0].sample_size, Some(SAMPLE_SIZE));
    assert_eq!(b.columns[0].reservoir_seed(), 7 ^ RESERVOIR_SEED_XOR_MASK);
    let err = b
        .set_kmeans_sample_size(9, SAMPLE_SIZE)
        .expect_err("unregistered column id");
    assert!(matches!(err, BuildError::FtsColumnTypeInvalid { .. }));
}

#[test]
fn crc32c_has_its_check_value() {
    assert_eq!(crc32c(b"123456789"), 0xE306_9283);
    assert_eq!(crc32c(b""), 0);
    assert_eq!(crc32c(&[0u8; 32]), 0x8A91_36AA);
    assert_eq!(crc32c_append(crc32c(b"1234"), b"56789"), crc32c(b"123456789"));
}

#[test]
fn centroid_counts_follow_the_rows() {
    assert_eq!(n_cent_row_count_cap(99_999, false), 64);
    assert_eq!(n_cent_row_count_cap(100_000, false), 1024);
    assert_eq!(n_cent_row_count_cap(5_000_000, false), 4096);
    assert_eq!(n_cent_row_count_cap(10, true), usize::MAX);
    assert_eq!(physical_n_cent(0, 64, 0, 0), 1);
    assert_eq!(physical_n_cent(500, 64, 1000, 1000), 64);
    assert_eq!(physical_n_cent(500, 1024, 1000, 200), 200);
    assert_eq!(choose_n_cent(&cfg("a", 16), 3, 3, false), 3);
    let provided = cfg("a", 16).with_provided_centroids(Some(vec![0; 16 * 9]));
    assert_eq!(choose_n_cent(&provided, 3, 3, false), 9);
}

#[test]
fn chunks_stay_within_their_budget() {
    assert_eq!(chunk_rows_for_dim(16), 65_536);
    assert_eq!(chunk_rows_for_dim(384), 65_536);
    assert_eq!(chunk_rows_for_dim(1024), 32_768);
    assert_eq!(chunk_rows_for_dim(4096), 8_192);
    assert_eq!(chunk_rows_for_dim(1_000_000), 1_024);
    assert_eq!(chunk_rows_for_dim(0), 65_536);
}

#[test]
fn samples_are_spread_evenly() {
    assert_eq!((0..4).map(|s| sample_index(s, 10, 4)).collect::<Vec<_>>(), [0, 2, 5, 7]);
    assert_eq!((0..3).map(|s| sample_index(s, 3, 3)).collect::<Vec<_>>(), [0, 1, 2]);
}

#[test]
fn metric_ids_are_fixed() {
    assert_eq!(metric_id(Metric::L2Sq), 0);
    assert_eq!(metric_id(Metric::Cosine), 1);
    assert_eq!(metric_id(Metric::NegDot), 2);
}

#[test]
fn layout_places_regions_in_order() {
    let l = IvfSubsectionLayout::compute(16, 3, 10, 70, 384, 160);
    assert_eq!(l.summary_off, 56);
    assert_eq!(l.centroids_off, 56 + 64);
    assert_eq!(l.cluster_idx_off, 120 + 192);
    assert_eq!(l.codec_meta_off, 312 + 24);
    assert_eq!(l.stable_ids_off, Some(336 + 384));
    assert_eq!(l.per_cluster_blocks_off, 720 + 160);
    assert_eq!(l.total_size_before_crc, 880 + 700);
    assert_eq!(IvfSubsectionLayout::compute(16, 3, 10, 70, 0, 0).stable_ids_off, None);
}

#[test]
fn nearest_centroid_takes_the_first_of_equals() {
    assert_eq!(nearest_centroid(&bits(&[3.0, 1.0, 1.0, 2.0])), 1);
    assert_eq!(nearest_centroid(&bits(&[f32::NAN, f32::INFINITY])), 0);
    assert_eq!(nearest_centroid(&bits(&[f32::NAN, 5.0])), 1);
    assert_eq!(bucket_rows(&vec![1, 0, 1], 3), [vec![1], vec![0, 2], vec![]]);
}

fn row(id: u32, tag: u8) -> IvfRow {
    IvfRow {
        local_doc_id: id,
        code: vec![tag; 2],
        payload: vec![tag + 100; 2],
        norm: Some(id + 1),
    }
}

#[test]
fn a_subsection_holds_each_cluster_in_one_range() {
    let rows = vec![row(0, 10), row(1, 11), row(2, 12), row(3, 13)];
    let clusters = clustered(rows, &vec![2, 0, 2, 0], 3);
    assert_eq!(clusters[0].iter().map(|r| r.local_doc_id).collect::<Vec<_>>(), [1, 3]);
    assert!(clusters[1].is_empty());
    let parts = IvfParts {
        dim: 1,
        metric: Metric::L2Sq,
        codec: RerankCodec::Sq8Residual,
        code_bytes: 2,
        summary: vec![0x11],
        centroids: vec![0x21, 0x22, 0x23],
        scales: vec![0x31, 0x32, 0x33],
        offsets: vec![0x41, 0x42, 0x43],
        clusters,
        order: vec![2, 1, 0],
        stable_ids: Some(vec![-1, 2, 3, 4]),
    };
    let sub = assemble_subsection(&parts);
    let b = &sub.bytes;
    assert_eq!(sub.n_cent, 3);
    assert_eq!(b[0..8], SUB_MAGIC.to_le_bytes());
    let meta_size = u32_at(b, 12) as usize;
    assert_eq!(meta_size, 8 * 3 + 16);
    assert_eq!(u64_at(b, 16), 56);
    assert_eq!(u64_at(b, 24), 60);
    let index = u64_at(b, 32) as usize;
    assert_eq!(index, 72);
    let blocks = u64_at(b, 40) as usize;
    assert_eq!(blocks, 72 + 24 + 40 + 64);
    assert_eq!(sub.codec_meta_offset_in_sub, 96);
    // First rows and counts, by cluster.
    let entries: Vec<(u32, u32)> = (0..3)
        .map(|c| (u32_at(b, index + 8 * c), u32_at(b, index + 8 * c + 4)))
        .collect();
    assert_eq!(entries, [(2, 2), (2, 0), (0, 2)]);
    // Norms in physical row order.
    let norms: Vec<u32> = (0..4).map(|i| u32_at(b, 96 + 24 + 4 * i)).collect();
    assert_eq!(norms, [1, 3, 2, 4]);
    let stable: Vec<i128> = (0..4)
        .map(|i| i128::from_le_bytes(b[136 + 16 * i..152 + 16 * i].try_into().expect("16")))
        .collect();
    assert_eq!(stable, [-1, 2, 3, 4]);
    let stride = 2 + 4 + 2;
    let (first, count) = entries[0];
    let at = blocks + first as usize * stride;
    assert_eq!(b[at..at + 4], [11, 11, 13, 13]);
    assert_eq!(u32_at(b, at + 4), 1);
    assert_eq!(u32_at(b, at + 8), 3);
    assert_eq!(b[at + 12..at + 16], [111, 111, 113, 113]);
    assert_eq!(b.len(), blocks + 4 * stride + 4);
    assert_eq!(count, 2);
    assert_eq!(u32_at(b, b.len() - 4), crc32c(&b[..b.len() - 4]));
}

/// The same order by plain recursion on numbers.
fn reference_order(order: &mut [usize], c: &[f32], dim: usize) {
    if order.len() <= 1 || dim == 0 {
        return;
    }
    let (mut best_dim, mut best) = (0, 0.0f32);
    for d in 0..dim {
        let (mut lo, mut hi) = (f32::INFINITY, f32::NEG_INFINITY);
        for &i in order.iter() {
            lo = lo.min(c[i * dim + d]);
            hi = hi.max(c[i * dim + d]);
        }
        if hi - lo > best {
            best = hi - lo;
            best_dim = d;
        }
    }
    order.sort_by(|&a, &b| {
        c[a * dim + best_dim]
            .partial_cmp(&c[b * dim + best_dim])
            .expect("ordinary numbers")
            .then_with(|| a.cmp(&b))
    });
    let mid = order.len() / 2;
    let (l, r) = order.split_at_mut(mid);
    reference_order(l, c, dim);
    reference_order(r, c, dim);
}

#[test]
fn storage_order_splits_at_the_median_of_the_widest_coordinate() {
    assert_eq!(
        centroid_storage_order(&bits(&[0.0, 5.0, 1.0, -5.0, 2.0, 1.0, 3.0, 0.0]), 4, 2),
        [1, 3, 2, 0]
    );
    let mut state = 99u64;
    let mut next = || {
        state = state.wrapping_mul(6364136223846793005).wrapping_add(1442695040888963407);
        ((state >> 40) as f32 / (1u64 << 24) as f32 - 0.5) * 10.0
    };
    for (n, dim) in [(1usize, 3usize), (7, 1), (33, 4), (128, 8)] {
        let c: Vec<f32> = (0..n * dim).map(|_| (next() * 4.0).round() / 4.0).collect();
        let mut want: Vec<usize> = (0..n).collect();
        reference_order(&mut want, &c, dim);
        let got = centroid_storage_order(&bits(&c), n, dim);
        assert_eq!(got, want);
        assert_eq!(got.iter().collect::<HashSet<_>>().len(), n);
    }
}

#[test]
fn storage_order_takes_every_pattern() {
    let nan = f32::NAN;
    let order = centroid_storage_order(&bits(&[nan, 0.0, 2.0, 1.0, 1.0, -nan]), 3, 2);
    let mut sorted = order.clone();
    sorted.sort_unstable();
    assert_eq!(sorted, [0, 1, 2]);
    assert_eq!(
        centroid_storage_order(&bits(&[4.0, nan, 0.0, 1.0, 9.0, 0.5]), 3, 2),
        [1, 0, 2]
    );
    assert_eq!(centroid_storage_order(&bits(&[nan, 1.0]), 2, 1), [0, 1]);
    assert_eq!(centroid_storage_order(&bits(&[1.0, nan]), 2, 1), [0, 1]);
    assert_eq!(centroid_storage_order(&bits(&[-0.0, 0.0]), 2, 1), [0, 1]);
    assert_eq!(centroid_storage_order(&bits(&[0.0, -0.0]), 2, 1), [0, 1]);
}

#[test]
fn only_the_code_only_codec_keeps_no_vectors() {
    assert!(RerankCodec::Fp32.writes_full());
    assert!(RerankCodec::Sq8Residual.writes_full());
    assert!(!RerankCodec::RabitqOnly.writes_full());
}

#[test]
fn one_seed_gives_three_streams() {
    for rot_seed in [0u64, 7, 42, u64::MAX, RESERVOIR_SEED_XOR_MASK] {
        let mut b = VectorBuilder::new();
        b.register_column(VectorConfig { rot_seed, ..cfg("v", 16) })
            .expect("register column");
        let sample = b.columns[0].reservoir_seed();
        let clustering = rot_seed.wrapping_add(KMEANS_SEED_OFFSET);
        assert_eq!(sample, rot_seed ^ RESERVOIR_SEED_XOR_MASK);
        assert!(sample != rot_seed && clustering != rot_seed && sample != clustering);
    }
}

#[test]
fn streams_are_numbered_and_encoded_rows_keep_their_numbers() {
    let payload = |x: u8| Payload {
        bytes: vec![x],
        norm: Some(u32::from(x)),
    };
    let rows = stream_rows(vec![vec![1], vec![2], vec![3]], vec![payload(7), payload(8), payload(9)]);
    let got: Vec<(u32, u8, u8, Option<u32>)> = rows
        .iter()
        .map(|r| (r.local_doc_id, r.code[0], r.payload[0], r.norm))
        .collect();
    assert_eq!(
        got,
        [(0, 1, 7, Some(7)), (1, 2, 8, Some(8)), (2, 3, 9, Some(9))]
    );

    let mut old = vec![materialized(2, 20), materialized(0, -5), materialized(1, 11)];
    for (i, row) in old.iter_mut().enumerate() {
        row.rabitq_code = vec![i as u8];
    }
    let order = order_materialized(&old).expect("rows");
    assert_eq!(order, [1, 2, 0]);
    let (rows, stable) = carry_rows(old, &order, vec![payload(7), payload(8), payload(9)]);
    let got: Vec<(u32, u8, u8)> = rows
        .iter()
        .map(|r| (r.local_doc_id, r.code[0], r.payload[0]))
        .collect();
    assert_eq!(got, [(0, 1, 7), (1, 2, 8), (2, 0, 9)]);
    assert_eq!(stable, [-5, 11, 20]);
}

#[test]
fn ranges_follow_a_stream_row_by_row() {
    let (inf, nan) = (f32::INFINITY, f32::NAN);
    let mut ranges = ClusterRanges::new(3, 2);
    assert_eq!(ranges.min, vec![bits(&[inf, inf]); 3]);
    assert_eq!(ranges.max, vec![bits(&[-inf, -inf]); 3]);
    let rows = vec![bits(&[1.0, -2.0]), bits(&[4.0, nan]), bits(&[-1.0, 3.0])];
    for (row, c) in rows.iter().zip([0u32, 2, 0]) {
        ranges.absorb(row, c);
    }
    assert_eq!(ranges.min, [bits(&[-1.0, -2.0]), bits(&[inf, inf]), bits(&[4.0, inf])]);
    assert_eq!(ranges.max, [bits(&[1.0, 3.0]), bits(&[-inf, -inf]), bits(&[4.0, -inf])]);
    for (c, picks) in [vec![0, 2], vec![], vec![1]].iter().enumerate() {
        let (min, max) = range_of(&rows, picks, 2);
        assert_eq!((&ranges.min[c], &ranges.max[c]), (&min, &max));
    }
    let config = VectorConfig { rerank_codec: RerankCodec::Sq8Residual, ..cfg("v", 2) };
    let centroids = bits(&[0.0, 0.0, 9.0, 9.0, 4.0, 4.0]);
    let plan = plan_column(&config, 3, bits(&[0.0, 0.0]), centroids, &ranges, vec![0, 2, 0]);
    assert_eq!(plan.offsets, bits(&[-1.0, -2.0, 0.0, 0.0, 4.0, 0.0]));
    assert_eq!(plan.scales, bits(&[2.0 / 255.0, 5.0 / 255.0, 1.0, 1.0, 1.0, 1.0]));
}
