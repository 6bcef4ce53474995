//! Settings: defaults, clamping, validation and retired keys.
use std::path::PathBuf;
use std::time::Duration;

use figment::providers::Serialized;
use figment::Figment;
use infino_core::codes::WalkCodec;
use infino_core::config::{
    reject_retired_keys, user_config_path, CentroidAlignment, CompactionSettings, Config, ConfigError,
    DiagnosticsSettings, DrainConsolidate, GcSettings, InvalidSetting, IvfRouter, MemorySettings,
    OptimizeOptions, RecalibratePolicy, StorageBackend, StorageColdFetchMode, StorageSettings,
    SupertableSettings, ThreadCount, VectorHnswPlane, VectorSearchMode, VectorSettings,
    DEFAULT_CENTROID_GRAPH_CONCENTRATION_RATIO, DEFAULT_CENTROID_GRAPH_MAX_FANOUT,
    DEFAULT_CENTROID_GRAPH_PARITY_GAP, DEFAULT_CENTROID_GRAPH_SCALE_FLOOR_DOCS,
    DEFAULT_COMPACTION_MAX_MEMORY_MB, DEFAULT_COMPACTION_MIN_FILL_PERCENT,
    DEFAULT_COMPACTION_TARGET_SUPERFILE_SIZE_MB,
};
use serde_json::Value;

fn patched(patch: impl Fn(&mut VectorSettings)) -> Config {
    let mut cfg = Config::default();
    patch(&mut cfg.vector);
    cfg
}

/// Clamp and validate, as a load does.
fn load(patch: impl Fn(&mut VectorSettings)) -> Result<Config, ConfigError> {
    let mut cfg = patched(patch);
    cfg.clamp_vector_autotuning();
    cfg.validate().map(|()| cfg)
}

#[test]
fn embedded_default_loads_with_expected_value() {
    let cfg = Config::defaults().expect("defaults");
    assert_eq!(cfg.supertable.commit_threshold_size_mb, 1024);
}

#[test]
fn drain_graph_assign_defaults_on_and_toggles() {
    let cfg = Config::defaults().expect("defaults");
    assert!(cfg.vector.drain_graph_assign);
    let off = load(|v| v.drain_graph_assign = false).expect("loads");
    assert!(!off.vector.drain_graph_assign);
}

fn with_vector_key(key: &str, value: Value) -> Figment {
    let inner: Value = [(key.to_string(), value)].into_iter().collect();
    let outer: Value = [("vector".to_string(), inner)].into_iter().collect();
    Figment::new().merge(Serialized::defaults(outer))
}

#[test]
fn a_retired_config_key_is_rejected_and_names_its_replacement() {
    for value in [Value::Bool(true), Value::Bool(false)] {
        let err = reject_retired_keys(&with_vector_key("hnsw_sq8_walk", value))
            .expect_err("a retired key must fail the load");
        match err {
            ConfigError::Retired(k) => {
                assert_eq!(k.key, "vector.hnsw_sq8_walk");
                assert!(k.replacement.contains("hnsw_plane"));
            }
            other => panic!("expected a retired key, got {other:?}"),
        }
    }
    for (key, retired, replacement) in [
        (
            "hnsw_recall_slack",
            "vector.hnsw_recall_slack",
            "vector.hnsw_register_floor — state the floor directly instead of a \
             shortfall below target_recall; the old default pair (0.99 - 0.01) is \
             a floor of 0.98",
        ),
        (
            "hnsw_sq8_walk",
            "vector.hnsw_sq8_walk",
            "vector.hnsw_plane — `sq8` is the old `true`, `sq16` the old `false`",
        ),
    ] {
        let value = serde_json::to_value(0.02).expect("number");
        match reject_retired_keys(&with_vector_key(key, value)) {
            Err(ConfigError::Retired(k)) => {
                assert_eq!((k.key, k.replacement), (retired, replacement))
            }
            other => panic!("expected a retired key, got {other:?}"),
        }
    }
    Config::defaults().expect("the shipped settings carry no retired key");
    assert!(reject_retired_keys(&with_vector_key("hnsw_plane", Value::Bool(true))).is_ok());
    assert!(reject_retired_keys(&Figment::new()).is_ok());
}

#[test]
fn hnsw_calibration_config_validates() {
    let cfg = Config::defaults().expect("defaults");
    assert_eq!(cfg.vector.hnsw_ef_ceil, 2048);
    assert_eq!(cfg.vector.hnsw_ef_search, 0);
    let overridden = load(|v| v.hnsw_ef_search = 768).expect("ef override loads");
    assert_eq!(overridden.vector.hnsw_ef_search, 768);
    let invalid = |patch: &dyn Fn(&mut VectorSettings)| match load(|v| patch(v)) {
        Err(ConfigError::Invalid(e)) => e,
        other => panic!("must fail validation: {other:?}"),
    };
    assert_eq!(invalid(&|v| v.hnsw_ef_ceil = 64), InvalidSetting::EfCeil(64));
    assert_eq!(
        invalid(&|v| v.hnsw_register_floor = 1.5f64.to_bits()),
        InvalidSetting::HnswRegisterFloor(1.5f64.to_bits())
    );
    assert_eq!(
        invalid(&|v| v.flat_register_floor = (-0.1f64).to_bits()),
        InvalidSetting::FlatRegisterFloor((-0.1f64).to_bits())
    );
    assert_eq!(
        invalid(&|v| {
            v.hnsw_m0 = 1024;
            v.hnsw_ef_construction = 200;
        }),
        InvalidSetting::HnswM0 {
            m0: 1024,
            ceiling: 400,
            ef_construction: 200
        }
    );
    assert_eq!(invalid(&|v| v.hnsw_probe_max_docs = 0), InvalidSetting::ProbeMaxDocs);
    assert_eq!(
        invalid(&|v| v.target_recall = 0),
        InvalidSetting::TargetRecall(0)
    );
    assert_eq!(
        invalid(&|v| v.target_recall = f64::NAN.to_bits()),
        InvalidSetting::TargetRecall(f64::NAN.to_bits())
    );
    assert_eq!(
        invalid(&|v| v.admit_extension_mult = 0),
        InvalidSetting::AdmitExtensionMult(0)
    );
    assert!(load(|v| v.hnsw_m0 = 400).is_ok());
    assert!(load(|v| v.hnsw_register_floor = (-0.0f64).to_bits()).is_ok());
    assert!(load(|v| v.target_recall = 1.0f64.to_bits()).is_ok());
}

#[test]
fn centroid_graph_auto_thresholds_default_and_override() {
    let cfg = Config::defaults().expect("defaults");
    assert_eq!(f64::from_bits(cfg.vector.centroid_graph_concentration_ratio), 0.5);
    assert_eq!(cfg.vector.centroid_graph_scale_floor_docs, 10_000_000);
    assert_eq!(cfg.vector.ivf_router, IvfRouter::Auto);
    let overridden = load(|v| {
        v.ivf_router = IvfRouter::Stamped;
        v.centroid_graph_concentration_ratio = 0.25f64.to_bits();
        v.centroid_graph_scale_floor_docs = 5_000_000;
    })
    .expect("thresholds load");
    assert_eq!(overridden.vector.ivf_router, IvfRouter::Stamped);
    assert_eq!(f64::from_bits(overridden.vector.centroid_graph_concentration_ratio), 0.25);
    assert_eq!(overridden.vector.centroid_graph_scale_floor_docs, 5_000_000);
}

#[test]
fn centroid_graph_auto_thresholds_clamp_on_misconfig() {
    let clamped = |patch: &dyn Fn(&mut VectorSettings)| load(|v| patch(v)).expect("loads").vector;
    for bad in [-0.2f64, 1.5, f64::NAN, 0.0, f64::INFINITY] {
        assert_eq!(
            clamped(&|v| v.centroid_graph_concentration_ratio = bad.to_bits())
                .centroid_graph_concentration_ratio,
            DEFAULT_CENTROID_GRAPH_CONCENTRATION_RATIO
        );
    }
    assert_eq!(
        clamped(&|v| v.centroid_graph_scale_floor_docs = 0).centroid_graph_scale_floor_docs,
        DEFAULT_CENTROID_GRAPH_SCALE_FLOOR_DOCS
    );
    assert_eq!(
        clamped(&|v| v.centroid_graph_max_fanout = 0).centroid_graph_max_fanout,
        DEFAULT_CENTROID_GRAPH_MAX_FANOUT
    );
    for bad in [-0.01f64, 1.0, f64::NAN] {
        assert_eq!(
            clamped(&|v| v.centroid_graph_parity_gap = bad.to_bits()).centroid_graph_parity_gap,
            DEFAULT_CENTROID_GRAPH_PARITY_GAP
        );
    }
    assert_eq!(
        clamped(&|v| v.centroid_graph_concentration_ratio = 0.75f64.to_bits())
            .centroid_graph_concentration_ratio,
        0.75f64.to_bits()
    );
}

#[test]
fn clamping_says_what_it_changed_and_settles() {
    let mut cfg = patched(|v| {
        v.centroid_graph_max_fanout = 0;
        v.centroid_graph_parity_gap = 2.0f64.to_bits();
    });
    let first = cfg.clamp_vector_autotuning();
    assert!(first.max_fanout && first.parity_gap);
    assert!(!first.concentration_ratio && !first.scale_floor);
    let before = cfg.clone();
    let second = cfg.clamp_vector_autotuning();
    assert!(!second.max_fanout && !second.parity_gap);
    assert_eq!(cfg, before);
}

#[test]
fn floors_above_the_target_are_reported() {
    let cfg = Config::default();
    assert_eq!(cfg.floors_above_target(), (false, false));
    let cfg = patched(|v| v.target_recall = 0.9f64.to_bits());
    assert_eq!(cfg.floors_above_target(), (true, false));
}

#[test]
fn embedded_default_storage_is_in_memory_only() {
    let cfg = Config::defaults().expect("defaults");
    assert_eq!(cfg.storage.backend, StorageBackend::InMemory);
    assert_eq!(cfg.storage.bucket, None);
    assert_eq!(cfg.storage.disk_cache_root, None);
    assert_eq!(cfg.storage, StorageSettings::default());
    assert_eq!(cfg.storage.disk_budget_bytes, 10 * (1 << 30));
    assert_eq!(cfg.storage.manifest_disk_budget_bytes, 2 * (1 << 30));
    assert_eq!(cfg.storage.cold_fetch_chunk_bytes, 4 * (1 << 20));
}

#[test]
fn supertable_defaults_are_auto() {
    let cfg = Config::defaults().expect("defaults");
    assert_eq!(cfg.supertable.reader_threads, ThreadCount::Auto);
    assert_eq!(cfg.supertable.writer_threads, ThreadCount::Auto);
    assert_eq!(cfg.supertable, SupertableSettings::default());
    assert_eq!(cfg.supertable.id_column, "_id");
}

#[test]
fn memory_budget_defaults_to_measure_only() {
    let cfg = Config::defaults().expect("defaults");
    assert_eq!(cfg.memory.connection_budget_bytes, 0);
    assert_eq!(cfg.memory, MemorySettings::default());
}

#[test]
fn thread_count_parses_auto_string() {
    assert_eq!(ThreadCount::parse("auto"), Some(ThreadCount::Auto));
    assert_eq!(ThreadCount::parse("AUTO"), Some(ThreadCount::Auto));
    assert_eq!(ThreadCount::parse("aUtO"), Some(ThreadCount::Auto));
}

#[test]
fn thread_count_parses_integer() {
    assert_eq!(ThreadCount::parse("8"), Some(ThreadCount::Fixed(8)));
    assert_eq!(ThreadCount::parse("4"), Some(ThreadCount::Fixed(4)));
    for text in ["0", "+7", "007", "18446744073709551615", "18446744073709551616", "99999999999999999999999", "", "+", "-1", "1 ", "0x1", "autox", "aut"] {
        assert_eq!(
            ThreadCount::parse(text),
            text.parse::<usize>().ok().map(ThreadCount::Fixed),
            "{text:?}"
        );
    }
}

#[test]
fn thread_count_rejects_garbage_string() {
    assert_eq!(ThreadCount::parse("banana"), None);
}

#[test]
fn thread_count_resolve_clamps_to_one() {
    assert_eq!(ThreadCount::Auto.resolve_or_default(0), 1);
    assert_eq!(ThreadCount::Fixed(0).resolve_or_default(8), 1);
    assert_eq!(ThreadCount::Auto.resolve_or_default(7), 7);
    assert_eq!(ThreadCount::Fixed(3).resolve_or_default(8), 3);
}

#[test]
fn thread_count_serde_round_trips_and_rejects_bad_types() {
    assert_eq!(ThreadCount::Auto.as_number(), None);
    assert_eq!(ThreadCount::Fixed(8).as_number(), Some(8));
    assert_eq!(ThreadCount::from_signed(8), Some(ThreadCount::Fixed(8)));
    assert_eq!(ThreadCount::from_signed(-1), None);
    assert_eq!(ThreadCount::parse("true"), None);
}

#[test]
fn every_written_thread_count_reads_back() {
    for n in [0, 1, 8, i64::MAX as usize, i64::MAX as usize + 1, usize::MAX] {
        let count = ThreadCount::Fixed(n);
        let written = count.as_number().expect("a number");
        assert_eq!(written, n as u64);
        assert_eq!(ThreadCount::from_unsigned(written), count);
        if let Ok(v) = i64::try_from(written) {
            assert_eq!(ThreadCount::from_signed(v), Some(count));
        }
        assert_eq!(ThreadCount::parse(&written.to_string()), Some(count));
    }
    assert_eq!(ThreadCount::Auto.as_number(), None);
    assert_eq!(ThreadCount::parse("auto"), Some(ThreadCount::Auto));
}

#[test]
fn embedded_default_compaction_matches_spec() {
    let cfg = Config::defaults().expect("defaults");
    let c = &cfg.compaction;
    assert_eq!(c.target_superfile_size_mb, DEFAULT_COMPACTION_TARGET_SUPERFILE_SIZE_MB);
    assert_eq!(c.min_fill_percent, DEFAULT_COMPACTION_MIN_FILL_PERCENT);
    assert_eq!(c.max_memory_mb, DEFAULT_COMPACTION_MAX_MEMORY_MB);
    assert_eq!(c.max_memory_mb, c.target_superfile_size_mb + 2048);
}

#[test]
fn compaction_struct_default_equals_embedded_yaml() {
    let cfg = Config::defaults().expect("defaults");
    assert_eq!(cfg.compaction, CompactionSettings::default());
}

#[test]
fn embedded_default_vector_equals_struct_default() {
    let cfg = Config::defaults().expect("defaults");
    assert_eq!(cfg.vector, VectorSettings::default());
    assert_eq!(cfg.vector.inner_budget, None);
    assert_eq!(cfg.vector.cell_split_doc_cap, 500_000);
    assert_eq!(cfg.vector.user_centroids, CentroidAlignment::Local);
    assert_eq!(cfg.vector.drain_consolidate, DrainConsolidate::Kmeans);
    assert_eq!(cfg.vector.drain_read_concurrency, ThreadCount::Auto);
    assert_eq!(f64::from_bits(cfg.vector.target_recall), 0.99);
    assert_eq!(f64::from_bits(cfg.vector.hnsw_register_floor), 0.98);
    assert_eq!(f64::from_bits(cfg.vector.flat_register_floor), 0.80);
    assert_eq!(f64::from_bits(cfg.vector.centroid_graph_parity_gap), 0.03);
    assert_eq!(f64::from_bits(cfg.vector.cell_split_modality_d), 8.0);
    assert_eq!(f64::from_bits(cfg.vector.fine_nprobe_pct), 0.0);
    assert_eq!(f32::from_bits(cfg.vector.serve_near_tie_slack), 0.30);
    assert_eq!(f32::from_bits(cfg.vector.drain_replica_target_factor), 1.0);
}

#[test]
fn embedded_default_diagnostics_all_off() {
    let cfg = Config::defaults().expect("defaults");
    assert_eq!(cfg.diagnostics, DiagnosticsSettings::default());
    assert!(!cfg.diagnostics.io_timeline);
    assert!(!cfg.diagnostics.disable_avx512);
}

#[test]
fn choices_have_their_defaults() {
    assert_eq!(VectorSearchMode::default(), VectorSearchMode::Ivf);
    assert_eq!(VectorHnswPlane::default(), VectorHnswPlane::Sq8);
    assert_eq!(IvfRouter::default(), IvfRouter::Auto);
    assert_eq!(StorageBackend::default(), StorageBackend::InMemory);
    assert_eq!(
        StorageColdFetchMode::default(),
        StorageColdFetchMode::LazyForegroundWithBackgroundFill
    );
    for (plane, codec) in [
        (VectorHnswPlane::Sq16, WalkCodec::Sq16),
        (VectorHnswPlane::Sq8, WalkCodec::Sq8),
        (VectorHnswPlane::Sq4, WalkCodec::Sq4),
        (VectorHnswPlane::Sq4Residual, WalkCodec::Sq4Residual),
    ] {
        assert_eq!(WalkCodec::from_config(plane), codec);
    }
}

#[test]
fn optimize_options_replace_one_part_at_a_time() {
    let settings = CompactionSettings {
        min_fill_percent: 50,
        ..CompactionSettings::default()
    };
    let o = OptimizeOptions::compact(settings);
    assert_eq!(o.compaction, settings);
    assert_eq!(o.gc.safety_gap, Duration::from_secs(86_400));
    assert_eq!(o.recalibrate, RecalibratePolicy::Auto);
    let gc = GcSettings::default().with_safety_gap(Duration::from_secs(5));
    assert_eq!(gc.safety_gap, Duration::from_secs(5));
    let o = o.with_gc(gc).with_recalibrate(RecalibratePolicy::Skip);
    assert_eq!(o.gc, gc);
    assert_eq!(o.recalibrate, RecalibratePolicy::Skip);
    assert_eq!(o.compaction.min_fill_percent, 50);
    assert_eq!(OptimizeOptions::default().compaction, CompactionSettings::default());
}

#[test]
fn user_config_path_uses_xdg_when_set() {
    let set = |p: &str| Some(p.to_string());
    for home in [None, set("/tmp/home-test")] {
        let (base, file) = user_config_path(set("/tmp/xdg-test"), home).expect("path");
        assert_eq!(
            PathBuf::from(base).join(file),
            PathBuf::from("/tmp/xdg-test/infino/config.yaml")
        );
    }
}

#[test]
fn user_config_path_falls_back_to_home() {
    let (base, file) = user_config_path(None, Some("/tmp/home-test".to_string())).expect("path");
    assert_eq!(
        PathBuf::from(base).join(file),
        PathBuf::from("/tmp/home-test/.config/infino/config.yaml")
    );
    assert_eq!(user_config_path(None, None), None);
}
