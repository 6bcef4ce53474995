//! System-wide settings: defaults, load-time clamping and validation.
//!
//! Fractions are binary64 and binary32 patterns.
use figment::Figment;
use std::time::Duration;
use vstd::prelude::*;
use vstd::string::*;
use vstd::utf8::*;

use crate::float_bits::{at_most64, f64_finite, f64_le, f64_lt, is_finite64, less64, F64_ONE};

verus! {

/// `0`: usage is measured and never refused.
pub const DEFAULT_CONNECTION_BUDGET_BYTES: u64 = 0;

pub const DEFAULT_COMMIT_THRESHOLD_SIZE_MB: u64 = 1024;

pub const DEFAULT_SUPERFILE_BUFFER_SPLIT_MB: u64 = 64;

pub const DEFAULT_VERIFY_CRC_ON_OPEN: bool = true;

pub const DEFAULT_COMPACTION_TARGET_SUPERFILE_SIZE_MB: u64 = 1024;

pub const DEFAULT_COMPACTION_MIN_FILL_PERCENT: u8 = 80;

/// Fragments of a partition that trigger a merge whatever their size.
pub const DEFAULT_COMPACTION_MIN_SUPERFILES_FOR_MERGE: u64 = 50;

pub const DEFAULT_COMPACTION_MAX_MEMORY_MB: u64 = 3072;

/// Age at which a tombstone seal counts as abandoned.
pub const DEFAULT_STALE_SEAL_TIMEOUT_MS: u64 = 120_000;

/// Seconds an unreferenced object must have been around before it is deleted.
pub const DEFAULT_GC_SAFETY_GAP_SECS: u64 = 86_400;

/// Pattern of `0.5`.
pub const DEFAULT_CENTROID_GRAPH_CONCENTRATION_RATIO: u64 = 0x3fe0_0000_0000_0000;

pub const DEFAULT_CENTROID_GRAPH_SCALE_FLOOR_DOCS: u64 = 10_000_000;

pub const DEFAULT_CENTROID_GRAPH_MAX_FANOUT: usize = 4096;

/// Pattern of `0.03`.
pub const DEFAULT_CENTROID_GRAPH_PARITY_GAP: u64 = 0x3f9e_b851_eb85_1eb8;

/// Smallest beam that the calibration tries.
pub const MIN_EF_CEIL: usize = 128;

/// Greatest multiple of the construction beam that a base degree may be.
pub const M0_HEADROOM_OVER_EF_CONSTRUCTION: usize = 2;

// ---------------- choices ----------------

/// How user-superfile clusters align to the global cell grid.
#[derive(Clone, Copy, Debug, PartialEq, Eq, Structural)]
pub enum CentroidAlignment {
    /// Each superfile trains its own clusters.
    Local,
    /// Cluster `c` is cell `c`.
    Global,
}

impl Default for CentroidAlignment {
    fn default() -> (r: Self)
        ensures
            r == CentroidAlignment::Local,
    {
        CentroidAlignment::Local
    }
}

/// What the drain does with the rows of a cell.
#[derive(Clone, Copy, Debug, PartialEq, Eq, Structural)]
pub enum DrainConsolidate {
    /// Cluster them anew.
    Kmeans,
    /// Keep the clusters they came in.
    Splice,
}

impl Default for DrainConsolidate {
    fn default() -> (r: Self)
        ensures
            r == DrainConsolidate::Kmeans,
    {
        DrainConsolidate::Kmeans
    }
}

/// The resident plane that the graph walk scores on.
#[derive(Clone, Copy, Debug, PartialEq, Eq, Structural)]
pub enum VectorHnswPlane {
    Sq16,
    Sq8,
    Sq4,
    Sq4Residual,
}

impl Default for VectorHnswPlane {
    fn default() -> (r: Self)
        ensures
            r == VectorHnswPlane::Sq8,
    {
        VectorHnswPlane::Sq8
    }
}

/// How unfiltered queries search the hidden index.
#[derive(Clone, Copy, Debug, PartialEq, Eq, Structural)]
pub enum VectorSearchMode {
    Ivf,
    HnswIvf,
    FlatIvf,
}

impl Default for VectorSearchMode {
    fn default() -> (r: Self)
        ensures
            r == VectorSearchMode::Ivf,
    {
        VectorSearchMode::Ivf
    }
}

/// How a query picks the clusters to read.
#[derive(Clone, Copy, Debug, PartialEq, Eq, Structural)]
pub enum IvfRouter {
    Stamped,
    CentroidGraph,
    Auto,
}

impl Default for IvfRouter {
    fn default() -> (r: Self)
        ensures
            r == IvfRouter::Auto,
    {
        IvfRouter::Auto
    }
}

/// When an optimize run recalibrates.
#[derive(Clone, Copy, Debug, PartialEq, Eq, Structural)]
pub enum RecalibratePolicy {
    Auto,
    Force,
    Skip,
}

impl Default for RecalibratePolicy {
    fn default() -> (r: Self)
        ensures
            r == RecalibratePolicy::Auto,
    {
        RecalibratePolicy::Auto
    }
}

/// Where a table is stored.
#[derive(Clone, Copy, Debug, PartialEq, Eq, Structural)]
pub enum StorageBackend {
    /// Nothing durable is attached.
    InMemory,
    LocalFs,
    S3,
    Azure,
    Gcs,
}

impl Default for StorageBackend {
    fn default() -> (r: Self)
        ensures
            r == StorageBackend::InMemory,
    {
        StorageBackend::InMemory
    }
}

/// How a cold object is fetched.
#[derive(Clone, Copy, Debug, PartialEq, Eq, Structural)]
pub enum StorageColdFetchMode {
    HybridWithPrefetch,
    RangeOnly,
    LazyForegroundWithBackgroundFill,
}

impl Default for StorageColdFetchMode {
    fn default() -> (r: Self)
        ensures
            r == StorageColdFetchMode::LazyForegroundWithBackgroundFill,
    {
        StorageColdFetchMode::LazyForegroundWithBackgroundFill
    }
}

// ---------------- thread counts ----------------

/// A thread count: left to the machine, or fixed.
#[derive(Clone, Copy, Debug, PartialEq, Eq, Structural)]
pub enum ThreadCount {
    Auto,
    Fixed(usize),
}

impl Default for ThreadCount {
    fn default() -> (r: Self)
        ensures
            r == ThreadCount::Auto,
    {
        ThreadCount::Auto
    }
}

/// The count that a run of decimal digits names.
pub open spec fn decimal(s: Seq<u8>) -> int
    decreases s.len(),
{
    if s.len() == 0 {
        0
    } else {
        10 * decimal(s.drop_last()) + (s.last() - 0x30)
    }
}

pub open spec fn all_digits(s: Seq<u8>) -> bool {
    forall|i: int| 0 <= i < s.len() ==> 0x30 <= #[trigger] s[i] <= 0x39
}

/// The digits of a count, behind an optional plus sign.
pub open spec fn digits_of(s: Seq<u8>) -> Seq<u8> {
    if s.len() > 0 && s[0] == 0x2b {
        s.subrange(1, s.len() as int)
    } else {
        s
    }
}

/// The word `auto`, in any mix of cases.
pub open spec fn is_auto(s: Seq<u8>) -> bool {
    &&& s.len() == 4
    &&& (s[0] == 0x61 || s[0] == 0x41)
    &&& (s[1] == 0x75 || s[1] == 0x55)
    &&& (s[2] == 0x74 || s[2] == 0x54)
    &&& (s[3] == 0x6f || s[3] == 0x4f)
}

/// The thread count that a text names, if any.
pub open spec fn named_count(s: Seq<u8>) -> Option<ThreadCount> {
    if is_auto(s) {
        Some(ThreadCount::Auto)
    } else {
        let d = digits_of(s);
        if d.len() > 0 && all_digits(d) && decimal(d) <= usize::MAX {
            Some(ThreadCount::Fixed(decimal(d) as usize))
        } else {
            None
        }
    }
}

proof fn lemma_decimal_grows(s: Seq<u8>, n: int)
    requires
        all_digits(s),
        0 <= n <= s.len(),
    ensures
        0 <= decimal(s.subrange(0, n)) <= decimal(s),
    decreases s.len(),
{
    if n == s.len() {
        assert(s.subrange(0, n) =~= s);
        if n > 0 {
            let d = s.drop_last();
            assert(all_digits(d)) by {
                assert forall|i: int| 0 <= i < d.len() implies 0x30 <= #[trigger] d[i] <= 0x39 by {
                    assert(d[i] == s[i]);
                }
            }
            lemma_decimal_grows(d, n - 1);
            assert(d.subrange(0, n - 1) =~= d);
            assert(0x30 <= s[n - 1] <= 0x39);
        }
    } else {
        let d = s.drop_last();
        assert(all_digits(d)) by {
            assert forall|i: int| 0 <= i < d.len() implies 0x30 <= #[trigger] d[i] <= 0x39 by {
                assert(d[i] == s[i]);
            }
        }
        lemma_decimal_grows(d, n);
        assert(d.subrange(0, n) =~= s.subrange(0, n));
        assert(0x30 <= s[s.len() - 1] <= 0x39);
    }
}

fn parse_decimal(s: &[u8], from: usize) -> (r: Option<usize>)
    requires
        from <= s@.len(),
    ensures
        ({
            let d = s@.subrange(from as int, s@.len() as int);
            r == (if d.len() > 0 && all_digits(d) && decimal(d) <= usize::MAX {
                Some(decimal(d) as usize)
            } else {
                None
            })
        }),
{
    let ghost d = s@.subrange(from as int, s@.len() as int);
    if from == s.len() {
        return None;
    }
    let mut v: usize = 0;
    let mut i: usize = from;
    proof {
        assert(d.subrange(0, 0) =~= Seq::<u8>::empty());
    }
    while i < s.len()
        invariant
            from <= i <= s@.len(),
            from < s@.len(),
            d == s@.subrange(from as int, s@.len() as int),
            v == decimal(d.subrange(0, i - from)),
            forall|j: int| 0 <= j < i - from ==> 0x30 <= #[trigger] d[j] <= 0x39,
        decreases s.len() - i,
    {
        let b: u8 = s[i];
        assert(d[i - from] == b);
        if b < 0x30 || b > 0x39 {
            return None;
        }
        proof {
            let t = d.subrange(0, i - from + 1);
            assert(t.drop_last() =~= d.subrange(0, i - from));
            assert(t.last() == b);
        }
        let digit: usize = (b - 0x30) as usize;
        if v > usize::MAX / 10 || v * 10 > usize::MAX - digit {
            proof {
                if all_digits(d) {
                    lemma_decimal_grows(d, i - from + 1);
                }
            }
            return None;
        }
        v = v * 10 + digit;
        i = i + 1;
    }
    proof {
        assert(d.subrange(0, i - from) =~= d);
    }
    Some(v)
}

/// The count that an unsigned number names.
pub open spec fn unsigned_count(v: u64) -> ThreadCount {
    ThreadCount::Fixed(v as usize)
}

/// The count that a signed number names.
pub open spec fn signed_count(v: i64) -> Option<ThreadCount> {
    if v < 0 {
        None
    } else {
        Some(ThreadCount::Fixed(v as usize))
    }
}

/// The number that a count is written as, where it is not the word `auto`.
pub open spec fn written_number(c: ThreadCount) -> Option<u64> {
    match c {
        ThreadCount::Auto => None,
        ThreadCount::Fixed(n) => Some(n as u64),
    }
}

impl ThreadCount {
    /// The count to use: the fixed one, or the given default, and never 0.
    pub fn resolve_or_default(self, default_for_auto: usize) -> (r: usize)
        ensures
            r == (match self {
                ThreadCount::Auto => if default_for_auto >= 1 {
                    default_for_auto
                } else {
                    1
                },
                ThreadCount::Fixed(n) => if n >= 1 {
                    n
                } else {
                    1
                },
            }),
            r >= 1,
    {
        let n: usize = match self {
            ThreadCount::Auto => default_for_auto,
            ThreadCount::Fixed(n) => n,
        };
        if n >= 1 {
            n
        } else {
            1
        }
    }

    /// The count that a text names: `auto`, or a decimal number.
    pub fn parse(text: &str) -> (r: Option<ThreadCount>)
        ensures
            r == named_count(encode_utf8(text@)),
    {
        let s = text.as_bytes();
        if s.len() == 4 && (s[0] == 0x61 || s[0] == 0x41) && (s[1] == 0x75 || s[1] == 0x55) && (s[2]
            == 0x74 || s[2] == 0x54) && (s[3] == 0x6f || s[3] == 0x4f) {
            return Some(ThreadCount::Auto);
        }
        let from: usize = if s.len() > 0 && s[0] == 0x2b {
            1
        } else {
            0
        };
        proof {
            assert(s@.subrange(0, s@.len() as int) =~= s@);
        }
        match parse_decimal(s, from) {
            Some(n) => Some(ThreadCount::Fixed(n)),
            None => None,
        }
    }

    /// The count that an unsigned number names.
    pub fn from_unsigned(v: u64) -> (r: ThreadCount)
        ensures
            r == unsigned_count(v),
    {
        ThreadCount::Fixed(#[verifier::truncate] (v as usize))
    }

    /// The count that a signed number names; none where it is negative.
    pub fn from_signed(v: i64) -> (r: Option<ThreadCount>)
        ensures
            r == signed_count(v),
    {
        if v < 0 {
            None
        } else {
            Some(ThreadCount::Fixed(#[verifier::truncate] (v as usize)))
        }
    }

    /// The number that a fixed count is written as; none for `auto`, which is
    /// written as that word.
    pub fn as_number(self) -> (r: Option<u64>)
        ensures
            r == written_number(self),
    {
        match self {
            ThreadCount::Auto => None,
            ThreadCount::Fixed(n) => Some(n as u64),
        }
    }
}

proof fn lemma_not_auto(s: Seq<u8>)
    requires
        all_digits(digits_of(s)),
    ensures
        !is_auto(s),
{
    if is_auto(s) {
        assert(digits_of(s) == s);
        assert(0x30 <= s[0] <= 0x39);
    }
}

/// Every count reads back from what it is written as: `auto` from the word, a
/// fixed count from its number, read as an unsigned one or, where it fits, as
/// a signed one.
pub proof fn law_thread_count_round_trips(c: ThreadCount)
    ensures
        match written_number(c) {
            None => named_count(encode_utf8("auto"@)) == Some(c),
            Some(v) => unsigned_count(v) == c && (v <= i64::MAX ==> signed_count(v as i64) == Some(
                c,
            )),
        },
{
    if c is Auto {
        reveal_strlit("auto");
        let word = "auto"@;
        assert(is_ascii_chars(word));
        is_ascii_chars_encode_utf8(word);
        let b = encode_utf8(word);
        assert(b[0] == word[0] as u8 && b[1] == word[1] as u8);
        assert(b[2] == word[2] as u8 && b[3] == word[3] as u8);
        assert(is_auto(b));
    }
}

/// A fixed count is read back from the digits it is written with.
pub proof fn law_written_count_reads_back(s: Seq<u8>, n: usize)
    requires
        s.len() > 0,
        all_digits(s),
        decimal(s) == n,
    ensures
        named_count(s) == Some(ThreadCount::Fixed(n)),
{
    assert(0x30 <= s[0] <= 0x39);
    assert(digits_of(s) == s);
    lemma_not_auto(s);
}

// ---------------- sections ----------------

/// Memory settings.
#[derive(Clone, Copy, Debug, PartialEq, Eq, Structural)]
pub struct MemorySettings {
    /// Heap budget of a connection in bytes; 0 measures only.
    pub connection_budget_bytes: u64,
}

impl Default for MemorySettings {
    fn default() -> (r: Self)
        ensures
            r.connection_budget_bytes == 0,
    {
        MemorySettings { connection_budget_bytes: DEFAULT_CONNECTION_BUDGET_BYTES }
    }
}

/// Supertable settings.
#[derive(Clone, Debug, PartialEq, Eq)]
pub struct SupertableSettings {
    pub reader_threads: ThreadCount,
    pub writer_threads: ThreadCount,
    pub id_column: String,
    pub commit_threshold_size_mb: u64,
    pub superfile_buffer_split_mb: u64,
    pub verify_crc_on_open: bool,
}

/// The shipped supertable settings.
pub open spec fn is_default_supertable(s: SupertableSettings) -> bool {
    &&& s.reader_threads == ThreadCount::Auto
    &&& s.writer_threads == ThreadCount::Auto
    &&& s.id_column@ == "_id"@
    &&& s.commit_threshold_size_mb == 1024
    &&& s.superfile_buffer_split_mb == 64
    &&& s.verify_crc_on_open
}

impl Default for SupertableSettings {
    fn default() -> (r: Self)
        ensures
            is_default_supertable(r),
    {
        SupertableSettings {
            reader_threads: ThreadCount::Auto,
            writer_threads: ThreadCount::Auto,
            id_column: "_id".to_owned(),
            commit_threshold_size_mb: DEFAULT_COMMIT_THRESHOLD_SIZE_MB,
            superfile_buffer_split_mb: DEFAULT_SUPERFILE_BUFFER_SPLIT_MB,
            verify_crc_on_open: DEFAULT_VERIFY_CRC_ON_OPEN,
        }
    }
}

/// Compaction settings.
#[derive(Clone, Copy, Debug, PartialEq, Eq, Structural)]
pub struct CompactionSettings {
    pub target_superfile_size_mb: u64,
    pub min_fill_percent: u8,
    pub min_superfiles_for_merge: u64,
    pub max_memory_mb: u64,
    pub stale_seal_timeout_ms: u64,
}

pub open spec fn default_compaction() -> CompactionSettings {
    CompactionSettings {
        target_superfile_size_mb: 1024,
        min_fill_percent: 80,
        min_superfiles_for_merge: 50,
        max_memory_mb: 3072,
        stale_seal_timeout_ms: 120_000,
    }
}

impl Default for CompactionSettings {
    fn default() -> (r: Self)
        ensures
            r == default_compaction(),
    {
        CompactionSettings {
            target_superfile_size_mb: DEFAULT_COMPACTION_TARGET_SUPERFILE_SIZE_MB,
            min_fill_percent: DEFAULT_COMPACTION_MIN_FILL_PERCENT,
            min_superfiles_for_merge: DEFAULT_COMPACTION_MIN_SUPERFILES_FOR_MERGE,
            max_memory_mb: DEFAULT_COMPACTION_MAX_MEMORY_MB,
            stale_seal_timeout_ms: DEFAULT_STALE_SEAL_TIMEOUT_MS,
        }
    }
}

/// Diagnostic toggles; none changes a result.
#[derive(Clone, Copy, Debug, PartialEq, Eq, Structural)]
pub struct DiagnosticsSettings {
    pub drain_build_timers: bool,
    pub optimize_phase_timers: bool,
    pub fts_profile: bool,
    pub io_timeline: bool,
    pub disable_avx512: bool,
    pub disable_avx2: bool,
    pub disable_background_fill: bool,
}

pub open spec fn default_diagnostics() -> DiagnosticsSettings {
    DiagnosticsSettings {
        drain_build_timers: false,
        optimize_phase_timers: false,
        fts_profile: false,
        io_timeline: false,
        disable_avx512: false,
        disable_avx2: false,
        disable_background_fill: false,
    }
}

impl Default for DiagnosticsSettings {
    fn default() -> (r: Self)
        ensures
            r == default_diagnostics(),
    {
        DiagnosticsSettings {
            drain_build_timers: false,
            optimize_phase_timers: false,
            fts_profile: false,
            io_timeline: false,
            disable_avx512: false,
            disable_avx2: false,
            disable_background_fill: false,
        }
    }
}

/// Storage settings. Paths are texts; `storage_options` pairs keys with values.
#[derive(Clone, Debug, PartialEq, Eq)]
pub struct StorageSettings {
    pub backend: StorageBackend,
    pub local_root: Option<String>,
    pub bucket: Option<String>,
    pub storage_options: Vec<(String, String)>,
    pub prefix: String,
    pub disk_cache_root: Option<String>,
    pub disk_budget_bytes: u64,
    pub manifest_disk_budget_bytes: u64,
    pub cold_fetch_mode: StorageColdFetchMode,
    pub cold_fetch_streams: usize,
    pub cold_fetch_chunk_bytes: u64,
    pub prefetch_concurrency: usize,
    pub mmap_cold_threshold_secs: u64,
    pub mmap_sweep_interval_secs: u64,
}

/// The shipped storage settings.
pub open spec fn is_default_storage(s: StorageSettings) -> bool {
    &&& s.backend == StorageBackend::InMemory
    &&& s.local_root is None
    &&& s.bucket is None
    &&& s.storage_options@.len() == 0
    &&& s.prefix@.len() == 0
    &&& s.disk_cache_root is None
    &&& s.disk_budget_bytes == 10_737_418_240
    &&& s.manifest_disk_budget_bytes == 2_147_483_648
    &&& s.cold_fetch_mode == StorageColdFetchMode::LazyForegroundWithBackgroundFill
    &&& s.cold_fetch_streams == 8
    &&& s.cold_fetch_chunk_bytes == 4_194_304
    &&& s.prefetch_concurrency == 8
    &&& s.mmap_cold_threshold_secs == 300
    &&& s.mmap_sweep_interval_secs == 75
}

impl Default for StorageSettings {
    fn default() -> (r: Self)
        ensures
            is_default_storage(r),
    {
        StorageSettings {
            backend: StorageBackend::InMemory,
            local_root: None,
            bucket: None,
            storage_options: Vec::new(),
            prefix: String::new(),
            disk_cache_root: None,
            disk_budget_bytes: 10_737_418_240,
            manifest_disk_budget_bytes: 2_147_483_648,
            cold_fetch_mode: StorageColdFetchMode::LazyForegroundWithBackgroundFill,
            cold_fetch_streams: 8,
            cold_fetch_chunk_bytes: 4_194_304,
            prefetch_concurrency: 8,
            mmap_cold_threshold_secs: 300,
            mmap_sweep_interval_secs: 75,
        }
    }
}

/// Vector build, search and drain settings.
#[derive(Clone, Copy, Debug, PartialEq, Eq, Structural)]
pub struct VectorSettings {
    pub inner_budget: Option<usize>,
    pub fine_nprobe_floor: usize,
    pub target_recall: u64,
    pub fine_nprobe_pct: u64,
    pub serve_near_tie_slack: u32,
    pub admit_extension_mult: usize,
    pub kmeans_pts_per_centroid: usize,
    pub search_mode: VectorSearchMode,
    pub hnsw_plane: VectorHnswPlane,
    pub ivf_router: IvfRouter,
    pub global_fine_fanout: usize,
    pub global_fine_rerank_mult: usize,
    pub global_fine_coalesce: bool,
    pub global_fine_graph_ef: usize,
    pub centroid_graph_concentration_ratio: u64,
    pub centroid_graph_scale_floor_docs: u64,
    pub centroid_graph_max_fanout: usize,
    pub centroid_graph_parity_gap: u64,
    pub hnsw_ef_ceil: usize,
    pub hnsw_ef_construction: usize,
    pub hnsw_ef_search: usize,
    pub hnsw_m0: usize,
    pub hnsw_register_floor: u64,
    pub flat_register_floor: u64,
    pub hnsw_refine_k: usize,
    pub hnsw_max_docs: u64,
    pub flat_max_docs: u64,
    pub hnsw_probe_max_docs: u64,
    pub cell_split_doc_cap: u64,
    pub cell_split_modality_d: u64,
    pub user_centroids: CentroidAlignment,
    pub drain_batch_superfiles: i64,
    pub drain_replica_target_factor: u32,
    pub drain_consolidate: DrainConsolidate,
    pub drain_graph_assign: bool,
    pub drain_read_concurrency: ThreadCount,
    pub maintenance_threads: ThreadCount,
    pub user_cell_count: usize,
    pub hidden_cell_count: usize,
    pub compaction_target_mb: u64,
    pub compaction_min_superfiles_for_merge: u64,
    pub compaction_max_memory_mb: u64,
}

pub open spec fn default_vector() -> VectorSettings {
    VectorSettings {
        inner_budget: None,
        fine_nprobe_floor: 4,
        target_recall: 0x3fef_ae14_7ae1_47ae,
        fine_nprobe_pct: 0,
        serve_near_tie_slack: 0x3e99_999a,
        admit_extension_mult: 3,
        kmeans_pts_per_centroid: 64,
        search_mode: VectorSearchMode::Ivf,
        hnsw_plane: VectorHnswPlane::Sq8,
        ivf_router: IvfRouter::Auto,
        global_fine_fanout: 1024,
        global_fine_rerank_mult: 128,
        global_fine_coalesce: false,
        global_fine_graph_ef: 0,
        centroid_graph_concentration_ratio: 0x3fe0_0000_0000_0000,
        centroid_graph_scale_floor_docs: 10_000_000,
        centroid_graph_max_fanout: 4096,
        centroid_graph_parity_gap: 0x3f9e_b851_eb85_1eb8,
        hnsw_ef_ceil: 2048,
        hnsw_ef_construction: 200,
        hnsw_ef_search: 0,
        hnsw_m0: 0,
        hnsw_register_floor: 0x3fef_5c28_f5c2_8f5c,
        flat_register_floor: 0x3fe9_9999_9999_999a,
        hnsw_refine_k: 256,
        hnsw_max_docs: 10_000_000,
        flat_max_docs: 1_000_000,
        hnsw_probe_max_docs: 100_000,
        cell_split_doc_cap: 500_000,
        cell_split_modality_d: 0x4020_0000_0000_0000,
        user_centroids: CentroidAlignment::Local,
        drain_batch_superfiles: 64,
        drain_replica_target_factor: 0x3f80_0000,
        drain_consolidate: DrainConsolidate::Kmeans,
        drain_graph_assign: true,
        drain_read_concurrency: ThreadCount::Auto,
        maintenance_threads: ThreadCount::Auto,
        user_cell_count: 256,
        hidden_cell_count: 256,
        compaction_target_mb: 2048,
        compaction_min_superfiles_for_merge: 2,
        compaction_max_memory_mb: 4096,
    }
}

impl Default for VectorSettings {
    fn default() -> (r: Self)
        ensures
            r == default_vector(),
    {
        VectorSettings {
            inner_budget: None,
            fine_nprobe_floor: 4,
            target_recall: 0x3fef_ae14_7ae1_47ae,
            fine_nprobe_pct: 0,
            serve_near_tie_slack: 0x3e99_999a,
            admit_extension_mult: 3,
            kmeans_pts_per_centroid: 64,
            search_mode: VectorSearchMode::Ivf,
            hnsw_plane: VectorHnswPlane::Sq8,
            ivf_router: IvfRouter::Auto,
            global_fine_fanout: 1024,
            global_fine_rerank_mult: 128,
            global_fine_coalesce: false,
            global_fine_graph_ef: 0,
            centroid_graph_concentration_ratio: DEFAULT_CENTROID_GRAPH_CONCENTRATION_RATIO,
            centroid_graph_scale_floor_docs: DEFAULT_CENTROID_GRAPH_SCALE_FLOOR_DOCS,
            centroid_graph_max_fanout: DEFAULT_CENTROID_GRAPH_MAX_FANOUT,
            centroid_graph_parity_gap: DEFAULT_CENTROID_GRAPH_PARITY_GAP,
            hnsw_ef_ceil: 2048,
            hnsw_ef_construction: 200,
            hnsw_ef_search: 0,
            hnsw_m0: 0,
            hnsw_register_floor: 0x3fef_5c28_f5c2_8f5c,
            flat_register_floor: 0x3fe9_9999_9999_999a,
            hnsw_refine_k: 256,
            hnsw_max_docs: 10_000_000,
            flat_max_docs: 1_000_000,
            hnsw_probe_max_docs: 100_000,
            cell_split_doc_cap: 500_000,
            cell_split_modality_d: 0x4020_0000_0000_0000,
            user_centroids: CentroidAlignment::Local,
            drain_batch_superfiles: 64,
            drain_replica_target_factor: 0x3f80_0000,
            drain_consolidate: DrainConsolidate::Kmeans,
            drain_graph_assign: true,
            drain_read_concurrency: ThreadCount::Auto,
            maintenance_threads: ThreadCount::Auto,
            user_cell_count: 256,
            hidden_cell_count: 256,
            compaction_target_mb: 2048,
            compaction_min_superfiles_for_merge: 2,
            compaction_max_memory_mb: 4096,
        }
    }
}

// ---------------- optimize options ----------------

/// The duration of a whole number of seconds.
pub uninterp spec fn whole_seconds(secs: u64) -> Duration;

/// `Duration::from_secs`: the result is a function of the seconds.
#[verifier::external_body]
pub(crate) fn seconds(secs: u64) -> (r: Duration)
    ensures
        r == whole_seconds(secs),
{
    Duration::from_secs(secs)
}

/// Garbage-collection settings of an optimize run.
#[derive(Clone, Copy, Debug, PartialEq, Eq)]
pub struct GcSettings {
    /// Age an unreferenced object must reach before it is deleted.
    pub safety_gap: Duration,
}

impl Default for GcSettings {
    fn default() -> (r: Self)
        ensures
            r.safety_gap == whole_seconds(86_400),
    {
        GcSettings { safety_gap: seconds(DEFAULT_GC_SAFETY_GAP_SECS) }
    }
}

impl GcSettings {
    /// The settings with another safety gap.
    pub fn with_safety_gap(self, gap: Duration) -> (r: Self)
        ensures
            r.safety_gap == gap,
    {
        let mut out = self;
        out.safety_gap = gap;
        out
    }
}

/// Options of an optimize run.
#[derive(Clone, Copy, Debug)]
pub struct OptimizeOptions {
    pub compaction: CompactionSettings,
    pub gc: GcSettings,
    pub recalibrate: RecalibratePolicy,
}

impl Default for OptimizeOptions {
    fn default() -> (r: Self)
        ensures
            r.compaction == default_compaction(),
            r.gc.safety_gap == whole_seconds(86_400),
            r.recalibrate == RecalibratePolicy::Auto,
    {
        OptimizeOptions {
            compaction: CompactionSettings::default(),
            gc: GcSettings::default(),
            recalibrate: RecalibratePolicy::default(),
        }
    }
}

impl OptimizeOptions {
    /// A compaction with these settings, and the rest at its defaults.
    pub fn compact(settings: CompactionSettings) -> (r: Self)
        ensures
            r.compaction == settings,
            r.gc.safety_gap == whole_seconds(86_400),
            r.recalibrate == RecalibratePolicy::Auto,
    {
        OptimizeOptions {
            compaction: settings,
            gc: GcSettings::default(),
            recalibrate: RecalibratePolicy::default(),
        }
    }

    /// The options with other garbage-collection settings.
    pub fn with_gc(self, gc: GcSettings) -> (r: Self)
        ensures
            r == (OptimizeOptions { gc, ..self }),
    {
        let mut out = self;
        out.gc = gc;
        out
    }

    /// The options with another recalibration policy.
    pub fn with_recalibrate(self, recalibrate: RecalibratePolicy) -> (r: Self)
        ensures
            r == (OptimizeOptions { recalibrate, ..self }),
    {
        let mut out = self;
        out.recalibrate = recalibrate;
        out
    }
}

// ---------------- load-time rules ----------------

/// All settings.
#[derive(Clone, Debug, PartialEq, Eq)]
pub struct Config {
    pub supertable: SupertableSettings,
    pub storage: StorageSettings,
    pub compaction: CompactionSettings,
    pub vector: VectorSettings,
    pub diagnostics: DiagnosticsSettings,
    pub memory: MemorySettings,
}

/// The shipped settings.
pub open spec fn is_default_config(c: Config) -> bool {
    &&& is_default_supertable(c.supertable)
    &&& is_default_storage(c.storage)
    &&& c.compaction == default_compaction()
    &&& c.vector == default_vector()
    &&& c.diagnostics == default_diagnostics()
    &&& c.memory.connection_budget_bytes == 0
}

impl Default for Config {
    fn default() -> (r: Self)
        ensures
            is_default_config(r),
    {
        Config {
            supertable: SupertableSettings::default(),
            storage: StorageSettings::default(),
            compaction: CompactionSettings::default(),
            vector: VectorSettings::default(),
            diagnostics: DiagnosticsSettings::default(),
            memory: MemorySettings::default(),
        }
    }
}

/// What makes settings unusable.
#[derive(Clone, Copy, Debug, PartialEq, Eq, Structural)]
pub enum InvalidSetting {
    EfCeil(usize),
    TargetRecall(u64),
    AdmitExtensionMult(usize),
    HnswRegisterFloor(u64),
    FlatRegisterFloor(u64),
    HnswM0 { m0: usize, ceiling: usize, ef_construction: usize },
    ProbeMaxDocs,
}

/// A key that no longer exists, and what to write instead: the key that
/// replaced it, and how the old values carry over.
#[derive(Clone, Copy, Debug)]
pub struct RetiredKey {
    pub key: &'static str,
    pub replacement: &'static str,
}

/// Why a load fails.
#[derive(Clone, Copy, Debug)]
pub enum ConfigError {
    Invalid(InvalidSetting),
    Retired(RetiredKey),
}

/// The knobs that clamping set back to their defaults.
#[derive(Clone, Copy, Debug, PartialEq, Eq, Structural)]
pub struct Clamped {
    pub concentration_ratio: bool,
    pub scale_floor: bool,
    pub max_fanout: bool,
    pub parity_gap: bool,
}

/// A fraction above 0 and at most 1.
pub open spec fn is_share(x: u64) -> bool {
    f64_finite(x) && f64_lt(0, x) && f64_le(x, F64_ONE)
}

/// The knobs that are out of range.
pub open spec fn out_of_range(v: VectorSettings) -> Clamped {
    Clamped {
        concentration_ratio: !is_share(v.centroid_graph_concentration_ratio),
        scale_floor: v.centroid_graph_scale_floor_docs == 0,
        max_fanout: v.centroid_graph_max_fanout == 0,
        parity_gap: !(f64_le(0, v.centroid_graph_parity_gap) && f64_lt(
            v.centroid_graph_parity_gap,
            F64_ONE,
        )),
    }
}

/// The settings with every knob that is out of range at its default.
pub open spec fn clamped(v: VectorSettings) -> VectorSettings {
    let c = out_of_range(v);
    VectorSettings {
        centroid_graph_concentration_ratio: if c.concentration_ratio {
            DEFAULT_CENTROID_GRAPH_CONCENTRATION_RATIO
        } else {
            v.centroid_graph_concentration_ratio
        },
        centroid_graph_scale_floor_docs: if c.scale_floor {
            DEFAULT_CENTROID_GRAPH_SCALE_FLOOR_DOCS
        } else {
            v.centroid_graph_scale_floor_docs
        },
        centroid_graph_max_fanout: if c.max_fanout {
            DEFAULT_CENTROID_GRAPH_MAX_FANOUT
        } else {
            v.centroid_graph_max_fanout
        },
        centroid_graph_parity_gap: if c.parity_gap {
            DEFAULT_CENTROID_GRAPH_PARITY_GAP
        } else {
            v.centroid_graph_parity_gap
        },
        ..v
    }
}

/// The greatest base degree for a construction beam.
pub open spec fn m0_ceiling(ef_construction: usize) -> int {
    if 2 * ef_construction <= usize::MAX {
        2 * ef_construction
    } else {
        usize::MAX as int
    }
}

/// What is wrong with the settings, in the order in which they are checked.
pub open spec fn invalid_setting(v: VectorSettings) -> Option<InvalidSetting> {
    if v.hnsw_ef_ceil < 128 {
        Some(InvalidSetting::EfCeil(v.hnsw_ef_ceil))
    } else if !(f64_lt(0, v.target_recall) && f64_le(v.target_recall, F64_ONE)) {
        Some(InvalidSetting::TargetRecall(v.target_recall))
    } else if v.admit_extension_mult < 1 {
        Some(InvalidSetting::AdmitExtensionMult(v.admit_extension_mult))
    } else if !(f64_le(0, v.hnsw_register_floor) && f64_le(v.hnsw_register_floor, F64_ONE)) {
        Some(InvalidSetting::HnswRegisterFloor(v.hnsw_register_floor))
    } else if !(f64_le(0, v.flat_register_floor) && f64_le(v.flat_register_floor, F64_ONE)) {
        Some(InvalidSetting::FlatRegisterFloor(v.flat_register_floor))
    } else if v.hnsw_m0 != 0 && v.hnsw_m0 > m0_ceiling(v.hnsw_ef_construction) {
        Some(
            InvalidSetting::HnswM0 {
                m0: v.hnsw_m0,
                ceiling: m0_ceiling(v.hnsw_ef_construction) as usize,
                ef_construction: v.hnsw_ef_construction,
            },
        )
    } else if v.hnsw_probe_max_docs == 0 {
        Some(InvalidSetting::ProbeMaxDocs)
    } else {
        None
    }
}

/// Clamping leaves nothing to clamp: a second pass changes nothing.
pub proof fn law_clamping_settles(v: VectorSettings)
    ensures
        clamped(clamped(v)) == clamped(v),
        out_of_range(clamped(v)) == (Clamped {
            concentration_ratio: false,
            scale_floor: false,
            max_fanout: false,
            parity_gap: false,
        }),
{
}

/// Settings in range are left alone, and clamping never makes settings
/// invalid or valid.
pub proof fn law_clamping_touches_four_knobs(v: VectorSettings)
    ensures
        invalid_setting(clamped(v)) == invalid_setting(v),
        out_of_range(v) == (Clamped {
            concentration_ratio: false,
            scale_floor: false,
            max_fanout: false,
            parity_gap: false,
        }) ==> clamped(v) == v,
{
}

impl Config {
    /// The shipped settings, clamped and validated: every section is at its
    /// default, clamping finds nothing out of range, and validation accepts
    /// them.
    pub fn defaults() -> (r: Result<Config, ConfigError>)
        ensures
            r is Ok,
            is_default_config(r->Ok_0),
            clamped(r->Ok_0.vector) == r->Ok_0.vector,
            invalid_setting(r->Ok_0.vector) is None,
    {
        let mut cfg = Config::default();
        let _ = cfg.clamp_vector_autotuning();
        match cfg.validate() {
            Ok(()) => Ok(cfg),
            Err(e) => Err(e),
        }
    }

    /// Set the automatic router's knobs that are out of range back to their
    /// defaults, and say which.
    pub fn clamp_vector_autotuning(&mut self) -> (r: Clamped)
        ensures
            r == out_of_range(old(self).vector),
            *final(self) == (Config { vector: clamped(old(self).vector), ..*old(self) }),
    {
        let v = self.vector;
        let r = Clamped {
            concentration_ratio: !(is_finite64(v.centroid_graph_concentration_ratio) && less64(
                0,
                v.centroid_graph_concentration_ratio,
            ) && at_most64(v.centroid_graph_concentration_ratio, F64_ONE)),
            scale_floor: v.centroid_graph_scale_floor_docs == 0,
            max_fanout: v.centroid_graph_max_fanout == 0,
            parity_gap: !(at_most64(0, v.centroid_graph_parity_gap) && less64(
                v.centroid_graph_parity_gap,
                F64_ONE,
            )),
        };
        let ratio: u64 = if r.concentration_ratio {
            DEFAULT_CENTROID_GRAPH_CONCENTRATION_RATIO
        } else {
            v.centroid_graph_concentration_ratio
        };
        let floor: u64 = if r.scale_floor {
            DEFAULT_CENTROID_GRAPH_SCALE_FLOOR_DOCS
        } else {
            v.centroid_graph_scale_floor_docs
        };
        let fanout: usize = if r.max_fanout {
            DEFAULT_CENTROID_GRAPH_MAX_FANOUT
        } else {
            v.centroid_graph_max_fanout
        };
        let gap: u64 = if r.parity_gap {
            DEFAULT_CENTROID_GRAPH_PARITY_GAP
        } else {
            v.centroid_graph_parity_gap
        };
        self.vector = VectorSettings {
            centroid_graph_concentration_ratio: ratio,
            centroid_graph_scale_floor_docs: floor,
            centroid_graph_max_fanout: fanout,
            centroid_graph_parity_gap: gap,
            ..v
        };
        r
    }

    /// Check what the types alone cannot.
    pub fn validate(&self) -> (r: Result<(), ConfigError>)
        ensures
            match r {
                Ok(()) => invalid_setting(self.vector) is None,
                Err(ConfigError::Invalid(e)) => invalid_setting(self.vector) == Some(e),
                Err(ConfigError::Retired(_)) => false,
            },
    {
        let v = self.vector;
        if v.hnsw_ef_ceil < MIN_EF_CEIL {
            return Err(ConfigError::Invalid(InvalidSetting::EfCeil(v.hnsw_ef_ceil)));
        }
        if !(less64(0, v.target_recall) && at_most64(v.target_recall, F64_ONE)) {
            return Err(ConfigError::Invalid(InvalidSetting::TargetRecall(v.target_recall)));
        }
        if v.admit_extension_mult < 1 {
            return Err(
                ConfigError::Invalid(InvalidSetting::AdmitExtensionMult(v.admit_extension_mult)),
            );
        }
        if !(at_most64(0, v.hnsw_register_floor) && at_most64(v.hnsw_register_floor, F64_ONE)) {
            return Err(
                ConfigError::Invalid(InvalidSetting::HnswRegisterFloor(v.hnsw_register_floor)),
            );
        }
        if !(at_most64(0, v.flat_register_floor) && at_most64(v.flat_register_floor, F64_ONE)) {
            return Err(
                ConfigError::Invalid(InvalidSetting::FlatRegisterFloor(v.flat_register_floor)),
            );
        }
        let ceiling: usize = if v.hnsw_ef_construction <= usize::MAX
            / M0_HEADROOM_OVER_EF_CONSTRUCTION {
            v.hnsw_ef_construction * M0_HEADROOM_OVER_EF_CONSTRUCTION
        } else {
            usize::MAX
        };
        if v.hnsw_m0 != 0 && v.hnsw_m0 > ceiling {
            return Err(
                ConfigError::Invalid(
                    InvalidSetting::HnswM0 {
                        m0: v.hnsw_m0,
                        ceiling,
                        ef_construction: v.hnsw_ef_construction,
                    },
                ),
            );
        }
        if v.hnsw_probe_max_docs == 0 {
            return Err(ConfigError::Invalid(InvalidSetting::ProbeMaxDocs));
        }
        Ok(())
    }

    /// Whether each register floor, the graph's and the flat plane's, is above
    /// the recall target: such an index de-registers although it meets the
    /// target.
    pub fn floors_above_target(&self) -> (r: (bool, bool))
        ensures
            r.0 == f64_lt(self.vector.target_recall, self.vector.hnsw_register_floor),
            r.1 == f64_lt(self.vector.target_recall, self.vector.flat_register_floor),
    {
        (
            less64(self.vector.target_recall, self.vector.hnsw_register_floor),
            less64(self.vector.target_recall, self.vector.flat_register_floor),
        )
    }
}

// ---------------- user file ----------------

/// Where the user's configuration file lies, as a base directory and the path
/// below it: the `XDG_CONFIG_HOME` directory wins over the home directory, and
/// without either there is no such file.
pub fn user_config_path(xdg_config_home: Option<String>, home: Option<String>) -> (r: Option<
    (String, &'static str),
>)
    ensures
        match (xdg_config_home, home) {
            (Some(x), _) => r matches Some((base, file)) && base == x && file@
                == "infino/config.yaml"@,
            (None, Some(h)) => r matches Some((base, file)) && base == h && file@
                == ".config/infino/config.yaml"@,
            (None, None) => r is None,
        },
{
    match (xdg_config_home, home) {
        (Some(x), _) => Some((x, "infino/config.yaml")),
        (None, Some(h)) => Some((h, ".config/infino/config.yaml")),
        (None, None) => None,
    }
}

// ---------------- retired keys ----------------

/// A layered configuration source.
#[verifier::external_type_specification]
#[verifier::external_body]
pub struct ExFigment(figment::Figment);

/// The key paths at which a source holds a value.
pub uninterp spec fn key_paths(fig: Figment) -> Set<Seq<char>>;

/// `Figment::find_value`, asked whether there is a value: it looks the dotted
/// path up in the merged dictionaries that the source holds.
#[verifier::external_body]
pub(crate) fn holds_key(fig: &Figment, path: &str) -> (r: bool)
    ensures
        r == key_paths(*fig).contains(path@),
{
    fig.find_value(path).is_ok()
}

/// Refuse a source that still sets a retired key, and name what replaced it:
/// dropped silently, the setting would fall back to a default.
pub fn reject_retired_keys(fig: &Figment) -> (r: Result<(), ConfigError>)
    ensures
        ({
            let slack = key_paths(*fig).contains("vector.hnsw_recall_slack"@);
            let walk = key_paths(*fig).contains("vector.hnsw_sq8_walk"@);
            match r {
                Ok(()) => !slack && !walk,
                Err(ConfigError::Retired(k)) => {
                    ||| slack && k.key@ == "vector.hnsw_recall_slack"@ && k.replacement@
                        == "vector.hnsw_register_floor — state the floor directly instead of a shortfall below target_recall; the old default pair (0.99 - 0.01) is a floor of 0.98"@
                    ||| !slack && walk && k.key@ == "vector.hnsw_sq8_walk"@ && k.replacement@
                        == "vector.hnsw_plane — `sq8` is the old `true`, `sq16` the old `false`"@
                },
                Err(ConfigError::Invalid(_)) => false,
            }
        }),
{
    if holds_key(fig, "vector.hnsw_recall_slack") {
        return Err(
            ConfigError::Retired(
                RetiredKey {
                    key: "vector.hnsw_recall_slack",
                    replacement: "vector.hnsw_register_floor — state the floor directly instead of a shortfall below target_recall; the old default pair (0.99 - 0.01) is a floor of 0.98",
                },
            ),
        );
    }
    if holds_key(fig, "vector.hnsw_sq8_walk") {
        return Err(
            ConfigError::Retired(
                RetiredKey {
                    key: "vector.hnsw_sq8_walk",
                    replacement: "vector.hnsw_plane — `sq8` is the old `true`, `sq16` the old `false`",
                },
            ),
        );
    }
    Ok(())
}

/// Settings are valid exactly where every rule holds: a beam ceiling of at
/// least 128, a recall target above 0 and at most 1, at least one admission
/// step, floors within 0 and 1, a base degree of 0 or at most twice the
/// construction beam, and at least one document to probe.
pub proof fn law_valid_settings(v: VectorSettings)
    ensures
        invalid_setting(v) is None <==> {
            &&& v.hnsw_ef_ceil >= 128
            &&& f64_lt(0, v.target_recall)
            &&& f64_le(v.target_recall, 0x3ff0_0000_0000_0000)
            &&& v.admit_extension_mult >= 1
            &&& f64_le(0, v.hnsw_register_floor)
            &&& f64_le(v.hnsw_register_floor, 0x3ff0_0000_0000_0000)
            &&& f64_le(0, v.flat_register_floor)
            &&& f64_le(v.flat_register_floor, 0x3ff0_0000_0000_0000)
            &&& v.hnsw_m0 == 0 || v.hnsw_m0 <= 2 * v.hnsw_ef_construction
            &&& v.hnsw_probe_max_docs >= 1
        },
{
}

/// What is reported is at fault, is reported with its value, and nothing that
/// is checked before it is at fault.
pub proof fn law_reported_setting_is_the_first_at_fault(v: VectorSettings)
    ensures
        ({
            let ceil_ok = v.hnsw_ef_ceil >= 128;
            let target_ok = f64_lt(0, v.target_recall) && f64_le(
                v.target_recall,
                0x3ff0_0000_0000_0000,
            );
            let mult_ok = v.admit_extension_mult >= 1;
            let floor_ok = f64_le(0, v.hnsw_register_floor) && f64_le(
                v.hnsw_register_floor,
                0x3ff0_0000_0000_0000,
            );
            let flat_ok = f64_le(0, v.flat_register_floor) && f64_le(
                v.flat_register_floor,
                0x3ff0_0000_0000_0000,
            );
            let m0_ok = v.hnsw_m0 == 0 || v.hnsw_m0 <= 2 * v.hnsw_ef_construction;
            let e = invalid_setting(v);
            &&& e == Some(InvalidSetting::EfCeil(v.hnsw_ef_ceil)) <==> !ceil_ok
            &&& e == Some(InvalidSetting::TargetRecall(v.target_recall)) <==> ceil_ok && !target_ok
            &&& e == Some(InvalidSetting::AdmitExtensionMult(v.admit_extension_mult)) <==> ceil_ok
                && target_ok && !mult_ok
            &&& e == Some(InvalidSetting::HnswRegisterFloor(v.hnsw_register_floor)) <==> ceil_ok
                && target_ok && mult_ok && !floor_ok
            &&& e == Some(InvalidSetting::FlatRegisterFloor(v.flat_register_floor)) <==> ceil_ok
                && target_ok && mult_ok && floor_ok && !flat_ok
            &&& e is Some && e->0 is HnswM0 <==> ceil_ok && target_ok && mult_ok && floor_ok
                && flat_ok && !m0_ok
            &&& e matches Some(InvalidSetting::HnswM0 { m0, ceiling, ef_construction }) ==> m0
                == v.hnsw_m0 && ceiling == 2 * v.hnsw_ef_construction && ef_construction
                == v.hnsw_ef_construction
            &&& e == Some(InvalidSetting::ProbeMaxDocs) <==> ceil_ok && target_ok && mult_ok
                && floor_ok && flat_ok && m0_ok && v.hnsw_probe_max_docs == 0
        }),
{
}

/// Clamping brings each of the router's knobs into its range: one that is in
/// range keeps its value, any other gets its shipped one.
pub proof fn law_clamped_knobs_are_in_range(v: VectorSettings)
    ensures
        ({
            let r = clamped(v);
            let ratio = v.centroid_graph_concentration_ratio;
            let gap = v.centroid_graph_parity_gap;
            let ratio_ok = f64_lt(0, ratio) && f64_le(ratio, 0x3ff0_0000_0000_0000);
            let gap_ok = f64_le(0, gap) && f64_lt(gap, 0x3ff0_0000_0000_0000);
            &&& r.centroid_graph_concentration_ratio == (if ratio_ok {
                ratio
            } else {
                0x3fe0_0000_0000_0000
            })
            &&& r.centroid_graph_scale_floor_docs == (if v.centroid_graph_scale_floor_docs > 0 {
                v.centroid_graph_scale_floor_docs
            } else {
                10_000_000
            })
            &&& r.centroid_graph_max_fanout == (if v.centroid_graph_max_fanout > 0 {
                v.centroid_graph_max_fanout
            } else {
                4096
            })
            &&& r.centroid_graph_parity_gap == (if gap_ok {
                gap
            } else {
                0x3f9e_b851_eb85_1eb8
            })
            &&& out_of_range(v).concentration_ratio == !ratio_ok
            &&& out_of_range(v).parity_gap == !gap_ok
            &&& out_of_range(v).scale_floor == (v.centroid_graph_scale_floor_docs == 0)
            &&& out_of_range(v).max_fanout == (v.centroid_graph_max_fanout == 0)
        }),
{
}

/// The first digit of a count weighs most: ten to the number of digits behind
/// it. So leading zeros count for nothing.
pub proof fn law_first_digit_weighs_most(digit: u8, rest: Seq<u8>)
    ensures
        decimal(seq![digit] + rest) == (digit - 0x30) * vstd::arithmetic::power::pow(
            10,
            rest.len(),
        ) + decimal(rest),
        decimal(seq![0x30u8] + rest) == decimal(rest),
    decreases rest.len(),
{
    let all = seq![digit] + rest;
    let zero = seq![0x30u8] + rest;
    reveal(vstd::arithmetic::power::pow);
    if rest.len() == 0 {
        assert(all.drop_last() =~= Seq::<u8>::empty());
        assert(zero.drop_last() =~= Seq::<u8>::empty());
        assert(all.last() == digit && zero.last() == 0x30);
        assert(decimal(Seq::<u8>::empty()) == 0);
        assert(vstd::arithmetic::power::pow(10, 0) == 1);
        assert((digit - 0x30) * 1 == digit - 0x30);
    } else {
        let less = rest.drop_last();
        law_first_digit_weighs_most(digit, less);
        assert(all.drop_last() =~= seq![digit] + less);
        assert(zero.drop_last() =~= seq![0x30u8] + less);
        assert(all.last() == rest.last() && zero.last() == rest.last());
        let p = vstd::arithmetic::power::pow(10, less.len());
        let d = digit - 0x30;
        assert(vstd::arithmetic::power::pow(10, rest.len()) == 10 * p);
        assert(10 * (d * p) == d * (10 * p)) by (nonlinear_arith);
    }
}

/// A plus sign in front of the digits changes nothing, and a text with
/// anything else among them names no count.
pub proof fn law_plus_sign_is_ignored(s: Seq<u8>, i: int)
    requires
        s.len() > 0,
    ensures
        all_digits(s) ==> named_count(seq![0x2bu8] + s) == named_count(s),
        0 < i < s.len() && !(0x30 <= s[i] <= 0x39) && !is_auto(s) ==> named_count(s) is None,
{
    let t = seq![0x2bu8] + s;
    assert(t[0] == 0x2b);
    assert(t.subrange(1, t.len() as int) =~= s);
    if all_digits(s) {
        assert(0x30 <= s[0] <= 0x39);
        lemma_not_auto(s);
    }
    if 0 < i < s.len() && !(0x30 <= s[i] <= 0x39) {
        if s[0] == 0x2b {
            assert(digits_of(s)[i - 1] == s[i]);
        }
    }
}

} // verus!
