//! The vector-column builder: registration, buffering and the unified blob.
//!
//! ```text
//! outer header | directory | directory checksum | subsections | checksum
//! ```
use vstd::prelude::*;
use vstd::string::*;
use vstd::utf8::*;

use crate::checksum::{crc32c, crc32c_append, crc32c_of, law_crc_append};
use crate::codes::Metric;
use crate::ivf::{metric_id, metric_id_of, RerankCodec, VECTOR_DIM_MAX, VECTOR_DIM_MIN};
use crate::subsection::SubsectionBytes;
use crate::wire::{
    field, le_bytes, lemma_concat_assoc, lemma_field_of_bytes, lemma_from_empty, lemma_le_bytes_len,
    lemma_pow256_values, put_slice, put_u32, put_u64, put_u8,
};

verus! {

/// The bytes `INFVECS1`, read as a little-endian number.
pub const OUTER_MAGIC: u64 = 0x3153_4345_5646_4E49;

/// Version of the outer layout.
pub const VERSION: u32 = 1;

/// Separator of term keys; no column name may hold it.
pub const FST_SEPARATOR: u8 = 0x1F;

/// Separates the reservoir's random stream from that of the rotation.
pub const RESERVOIR_SEED_XOR_MASK: u64 = 0x5a5a_5a5a_5a5a_5a5a;

/// Training iterations per column.
pub const KMEANS_ITERS: usize = 5;

/// Input bytes held in memory per column before spilling.
pub const DEFAULT_SPILL_THRESHOLD_BYTES: usize = 268_435_456;

/// Build configuration of one vector column. Provided centroids are binary32
/// patterns, row by row.
#[derive(Clone, Debug)]
pub struct VectorConfig {
    pub column: String,
    pub dim: usize,
    pub n_cent: usize,
    pub rot_seed: u64,
    pub metric: Metric,
    pub rerank_codec: RerankCodec,
    pub provided_centroids: Option<Vec<u32>>,
}

impl VectorConfig {
    /// A configuration with the default codec and no provided centroids.
    pub fn new(column: String, dim: usize, n_cent: usize, rot_seed: u64, metric: Metric) -> (r:
        Self)
        ensures
            r.column == column,
            r.dim == dim,
            r.n_cent == n_cent,
            r.rot_seed == rot_seed,
            r.metric == metric,
            r.rerank_codec == RerankCodec::Sq8Residual,
            r.provided_centroids == None::<Vec<u32>>,
    {
        VectorConfig {
            column,
            dim,
            n_cent,
            rot_seed,
            metric,
            rerank_codec: RerankCodec::default(),
            provided_centroids: None,
        }
    }

    /// The configuration with another codec.
    pub fn with_rerank_codec(self, codec: RerankCodec) -> (r: Self)
        ensures
            r == (VectorConfig { rerank_codec: codec, ..self }),
    {
        let mut out = self;
        out.rerank_codec = codec;
        out
    }

    /// The configuration with centroids to partition by.
    pub fn with_provided_centroids(self, centroids: Option<Vec<u32>>) -> (r: Self)
        ensures
            r == (VectorConfig { provided_centroids: centroids, ..self }),
    {
        let mut out = self;
        out.provided_centroids = centroids;
        out
    }
}

/// The column that an error speaks of.
#[derive(Debug)]
pub enum ColumnName {
    Registered(String),
    /// No column has the id.
    Unregistered(u32),
}

/// What was wrong with a column's input.
#[derive(Clone, Copy, Debug, PartialEq, Eq, Structural)]
pub enum ColumnFault {
    NotApplicable,
    Length { len: usize, dim: usize },
}

/// Why a build step was refused.
#[derive(Debug)]
#[allow(inconsistent_fields)]
pub enum BuildError {
    ReservedSeparatorInColumnName(String),
    ReservedPrefixInColumnName(String),
    VectorDimOutOfRange { column: String, dim: usize },
    DuplicateColumnName(String),
    VectorRerankCodecUnimplemented { column: String, codec: RerankCodec },
    FtsColumnTypeInvalid { column: ColumnName, actual: ColumnFault },
    VectorSchemaMismatch(&'static str),
}

/// A row that is already encoded: its 1-bit code, and its 8-bit codes and
/// residuals on the ruler `scale`, `offset`.
#[derive(Debug)]
pub struct MaterializedIvfRow {
    pub local_doc_id: u32,
    pub stable_id: i128,
    pub rabitq_code: Vec<u8>,
    pub scale: Vec<u32>,
    pub offset: Vec<u32>,
    pub codes: Vec<u8>,
    pub residuals: Vec<i8>,
}

/// State of a column while it is built.
#[derive(Debug)]
pub struct ColumnState {
    pub config: VectorConfig,
    pub n_docs: u32,
    /// Size of the training sample, where it was set.
    pub sample_size: Option<usize>,
    /// The input so far, in order, as binary32 patterns; empty once spilled.
    pub pre_spill_buffer: Vec<u32>,
    /// Whether the input goes to a spill file.
    pub spilled: bool,
    pub spill_threshold_bytes: usize,
    /// Rows that are already encoded, in place of input.
    pub materialized_rows: Option<Vec<MaterializedIvfRow>>,
    /// A subsection that is already assembled, in place of input.
    pub prebuilt_subsection: Option<SubsectionBytes>,
}

impl ColumnState {
    pub open spec fn wf(&self) -> bool {
        &&& 16 <= self.config.dim <= 4096
        &&& self.spilled ==> self.pre_spill_buffer@.len() == 0
        &&& 4 * self.pre_spill_buffer@.len() <= self.spill_threshold_bytes
    }

    /// Seed of the training sample's random stream.
    pub fn reservoir_seed(&self) -> (r: u64)
        ensures
            r == self.config.rot_seed ^ RESERVOIR_SEED_XOR_MASK,
    {
        self.config.rot_seed ^ RESERVOIR_SEED_XOR_MASK
    }
}

/// What is to be done with a vector that was accepted.
#[derive(Debug)]
pub enum AddStep {
    /// It is in memory: nothing.
    Buffered,
    /// Append it to the spill file.
    Append,
    /// Open the spill file, write these patterns, then append the vector.
    StartSpill(Vec<u32>),
}

/// The patterns that a step sends to the spill file.
pub open spec fn written(step: AddStep, vec: Seq<u32>) -> Seq<u32> {
    match step {
        AddStep::Buffered => Seq::empty(),
        AddStep::Append => vec,
        AddStep::StartSpill(buffer) => buffer@ + vec,
    }
}

/// Vector columns on the way to a blob.
#[derive(Debug)]
pub struct VectorBuilder {
    pub columns: Vec<ColumnState>,
    pub spill_threshold_bytes: usize,
}

impl Default for VectorBuilder {
    fn default() -> (r: Self)
        ensures
            r.columns@.len() == 0,
            r.spill_threshold_bytes == 268_435_456,
    {
        VectorBuilder::new()
    }
}

// ---------------- registration ----------------

/// A name that holds the separator.
pub open spec fn has_separator(name: Seq<char>) -> bool {
    encode_utf8(name).contains(0x1Fu8)
}

/// A name in the reserved name space, which begins with `inf.`.
pub open spec fn is_reserved(name: Seq<char>) -> bool {
    let b = encode_utf8(name);
    b.len() >= 4 && b[0] == 0x69 && b[1] == 0x6e && b[2] == 0x66 && b[3] == 0x2e
}

/// A column has the name.
pub open spec fn is_taken(columns: Seq<ColumnState>, name: Seq<char>) -> bool {
    exists|i: int| 0 <= i < columns.len() && (#[trigger] columns[i]).config.column@ == name
}

fn holds_separator(bytes: &[u8]) -> (r: bool)
    ensures
        r == bytes@.contains(0x1Fu8),
{
    let mut i: usize = 0;
    while i < bytes.len()
        invariant
            i <= bytes@.len(),
            forall|j: int| 0 <= j < i ==> #[trigger] bytes@[j] != 0x1Fu8,
        decreases bytes.len() - i,
    {
        if bytes[i] == FST_SEPARATOR {
            assert(bytes@[i as int] == 0x1Fu8);
            return true;
        }
        i = i + 1;
    }
    false
}

fn begins_reserved(bytes: &[u8]) -> (r: bool)
    ensures
        r == (bytes@.len() >= 4 && bytes@[0] == 0x69 && bytes@[1] == 0x6e && bytes@[2] == 0x66
            && bytes@[3] == 0x2e),
{
    bytes.len() >= 4 && bytes[0] == 0x69 && bytes[1] == 0x6e && bytes[2] == 0x66 && bytes[3] == 0x2e
}

impl VectorBuilder {
    pub open spec fn wf(&self) -> bool {
        forall|i: int| 0 <= i < self.columns@.len() ==> (#[trigger] self.columns@[i]).wf()
    }

    /// A builder without columns and with the default spill threshold.
    pub fn new() -> (r: Self)
        ensures
            r.columns@.len() == 0,
            r.spill_threshold_bytes == 268_435_456,
            r.wf(),
    {
        VectorBuilder {
            columns: Vec::new(),
            spill_threshold_bytes: DEFAULT_SPILL_THRESHOLD_BYTES,
        }
    }

    /// Set the spill threshold of the columns registered from here on.
    pub fn set_spill_threshold_bytes(&mut self, threshold: usize)
        ensures
            final(self).spill_threshold_bytes == threshold,
            final(self).columns == old(self).columns,
    {
        self.spill_threshold_bytes = threshold;
    }

    fn name_taken(&self, name: &String) -> (r: bool)
        ensures
            r == is_taken(self.columns@, name@),
    {
        let mut i: usize = 0;
        while i < self.columns.len()
            invariant
                i <= self.columns@.len(),
                forall|j: int|
                    0 <= j < i ==> (#[trigger] self.columns@[j]).config.column@ != name@,
            decreases self.columns.len() - i,
        {
            if self.columns[i].config.column == *name {
                assert(self.columns@[i as int].config.column@ == name@);
                return true;
            }
            i = i + 1;
        }
        false
    }

    /// Register a column; the ids follow the order of registration. The name
    /// is checked first for the separator, then for the reserved prefix, then
    /// the dimension, then whether the name is taken. A refused column changes
    /// nothing.
    pub fn register_column(&mut self, config: VectorConfig) -> (r: Result<u32, BuildError>)
        requires
            old(self).wf(),
        ensures
            final(self).wf(),
            final(self).spill_threshold_bytes == old(self).spill_threshold_bytes,
            ({
                let name = config.column@;
                match r {
                    Ok(id) => {
                        &&& !has_separator(name)
                        &&& !is_reserved(name)
                        &&& 16 <= config.dim <= 4096
                        &&& !is_taken(old(self).columns@, name)
                        &&& id == old(self).columns@.len() as u32
                        &&& final(self).columns@.len() == old(self).columns@.len() + 1
                        &&& final(self).columns@.drop_last() == old(self).columns@
                        &&& final(self).columns@.last().config == config
                        &&& final(self).columns@.last().n_docs == 0
                        &&& final(self).columns@.last().sample_size == None::<usize>
                        &&& final(self).columns@.last().pre_spill_buffer@.len() == 0
                        &&& !final(self).columns@.last().spilled
                        &&& final(self).columns@.last().spill_threshold_bytes == old(
                            self,
                        ).spill_threshold_bytes
                        &&& final(self).columns@.last().materialized_rows is None
                        &&& final(self).columns@.last().prebuilt_subsection is None
                    },
                    Err(BuildError::ReservedSeparatorInColumnName(n)) => {
                        &&& n@ == name
                        &&& has_separator(name)
                        &&& *final(self) == *old(self)
                    },
                    Err(BuildError::ReservedPrefixInColumnName(n)) => {
                        &&& n@ == name
                        &&& !has_separator(name)
                        &&& is_reserved(name)
                        &&& *final(self) == *old(self)
                    },
                    Err(BuildError::VectorDimOutOfRange { column, dim }) => {
                        &&& column@ == name
                        &&& dim == config.dim
                        &&& !has_separator(name)
                        &&& !is_reserved(name)
                        &&& !(16 <= config.dim <= 4096)
                        &&& *final(self) == *old(self)
                    },
                    Err(BuildError::DuplicateColumnName(n)) => {
                        &&& n@ == name
                        &&& !has_separator(name)
                        &&& !is_reserved(name)
                        &&& 16 <= config.dim <= 4096
                        &&& is_taken(old(self).columns@, name)
                        &&& *final(self) == *old(self)
                    },
                    Err(_) => false,
                }
            }),
    {
        if holds_separator(config.column.as_str().as_bytes()) {
            return Err(BuildError::ReservedSeparatorInColumnName(config.column));
        }
        if begins_reserved(config.column.as_str().as_bytes()) {
            return Err(BuildError::ReservedPrefixInColumnName(config.column));
        }
        if config.dim < VECTOR_DIM_MIN || config.dim > VECTOR_DIM_MAX {
            return Err(
                BuildError::VectorDimOutOfRange { column: config.column, dim: config.dim },
            );
        }
        if self.name_taken(&config.column) {
            return Err(BuildError::DuplicateColumnName(config.column));
        }
        if !config.rerank_codec.is_implemented() {
            return Err(
                BuildError::VectorRerankCodecUnimplemented {
                    column: config.column,
                    codec: config.rerank_codec,
                },
            );
        }
        let column_id: u32 = #[verifier::truncate] (self.columns.len() as u32);
        let ghost before = self.columns@;
        self.columns.push(
            ColumnState {
                config,
                n_docs: 0,
                sample_size: None,
                pre_spill_buffer: Vec::new(),
                spilled: false,
                spill_threshold_bytes: self.spill_threshold_bytes,
                materialized_rows: None,
                prebuilt_subsection: None,
            },
        );
        proof {
            assert(self.columns@.drop_last() =~= before);
        }
        Ok(column_id)
    }
}

// ---------------- rows ----------------

/// The error for an id that no column has.
pub open spec fn is_unregistered(e: BuildError, column_id: u32) -> bool {
    e matches BuildError::FtsColumnTypeInvalid { column, actual } && column
        == ColumnName::Unregistered(column_id) && actual == ColumnFault::NotApplicable
}

fn unregistered(column_id: u32) -> (r: BuildError)
    ensures
        is_unregistered(r, column_id),
{
    BuildError::FtsColumnTypeInvalid {
        column: ColumnName::Unregistered(column_id),
        actual: ColumnFault::NotApplicable,
    }
}

impl VectorBuilder {
    /// Take rows that are already encoded in place of a column's input. Only a
    /// column with 8-bit codes and residuals can.
    pub fn load_materialized_rows(&mut self, column_id: u32, rows: Vec<MaterializedIvfRow>) -> (r:
        Result<(), BuildError>)
        requires
            old(self).wf(),
        ensures
            final(self).wf(),
            final(self).spill_threshold_bytes == old(self).spill_threshold_bytes,
            ({
                let c = column_id as int;
                let known = c < old(self).columns@.len();
                &&& !known ==> r is Err && is_unregistered(r->Err_0, column_id) && *final(self)
                    == *old(self)
                &&& known && old(self).columns@[c].config.rerank_codec != RerankCodec::Sq8Residual
                    ==> {
                    &&& r matches Err(
                        BuildError::VectorRerankCodecUnimplemented { column, codec },
                    ) && column@ == old(self).columns@[c].config.column@ && codec == old(
                        self,
                    ).columns@[c].config.rerank_codec
                    &&& *final(self) == *old(self)
                }
                &&& known && old(self).columns@[c].config.rerank_codec == RerankCodec::Sq8Residual
                    ==> {
                    &&& r is Ok
                    &&& final(self).columns@ == old(self).columns@.update(
                        c,
                        ColumnState {
                            n_docs: rows@.len() as u32,
                            materialized_rows: Some(rows),
                            ..old(self).columns@[c]
                        },
                    )
                }
            }),
    {
        let idx: usize = column_id as usize;
        if idx >= self.columns.len() {
            return Err(unregistered(column_id));
        }
        match self.columns[idx].config.rerank_codec {
            RerankCodec::Sq8Residual => {},
            other => {
                return Err(
                    BuildError::VectorRerankCodecUnimplemented {
                        column: self.columns[idx].config.column.clone(),
                        codec: other,
                    },
                );
            },
        }
        let ghost before = self.columns@;
        self.columns[idx].n_docs = #[verifier::truncate] (rows.len() as u32);
        self.columns[idx].materialized_rows = Some(rows);
        proof {
            assert(self.columns@ =~= before.update(idx as int, self.columns@[idx as int]));
            assert forall|i: int| 0 <= i < self.columns@.len() implies (
            #[trigger] self.columns@[i]).wf() by {
                assert(before[i].wf());
            }
        }
        Ok(())
    }

    /// Take an assembled subsection in place of a column's input.
    pub fn set_prebuilt_subsection(
        &mut self,
        column_id: u32,
        n_docs: u32,
        subsection: SubsectionBytes,
    ) -> (r: Result<(), BuildError>)
        requires
            old(self).wf(),
        ensures
            final(self).wf(),
            final(self).spill_threshold_bytes == old(self).spill_threshold_bytes,
            ({
                let c = column_id as int;
                let known = c < old(self).columns@.len();
                &&& !known ==> r is Err && is_unregistered(r->Err_0, column_id) && *final(self)
                    == *old(self)
                &&& known ==> {
                    &&& r is Ok
                    &&& final(self).columns@ == old(self).columns@.update(
                        c,
                        ColumnState {
                            n_docs,
                            materialized_rows: None,
                            prebuilt_subsection: Some(subsection),
                            ..old(self).columns@[c]
                        },
                    )
                }
            }),
    {
        let idx: usize = column_id as usize;
        if idx >= self.columns.len() {
            return Err(unregistered(column_id));
        }
        let ghost before = self.columns@;
        self.columns[idx].n_docs = n_docs;
        self.columns[idx].materialized_rows = None;
        self.columns[idx].prebuilt_subsection = Some(subsection);
        proof {
            assert(self.columns@ =~= before.update(idx as int, self.columns@[idx as int]));
            assert forall|i: int| 0 <= i < self.columns@.len() implies (
            #[trigger] self.columns@[i]).wf() by {
                assert(before[i].wf());
            }
        }
        Ok(())
    }

    /// Set the size of a column's training sample.
    pub fn set_kmeans_sample_size(&mut self, column_id: u32, sample_size: usize) -> (r: Result<
        (),
        BuildError,
    >)
        requires
            old(self).wf(),
        ensures
            final(self).wf(),
            final(self).spill_threshold_bytes == old(self).spill_threshold_bytes,
            ({
                let c = column_id as int;
                let known = c < old(self).columns@.len();
                &&& !known ==> r is Err && is_unregistered(r->Err_0, column_id) && *final(self)
                    == *old(self)
                &&& known ==> {
                    &&& r is Ok
                    &&& final(self).columns@ == old(self).columns@.update(
                        c,
                        ColumnState { sample_size: Some(sample_size), ..old(self).columns@[c] },
                    )
                }
            }),
    {
        let idx: usize = column_id as usize;
        if idx >= self.columns.len() {
            return Err(unregistered(column_id));
        }
        let ghost before = self.columns@;
        self.columns[idx].sample_size = Some(sample_size);
        proof {
            assert(self.columns@ =~= before.update(idx as int, self.columns@[idx as int]));
            assert forall|i: int| 0 <= i < self.columns@.len() implies (
            #[trigger] self.columns@[i]).wf() by {
                assert(before[i].wf());
            }
        }
        Ok(())
    }
}

/// A vector fits in memory beside what is buffered.
pub open spec fn fits_in_memory(col: ColumnState, len: int) -> bool {
    4 * col.pre_spill_buffer@.len() + 4 * len <= col.spill_threshold_bytes
}

fn append_patterns(out: &mut Vec<u32>, s: &Vec<u32>)
    ensures
        final(out)@ == old(out)@ + s@,
{
    let ghost start = out@;
    let mut i: usize = 0;
    while i < s.len()
        invariant
            i <= s@.len(),
            out@ == start + s@.subrange(0, i as int),
        decreases s.len() - i,
    {
        out.push(s[i]);
        i = i + 1;
        proof {
            assert(s@.subrange(0, i as int) =~= s@.subrange(0, i - 1).push(s@[i - 1]));
            assert(out@ =~= start + s@.subrange(0, i as int));
        }
    }
    proof {
        assert(s@.subrange(0, i as int) =~= s@);
    }
}

/// Where the input of a column is: what its spill file holds, and behind it
/// what memory holds.
#[verifier::ext_equal]
pub struct Intake {
    pub file: Seq<u32>,
    pub memory: Seq<u32>,
    pub spilled: bool,
}

/// Where the input is, given what the spill file holds.
pub open spec fn intake_of(col: ColumnState, file: Seq<u32>) -> Intake {
    Intake { file, memory: col.pre_spill_buffer@, spilled: col.spilled }
}

/// Where the input is after one more vector.
pub open spec fn taken_in(s: Intake, threshold: int, vec: Seq<u32>) -> Intake {
    if s.spilled {
        Intake { file: s.file + vec, ..s }
    } else if 4 * s.memory.len() + 4 * vec.len() <= threshold {
        Intake { memory: s.memory + vec, ..s }
    } else {
        Intake { file: s.file + (s.memory + vec), memory: Seq::empty(), spilled: true }
    }
}

/// Where the input is after the vectors, from an empty column on.
pub open spec fn intake(threshold: int, vecs: Seq<Seq<u32>>) -> Intake
    decreases vecs.len(),
{
    if vecs.len() == 0 {
        Intake { file: Seq::empty(), memory: Seq::empty(), spilled: false }
    } else {
        taken_in(intake(threshold, vecs.drop_last()), threshold, vecs.last())
    }
}

/// The vectors, one behind the other.
pub open spec fn input_of(vecs: Seq<Seq<u32>>) -> Seq<u32>
    decreases vecs.len(),
{
    if vecs.len() == 0 {
        Seq::empty()
    } else {
        input_of(vecs.drop_last()) + vecs.last()
    }
}

/// Whatever is added, nothing is lost and nothing changes place: the file
/// followed by memory is the input in order. Memory keeps to the threshold;
/// once spilled it is empty, and until then the file is.
pub proof fn law_intake_is_lossless(threshold: int, vecs: Seq<Seq<u32>>)
    requires
        threshold >= 0,
    ensures
        intake(threshold, vecs).file + intake(threshold, vecs).memory == input_of(vecs),
        4 * intake(threshold, vecs).memory.len() <= threshold,
        intake(threshold, vecs).spilled ==> intake(threshold, vecs).memory.len() == 0,
        !intake(threshold, vecs).spilled ==> intake(threshold, vecs).file.len() == 0,
    decreases vecs.len(),
{
    if vecs.len() > 0 {
        law_intake_is_lossless(threshold, vecs.drop_last());
        let before = intake(threshold, vecs.drop_last());
        let after = intake(threshold, vecs);
        assert(after.file + after.memory =~= (before.file + before.memory) + vecs.last());
    } else {
        assert(Seq::<u32>::empty() + Seq::<u32>::empty() =~= Seq::<u32>::empty());
    }
}

/// The column `now` is `was` after it took in `vec` by `step`.
pub open spec fn has_taken(
    was: ColumnState,
    vec: Seq<u32>,
    step: AddStep,
    now: ColumnState,
) -> bool {
    &&& was.spilled ==> step == AddStep::Append
    &&& !was.spilled && fits_in_memory(was, vec.len() as int) ==> step == AddStep::Buffered
    &&& !was.spilled && !fits_in_memory(was, vec.len() as int) ==> step == AddStep::StartSpill(
        was.pre_spill_buffer,
    )
    &&& written(step, vec) + now.pre_spill_buffer@ == was.pre_spill_buffer@ + vec
    &&& now.spilled == !(step is Buffered)
    &&& now.n_docs == was.n_docs + 1
    &&& same_settings(was, now)
}

/// The columns differ in nothing but their input.
pub open spec fn same_settings(a: ColumnState, b: ColumnState) -> bool {
    &&& a.config == b.config
    &&& a.sample_size == b.sample_size
    &&& a.spill_threshold_bytes == b.spill_threshold_bytes
    &&& a.materialized_rows == b.materialized_rows
    &&& a.prebuilt_subsection == b.prebuilt_subsection
}

/// The column `now` is `was` without the vector that `step` was to write.
pub open spec fn has_given_back(was: ColumnState, step: AddStep, now: ColumnState) -> bool {
    &&& now.n_docs == was.n_docs - 1
    &&& now.pre_spill_buffer@ == (match step {
        AddStep::StartSpill(buffer) => buffer@,
        _ => was.pre_spill_buffer@,
    })
    &&& now.spilled == (was.spilled && !(step is StartSpill))
    &&& same_settings(was, now)
}

/// Taking a vector back undoes its add: the column is in the state it was in.
pub proof fn law_take_back_undoes_add(
    was: ColumnState,
    vec: Seq<u32>,
    step: AddStep,
    added: ColumnState,
    now: ColumnState,
)
    requires
        was.wf(),
        has_taken(was, vec, step, added),
        !(step is Buffered),
        has_given_back(added, step, now),
    ensures
        now.n_docs == was.n_docs,
        now.pre_spill_buffer@ == was.pre_spill_buffer@,
        now.spilled == was.spilled,
        same_settings(was, now),
{
    if was.spilled {
        let whole = written(step, vec) + added.pre_spill_buffer@;
        assert(whole.len() == vec.len());
        assert(now.pre_spill_buffer@ =~= was.pre_spill_buffer@);
    }
}

impl VectorBuilder {
    /// Take the last vector of a column back, where `step` says what was to be
    /// done with it and that failed.
    pub fn take_back(&mut self, column_id: u32, step: AddStep)
        requires
            old(self).wf(),
            column_id < old(self).columns@.len(),
            old(self).columns@[column_id as int].n_docs > 0,
            !(step is Buffered),
            step matches AddStep::StartSpill(buffer) ==> 4 * buffer@.len() <= old(
                self,
            ).columns@[column_id as int].spill_threshold_bytes,
        ensures
            final(self).wf(),
            final(self).spill_threshold_bytes == old(self).spill_threshold_bytes,
            final(self).columns@.len() == old(self).columns@.len(),
            forall|i: int|
                0 <= i < old(self).columns@.len() && i != column_id ==> #[trigger] final(self).columns@[i]
                    == old(self).columns@[i],
            has_given_back(
                old(self).columns@[column_id as int],
                step,
                final(self).columns@[column_id as int],
            ),
    {
        let idx: usize = column_id as usize;
        let ghost before = self.columns@;
        let n_docs: u32 = self.columns[idx].n_docs;
        self.columns[idx].n_docs = n_docs - 1;
        match step {
            AddStep::StartSpill(buffer) => {
                self.columns[idx].pre_spill_buffer = buffer;
                self.columns[idx].spilled = false;
            },
            _ => {},
        }
        proof {
            assert forall|i: int| 0 <= i < self.columns@.len() implies (
            #[trigger] self.columns@[i]).wf() by {
                assert(before[i].wf());
            }
        }
    }

    /// Append a vector, given by its patterns, to a column, and say what is to
    /// be done with it. The first vector that no longer fits in memory starts
    /// the spill; from then on every vector is appended to the file. What is
    /// in the file followed by what is in memory is always the whole input.
    pub fn add(&mut self, column_id: u32, vec: &Vec<u32>) -> (r: Result<AddStep, BuildError>)
        requires
            old(self).wf(),
            column_id < old(self).columns@.len() ==> old(self).columns@[column_id as int].n_docs
                < u32::MAX,
        ensures
            final(self).wf(),
            final(self).spill_threshold_bytes == old(self).spill_threshold_bytes,
            ({
                let c = column_id as int;
                let known = c < old(self).columns@.len();
                let was = old(self).columns@[c];
                &&& !known ==> r is Err && is_unregistered(r->Err_0, column_id) && *final(self)
                    == *old(self)
                &&& known && vec@.len() != was.config.dim ==> {
                    &&& r matches Err(BuildError::FtsColumnTypeInvalid { column, actual })
                        && column matches ColumnName::Registered(name) && name@
                        == was.config.column@ && actual == (ColumnFault::Length {
                        len: vec@.len() as usize,
                        dim: was.config.dim,
                    })
                    &&& *final(self) == *old(self)
                }
                &&& known && vec@.len() == was.config.dim ==> {
                    &&& r is Ok
                    &&& final(self).columns@.len() == old(self).columns@.len()
                    &&& forall|i: int|
                        0 <= i < old(self).columns@.len() && i != c ==> #[trigger] final(self).columns@[i]
                            == old(self).columns@[i]
                    &&& has_taken(was, vec@, r->Ok_0, final(self).columns@[c])
                    &&& forall|file: Seq<u32>|
                        #[trigger] taken_in(
                            intake_of(was, file),
                            was.spill_threshold_bytes as int,
                            vec@,
                        ) == intake_of(final(self).columns@[c], file + written(r->Ok_0, vec@))
                }
            }),
    {
        let idx: usize = column_id as usize;
        if idx >= self.columns.len() {
            return Err(unregistered(column_id));
        }
        let dim: usize = self.columns[idx].config.dim;
        if vec.len() != dim {
            return Err(
                BuildError::FtsColumnTypeInvalid {
                    column: ColumnName::Registered(self.columns[idx].config.column.clone()),
                    actual: ColumnFault::Length { len: vec.len(), dim },
                },
            );
        }
        let ghost before = self.columns@;
        proof {
            assert(before[idx as int].wf());
        }
        let vec_bytes: usize = vec.len() * 4;
        let buf_bytes: usize = self.columns[idx].pre_spill_buffer.len() * 4;
        let room: usize = self.columns[idx].spill_threshold_bytes - buf_bytes;
        let n_docs: u32 = self.columns[idx].n_docs;
        self.columns[idx].n_docs = n_docs + 1;
        let step: AddStep = if self.columns[idx].spilled {
            AddStep::Append
        } else if vec_bytes <= room {
            append_patterns(&mut self.columns[idx].pre_spill_buffer, vec);
            AddStep::Buffered
        } else {
            let mut buffer: Vec<u32> = Vec::new();
            std::mem::swap(&mut buffer, &mut self.columns[idx].pre_spill_buffer);
            self.columns[idx].spilled = true;
            AddStep::StartSpill(buffer)
        };
        proof {
            assert forall|i: int| 0 <= i < self.columns@.len() implies (
            #[trigger] self.columns@[i]).wf() by {
                assert(before[i].wf());
            }
            let was = before[idx as int].pre_spill_buffer@;
            let now = self.columns@[idx as int].pre_spill_buffer@;
            assert(written(step, vec@) + now =~= was + vec@);
            assert forall|file: Seq<u32>|
                #[trigger] taken_in(
                    intake_of(before[idx as int], file),
                    before[idx as int].spill_threshold_bytes as int,
                    vec@,
                ) == intake_of(self.columns@[idx as int], file + written(step, vec@)) by {
                assert(taken_in(
                    intake_of(before[idx as int], file),
                    before[idx as int].spill_threshold_bytes as int,
                    vec@,
                ) =~= intake_of(self.columns@[idx as int], file + written(step, vec@)));
            }
        }
        Ok(step)
    }
}

// ---------------- the blob ----------------

/// The subsection of column `i`: the assembled one it was given, else the one
/// built for it.
pub open spec fn subsection_of(
    columns: Seq<ColumnState>,
    built: Seq<Option<SubsectionBytes>>,
    i: int,
) -> SubsectionBytes {
    match columns[i].prebuilt_subsection {
        Some(s) => s,
        None => built[i]->Some_0,
    }
}

/// Every column has a subsection.
pub open spec fn all_built(
    columns: Seq<ColumnState>,
    built: Seq<Option<SubsectionBytes>>,
) -> bool {
    &&& built.len() == columns.len()
    &&& forall|i: int|
        0 <= i < columns.len() ==> (#[trigger] columns[i]).prebuilt_subsection is Some
            || built[i] is Some
}

/// The subsections in column order.
pub open spec fn subsections_of(
    columns: Seq<ColumnState>,
    built: Seq<Option<SubsectionBytes>>,
) -> Seq<SubsectionBytes> {
    Seq::new(columns.len(), |i: int| subsection_of(columns, built, i))
}

/// The largest document count of the first `n` columns.
pub open spec fn most_docs(columns: Seq<ColumnState>, n: nat) -> nat
    decreases n,
{
    if n == 0 {
        0
    } else {
        let rest = most_docs(columns, (n - 1) as nat);
        if columns[n - 1].n_docs > rest {
            columns[n - 1].n_docs as nat
        } else {
            rest
        }
    }
}

/// The first `n` subsections.
pub open spec fn joined(subs: Seq<SubsectionBytes>, n: nat) -> Seq<u8>
    decreases n,
{
    if n == 0 {
        Seq::empty()
    } else {
        joined(subs, (n - 1) as nat) + subs[n - 1].bytes@
    }
}

/// Where subsection `i` starts in the blob.
pub open spec fn start_of(subs: Seq<SubsectionBytes>, i: int) -> int {
    (36 + 64 * subs.len() + joined(subs, i as nat).len()) as int
}

/// The directory entry of a column.
pub open spec fn entry(config: VectorConfig, sub: SubsectionBytes, i: int, start: int) -> Seq<u8> {
    le_bytes((i as u32) as nat, 4) + le_bytes((config.dim as u32) as nat, 4) + le_bytes(
        (sub.n_cent as u32) as nat,
        4,
    ) + le_bytes(metric_id_of(config.metric) as nat, 4) + le_bytes(config.rot_seed as nat, 8)
        + le_bytes(start as nat, 8) + le_bytes(sub.bytes@.len(), 8) + le_bytes(
        (start + sub.summary_offset_in_sub) as nat,
        8,
    ) + le_bytes((4 * config.dim) as nat, 4) + seq![config.rerank_codec.id(), 0u8, 0u8, 0u8]
        + le_bytes((sub.codec_meta_offset_in_sub as u32) as nat, 4) + le_bytes(
        (sub.codec_meta_size as u32) as nat,
        4,
    )
}

/// The first `n` directory entries.
pub open spec fn directory(
    columns: Seq<ColumnState>,
    subs: Seq<SubsectionBytes>,
    n: nat,
) -> Seq<u8>
    decreases n,
{
    if n == 0 {
        Seq::empty()
    } else {
        directory(columns, subs, (n - 1) as nat) + entry(
            columns[n - 1].config,
            subs[n - 1],
            n - 1,
            start_of(subs, n - 1),
        )
    }
}

/// The outer header.
pub open spec fn outer_header(columns: Seq<ColumnState>) -> Seq<u8> {
    le_bytes(OUTER_MAGIC as nat, 8) + le_bytes(VERSION as nat, 4) + le_bytes(
        (columns.len() as u32) as nat,
        4,
    ) + le_bytes(most_docs(columns, columns.len()), 8) + le_bytes(32, 8)
}

/// The blob without its trailing checksum.
pub open spec fn blob_body(columns: Seq<ColumnState>, subs: Seq<SubsectionBytes>) -> Seq<u8> {
    let dir = directory(columns, subs, columns.len());
    outer_header(columns) + dir + le_bytes(crc32c_of(dir) as nat, 4) + joined(subs, subs.len())
}

/// The blob.
pub open spec fn blob(columns: Seq<ColumnState>, subs: Seq<SubsectionBytes>) -> Seq<u8> {
    blob_body(columns, subs) + le_bytes(crc32c_of(blob_body(columns, subs)) as nat, 4)
}

/// Sizes and offsets of the blob fit their fields.
pub open spec fn blob_fits(subs: Seq<SubsectionBytes>) -> bool {
    &&& start_of(subs, subs.len() as int) + 4 <= usize::MAX
    &&& forall|i: int|
        0 <= i < subs.len() ==> start_of(subs, i) + (#[trigger] subs[i]).summary_offset_in_sub
            <= u64::MAX
}

proof fn lemma_entry_len(config: VectorConfig, sub: SubsectionBytes, i: int, start: int)
    ensures
        entry(config, sub, i, start).len() == 64,
{
    lemma_le_bytes_len((i as u32) as nat, 4);
    lemma_le_bytes_len((config.dim as u32) as nat, 4);
    lemma_le_bytes_len((sub.n_cent as u32) as nat, 4);
    lemma_le_bytes_len(metric_id_of(config.metric) as nat, 4);
    lemma_le_bytes_len(config.rot_seed as nat, 8);
    lemma_le_bytes_len(start as nat, 8);
    lemma_le_bytes_len(sub.bytes@.len(), 8);
    lemma_le_bytes_len((start + sub.summary_offset_in_sub) as nat, 8);
    lemma_le_bytes_len((4 * config.dim) as nat, 4);
    lemma_le_bytes_len((sub.codec_meta_offset_in_sub as u32) as nat, 4);
    lemma_le_bytes_len((sub.codec_meta_size as u32) as nat, 4);
}

proof fn lemma_directory_len(columns: Seq<ColumnState>, subs: Seq<SubsectionBytes>, n: nat)
    ensures
        directory(columns, subs, n).len() == 64 * n,
    decreases n,
{
    if n > 0 {
        lemma_directory_len(columns, subs, (n - 1) as nat);
        lemma_entry_len(columns[n - 1].config, subs[n - 1], n - 1, start_of(subs, n - 1));
    }
}

proof fn lemma_joined_grows(subs: Seq<SubsectionBytes>, a: nat, b: nat)
    requires
        a <= b,
    ensures
        joined(subs, a).len() <= joined(subs, b).len(),
        joined(subs, b).subrange(0, joined(subs, a).len() as int) == joined(subs, a),
    decreases b - a,
{
    if a < b {
        lemma_joined_grows(subs, a, (b - 1) as nat);
        let less = joined(subs, (b - 1) as nat);
        let n = joined(subs, a).len() as int;
        assert(joined(subs, b).subrange(0, n) =~= less.subrange(0, n));
    } else {
        let s = joined(subs, b);
        assert(s.subrange(0, s.len() as int) =~= s);
    }
}

/// The first subsection starts behind the directory, where the blob can hold
/// it.
proof fn lemma_first_start(subs: Seq<SubsectionBytes>)
    requires
        blob_fits(subs),
    ensures
        start_of(subs, 0) == 36 + 64 * subs.len(),
        start_of(subs, 0) <= usize::MAX,
{
    lemma_joined_grows(subs, 0, subs.len());
}

/// Every subsection ends, and its summary starts, where the blob can hold it.
proof fn lemma_starts_fit(subs: Seq<SubsectionBytes>, i: int)
    requires
        blob_fits(subs),
        0 <= i < subs.len(),
    ensures
        start_of(subs, i + 1) == start_of(subs, i) + subs[i].bytes@.len(),
        start_of(subs, i + 1) <= usize::MAX,
        start_of(subs, i) + subs[i].summary_offset_in_sub <= u64::MAX,
{
    lemma_joined_grows(subs, (i + 1) as nat, subs.len());
    assert(start_of(subs, i) + subs[i].summary_offset_in_sub <= u64::MAX);
}

/// The bytes of a directory entry.
fn entry_bytes(config: &VectorConfig, sub: &SubsectionBytes, i: usize, start: usize) -> (r: Vec<u8>)
    requires
        config.dim <= 4096,
        start + sub.bytes@.len() <= usize::MAX,
        start + sub.summary_offset_in_sub <= u64::MAX,
    ensures
        r@ == entry(*config, *sub, i as int, start as int),
{
    let mut out: Vec<u8> = Vec::new();
    put_u32(&mut out, #[verifier::truncate] (i as u32));
    proof {
        lemma_from_empty(out@, le_bytes((i as u32) as nat, 4));
    }
    put_u32(&mut out, config.dim as u32);
    put_u32(&mut out, #[verifier::truncate] (sub.n_cent as u32));
    put_u32(&mut out, metric_id(config.metric));
    put_u64(&mut out, config.rot_seed);
    put_u64(&mut out, start as u64);
    put_u64(&mut out, sub.bytes.len() as u64);
    put_u64(&mut out, start as u64 + sub.summary_offset_in_sub as u64);
    put_u32(&mut out, (config.dim * 4) as u32);
    put_codec(&mut out, config.rerank_codec);
    put_u32(&mut out, #[verifier::truncate] (sub.codec_meta_offset_in_sub as u32));
    put_u32(&mut out, #[verifier::truncate] (sub.codec_meta_size as u32));
    out
}

/// Append the id of a codec, padded to four bytes.
fn put_codec(out: &mut Vec<u8>, codec: RerankCodec)
    ensures
        final(out)@ == old(out)@ + seq![codec.id(), 0u8, 0u8, 0u8],
{
    let ghost before = out@;
    put_u8(out, codec.codec_id());
    put_u8(out, 0);
    put_u8(out, 0);
    put_u8(out, 0);
    proof {
        assert(out@ =~= before + seq![codec.id(), 0u8, 0u8, 0u8]);
    }
}

impl VectorBuilder {
    fn docs(&self) -> (r: u64)
        ensures
            r == most_docs(self.columns@, self.columns@.len()),
    {
        let mut most: u64 = 0;
        let mut i: usize = 0;
        while i < self.columns.len()
            invariant
                i <= self.columns@.len(),
                most == most_docs(self.columns@, i as nat),
            decreases self.columns.len() - i,
        {
            if (self.columns[i].n_docs as u64) > most {
                most = self.columns[i].n_docs as u64;
            }
            i = i + 1;
        }
        most
    }

    fn outer_header_bytes(&self) -> (r: Vec<u8>)
        ensures
            r@ == outer_header(self.columns@),
    {
        let mut out: Vec<u8> = Vec::new();
        put_u64(&mut out, OUTER_MAGIC);
        proof {
            lemma_from_empty(out@, le_bytes(OUTER_MAGIC as nat, 8));
        }
        put_u32(&mut out, VERSION);
        put_u32(&mut out, #[verifier::truncate] (self.columns.len() as u32));
        put_u64(&mut out, self.docs());
        put_u64(&mut out, 32);
        out
    }

    fn subsection_at<'a>(&'a self, built: &'a Vec<Option<SubsectionBytes>>, i: usize) -> (r:
        &'a SubsectionBytes)
        requires
            all_built(self.columns@, built@),
            i < self.columns@.len(),
        ensures
            *r == subsections_of(self.columns@, built@)[i as int],
    {
        assert(self.columns@[i as int].prebuilt_subsection is Some || built@[i as int] is Some);
        match &self.columns[i].prebuilt_subsection {
            Some(s) => s,
            None => built[i].as_ref().unwrap(),
        }
    }

    #[verifier::spinoff_prover]
    fn directory_bytes(&self, built: &Vec<Option<SubsectionBytes>>) -> (r: Vec<u8>)
        requires
            self.wf(),
            all_built(self.columns@, built@),
            blob_fits(subsections_of(self.columns@, built@)),
        ensures
            r@ == directory(
                self.columns@,
                subsections_of(self.columns@, built@),
                self.columns@.len(),
            ),
    {
        let ghost subs = subsections_of(self.columns@, built@);
        proof {
            lemma_first_start(subs);
        }
        let mut out: Vec<u8> = Vec::new();
        let mut start: usize = 36 + 64 * self.columns.len();
        let mut i: usize = 0;
        while i < self.columns.len()
            invariant
                i <= self.columns@.len(),
                self.wf(),
                all_built(self.columns@, built@),
                subs == subsections_of(self.columns@, built@),
                blob_fits(subs),
                start == start_of(subs, i as int),
                out@ == directory(self.columns@, subs, i as nat),
            decreases self.columns.len() - i,
        {
            proof {
                lemma_starts_fit(subs, i as int);
                assert(self.columns@[i as int].wf());
            }
            let sub = self.subsection_at(built, i);
            let entry = entry_bytes(&self.columns[i].config, sub, i, start);
            put_slice(&mut out, entry.as_slice());
            start = start + sub.bytes.len();
            i = i + 1;
        }
        out
    }

    /// Append the blob to `out`: outer header, directory with its checksum,
    /// the subsections, and the checksum of it all, carried along piece by
    /// piece.
    #[verifier::spinoff_prover]
    pub fn finish_to(&self, built: &Vec<Option<SubsectionBytes>>, out: &mut Vec<u8>)
        requires
            self.wf(),
            all_built(self.columns@, built@),
            blob_fits(subsections_of(self.columns@, built@)),
        ensures
            final(out)@ == old(out)@ + blob(
                self.columns@,
                subsections_of(self.columns@, built@),
            ),
    {
        let ghost before = out@;
        let ghost subs = subsections_of(self.columns@, built@);
        let header = self.outer_header_bytes();
        let dir = self.directory_bytes(built);
        let mut tail: Vec<u8> = Vec::new();
        put_u32(&mut tail, crc32c(dir.as_slice()));
        proof {
            lemma_from_empty(tail@, le_bytes(crc32c_of(dir@) as nat, 4));
        }
        let mut acc: u32 = crc32c_append(0, header.as_slice());
        put_slice(out, header.as_slice());
        acc = crc32c_append(acc, dir.as_slice());
        put_slice(out, dir.as_slice());
        acc = crc32c_append(acc, tail.as_slice());
        put_slice(out, tail.as_slice());
        let ghost upto = header@ + dir@ + tail@;
        proof {
            law_crc_append(0, header@, dir@);
            law_crc_append(0, header@ + dir@, tail@);
            lemma_concat_assoc(before, header@, dir@);
            lemma_concat_assoc(before, header@ + dir@, tail@);
            assert(upto + joined(subs, 0) =~= upto);
        }
        let mut i: usize = 0;
        while i < self.columns.len()
            invariant
                i <= self.columns@.len(),
                all_built(self.columns@, built@),
                subs == subsections_of(self.columns@, built@),
                out@ == before + (upto + joined(subs, i as nat)),
                acc == crc32c_of(upto + joined(subs, i as nat)),
            decreases self.columns.len() - i,
        {
            let sub = self.subsection_at(built, i);
            put_slice(out, sub.bytes.as_slice());
            acc = crc32c_append(acc, sub.bytes.as_slice());
            proof {
                let so_far = upto + joined(subs, i as nat);
                law_crc_append(0, so_far, subs[i as int].bytes@);
                lemma_concat_assoc(before, so_far, subs[i as int].bytes@);
                lemma_concat_assoc(upto, joined(subs, i as nat), subs[i as int].bytes@);
            }
            i = i + 1;
        }
        put_u32(out, acc);
        proof {
            lemma_concat_assoc(
                before,
                blob_body(self.columns@, subs),
                le_bytes(crc32c_of(blob_body(self.columns@, subs)) as nat, 4),
            );
        }
    }

    /// The blob.
    pub fn finish(&self, built: &Vec<Option<SubsectionBytes>>) -> (r: Vec<u8>)
        requires
            self.wf(),
            all_built(self.columns@, built@),
            blob_fits(subsections_of(self.columns@, built@)),
        ensures
            r@ == blob(self.columns@, subsections_of(self.columns@, built@)),
    {
        let mut out: Vec<u8> = Vec::new();
        self.finish_to(built, &mut out);
        proof {
            assert(out@ =~= blob(self.columns@, subsections_of(self.columns@, built@)));
        }
        out
    }
}

// ---------------- what a reader finds ----------------

proof fn lemma_entry_at(columns: Seq<ColumnState>, subs: Seq<SubsectionBytes>, n: nat, i: int)
    requires
        0 <= i < n,
    ensures
        directory(columns, subs, n).len() == 64 * n,
        directory(columns, subs, n).subrange(64 * i, 64 * i + 64) == entry(
            columns[i].config,
            subs[i],
            i,
            start_of(subs, i),
        ),
    decreases n,
{
    lemma_directory_len(columns, subs, n);
    lemma_directory_len(columns, subs, (n - 1) as nat);
    let all = directory(columns, subs, n);
    let less = directory(columns, subs, (n - 1) as nat);
    if i == n - 1 {
        lemma_entry_len(columns[i].config, subs[i], i, start_of(subs, i));
        assert(all.subrange(64 * i, 64 * i + 64) =~= entry(
            columns[i].config,
            subs[i],
            i,
            start_of(subs, i),
        ));
    } else {
        lemma_entry_at(columns, subs, (n - 1) as nat, i);
        assert(all.subrange(64 * i, 64 * i + 64) =~= less.subrange(64 * i, 64 * i + 64));
    }
}

proof fn lemma_entry_fields(config: VectorConfig, sub: SubsectionBytes, i: int, start: int)
    requires
        0 <= start,
        start + sub.bytes@.len() <= u64::MAX,
        start + sub.summary_offset_in_sub <= u64::MAX,
        config.dim <= 4096,
    ensures
        field(entry(config, sub, i, start), 4, 4) == config.dim,
        field(entry(config, sub, i, start), 8, 4) == sub.n_cent as u32,
        field(entry(config, sub, i, start), 24, 8) == start,
        field(entry(config, sub, i, start), 32, 8) == sub.bytes@.len(),
        field(entry(config, sub, i, start), 40, 8) == start + sub.summary_offset_in_sub,
{
    lemma_entry_len(config, sub, i, start);
    lemma_pow256_values();
    let e = entry(config, sub, i, start);
    lemma_le_bytes_len((i as u32) as nat, 4);
    lemma_le_bytes_len((config.dim as u32) as nat, 4);
    lemma_le_bytes_len((sub.n_cent as u32) as nat, 4);
    lemma_le_bytes_len(metric_id_of(config.metric) as nat, 4);
    lemma_le_bytes_len(config.rot_seed as nat, 8);
    lemma_le_bytes_len(start as nat, 8);
    lemma_le_bytes_len(sub.bytes@.len(), 8);
    assert(e.subrange(4, 8) =~= le_bytes((config.dim as u32) as nat, 4));
    lemma_field_of_bytes(e, 4, (config.dim as u32) as nat, 4);
    assert(e.subrange(8, 12) =~= le_bytes((sub.n_cent as u32) as nat, 4));
    lemma_field_of_bytes(e, 8, (sub.n_cent as u32) as nat, 4);
    assert(e.subrange(24, 32) =~= le_bytes(start as nat, 8));
    lemma_field_of_bytes(e, 24, start as nat, 8);
    assert(e.subrange(32, 40) =~= le_bytes(sub.bytes@.len(), 8));
    lemma_field_of_bytes(e, 32, sub.bytes@.len(), 8);
    let summary = (start + sub.summary_offset_in_sub) as nat;
    lemma_le_bytes_len(summary, 8);
    assert(e.subrange(40, 48) =~= le_bytes(summary, 8));
    lemma_field_of_bytes(e, 40, summary, 8);
}

proof fn lemma_header_len(columns: Seq<ColumnState>)
    ensures
        outer_header(columns).len() == 32,
{
    lemma_le_bytes_len(OUTER_MAGIC as nat, 8);
    lemma_le_bytes_len(VERSION as nat, 4);
    lemma_le_bytes_len((columns.len() as u32) as nat, 4);
    lemma_le_bytes_len(most_docs(columns, columns.len()), 8);
    lemma_le_bytes_len(32, 8);
}

proof fn lemma_field_within(b: Seq<u8>, from: int, e: Seq<u8>, off: int, w: int)
    requires
        0 <= from,
        0 <= off,
        0 <= w,
        off + w <= e.len(),
        from + e.len() <= b.len(),
        b.subrange(from, from + e.len()) == e,
    ensures
        field(b, from + off, w) == field(e, off, w),
{
    assert(b.subrange(from + off, from + off + w) =~= b.subrange(
        from,
        from + e.len(),
    ).subrange(off, off + w));
}

/// Entry `i` of the directory stands in the blob.
proof fn lemma_entry_stands(columns: Seq<ColumnState>, subs: Seq<SubsectionBytes>, i: int)
    requires
        subs.len() == columns.len(),
        0 <= i < subs.len(),
    ensures
        blob(columns, subs).len() >= 32 + 64 * i + 64,
        blob(columns, subs).subrange(32 + 64 * i, 32 + 64 * i + 64) == entry(
            columns[i].config,
            subs[i],
            i,
            start_of(subs, i),
        ),
{
    let b = blob(columns, subs);
    let dir = directory(columns, subs, columns.len());
    let at = 32 + 64 * i;
    lemma_header_len(columns);
    lemma_entry_at(columns, subs, columns.len(), i);
    assert(b.subrange(at, at + 64) =~= dir.subrange(64 * i, 64 * i + 64));
}

/// The bytes of subsection `i` stand in the blob at their start.
proof fn lemma_subsection_stands(columns: Seq<ColumnState>, subs: Seq<SubsectionBytes>, i: int)
    requires
        subs.len() == columns.len(),
        0 <= i < subs.len(),
    ensures
        start_of(subs, i) + subs[i].bytes@.len() <= blob(columns, subs).len() - 4,
        start_of(subs, i) + subs[i].bytes@.len() <= start_of(subs, subs.len() as int),
        blob(columns, subs).subrange(start_of(subs, i), start_of(subs, i) + subs[i].bytes@.len())
            == subs[i].bytes@,
{
    let b = blob(columns, subs);
    let dir = directory(columns, subs, columns.len());
    let start = start_of(subs, i);
    lemma_header_len(columns);
    lemma_directory_len(columns, subs, columns.len());
    lemma_le_bytes_len(crc32c_of(dir) as nat, 4);
    lemma_le_bytes_len(crc32c_of(blob_body(columns, subs)) as nat, 4);
    lemma_joined_grows(subs, (i + 1) as nat, subs.len());
    lemma_joined_grows(subs, i as nat, subs.len());
    let all = joined(subs, subs.len());
    let upto = joined(subs, (i + 1) as nat);
    let n = joined(subs, i as nat).len() as int;
    let len = subs[i].bytes@.len() as int;
    assert(upto.subrange(n, n + len) =~= subs[i].bytes@);
    assert(all.subrange(n, n + len) =~= all.subrange(0, upto.len() as int).subrange(n, n + len));
    assert(b.subrange(start, start + len) =~= all.subrange(n, n + len));
}

/// The directory leads a reader to each subsection: entry `i` states the
/// column's dimension, the physical centroid count, the start and length of
/// the subsection's bytes, which stand there, and where their summary starts.
pub proof fn law_directory_leads_to_subsections(
    columns: Seq<ColumnState>,
    subs: Seq<SubsectionBytes>,
    i: int,
)
    requires
        subs.len() == columns.len(),
        blob_fits(subs),
        0 <= i < subs.len(),
        columns[i].wf(),
    ensures
        ({
            let b = blob(columns, subs);
            let at = 32 + 64 * i;
            let start = start_of(subs, i);
            &&& field(b, at + 4, 4) == columns[i].config.dim
            &&& field(b, at + 8, 4) == subs[i].n_cent as u32
            &&& field(b, at + 24, 8) == start
            &&& field(b, at + 32, 8) == subs[i].bytes@.len()
            &&& field(b, at + 40, 8) == start + subs[i].summary_offset_in_sub
            &&& start + subs[i].bytes@.len() <= b.len() - 4
            &&& b.subrange(start, start + subs[i].bytes@.len()) == subs[i].bytes@
        }),
{
    let b = blob(columns, subs);
    let start = start_of(subs, i);
    let e = entry(columns[i].config, subs[i], i, start);
    let at = 32 + 64 * i;
    lemma_entry_stands(columns, subs, i);
    lemma_subsection_stands(columns, subs, i);
    lemma_entry_len(columns[i].config, subs[i], i, start);
    assert(start + subs[i].summary_offset_in_sub <= u64::MAX);
    lemma_entry_fields(columns[i].config, subs[i], i, start);
    lemma_field_within(b, at, e, 4, 4);
    lemma_field_within(b, at, e, 8, 4);
    lemma_field_within(b, at, e, 24, 8);
    lemma_field_within(b, at, e, 32, 8);
    lemma_field_within(b, at, e, 40, 8);
}

/// The two parts of a concatenation.
proof fn lemma_halves(a: Seq<u8>, b: Seq<u8>)
    ensures
        (a + b).subrange(0, a.len() as int) == a,
        (a + b).subrange(a.len() as int, (a + b).len() as int) == b,
{
    assert((a + b).subrange(0, a.len() as int) =~= a);
    assert((a + b).subrange(a.len() as int, (a + b).len() as int) =~= b);
}

/// The middle of three parts.
proof fn lemma_between(a: Seq<u8>, x: Seq<u8>, b: Seq<u8>)
    ensures
        (a + x + b).subrange(a.len() as int, (a.len() + x.len()) as int) == x,
{
    assert((a + x + b).subrange(a.len() as int, (a.len() + x.len()) as int) =~= x);
}

/// A range inside the front reads there as in the whole.
proof fn lemma_within_front(a: Seq<u8>, b: Seq<u8>, from: int, to: int)
    requires
        0 <= from <= to <= a.len(),
    ensures
        (a + b).subrange(from, to) == a.subrange(from, to),
{
    assert((a + b).subrange(from, to) =~= a.subrange(from, to));
}

/// The last four bytes are the checksum of all bytes before them, and the four
/// bytes behind the directory are the directory's.
pub proof fn law_checksums_recompute(columns: Seq<ColumnState>, subs: Seq<SubsectionBytes>)
    requires
        subs.len() == columns.len(),
    ensures
        ({
            let b = blob(columns, subs);
            let dir_end = 32 + 64 * columns.len();
            &&& b.len() >= dir_end + 8
            &&& field(b, b.len() - 4, 4) == crc32c_of(b.subrange(0, b.len() - 4))
            &&& field(b, dir_end as int, 4) == crc32c_of(b.subrange(32, dir_end as int))
        }),
{
    let b = blob(columns, subs);
    let body = blob_body(columns, subs);
    let crc = le_bytes(crc32c_of(body) as nat, 4);
    let head = outer_header(columns);
    let dir = directory(columns, subs, columns.len());
    let dir_crc = le_bytes(crc32c_of(dir) as nat, 4);
    let rest = joined(subs, subs.len());
    let dir_end = (32 + 64 * columns.len()) as int;
    lemma_header_len(columns);
    lemma_directory_len(columns, subs, columns.len());
    lemma_le_bytes_len(crc32c_of(dir) as nat, 4);
    lemma_le_bytes_len(crc32c_of(body) as nat, 4);
    lemma_pow256_values();
    lemma_halves(body, crc);
    lemma_field_of_bytes(b, b.len() - 4, crc32c_of(body) as nat, 4);
    lemma_between(head + dir, dir_crc, rest);
    lemma_within_front(body, crc, dir_end, dir_end + 4);
    lemma_field_of_bytes(b, dir_end, crc32c_of(dir) as nat, 4);
    lemma_concat_assoc(head + dir, dir_crc, rest);
    lemma_between(head, dir, dir_crc + rest);
    lemma_within_front(body, crc, 32, dir_end);
}

/// A column's input goes to the file exactly once it no longer fits in memory:
/// with the vector that takes it over the threshold, and for good.
pub proof fn law_spills_once_it_no_longer_fits(threshold: int, vecs: Seq<Seq<u32>>)
    requires
        threshold >= 0,
    ensures
        intake(threshold, vecs).spilled <==> 4 * input_of(vecs).len() > threshold,
        !intake(threshold, vecs).spilled ==> intake(threshold, vecs).memory == input_of(vecs),
        intake(threshold, vecs).spilled ==> intake(threshold, vecs).file == input_of(vecs),
    decreases vecs.len(),
{
    if vecs.len() > 0 {
        law_spills_once_it_no_longer_fits(threshold, vecs.drop_last());
        law_intake_is_lossless(threshold, vecs.drop_last());
        let before = intake(threshold, vecs.drop_last());
        let after = intake(threshold, vecs);
        assert(after.file + after.memory =~= (before.file + before.memory) + vecs.last());
        if before.spilled {
            assert(before.file + before.memory =~= before.file);
        } else {
            assert(before.file + before.memory =~= before.memory);
            assert(before.file + (before.memory + vecs.last()) =~= before.memory + vecs.last());
        }
    }
}

/// The document count of the header is the largest of the columns'.
pub proof fn law_header_counts_the_most_docs(columns: Seq<ColumnState>)
    ensures
        forall|i: int|
            0 <= i < columns.len() ==> (#[trigger] columns[i]).n_docs <= most_docs(
                columns,
                columns.len(),
            ),
        columns.len() == 0 ==> most_docs(columns, columns.len()) == 0,
        columns.len() > 0 ==> exists|i: int|
            0 <= i < columns.len() && (#[trigger] columns[i]).n_docs == most_docs(
                columns,
                columns.len(),
            ),
{
    lemma_most_docs(columns, columns.len());
}

proof fn lemma_most_docs(columns: Seq<ColumnState>, n: nat)
    requires
        n <= columns.len(),
    ensures
        forall|i: int|
            0 <= i < n ==> (#[trigger] columns[i]).n_docs <= most_docs(columns, n),
        n > 0 ==> exists|i: int|
            0 <= i < n && (#[trigger] columns[i]).n_docs == most_docs(columns, n),
    decreases n,
{
    if n > 0 {
        lemma_most_docs(columns, (n - 1) as nat);
        if n == 1 || columns[n - 1].n_docs > most_docs(columns, (n - 1) as nat) {
            assert(columns[n - 1].n_docs == most_docs(columns, n));
        }
    }
}

/// The blob begins with its magic, its version, the column count, the largest
/// document count and the offset of the directory.
pub proof fn law_blob_header(columns: Seq<ColumnState>, subs: Seq<SubsectionBytes>)
    requires
        columns.len() <= u32::MAX,
    ensures
        ({
            let b = blob(columns, subs);
            &&& field(b, 0, 8) == 0x3153_4345_5646_4E49
            &&& field(b, 8, 4) == 1
            &&& field(b, 12, 4) == columns.len()
            &&& field(b, 16, 8) == most_docs(columns, columns.len())
            &&& field(b, 24, 8) == 32
        }),
{
    let b = blob(columns, subs);
    let h = outer_header(columns);
    let docs = most_docs(columns, columns.len());
    lemma_most_docs(columns, columns.len());
    assert(docs <= u64::MAX) by {
        if columns.len() > 0 {
            let i = choose|i: int|
                0 <= i < columns.len() && (#[trigger] columns[i]).n_docs == docs;
            assert(columns[i].n_docs == docs);
        }
    }
    lemma_header_len(columns);
    lemma_pow256_values();
    lemma_le_bytes_len(0x3153_4345_5646_4E49, 8);
    lemma_le_bytes_len(1, 4);
    lemma_le_bytes_len((columns.len() as u32) as nat, 4);
    lemma_le_bytes_len(docs, 8);
    lemma_le_bytes_len(32, 8);
    assert(h.subrange(0, 8) =~= le_bytes(0x3153_4345_5646_4E49, 8));
    assert(h.subrange(8, 12) =~= le_bytes(1, 4));
    assert(h.subrange(12, 16) =~= le_bytes((columns.len() as u32) as nat, 4));
    assert(h.subrange(16, 24) =~= le_bytes(docs, 8));
    assert(h.subrange(24, 32) =~= le_bytes(32, 8));
    lemma_field_of_bytes(h, 0, 0x3153_4345_5646_4E49, 8);
    lemma_field_of_bytes(h, 8, 1, 4);
    lemma_field_of_bytes(h, 12, (columns.len() as u32) as nat, 4);
    lemma_field_of_bytes(h, 16, docs, 8);
    lemma_field_of_bytes(h, 24, 32, 8);
    assert(b.subrange(0, 32) =~= h);
    lemma_field_within(b, 0, h, 0, 8);
    lemma_field_within(b, 0, h, 8, 4);
    lemma_field_within(b, 0, h, 12, 4);
    lemma_field_within(b, 0, h, 16, 8);
    lemma_field_within(b, 0, h, 24, 8);
}

/// A directory entry also repeats what a reader needs before it fetches the
/// subsection: the column's id, metric and seed, the length of its summary,
/// its codec, and where the codec meta stands and how long it is.
pub proof fn law_directory_entry_describes_its_column(
    columns: Seq<ColumnState>,
    subs: Seq<SubsectionBytes>,
    i: int,
)
    requires
        subs.len() == columns.len() <= u32::MAX,
        0 <= i < subs.len(),
        columns[i].wf(),
    ensures
        ({
            let b = blob(columns, subs);
            let at = 32 + 64 * i;
            let config = columns[i].config;
            &&& field(b, at, 4) == i
            &&& field(b, at + 12, 4) == (match config.metric {
                Metric::L2Sq => 0int,
                Metric::Cosine => 1,
                Metric::NegDot => 2,
            })
            &&& field(b, at + 16, 8) == config.rot_seed
            &&& field(b, at + 48, 4) == 4 * config.dim
            &&& b[at + 52] == (match config.rerank_codec {
                RerankCodec::Fp32 => 0u8,
                RerankCodec::Sq8Residual => 1,
                RerankCodec::RabitqOnly => 2,
            })
            &&& field(b, at + 56, 4) == subs[i].codec_meta_offset_in_sub as u32
            &&& field(b, at + 60, 4) == subs[i].codec_meta_size as u32
        }),
{
    let b = blob(columns, subs);
    let at = 32 + 64 * i;
    let start = start_of(subs, i);
    let config = columns[i].config;
    let e = entry(config, subs[i], i, start);
    lemma_entry_stands(columns, subs, i);
    lemma_entry_len(config, subs[i], i, start);
    lemma_entry_rest(config, subs[i], i, start);
    lemma_field_within(b, at, e, 0, 4);
    lemma_field_within(b, at, e, 12, 4);
    lemma_field_within(b, at, e, 16, 8);
    lemma_field_within(b, at, e, 48, 4);
    lemma_field_within(b, at, e, 56, 4);
    lemma_field_within(b, at, e, 60, 4);
    assert(b.subrange(at, at + 64)[52] == e[52]);
}

proof fn lemma_entry_rest(config: VectorConfig, sub: SubsectionBytes, i: int, start: int)
    requires
        0 <= i <= u32::MAX,
        config.dim <= 4096,
    ensures
        ({
            let e = entry(config, sub, i, start);
            &&& field(e, 0, 4) == i
            &&& field(e, 12, 4) == metric_id_of(config.metric)
            &&& field(e, 16, 8) == config.rot_seed
            &&& field(e, 48, 4) == 4 * config.dim
            &&& e[52] == config.rerank_codec.id()
            &&& field(e, 56, 4) == sub.codec_meta_offset_in_sub as u32
            &&& field(e, 60, 4) == sub.codec_meta_size as u32
        }),
{
    lemma_entry_len(config, sub, i, start);
    lemma_pow256_values();
    let e = entry(config, sub, i, start);
    let id = (i as u32) as nat;
    let metric = metric_id_of(config.metric) as nat;
    let off = (sub.codec_meta_offset_in_sub as u32) as nat;
    let size = (sub.codec_meta_size as u32) as nat;
    lemma_le_bytes_len(id, 4);
    lemma_le_bytes_len((config.dim as u32) as nat, 4);
    lemma_le_bytes_len((sub.n_cent as u32) as nat, 4);
    lemma_le_bytes_len(metric, 4);
    lemma_le_bytes_len(config.rot_seed as nat, 8);
    lemma_le_bytes_len(start as nat, 8);
    lemma_le_bytes_len(sub.bytes@.len(), 8);
    lemma_le_bytes_len((start + sub.summary_offset_in_sub) as nat, 8);
    lemma_le_bytes_len((4 * config.dim) as nat, 4);
    lemma_le_bytes_len(off, 4);
    lemma_le_bytes_len(size, 4);
    assert(e.subrange(0, 4) =~= le_bytes(id, 4));
    assert(e.subrange(12, 16) =~= le_bytes(metric, 4));
    assert(e.subrange(16, 24) =~= le_bytes(config.rot_seed as nat, 8));
    assert(e.subrange(48, 52) =~= le_bytes((4 * config.dim) as nat, 4));
    assert(e.subrange(56, 60) =~= le_bytes(off, 4));
    assert(e.subrange(60, 64) =~= le_bytes(size, 4));
    lemma_field_of_bytes(e, 0, id, 4);
    lemma_field_of_bytes(e, 12, metric, 4);
    lemma_field_of_bytes(e, 16, config.rot_seed as nat, 8);
    lemma_field_of_bytes(e, 48, (4 * config.dim) as nat, 4);
    lemma_field_of_bytes(e, 56, off, 4);
    lemma_field_of_bytes(e, 60, size, 4);
}

/// Subsections follow each other without a gap, the first behind the
/// directory's checksum, and the blob's own checksum behind the last.
pub proof fn law_subsections_are_contiguous(
    columns: Seq<ColumnState>,
    subs: Seq<SubsectionBytes>,
    i: int,
)
    requires
        subs.len() == columns.len(),
        0 <= i < subs.len(),
    ensures
        start_of(subs, 0) == 32 + 64 * subs.len() + 4,
        start_of(subs, i + 1) == start_of(subs, i) + subs[i].bytes@.len(),
        blob(columns, subs).len() == start_of(subs, subs.len() as int) + 4,
{
    let dir = directory(columns, subs, columns.len());
    lemma_header_len(columns);
    lemma_directory_len(columns, subs, columns.len());
    lemma_le_bytes_len(crc32c_of(dir) as nat, 4);
    lemma_le_bytes_len(crc32c_of(blob_body(columns, subs)) as nat, 4);
}

/// A name is reserved exactly where it begins with the bytes of `inf.`,
/// whatever follows them.
pub proof fn law_reserved_names(name: Seq<char>, rest: Seq<u8>)
    ensures
        encode_utf8(name) == seq![0x69u8, 0x6e, 0x66, 0x2e] + rest ==> is_reserved(name),
        is_reserved(name) ==> encode_utf8(name) == seq![0x69u8, 0x6e, 0x66, 0x2e]
            + encode_utf8(name).subrange(4, encode_utf8(name).len() as int),
{
    let b = encode_utf8(name);
    let p = seq![0x69u8, 0x6e, 0x66, 0x2e];
    if b == p + rest {
        assert(p[0] == 0x69 && p[1] == 0x6e && p[2] == 0x66 && p[3] == 0x2e);
        assert(b[0] == p[0] && b[1] == p[1] && b[2] == p[2] && b[3] == p[3]);
    }
    if is_reserved(name) {
        assert(b =~= p + b.subrange(4, b.len() as int));
    }
}

} // verus!
