//! Quantized node planes: 16-bit codes, packed 4-bit codes and the 8-bit walk
//! plane.
use vstd::prelude::*;

use crate::config::VectorHnswPlane;
use crate::float_bits::{at_most32, f32_finite, f32_le, f32_lt, is_finite32};
use crate::plane::Plane;
use crate::rounding::{
    f32_of_negated, law_patterns_grow_with_the_number, law_small_numbers_are_exact, negated_to_f32,
};
use crate::scorer::NodeScorer;

verus! {

/// Distance a column ranks by.
#[derive(Clone, Copy, Debug, PartialEq, Eq, Structural)]
pub enum Metric {
    Cosine,
    L2Sq,
    NegDot,
}

/// Which plane the graph walk scores candidates on. Every one of them re-ranks
/// its final beam on the 16-bit plane.
#[derive(Clone, Copy, Debug, PartialEq, Eq, Structural)]
pub enum WalkCodec {
    /// No extra plane: the walk scores the 16-bit codes.
    Sq16,
    /// The high byte of each 16-bit code.
    Sq8,
    /// Fitted 4-bit codes in rotated space.
    Sq4,
    /// 4-bit codes and a second plane with the residual below one step.
    Sq4Residual,
}

pub open spec fn walk_tag(w: WalkCodec) -> u8 {
    match w {
        WalkCodec::Sq16 => 0,
        WalkCodec::Sq8 => 1,
        WalkCodec::Sq4 => 2,
        WalkCodec::Sq4Residual => 3,
    }
}

pub open spec fn walk_of_tag(tag: u8) -> Option<WalkCodec> {
    if tag == 0 {
        Some(WalkCodec::Sq16)
    } else if tag == 1 {
        Some(WalkCodec::Sq8)
    } else if tag == 2 {
        Some(WalkCodec::Sq4)
    } else if tag == 3 {
        Some(WalkCodec::Sq4Residual)
    } else {
        None
    }
}

/// Reading a codec's tag gives the codec, and every known tag is the tag of
/// the codec it reads as.
pub proof fn law_walk_tags(w: WalkCodec, tag: u8)
    ensures
        walk_of_tag(walk_tag(w)) == Some(w),
        walk_of_tag(tag) matches Some(c) ==> walk_tag(c) == tag,
        walk_of_tag(tag) is None <==> tag > 3,
{
}

impl WalkCodec {
    /// The codec that a configured plane asks for.
    pub fn from_config(plane: VectorHnswPlane) -> (r: Self)
        ensures
            r == (match plane {
                VectorHnswPlane::Sq16 => WalkCodec::Sq16,
                VectorHnswPlane::Sq8 => WalkCodec::Sq8,
                VectorHnswPlane::Sq4 => WalkCodec::Sq4,
                VectorHnswPlane::Sq4Residual => WalkCodec::Sq4Residual,
            }),
    {
        match plane {
            VectorHnswPlane::Sq16 => WalkCodec::Sq16,
            VectorHnswPlane::Sq8 => WalkCodec::Sq8,
            VectorHnswPlane::Sq4 => WalkCodec::Sq4,
            VectorHnswPlane::Sq4Residual => WalkCodec::Sq4Residual,
        }
    }

    pub open spec fn sq4(self) -> bool {
        self == WalkCodec::Sq4 || self == WalkCodec::Sq4Residual
    }

    /// Tag stored in a bundle header.
    pub fn tag(self) -> (r: u8)
        ensures
            r == walk_tag(self),
    {
        match self {
            WalkCodec::Sq16 => 0,
            WalkCodec::Sq8 => 1,
            WalkCodec::Sq4 => 2,
            WalkCodec::Sq4Residual => 3,
        }
    }

    /// The codec of a tag; `None` for one that is not known.
    pub fn from_tag(tag: u8) -> (r: Option<WalkCodec>)
        ensures
            r == walk_of_tag(tag),
    {
        if tag == 0 {
            Some(WalkCodec::Sq16)
        } else if tag == 1 {
            Some(WalkCodec::Sq8)
        } else if tag == 2 {
            Some(WalkCodec::Sq4)
        } else if tag == 3 {
            Some(WalkCodec::Sq4Residual)
        } else {
            None
        }
    }

    /// Whether the codec stores a 4-bit section.
    pub fn is_sq4(self) -> (r: bool)
        ensures
            r == self.sq4(),
    {
        match self {
            WalkCodec::Sq4 => true,
            WalkCodec::Sq4Residual => true,
            _ => false,
        }
    }

    /// Whether the 4-bit form carries the residual plane.
    pub fn with_residual(self) -> (r: bool)
        ensures
            r == (self == WalkCodec::Sq4Residual),
    {
        match self {
            WalkCodec::Sq4Residual => true,
            _ => false,
        }
    }
}

pub open spec fn metric_tag_of(m: Metric) -> u8 {
    match m {
        Metric::Cosine => 0,
        Metric::L2Sq => 1,
        Metric::NegDot => 2,
    }
}

pub open spec fn metric_of_tag(tag: u8) -> Option<Metric> {
    if tag == 0 {
        Some(Metric::Cosine)
    } else if tag == 1 {
        Some(Metric::L2Sq)
    } else if tag == 2 {
        Some(Metric::NegDot)
    } else {
        None
    }
}

/// Reading a metric's tag gives the metric; other tags are unknown.
pub proof fn law_metric_tags(m: Metric, tag: u8)
    ensures
        metric_of_tag(metric_tag_of(m)) == Some(m),
        metric_of_tag(tag) matches Some(c) ==> metric_tag_of(c) == tag,
        metric_of_tag(tag) is None <==> tag > 2,
{
}

/// Tag of a metric in a bundle trailer.
pub fn metric_tag(m: Metric) -> (r: u8)
    ensures
        r == metric_tag_of(m),
{
    match m {
        Metric::Cosine => 0,
        Metric::L2Sq => 1,
        Metric::NegDot => 2,
    }
}

/// The metric of a tag; `None` for one that is not known.
pub fn metric_from_tag(tag: u8) -> (r: Option<Metric>)
    ensures
        r == metric_of_tag(tag),
{
    if tag == 0 {
        Some(Metric::Cosine)
    } else if tag == 1 {
        Some(Metric::L2Sq)
    } else if tag == 2 {
        Some(Metric::NegDot)
    } else {
        None
    }
}

// ---------------- 16-bit plane ----------------

/// A fitted ruler: `x[d] = code[d] * scale[d] + offset[d]`, with the squared
/// norm of every node where the metric needs it. All numbers are binary32
/// patterns.
pub struct AdaptiveRuler {
    pub scale: Vec<u32>,
    pub offset: Vec<u32>,
    pub norms: Vec<u32>,
}

/// What a 16-bit plane is.
#[verifier::ext_equal]
pub struct Sq16Model {
    pub codes: Seq<u8>,
    pub dim: nat,
    pub len: nat,
    pub metric: Metric,
    pub ruler: Option<(Seq<u32>, Seq<u32>, Seq<u32>)>,
}

impl Sq16Model {
    /// Two bytes per coordinate; a fitted ruler has one entry per coordinate,
    /// serves a metric other than cosine, and has norms exactly for `L2Sq`.
    pub open spec fn wf(self) -> bool {
        &&& self.codes.len() == 2 * (self.len * self.dim)
        &&& self.ruler is None ==> self.metric == Metric::NegDot
        &&& match self.ruler {
            Some((scale, offset, norms)) => {
                &&& self.metric != Metric::Cosine
                &&& scale.len() == self.dim
                &&& offset.len() == self.dim
                &&& norms.len() == (if self.metric == Metric::L2Sq {
                    self.len
                } else {
                    0
                })
            },
            None => true,
        }
    }
}

/// A node-ordered plane of 16-bit codes, on the fixed cosine grid or on a
/// fitted ruler.
pub struct Sq16Scorer {
    codes: Plane,
    dim: usize,
    len: usize,
    metric: Metric,
    adaptive: Option<AdaptiveRuler>,
}

impl View for Sq16Scorer {
    type V = Sq16Model;

    closed spec fn view(&self) -> Sq16Model {
        Sq16Model {
            codes: self.codes@,
            dim: self.dim as nat,
            len: self.len as nat,
            metric: self.metric,
            ruler: match self.adaptive {
                Some(a) => Some((a.scale@, a.offset@, a.norms@)),
                None => None,
            },
        }
    }
}

impl Sq16Scorer {
    /// The codes are a view into a shared buffer.
    pub closed spec fn shared(&self) -> bool {
        self.codes.shared()
    }

    /// The fixed cosine grid over a plane of codes.
    pub fn from_plane(codes: Plane, dim: usize, len: usize) -> (r: Self)
        requires
            codes@.len() == 2 * (len * dim),
        ensures
            r@ == (Sq16Model {
                codes: codes@,
                dim: dim as nat,
                len: len as nat,
                metric: Metric::NegDot,
                ruler: None,
            }),
            r@.wf(),
            r.shared() == codes.shared(),
    {
        Sq16Scorer { codes, dim, len, metric: Metric::NegDot, adaptive: None }
    }

    /// The fixed cosine grid over an owned buffer of codes.
    pub fn from_codes(codes: Vec<u8>, dim: usize, len: usize) -> (r: Self)
        requires
            codes@.len() == 2 * (len * dim),
        ensures
            r@ == (Sq16Model {
                codes: codes@,
                dim: dim as nat,
                len: len as nat,
                metric: Metric::NegDot,
                ruler: None,
            }),
            r@.wf(),
            !r.shared(),
    {
        Self::from_plane(Plane::Owned(codes), dim, len)
    }

    /// A plane on a fitted ruler, ranked by `metric`.
    pub fn from_adaptive_plane(
        codes: Plane,
        dim: usize,
        len: usize,
        metric: Metric,
        scale: Vec<u32>,
        offset: Vec<u32>,
        norms: Vec<u32>,
    ) -> (r: Self)
        requires
            codes@.len() == 2 * (len * dim),
            scale@.len() == dim,
            offset@.len() == dim,
            metric != Metric::Cosine,
            norms@.len() == (if metric == Metric::L2Sq {
                len as nat
            } else {
                0
            }),
        ensures
            r@ == (Sq16Model {
                codes: codes@,
                dim: dim as nat,
                len: len as nat,
                metric,
                ruler: Some((scale@, offset@, norms@)),
            }),
            r@.wf(),
            r.shared() == codes.shared(),
    {
        Sq16Scorer {
            codes,
            dim,
            len,
            metric,
            adaptive: Some(AdaptiveRuler { scale, offset, norms }),
        }
    }

    /// The node-ordered codes.
    pub fn codes(&self) -> (r: &[u8])
        ensures
            r@ == self@.codes,
    {
        self.codes.bytes()
    }

    /// The distance the plane is ranked by.
    pub fn metric(&self) -> (r: Metric)
        ensures
            r == self@.metric,
    {
        self.metric
    }

    /// The column metric the plane serves: the fixed grid serves cosine, a
    /// fitted ruler its own metric.
    pub fn served_metric(&self) -> (r: Metric)
        ensures
            r == (if self@.ruler is None {
                Metric::Cosine
            } else {
                self@.metric
            }),
    {
        match &self.adaptive {
            None => Metric::Cosine,
            Some(_) => self.metric,
        }
    }

    /// The fitted ruler, `None` for the fixed grid.
    pub fn ruler(&self) -> (r: Option<(&Vec<u32>, &Vec<u32>)>)
        ensures
            match r {
                Some((scale, offset)) => self@.ruler matches Some(t) && t.0 == scale@ && t.1
                    == offset@,
                None => self@.ruler is None,
            },
    {
        match &self.adaptive {
            Some(a) => Some((&a.scale, &a.offset)),
            None => None,
        }
    }

    /// Squared norms of the nodes, `None` for the fixed grid.
    pub fn node_norms(&self) -> (r: Option<&Vec<u32>>)
        ensures
            match r {
                Some(norms) => self@.ruler matches Some(t) && t.2 == norms@,
                None => self@.ruler is None,
            },
    {
        match &self.adaptive {
            Some(a) => Some(&a.norms),
            None => None,
        }
    }

    /// Whether queries drawn from the plane are unit vectors.
    pub fn normalizes_queries(&self) -> (r: bool)
        ensures
            r == (self@.ruler is None),
    {
        self.adaptive.is_none()
    }

    /// The codes of one node.
    pub fn row(&self, node: u32) -> (r: &[u8])
        requires
            self@.wf(),
            node < self@.len,
        ensures
            r@ == self@.codes.subrange(
                2 * (node * self@.dim),
                2 * (node * self@.dim) + 2 * self@.dim,
            ),
    {
        let bytes = self.codes.bytes();
        proof {
            lemma_row_fits(node as int, self.len as int, self.dim as int);
            assert(bytes@.len() == bytes.len());
        }
        let start: usize = node as usize * self.dim * 2;
        vstd::slice::slice_subrange(bytes, start, start + self.dim * 2)
    }

    pub fn node_count(&self) -> (r: usize)
        ensures
            r == self@.len,
    {
        self.len
    }

    pub fn width(&self) -> (r: usize)
        ensures
            r == self@.dim,
    {
        self.dim
    }
}

/// The row of a node lies within the rows of all nodes.
pub proof fn lemma_row_fits(node: int, len: int, dim: int)
    requires
        0 <= node < len,
        0 <= dim,
    ensures
        0 <= node * dim,
        node * dim + dim <= len * dim,
{
    assert(0 <= node * dim) by (nonlinear_arith)
        requires
            0 <= node,
            0 <= dim,
    ;
    assert(node * dim + dim <= len * dim) by (nonlinear_arith)
        requires
            node + 1 <= len,
            0 <= dim,
    ;
}

// ---------------- packed 4-bit codes ----------------

/// The code of coordinate `d` in its byte: the low half for an even one.
pub open spec fn nibble_of(byte: u8, d: int) -> u8 {
    if d % 2 == 0 {
        byte % 16
    } else {
        byte / 16
    }
}

/// The byte with the code of coordinate `d` replaced.
pub open spec fn with_nibble(byte: u8, d: int, code: u8) -> u8 {
    if d % 2 == 0 {
        (byte / 16 * 16 + code) as u8
    } else {
        (byte % 16 + code * 16) as u8
    }
}

/// Bytes of a packed row: two codes a byte.
pub open spec fn packed_stride(dim: int) -> int {
    (dim + 1) / 2
}

/// The code of coordinate `d` of row `node` in a packed plane.
pub open spec fn nibble_at(plane: Seq<u8>, dim: int, node: int, d: int) -> u8 {
    nibble_of(plane[node * packed_stride(dim) + d / 2], d)
}

/// A packed code reads back, and packing it leaves the byte's other code.
pub proof fn law_nibble_round_trip(byte: u8, d: int, e: int, code: u8)
    requires
        code < 16,
    ensures
        nibble_of(with_nibble(byte, d, code), d) == code,
        d % 2 != e % 2 ==> nibble_of(with_nibble(byte, d, code), e) == nibble_of(byte, e),
{
}

/// Write the code of coordinate `d` into the packed row that starts at `base`.
pub fn pack_nibble(plane: &mut Vec<u8>, base: usize, d: usize, code: u8)
    requires
        base + d / 2 < old(plane)@.len(),
        code < 16,
    ensures
        final(plane)@ == old(plane)@.update(
            base + d / 2,
            with_nibble(old(plane)@[base + d / 2], d as int, code),
        ),
{
    proof {
        assert(plane@.len() == plane.len());
    }
    let at: usize = base + d / 2;
    let byte: u8 = plane[at];
    if d % 2 == 0 {
        assert((byte & 0xF0) | code == byte / 16 * 16 + code) by (bit_vector)
            requires
                code < 16,
        ;
        plane.set(at, (byte & 0xF0) | code);
    } else {
        assert((byte & 0x0F) | (code << 4) == byte % 16 + code * 16) by (bit_vector)
            requires
                code < 16,
        ;
        plane.set(at, (byte & 0x0F) | (code << 4));
    }
}

/// Read the code of coordinate `d` from the packed row that starts at `base`.
pub fn unpack_nibble(plane: &[u8], base: usize, d: usize) -> (r: u8)
    requires
        base + d / 2 < plane@.len(),
    ensures
        r == nibble_of(plane@[base + d / 2], d as int),
{
    proof {
        assert(plane@.len() == plane.len());
    }
    let byte: u8 = plane[base + d / 2];
    if d % 2 == 0 {
        assert(byte & 0x0F == byte % 16) by (bit_vector);
        byte & 0x0F
    } else {
        assert(byte >> 4 == byte / 16) by (bit_vector);
        byte >> 4
    }
}

/// The packed form of one row.
pub open spec fn packed_row(row: Seq<u8>) -> Seq<u8> {
    Seq::new(
        packed_stride(row.len() as int) as nat,
        |j: int|
            (row[2 * j] + 16 * (if 2 * j + 1 < row.len() {
                row[2 * j + 1] as int
            } else {
                0
            })) as u8,
    )
}

/// The packed form of the first `rows` rows of `dim` codes each.
pub open spec fn packed_plane(values: Seq<u8>, dim: int, rows: int) -> Seq<u8>
    decreases rows,
{
    if rows <= 0 {
        Seq::empty()
    } else {
        packed_plane(values, dim, rows - 1) + packed_row(
            values.subrange((rows - 1) * dim, (rows - 1) * dim + dim),
        )
    }
}

proof fn lemma_packed_plane_len(values: Seq<u8>, dim: int, rows: int)
    requires
        0 <= dim,
        0 <= rows,
        rows * dim <= values.len(),
    ensures
        packed_plane(values, dim, rows).len() == rows * packed_stride(dim),
    decreases rows,
{
    if rows > 0 {
        assert((rows - 1) * dim + dim == rows * dim) by (nonlinear_arith);
        assert((rows - 1) * packed_stride(dim) + packed_stride(dim) == rows * packed_stride(dim))
            by (nonlinear_arith);
        assert(0 <= (rows - 1) * dim) by (nonlinear_arith)
            requires
                0 <= rows - 1,
                0 <= dim,
        ;
        lemma_packed_plane_len(values, dim, rows - 1);
    } else {
        assert(0 * packed_stride(dim) == 0);
    }
}

/// Every code of a packed plane reads back.
pub proof fn law_packed_codes_read_back(values: Seq<u8>, dim: int, rows: int, node: int, d: int)
    requires
        0 <= node < rows,
        0 <= d < dim,
        values.len() == rows * dim,
        forall|i: int| 0 <= i < values.len() ==> #[trigger] values[i] < 16,
    ensures
        nibble_at(packed_plane(values, dim, rows), dim, node, d) == values[node * dim + d],
{
    lemma_packed_codes(values, dim, rows, node, d);
}

proof fn lemma_pair(lo: u8, hi: u8)
    requires
        lo < 16,
        hi < 16,
    ensures
        ((lo + 16 * hi) as u8) % 16 == lo,
        ((lo + 16 * hi) as u8) / 16 == hi,
{
}

proof fn lemma_packed_row(row: Seq<u8>, d: int)
    requires
        0 <= d < row.len(),
        forall|i: int| 0 <= i < row.len() ==> #[trigger] row[i] < 16,
    ensures
        0 <= d / 2 < packed_row(row).len(),
        nibble_of(packed_row(row)[d / 2], d) == row[d],
{
    let j = d / 2;
    let hi = if 2 * j + 1 < row.len() {
        row[2 * j + 1]
    } else {
        0
    };
    lemma_pair(row[2 * j], hi);
}

proof fn lemma_packed_codes(values: Seq<u8>, dim: int, rows: int, node: int, d: int)
    requires
        0 <= node < rows,
        0 <= d < dim,
        rows * dim <= values.len(),
        forall|i: int| 0 <= i < values.len() ==> #[trigger] values[i] < 16,
    ensures
        nibble_at(packed_plane(values, dim, rows), dim, node, d) == values[node * dim + d],
    decreases rows,
{
    let stride = packed_stride(dim);
    let before = (rows - 1) * dim;
    let full = (rows - 1) * stride;
    let at = node * stride;
    assert(before + dim == rows * dim) by (nonlinear_arith)
        requires
            before == (rows - 1) * dim,
    ;
    assert(0 <= before) by (nonlinear_arith)
        requires
            before == (rows - 1) * dim,
            0 <= rows - 1,
            0 <= dim,
    ;
    lemma_packed_plane_len(values, dim, rows - 1);
    let head = packed_plane(values, dim, rows - 1);
    let row = values.subrange(before, before + dim);
    let all = packed_plane(values, dim, rows);
    assert(all == head + packed_row(row));
    assert(head.len() == full);
    if node == rows - 1 {
        assert forall|i: int| 0 <= i < row.len() implies #[trigger] row[i] < 16 by {
            assert(row[i] == values[before + i]);
        }
        lemma_packed_row(row, d);
        assert(all[at + d / 2] == packed_row(row)[d / 2]);
        assert(row[d] == values[before + d]);
    } else {
        lemma_row_fits(node, rows - 1, stride);
        assert(at + d / 2 < full);
        assert(all[at + d / 2] == head[at + d / 2]);
        lemma_packed_codes(values, dim, rows - 1, node, d);
    }
}

// ---------------- 4-bit plane ----------------

/// What a 4-bit plane is.
#[verifier::ext_equal]
pub struct Sq4Model {
    pub codes: Seq<u8>,
    pub residual: Option<Seq<u8>>,
    pub offset: Seq<u32>,
    pub step: Seq<u32>,
    pub rot_seed: u64,
    pub dim: nat,
    pub len: nat,
}

impl Sq4Model {
    /// The planes and the ruler have the sizes that `dim` and `len` call for,
    /// every step is finite and positive and every offset finite.
    pub open spec fn wf(self) -> bool {
        &&& self.offset.len() == self.dim
        &&& self.step.len() == self.dim
        &&& self.codes.len() == self.len * packed_stride(self.dim as int)
        &&& self.residual matches Some(r) ==> r.len() == self.len * packed_stride(self.dim as int)
        &&& steps_ok(self.step)
        &&& offsets_ok(self.offset)
    }
}

pub open spec fn steps_ok(step: Seq<u32>) -> bool {
    forall|i: int| 0 <= i < step.len() ==> f32_finite(#[trigger] step[i]) && !f32_le(step[i], 0)
}

pub open spec fn offsets_ok(offset: Seq<u32>) -> bool {
    forall|i: int| 0 <= i < offset.len() ==> f32_finite(#[trigger] offset[i])
}

/// Packed 4-bit codes in rotated space, with their ruler.
pub struct Sq4Scorer {
    codes: Plane,
    residual: Option<Plane>,
    offset: Vec<u32>,
    step: Vec<u32>,
    rot_seed: u64,
    dim: usize,
    len: usize,
}

impl View for Sq4Scorer {
    type V = Sq4Model;

    closed spec fn view(&self) -> Sq4Model {
        Sq4Model {
            codes: self.codes@,
            residual: match self.residual {
                Some(p) => Some(p@),
                None => None,
            },
            offset: self.offset@,
            step: self.step@,
            rot_seed: self.rot_seed,
            dim: self.dim as nat,
            len: self.len as nat,
        }
    }
}

fn all_finite(v: &Vec<u32>) -> (r: bool)
    ensures
        r == offsets_ok(v@),
{
    let mut i: usize = 0;
    while i < v.len()
        invariant
            i <= v.len(),
            forall|j: int| 0 <= j < i ==> f32_finite(#[trigger] v@[j]),
        decreases v.len() - i,
    {
        if !is_finite32(v[i]) {
            assert(!f32_finite(v@[i as int]));
            return false;
        }
        i = i + 1;
    }
    true
}

fn all_positive(v: &Vec<u32>) -> (r: bool)
    ensures
        r == steps_ok(v@),
{
    let mut i: usize = 0;
    while i < v.len()
        invariant
            i <= v.len(),
            forall|j: int| 0 <= j < i ==> f32_finite(#[trigger] v@[j]) && !f32_le(v@[j], 0),
        decreases v.len() - i,
    {
        if !is_finite32(v[i]) || at_most32(v[i], 0) {
            assert(!(f32_finite(v@[i as int]) && !f32_le(v@[i as int], 0)));
            return false;
        }
        i = i + 1;
    }
    true
}

impl Sq4Scorer {
    /// The codes, and the residual codes where there are any, are views into
    /// shared buffers.
    pub closed spec fn shared(&self) -> bool {
        self.codes.shared() && (self.residual matches Some(p) ==> p.shared())
    }

    /// Bytes per node and plane.
    pub fn stride(dim: usize) -> (r: usize)
        ensures
            r == packed_stride(dim as int),
    {
        dim / 2 + dim % 2
    }

    /// Adopt packed planes and their ruler. `None` on a size that does not
    /// match, or on a ruler that is not finite and positive.
    pub fn from_parts(
        codes: Plane,
        residual: Option<Plane>,
        offset: Vec<u32>,
        step: Vec<u32>,
        rot_seed: u64,
        dim: usize,
        len: usize,
    ) -> (r: Option<Self>)
        ensures
            ({
                let m = Sq4Model {
                    codes: codes@,
                    residual: match residual {
                        Some(p) => Some(p@),
                        None => None,
                    },
                    offset: offset@,
                    step: step@,
                    rot_seed,
                    dim: dim as nat,
                    len: len as nat,
                };
                match r {
                    Some(s) => m.wf() && s@ == m && s.shared() == (codes.shared() && (
                    residual matches Some(p) ==> p.shared())),
                    None => !m.wf(),
                }
            }),
    {
        let stride: usize = Self::stride(dim);
        proof {
            assert(0 <= len * stride <= 0xffff_ffff_ffff_ffff * 0xffff_ffff_ffff_ffff) by (nonlinear_arith)
                requires
                    0 <= len <= 0xffff_ffff_ffff_ffff,
                    0 <= stride <= 0xffff_ffff_ffff_ffff,
            ;
        }
        let plane: u128 = (len as u128) * (stride as u128);
        if offset.len() != dim || step.len() != dim || codes.len() as u128 != plane {
            return None;
        }
        match &residual {
            Some(p) => {
                if p.len() as u128 != plane {
                    return None;
                }
            },
            None => {},
        }
        if !all_positive(&step) || !all_finite(&offset) {
            return None;
        }
        Some(Sq4Scorer { codes, residual, offset, step, rot_seed, dim, len })
    }

    /// Pack one code per coordinate, row by row, onto the given ruler; with a
    /// residual code per coordinate where the construction has one.
    pub fn from_nibbles(
        values: &Vec<u8>,
        residual: Option<&Vec<u8>>,
        offset: Vec<u32>,
        step: Vec<u32>,
        rot_seed: u64,
        dim: usize,
        len: usize,
    ) -> (r: Self)
        requires
            values@.len() == len * dim,
            forall|i: int| 0 <= i < values@.len() ==> #[trigger] values@[i] < 16,
            residual matches Some(v) ==> v@.len() == len * dim && forall|i: int|
                0 <= i < v@.len() ==> #[trigger] v@[i] < 16,
            offset@.len() == dim,
            step@.len() == dim,
        ensures
            r@ == (Sq4Model {
                codes: packed_plane(values@, dim as int, len as int),
                residual: match residual {
                    Some(v) => Some(packed_plane(v@, dim as int, len as int)),
                    None => None,
                },
                offset: offset@,
                step: step@,
                rot_seed,
                dim: dim as nat,
                len: len as nat,
            }),
            r@.codes.len() == len * packed_stride(dim as int),
            r@.residual matches Some(p) ==> p.len() == len * packed_stride(dim as int),
            !r.shared(),
    {
        proof {
            lemma_packed_plane_len(values@, dim as int, len as int);
            if let Some(v) = residual {
                lemma_packed_plane_len(v@, dim as int, len as int);
            }
        }
        let codes = pack_rows(values, dim, len);
        let res: Option<Plane> = match residual {
            Some(v) => Some(Plane::Owned(pack_rows(v, dim, len))),
            None => None,
        };
        Sq4Scorer { codes: Plane::Owned(codes), residual: res, offset, step, rot_seed, dim, len }
    }

    /// The packed codes.
    pub fn codes(&self) -> (r: &[u8])
        ensures
            r@ == self@.codes,
    {
        self.codes.bytes()
    }

    /// The packed residual codes, where there are any.
    pub fn residual(&self) -> (r: Option<&[u8]>)
        ensures
            match r {
                Some(s) => self@.residual == Some(s@),
                None => self@.residual is None,
            },
    {
        match &self.residual {
            Some(p) => Some(p.bytes()),
            None => None,
        }
    }

    pub fn offset(&self) -> (r: &Vec<u32>)
        ensures
            r@ == self@.offset,
    {
        &self.offset
    }

    pub fn step(&self) -> (r: &Vec<u32>)
        ensures
            r@ == self@.step,
    {
        &self.step
    }

    /// Whether the residual plane is present.
    pub fn has_residual(&self) -> (r: bool)
        ensures
            r == (self@.residual is Some),
    {
        self.residual.is_some()
    }

    /// Seed of the rotation the plane lives in.
    pub fn rot_seed(&self) -> (r: u64)
        ensures
            r == self@.rot_seed,
    {
        self.rot_seed
    }

    pub fn node_count(&self) -> (r: usize)
        ensures
            r == self@.len,
    {
        self.len
    }

    pub fn width(&self) -> (r: usize)
        ensures
            r == self@.dim,
    {
        self.dim
    }

    /// The coarse code of coordinate `d` of a node.
    pub fn code_at(&self, node: u32, d: usize) -> (r: u8)
        requires
            self@.codes.len() == self@.len * packed_stride(self@.dim as int),
            node < self@.len,
            d < self@.dim,
        ensures
            r == nibble_at(self@.codes, self@.dim as int, node as int, d as int),
    {
        let stride: usize = Self::stride(self.dim);
        let plane = self.codes.bytes();
        proof {
            lemma_row_fits(node as int, self.len as int, stride as int);
            assert(plane@.len() == plane.len());
        }
        unpack_nibble(plane, node as usize * stride, d)
    }
}

/// Pack rows of codes.
fn pack_rows(values: &Vec<u8>, dim: usize, len: usize) -> (r: Vec<u8>)
    requires
        values@.len() == len * dim,
        forall|i: int| 0 <= i < values@.len() ==> #[trigger] values@[i] < 16,
    ensures
        r@ == packed_plane(values@, dim as int, len as int),
{
    let stride: usize = Sq4Scorer::stride(dim);
    let mut out: Vec<u8> = Vec::new();
    let mut i: usize = 0;
    let mut base: usize = 0;
    proof {
        assert(0 * dim == 0);
    }
    while i < len
        invariant
            i <= len,
            base == i * dim,
            values@.len() == len * dim,
            stride == packed_stride(dim as int),
            forall|j: int| 0 <= j < values@.len() ==> #[trigger] values@[j] < 16,
            out@ == packed_plane(values@, dim as int, i as int),
        decreases len - i,
    {
        proof {
            lemma_row_fits(i as int, len as int, dim as int);
        }
        let ghost row = values@.subrange(i * dim, i * dim + dim);
        proof {
            assert(values@.len() == values.len());
        }
        let mut packed: Vec<u8> = Vec::new();
        while packed.len() < stride
            invariant
                packed@.len() <= stride,
                forall|j: int| 0 <= j < packed@.len() ==> packed@[j] == 0,
            decreases stride - packed.len(),
        {
            packed.push(0);
        }
        let mut d: usize = 0;
        while d < dim
            invariant
                d <= dim,
                i < len,
                base == i * dim,
                base + dim <= values@.len(),
                row == values@.subrange(i * dim, i * dim + dim),
                row.len() == dim,
                stride == packed_stride(dim as int),
                packed@.len() == stride,
                forall|j: int| 0 <= j < values@.len() ==> #[trigger] values@[j] < 16,
                forall|j: int|
                    0 <= j < stride ==> #[trigger] packed@[j] == (if 2 * j < d {
                        row[2 * j] as int
                    } else {
                        0
                    }) + 16 * (if 2 * j + 1 < d {
                        row[2 * j + 1] as int
                    } else {
                        0
                    }),
            decreases dim - d,
        {
            proof {
                assert(values@.len() == values.len());
            }
            let code: u8 = values[base + d];
            proof {
                assert(row[d as int] == code);
                assert(values@[base + d] < 16);
                let j = d as int / 2;
                if 2 * j < d {
                    assert(row[2 * j] == values@[base + 2 * j]);
                }
            }
            let ghost before = packed@;
            pack_nibble(&mut packed, 0, d, code);
            proof {
                assert forall|j: int| 0 <= j < stride implies #[trigger] packed@[j] == (if 2 * j < d
                    + 1 {
                    row[2 * j] as int
                } else {
                    0
                }) + 16 * (if 2 * j + 1 < d + 1 {
                    row[2 * j + 1] as int
                } else {
                    0
                }) by {
                    assert(before[j] == (if 2 * j < d {
                        row[2 * j] as int
                    } else {
                        0
                    }) + 16 * (if 2 * j + 1 < d {
                        row[2 * j + 1] as int
                    } else {
                        0
                    }));
                    if 2 * j < dim {
                        assert(row[2 * j] == values@[base + 2 * j]);
                    }
                }
            }
            d = d + 1;
        }
        proof {
            assert forall|j: int| 0 <= j < stride implies packed@[j] == #[trigger] packed_row(row)[j] by {
                assert(row[2 * j] == values@[base + 2 * j]);
                if 2 * j + 1 < dim {
                    assert(row[2 * j + 1] == values@[base + (2 * j + 1)]);
                }
            }
            assert(packed@ =~= packed_row(row));
            assert((i + 1) * dim == i * dim + dim) by (nonlinear_arith);
        }
        out.append(&mut packed);
        base = base + dim;
        i = i + 1;
    }
    out
}

// ---------------- 8-bit walk plane ----------------

/// Widest vectors whose 8-bit dot products stay within 32 bits.
pub const SQ8_DIM_MAX: usize = 65_536;

/// Sum of `(row[d] - 128) * q[d]` over the first `n` coordinates.
pub open spec fn centered_dot(row: Seq<u8>, q: Seq<i8>, n: int) -> int
    decreases n,
{
    if n <= 0 {
        0
    } else {
        centered_dot(row, q, n - 1) + (row[n - 1] - 128) * q[n - 1]
    }
}

/// Sum of `row[d] * q[d]` over the first `n` coordinates.
pub open spec fn raw_dot(row: Seq<u8>, q: Seq<i8>, n: int) -> int
    decreases n,
{
    if n <= 0 {
        0
    } else {
        raw_dot(row, q, n - 1) + row[n - 1] * q[n - 1]
    }
}

/// Sum of the first `n` query components.
pub open spec fn query_sum(q: Seq<i8>, n: int) -> int
    decreases n,
{
    if n <= 0 {
        0
    } else {
        query_sum(q, n - 1) + q[n - 1]
    }
}

/// Taking the baseline off the raw dot product centers it.
pub proof fn law_baseline_centers_dot(row: Seq<u8>, q: Seq<i8>, n: int)
    ensures
        raw_dot(row, q, n) - 128 * query_sum(q, n) == centered_dot(row, q, n),
    decreases n,
{
    if n > 0 {
        law_baseline_centers_dot(row, q, n - 1);
        let a = row[n - 1] as int;
        let c = q[n - 1] as int;
        assert((a - 128) * c == a * c - 128 * c) by (nonlinear_arith);
    }
}

proof fn lemma_sq8_bounds(row: Seq<u8>, q: Seq<i8>, n: int)
    requires
        0 <= n <= row.len(),
        n <= q.len(),
    ensures
        -(n * 32640) <= raw_dot(row, q, n) <= n * 32640,
        -(n * 128) <= query_sum(q, n) <= n * 128,
        -(n * 16384) <= centered_dot(row, q, n) <= n * 16384,
    decreases n,
{
    if n > 0 {
        lemma_sq8_bounds(row, q, n - 1);
        let a = row[n - 1] as int;
        let c = q[n - 1] as int;
        assert(-32640 <= a * c <= 32640) by (nonlinear_arith)
            requires
                0 <= a <= 255,
                -128 <= c <= 127,
        ;
        assert(-16384 <= (a - 128) * c <= 16384) by (nonlinear_arith)
            requires
                0 <= a <= 255,
                -128 <= c <= 127,
        ;
    }
}

/// Sum of `row[d] * q[d]`.
pub fn sq8_walk_dot(row: &[u8], q: &Vec<i8>) -> (r: i32)
    requires
        row@.len() == q@.len(),
        q@.len() <= SQ8_DIM_MAX,
    ensures
        r == raw_dot(row@, q@, q@.len() as int),
{
    let mut acc: i32 = 0;
    let mut i: usize = 0;
    while i < q.len()
        invariant
            i <= q@.len() <= SQ8_DIM_MAX,
            row@.len() == q@.len(),
            acc == raw_dot(row@, q@, i as int),
        decreases q.len() - i,
    {
        proof {
            lemma_sq8_bounds(row@, q@, i as int);
            lemma_sq8_bounds(row@, q@, i + 1);
            let a = row@[i as int] as int;
            let c = q@[i as int] as int;
            assert(-32640 <= a * c <= 32640) by (nonlinear_arith)
                requires
                    0 <= a <= 255,
                    -128 <= c <= 127,
            ;
        }
        acc = acc + row[i] as i32 * q[i] as i32;
        i = i + 1;
    }
    acc
}

/// The 8-bit query with `128` times the sum of its components.
pub struct Sq8Query {
    q: Vec<i8>,
    baseline: i32,
}

impl Sq8Query {
    pub closed spec fn parts(self) -> (Seq<i8>, int) {
        (self.q@, self.baseline as int)
    }

    /// Fold an 8-bit query.
    fn new(q: Vec<i8>) -> (r: Self)
        requires
            q@.len() <= SQ8_DIM_MAX,
        ensures
            r.parts() == (q@, 128 * query_sum(q@, q@.len() as int)),
    {
        let mut sum: i32 = 0;
        let mut i: usize = 0;
        while i < q.len()
            invariant
                i <= q@.len() <= SQ8_DIM_MAX,
                sum == query_sum(q@, i as int),
                -(i * 128) <= sum <= i * 128,
            decreases q.len() - i,
        {
            sum = sum + q[i] as i32;
            i = i + 1;
        }
        let baseline: i32 = 128 * sum;
        Sq8Query { q, baseline }
    }
}

/// Walk scorer over the 8-bit plane: the negated centered dot product, so that
/// lower is nearer.
pub struct Sq8WalkScorer<'a> {
    plane: &'a [u8],
    dim: usize,
    len: usize,
}

/// The bytes of one node.
pub open spec fn sq8_row(plane: Seq<u8>, dim: int, node: int) -> Seq<u8> {
    plane.subrange(node * dim, node * dim + dim)
}

/// Distances from an 8-bit query to the rows of a plane.
pub open spec fn sq8_scores(plane: Seq<u8>, dim: int, q: Seq<i8>) -> spec_fn(u32) -> u32 {
    |x: u32| f32_of_negated(centered_dot(sq8_row(plane, dim, x as int), q, q.len() as int))
}

/// The bytes of a node as a signed query.
pub open spec fn sq8_as_query(row: Seq<u8>) -> Seq<i8> {
    Seq::new(row.len(), |d: int| (row[d] - 128) as i8)
}

impl<'a> Sq8WalkScorer<'a> {
    pub closed spec fn parts(&self) -> (Seq<u8>, int, int) {
        (self.plane@, self.dim as int, self.len as int)
    }

    pub fn new(plane: &'a [u8], dim: usize, len: usize) -> (r: Self)
        requires
            plane@.len() == len * dim,
            dim <= SQ8_DIM_MAX,
        ensures
            r.ready(),
            r.parts() == (plane@, dim as int, len as int),
    {
        Sq8WalkScorer { plane, dim, len }
    }

    fn row(&self, node: u32) -> (r: &[u8])
        requires
            self.ready(),
            node < self.count(),
        ensures
            r@ == sq8_row(self.parts().0, self.parts().1, node as int),
            r@.len() == self.parts().1,
    {
        proof {
            lemma_row_fits(node as int, self.len as int, self.dim as int);
            assert(self.plane@.len() == self.plane.len());
        }
        let start: usize = node as usize * self.dim;
        vstd::slice::slice_subrange(self.plane, start, start + self.dim)
    }
}

impl<'a> NodeScorer for Sq8WalkScorer<'a> {
    type Query = Vec<i8>;

    type Prepared = Sq8Query;

    open spec fn count(&self) -> nat {
        self.parts().2 as nat
    }

    open spec fn vector_dim(&self) -> nat {
        self.parts().1 as nat
    }

    open spec fn ready(&self) -> bool {
        &&& self.parts().0.len() == self.parts().2 * self.parts().1
        &&& 0 <= self.parts().1 <= SQ8_DIM_MAX
        &&& 0 <= self.parts().2
    }

    open spec fn accepts(&self, q: Vec<i8>) -> bool {
        q@.len() == self.parts().1
    }

    open spec fn folded(&self, p: Sq8Query) -> bool {
        &&& p.parts().0.len() == self.parts().1
        &&& p.parts().1 == 128 * query_sum(p.parts().0, p.parts().0.len() as int)
    }

    open spec fn score_of(&self, p: Sq8Query, node: u32) -> u32 {
        f32_of_negated(
            centered_dot(
                sq8_row(self.parts().0, self.parts().1, node as int),
                p.parts().0,
                p.parts().0.len() as int,
            ),
        )
    }

    open spec fn query_dist(&self, q: Vec<i8>, node: u32) -> u32 {
        f32_of_negated(
            centered_dot(
                sq8_row(self.parts().0, self.parts().1, node as int),
                q@,
                q@.len() as int,
            ),
        )
    }

    open spec fn node_dist(&self, a: u32, b: u32) -> u32 {
        let q = sq8_as_query(sq8_row(self.parts().0, self.parts().1, a as int));
        f32_of_negated(
            centered_dot(
                sq8_row(self.parts().0, self.parts().1, b as int),
                q,
                q.len() as int,
            ),
        )
    }

    fn len(&self) -> (r: usize) {
        self.len
    }

    fn dim(&self) -> (r: usize) {
        self.dim
    }

    fn prepare(&self, q: &Vec<i8>) -> (p: Sq8Query) {
        let mut copy: Vec<i8> = Vec::new();
        let mut i: usize = 0;
        while i < q.len()
            invariant
                i <= q@.len(),
                copy@ == q@.subrange(0, i as int),
            decreases q.len() - i,
        {
            copy.push(q[i]);
            i = i + 1;
            proof {
                assert(copy@ =~= q@.subrange(0, i as int));
            }
        }
        proof {
            assert(copy@ =~= q@);
        }
        Sq8Query::new(copy)
    }

    fn prepare_node(&self, node: u32) -> (p: Sq8Query) {
        let row = self.row(node);
        let mut q: Vec<i8> = Vec::new();
        let mut i: usize = 0;
        while i < row.len()
            invariant
                i <= row@.len(),
                q@.len() == i,
                forall|d: int| 0 <= d < i ==> #[trigger] q@[d] == (row@[d] - 128) as i8,
            decreases row.len() - i,
        {
            q.push((row[i] as i16 - 128) as i8);
            i = i + 1;
        }
        proof {
            assert(q@ =~= sq8_as_query(row@));
        }
        Sq8Query::new(q)
    }

    fn score(&self, p: &Sq8Query, node: u32) -> (r: u32) {
        let row = self.row(node);
        let dot: i32 = sq8_walk_dot(row, &p.q);
        proof {
            law_baseline_centers_dot(row@, p.q@, p.q@.len() as int);
            lemma_sq8_bounds(row@, p.q@, p.q@.len() as int);
        }
        negated_to_f32(dot - p.baseline)
    }
}

/// The dot products are sums over all coordinates, each counted once.
pub proof fn law_dot_is_the_sum_over_coordinates(row: Seq<u8>, q: Seq<i8>, n: nat)
    ensures
        raw_dot(row, q, n as int) == Seq::new(n, |d: int| row[d] * q[d]).fold_left(
            0int,
            |a: int, x: int| a + x,
        ),
        centered_dot(row, q, n as int) == Seq::new(n, |d: int| (row[d] - 128) * q[d]).fold_left(
            0int,
            |a: int, x: int| a + x,
        ),
    decreases n,
{
    let raw = Seq::new(n, |d: int| row[d] * q[d]);
    let mid = Seq::new(n, |d: int| (row[d] - 128) * q[d]);
    reveal_with_fuel(Seq::fold_left, 2);
    if n > 0 {
        let m = (n - 1) as nat;
        law_dot_is_the_sum_over_coordinates(row, q, m);
        assert(raw.drop_last() =~= Seq::new(m, |d: int| row[d] * q[d]));
        assert(mid.drop_last() =~= Seq::new(m, |d: int| (row[d] - 128) * q[d]));
    }
}

/// The larger the dot product, the nearer: a distance is the negated product,
/// so a larger product never has the greater distance, and has the lesser one
/// while both have at most 24 bits.
pub proof fn law_larger_dot_is_nearer(a: int, b: int)
    requires
        a > b,
        -0x8000_0000 < b,
        a <= 0x7fff_ffff,
    ensures
        !f32_lt(f32_of_negated(b), f32_of_negated(a)),
        -0x100_0000 <= b && a <= 0x100_0000 ==> f32_lt(f32_of_negated(a), f32_of_negated(b)),
        f32_finite(f32_of_negated(a)),
        f32_finite(f32_of_negated(b)),
{
    let ma = if a >= 0 {
        a as nat
    } else {
        (-a) as nat
    };
    let mb = if b >= 0 {
        b as nat
    } else {
        (-b) as nat
    };
    crate::rounding::lemma_f32_of_nat_bound(ma);
    crate::rounding::lemma_f32_of_nat_bound(mb);
    if b >= 0 {
        law_patterns_grow_with_the_number(mb, ma);
        if a <= 0x100_0000 {
            law_small_numbers_are_exact(mb, ma);
        }
    } else if a < 0 {
        law_patterns_grow_with_the_number(ma, mb);
        if b >= -0x100_0000 {
            law_small_numbers_are_exact(ma, mb);
        }
    } else if b >= -0x100_0000 {
        law_small_numbers_are_exact(0, mb);
    }
}

proof fn lemma_dot_commutes(x: Seq<u8>, y: Seq<u8>, n: int)
    requires
        0 <= n <= x.len(),
        n <= y.len(),
    ensures
        centered_dot(x, sq8_as_query(y), n) == centered_dot(y, sq8_as_query(x), n),
    decreases n,
{
    if n > 0 {
        lemma_dot_commutes(x, y, n - 1);
        let a = x[n - 1] - 128;
        let b = y[n - 1] - 128;
        assert(sq8_as_query(y)[n - 1] == b && sq8_as_query(x)[n - 1] == a);
        assert(a * b == b * a) by (nonlinear_arith);
    }
}

/// Two nodes are as far from one another either way, and a node is to another
/// what it is to that node taken as a query.
pub proof fn law_node_distance_is_symmetric(s: Sq8WalkScorer<'_>, a: u32, b: u32)
    requires
        s.ready(),
        a < s.count(),
        b < s.count(),
    ensures
        s.node_dist(a, b) == s.node_dist(b, a),
        s.node_dist(a, b) == sq8_scores(
            s.parts().0,
            s.parts().1,
            sq8_as_query(sq8_row(s.parts().0, s.parts().1, a as int)),
        )(b),
{
    let dim = s.parts().1;
    lemma_row_fits(a as int, s.parts().2, dim);
    lemma_row_fits(b as int, s.parts().2, dim);
    let x = sq8_row(s.parts().0, dim, a as int);
    let y = sq8_row(s.parts().0, dim, b as int);
    lemma_dot_commutes(y, x, dim);
}

/// A 4-bit plane is sound exactly where it has one offset and one step per
/// coordinate, half a byte per code in each of its planes, a row's last byte
/// filled up, positive finite steps and finite offsets.
pub proof fn law_sound_sq4_plane(m: Sq4Model)
    ensures
        m.wf() <==> {
            let bytes = m.len * ((m.dim + 1) / 2);
            &&& m.offset.len() == m.dim
            &&& m.step.len() == m.dim
            &&& m.codes.len() == bytes
            &&& m.residual is Some ==> m.residual->0.len() == bytes
            &&& forall|i: int|
                0 <= i < m.step.len() ==> 0 < #[trigger] m.step[i] < 0x7f80_0000
            &&& forall|i: int|
                0 <= i < m.offset.len() ==> #[trigger] m.offset[i] < 0x7f80_0000 || 0x8000_0000
                    <= m.offset[i] < 0xff80_0000
        },
{
}

/// The product of a query and a stored node, coordinate by coordinate, the
/// node's codes read as signed.
pub open spec fn product_of(plane: Seq<u8>, dim: int, q: Seq<i8>, node: int) -> int {
    Seq::new(dim as nat, |d: int| (plane[node * dim + d] - 128) * q[d]).fold_left(
        0int,
        |a: int, x: int| a + x,
    )
}

/// A walk goes to the larger product: of two nodes, the one whose product with
/// the query is the larger is never the farther one, and is the nearer one
/// while both products have at most 24 bits.
pub proof fn law_larger_product_is_nearer(s: Sq8WalkScorer<'_>, q: Vec<i8>, a: u32, b: u32)
    requires
        s.ready(),
        s.accepts(q),
        a < s.count(),
        b < s.count(),
        product_of(s.parts().0, s.parts().1, q@, a as int) > product_of(
            s.parts().0,
            s.parts().1,
            q@,
            b as int,
        ),
    ensures
        !f32_lt(s.query_dist(q, b), s.query_dist(q, a)),
        -0x100_0000 <= product_of(s.parts().0, s.parts().1, q@, b as int) && product_of(
            s.parts().0,
            s.parts().1,
            q@,
            a as int,
        ) <= 0x100_0000 ==> f32_lt(s.query_dist(q, a), s.query_dist(q, b)),
{
    let plane = s.parts().0;
    let dim = s.parts().1;
    lemma_product(plane, dim, s.parts().2, q@, a as int);
    lemma_product(plane, dim, s.parts().2, q@, b as int);
    law_larger_dot_is_nearer(
        product_of(plane, dim, q@, a as int),
        product_of(plane, dim, q@, b as int),
    );
}

proof fn lemma_product(plane: Seq<u8>, dim: int, len: int, q: Seq<i8>, node: int)
    requires
        plane.len() == len * dim,
        0 <= dim <= SQ8_DIM_MAX,
        0 <= node < len,
        q.len() == dim,
    ensures
        product_of(plane, dim, q, node) == centered_dot(sq8_row(plane, dim, node), q, dim),
        -0x4000_0000 <= product_of(plane, dim, q, node) <= 0x4000_0000,
{
    lemma_row_fits(node, len, dim);
    let row = sq8_row(plane, dim, node);
    law_dot_is_the_sum_over_coordinates(row, q, dim as nat);
    assert(Seq::new(dim as nat, |d: int| (row[d] - 128) * q[d]) =~= Seq::new(
        dim as nat,
        |d: int| (plane[node * dim + d] - 128) * q[d],
    ));
    lemma_sq8_bounds(row, q, dim);
}

/// A byte holds two codes: that of the even coordinate counts once, that of
/// the odd one behind it sixteen times.
pub proof fn law_even_code_is_the_low_half(byte: u8, d: int)
    requires
        d % 2 == 0,
    ensures
        nibble_of(byte, d) + 16 * nibble_of(byte, d + 1) == byte,
        nibble_of(byte, d) < 16,
        nibble_of(byte, d + 1) < 16,
{
}

} // verus!
