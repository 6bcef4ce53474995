//! The persisted index bundle: graph, node-to-document map and code planes in
//! one self-contained byte form.
//!
//! ```text
//! magic u64 | n u64 | dim u32 | ef u32 | [walk codec u8] | name len u32 | name
//! document ids                n x i128
//! 16-bit codes                n x dim x u16
//! walk section                what the walk codec names
//! graph len u64 | graph
//! [pair count u16 | (k u32, ef u32) pairs]
//! [metric u8 | scale | offset | norms]
//! ```
//!
//! The bracketed parts depend on the version that the magic names.
use bytes::Bytes;
use vstd::prelude::*;
use vstd::utf8::{decode_utf8, encode_utf8, valid_utf8};

use crate::codes::{
    metric_from_tag, metric_of_tag, metric_tag, metric_tag_of, packed_stride, walk_of_tag,
    walk_tag, Metric, Sq16Model, Sq16Scorer, Sq4Model, Sq4Scorer, WalkCodec,
};
use crate::graph::{GraphModel, Hnsw};
use crate::graph_codec::{graph_bytes, law_graph_round_trip, parse_graph, storable};
use crate::plane::{bytes_contents, shared_slice, shared_view, Plane};
use crate::wire::{
    field, i128_pattern, le_bytes, lemma_concat_assoc, lemma_field_of_bytes, lemma_le_bytes_len,
    lemma_pow256_values, lemma_prefix_field, lemma_word_bytes_len, lemma_words_read_back, put_i128,
    put_le, put_slice, put_u32, put_u64, put_words, word_bytes, words, Cursor,
};

verus! {

/// The bytes `INFDDG02` to `INFDDG06`, read as little-endian numbers.
pub const HNSW_DATA_MAGIC_V2: u64 = 0x3230_4744_4446_4E49;

pub const HNSW_DATA_MAGIC_V3: u64 = 0x3330_4744_4446_4E49;

pub const HNSW_DATA_MAGIC_V4: u64 = 0x3430_4744_4446_4E49;

pub const HNSW_DATA_MAGIC_V5: u64 = 0x3530_4744_4446_4E49;

pub const HNSW_DATA_MAGIC_V6: u64 = 0x3630_4744_4446_4E49;

/// What a bundle holds, as one decode sees it.
#[verifier::ext_equal]
pub struct BundleModel {
    pub scorer: Sq16Model,
    pub graph: GraphModel,
    pub doc_ids: Seq<i128>,
    pub dim: nat,
    pub ef_search: nat,
    pub ef_curve: Seq<(u32, u32)>,
    pub column: Seq<char>,
    pub sq8: Seq<u8>,
    pub sq4: Option<Sq4Model>,
    pub stored_walk: WalkCodec,
}

// ---------------- versions ----------------

pub open spec fn known_magic(x: nat) -> bool {
    x == HNSW_DATA_MAGIC_V2 || x == HNSW_DATA_MAGIC_V3 || x == HNSW_DATA_MAGIC_V4 || x
        == HNSW_DATA_MAGIC_V5 || x == HNSW_DATA_MAGIC_V6
}

/// The header names the walk codec.
pub open spec fn names_walk(x: nat) -> bool {
    x == HNSW_DATA_MAGIC_V5 || x == HNSW_DATA_MAGIC_V6
}

/// A `k` to `ef` curve follows the graph.
pub open spec fn has_curve(x: nat) -> bool {
    x == HNSW_DATA_MAGIC_V4 || x == HNSW_DATA_MAGIC_V5 || x == HNSW_DATA_MAGIC_V6
}

/// A metric and a fitted ruler follow the curve.
pub open spec fn metric_aware(x: nat) -> bool {
    x == HNSW_DATA_MAGIC_V6
}

/// The walk codec a bundle was written for: the one it names, or the one that
/// the layout of its version implies.
pub open spec fn stored_codec(b: Seq<u8>) -> Option<WalkCodec> {
    let magic = field(b, 0, 8);
    if names_walk(magic) {
        walk_of_tag(field(b, 24, 1) as u8)
    } else if magic == HNSW_DATA_MAGIC_V2 {
        Some(WalkCodec::Sq16)
    } else {
        Some(WalkCodec::Sq8)
    }
}

// ---------------- sections ----------------

/// The high byte of each 16-bit code.
pub open spec fn high_bytes(codes: Seq<u8>) -> Seq<u8> {
    Seq::new(codes.len() / 2, |i: int| codes[2 * i + 1])
}

/// Size of the walk section.
pub open spec fn walk_len(w: WalkCodec, n: int, dim: int) -> int {
    match w {
        WalkCodec::Sq16 => 0,
        WalkCodec::Sq8 => n * dim,
        WalkCodec::Sq4 => 8 + 8 * dim + n * packed_stride(dim),
        WalkCodec::Sq4Residual => 8 + 8 * dim + 2 * (n * packed_stride(dim)),
    }
}

/// The document ids at `off`.
pub open spec fn ids_at(b: Seq<u8>, off: int, n: int) -> Seq<i128> {
    Seq::new(n as nat, |i: int| (field(b, off + 16 * i, 16) as u128) as i128)
}

/// The 4-bit plane stored at `off`.
pub open spec fn sq4_at(b: Seq<u8>, off: int, n: int, dim: int, residual: bool) -> Sq4Model {
    let codes = off + 8 + 8 * dim;
    let size = n * packed_stride(dim);
    Sq4Model {
        codes: b.subrange(codes, codes + size),
        residual: if residual {
            Some(b.subrange(codes + size, codes + size + size))
        } else {
            None
        },
        offset: words(b, off + 8, dim),
        step: words(b, off + 8 + 4 * dim, dim),
        rot_seed: field(b, off, 8) as u64,
        dim: dim as nat,
        len: n as nat,
    }
}

/// The 4-bit plane that a decode for `want` makes resident.
pub open spec fn resident_sq4(
    b: Seq<u8>,
    walk_at: int,
    n: int,
    dim: int,
    stored: WalkCodec,
    want: WalkCodec,
) -> Option<Sq4Model> {
    let plane = sq4_at(b, walk_at, n, dim, stored == WalkCodec::Sq4Residual);
    if stored.sq4() && want.sq4() && plane.wf() {
        Some(plane)
    } else {
        None
    }
}

/// A decode for `want` serves the 8-bit section of the bundle itself.
pub open spec fn serves_stored_sq8(stored: WalkCodec, want: WalkCodec) -> bool {
    stored == WalkCodec::Sq8 && want != WalkCodec::Sq16
}

/// The 8-bit plane that a decode for `want` makes resident: the stored one, or
/// the high bytes of the 16-bit codes where the bundle has none to offer. A
/// 4-bit plane takes its place where it is sound, and nothing is derived for a
/// 16-bit walk or on a fitted ruler.
pub open spec fn resident_sq8(
    b: Seq<u8>,
    sq16_at: int,
    walk_at: int,
    n: int,
    dim: int,
    stored: WalkCodec,
    want: WalkCodec,
) -> Seq<u8> {
    let derived = high_bytes(b.subrange(sq16_at, walk_at));
    if want == WalkCodec::Sq16 {
        Seq::empty()
    } else {
        match stored {
            WalkCodec::Sq16 => if metric_aware(field(b, 0, 8)) {
                Seq::empty()
            } else {
                derived
            },
            WalkCodec::Sq8 => b.subrange(walk_at, walk_at + n * dim),
            _ => if resident_sq4(b, walk_at, n, dim, stored, want) is Some {
                Seq::empty()
            } else {
                derived
            },
        }
    }
}

/// The curve at `off` and the offset behind it; `None` where it is cut short.
pub open spec fn curve_at(b: Seq<u8>, off: int) -> Option<(Seq<(u32, u32)>, int)> {
    if !has_curve(field(b, 0, 8)) {
        Some((Seq::empty(), off))
    } else if off + 2 > b.len() {
        None
    } else {
        let count = field(b, off, 2) as int;
        if off + 2 + 8 * count > b.len() {
            None
        } else {
            let flat = words(b, off + 2, 2 * count);
            Some(
                (
                    Seq::new(count as nat, |i: int| (flat[2 * i], flat[2 * i + 1])),
                    off + 2 + 8 * count,
                ),
            )
        }
    }
}

/// The metric and ruler at `off`; the inner `None` is the fixed cosine grid.
pub open spec fn ruler_at(b: Seq<u8>, off: int, n: int, dim: int) -> Option<
    Option<(Metric, Seq<u32>, Seq<u32>, Seq<u32>)>,
> {
    if !metric_aware(field(b, 0, 8)) {
        Some(None)
    } else if off + 1 + 8 * dim > b.len() {
        None
    } else {
        let norms = off + 1 + 8 * dim;
        match metric_of_tag(field(b, off, 1) as u8) {
            None => None,
            Some(Metric::Cosine) => None,
            Some(Metric::L2Sq) => if norms + 4 * n > b.len() {
                None
            } else {
                Some(
                    Some(
                        (
                            Metric::L2Sq,
                            words(b, off + 1, dim),
                            words(b, off + 1 + 4 * dim, dim),
                            words(b, norms, n),
                        ),
                    ),
                )
            },
            Some(Metric::NegDot) => Some(
                Some(
                    (
                        Metric::NegDot,
                        words(b, off + 1, dim),
                        words(b, off + 1 + 4 * dim, dim),
                        Seq::empty(),
                    ),
                ),
            ),
        }
    }
}

/// A curve that holds at least one pair: an empty one serves every `k` at the
/// single stamped beam.
pub open spec fn serving_curve(curve: Seq<(u32, u32)>, ef: nat) -> Seq<(u32, u32)> {
    if curve.len() == 0 {
        seq![(u32::MAX, ef as u32)]
    } else {
        curve
    }
}

/// Offset of the column name's length.
pub open spec fn name_len_at(b: Seq<u8>) -> int {
    if names_walk(field(b, 0, 8)) {
        25
    } else {
        24
    }
}

/// What the bundle `b` holds for a decode that asks for `want`, or for the
/// codec it was written for; `None` where the bytes hold no bundle.
pub open spec fn parse_bundle(b: Seq<u8>, want: Option<WalkCodec>) -> Option<BundleModel> {
    let n = field(b, 8, 8) as int;
    let dim = field(b, 16, 4) as int;
    let ef = field(b, 20, 4);
    if b.len() < 24 || !known_magic(field(b, 0, 8)) || dim == 0 || name_len_at(b) + 4 > b.len() {
        None
    } else {
        match stored_codec(b) {
            None => None,
            Some(stored) => {
                let wanted = match want {
                    Some(w) => w,
                    None => stored,
                };
                let name = name_len_at(b) + 4;
                let ids = name + field(b, name_len_at(b), 4);
                let sq16 = ids + 16 * n;
                let walk = sq16 + 2 * (n * dim);
                let glen = walk + walk_len(stored, n, dim);
                let g_at = glen + 8;
                let g_end = g_at + field(b, glen, 8);
                if g_at > b.len() || g_end > b.len() || !valid_utf8(b.subrange(name, ids)) {
                    None
                } else {
                    match (parse_graph(b.subrange(g_at, g_end)), curve_at(b, g_end)) {
                        (Some(graph), Some((curve, meta))) => match ruler_at(b, meta, n, dim) {
                            Some(ruler) => if graph.len() != n {
                                None
                            } else {
                                Some(
                                    BundleModel {
                                        scorer: Sq16Model {
                                            codes: b.subrange(sq16, walk),
                                            dim: dim as nat,
                                            len: n as nat,
                                            metric: match ruler {
                                                Some(t) => t.0,
                                                None => Metric::NegDot,
                                            },
                                            ruler: match ruler {
                                                Some(t) => Some((t.1, t.2, t.3)),
                                                None => None,
                                            },
                                        },
                                        graph,
                                        doc_ids: ids_at(b, ids, n),
                                        dim: dim as nat,
                                        ef_search: ef,
                                        ef_curve: serving_curve(curve, ef),
                                        column: decode_utf8(b.subrange(name, ids)),
                                        sq8: resident_sq8(b, sq16, walk, n, dim, stored, wanted),
                                        sq4: resident_sq4(b, walk, n, dim, stored, wanted),
                                        stored_walk: stored,
                                    },
                                )
                            },
                            None => None,
                        },
                        _ => None,
                    }
                }
            },
        }
    }
}

/// A resident index rebuilt from a bundle.
pub struct HnswIndex {
    /// The 16-bit plane every walk re-ranks its beam on.
    pub scorer: Sq16Scorer,
    pub graph: Hnsw,
    /// Stable document id of each node.
    pub doc_ids: Vec<i128>,
    pub dim: usize,
    /// Query beam stamped for `k` of 10.
    pub ef_search: usize,
    /// Ascending `(k, ef)` pairs.
    pub ef_curve: Vec<(u32, u32)>,
    /// The vector column the graph was built for.
    pub column: String,
    /// The 8-bit walk plane; empty where the walk does not use it.
    pub sq8_plane: Plane,
    /// The 4-bit walk plane, where the bundle holds one and the decode asked
    /// for it.
    pub sq4: Option<Sq4Scorer>,
    /// The codec the bundle was written for, not the one a decode asked for.
    pub stored_walk: WalkCodec,
}

impl View for HnswIndex {
    type V = BundleModel;

    open spec fn view(&self) -> BundleModel {
        BundleModel {
            scorer: self.scorer@,
            graph: self.graph@,
            doc_ids: self.doc_ids@,
            dim: self.dim as nat,
            ef_search: self.ef_search as nat,
            ef_curve: self.ef_curve@,
            column: self.column@,
            sq8: self.sq8_plane@,
            sq4: match self.sq4 {
                Some(s) => Some(s@),
                None => None,
            },
            stored_walk: self.stored_walk,
        }
    }
}

/// `String::from_utf8`: the string whose UTF-8 bytes these are, `None` where
/// they are not UTF-8.
#[verifier::external_body]
fn utf8_string(v: Vec<u8>) -> (r: Option<String>)
    ensures
        match r {
            Some(s) => valid_utf8(v@) && s@ == decode_utf8(v@),
            None => !valid_utf8(v@),
        },
{
    String::from_utf8(v).ok()
}

/// `n * per` where it fits in `left`.
fn product_within(n: usize, per: u64, left: usize) -> (r: Option<usize>)
    requires
        per <= 0x1_0000_0000_0000,
    ensures
        match r {
            Some(x) => x == n * per && x <= left,
            None => n * per > left,
        },
{
    proof {
        assert(0 <= n * per <= 0xffff_ffff_ffff_ffff * 0x1_0000_0000_0000) by (nonlinear_arith)
            requires
                0 <= n <= 0xffff_ffff_ffff_ffff,
                0 <= per <= 0x1_0000_0000_0000,
        ;
    }
    let p: u128 = (n as u128) * (per as u128);
    if p > left as u128 {
        None
    } else {
        Some(p as usize)
    }
}

/// Append the high byte of each 16-bit code.
pub fn extend_sq8_plane(out: &mut Vec<u8>, sq16_plane: &[u8])
    ensures
        final(out)@ == old(out)@ + high_bytes(sq16_plane@),
{
    let ghost start = out@;
    let half: usize = sq16_plane.len() / 2;
    let mut i: usize = 0;
    while i < half
        invariant
            i <= half,
            half == sq16_plane@.len() / 2,
            out@ == start + high_bytes(sq16_plane@).subrange(0, i as int),
        decreases half - i,
    {
        proof {
            assert(sq16_plane@.len() == sq16_plane.len());
        }
        out.push(sq16_plane[2 * i + 1]);
        i = i + 1;
        proof {
            assert(out@ =~= start + high_bytes(sq16_plane@).subrange(0, i as int));
        }
    }
    proof {
        assert(high_bytes(sq16_plane@).subrange(0, i as int) =~= high_bytes(sq16_plane@));
    }
}

/// The high byte of each 16-bit code.
pub fn derive_sq8_plane(sq16_plane: &[u8]) -> (r: Vec<u8>)
    ensures
        r@ == high_bytes(sq16_plane@),
{
    let mut out: Vec<u8> = Vec::new();
    extend_sq8_plane(&mut out, sq16_plane);
    proof {
        assert(out@ =~= high_bytes(sq16_plane@));
    }
    out
}

/// Read `n` document ids.
fn read_ids(c: &mut Cursor, n: usize) -> (r: Option<Vec<i128>>)
    requires
        old(c).wf(),
    ensures
        final(c).wf(),
        final(c).bytes() == old(c).bytes(),
        match r {
            Some(v) => old(c).at() + 16 * n <= old(c).bytes().len() && v@ == ids_at(
                old(c).bytes(),
                old(c).at(),
                n as int,
            ) && final(c).at() == old(c).at() + 16 * n,
            None => old(c).at() + 16 * n > old(c).bytes().len(),
        },
{
    if n > c.remaining() / 16 {
        return None;
    }
    let ghost b = c.bytes();
    let ghost start = c.at();
    let mut out: Vec<i128> = Vec::new();
    let mut i: usize = 0;
    while i < n
        invariant
            i <= n,
            c.wf(),
            c.bytes() == b,
            c.at() == start + 16 * i,
            start + 16 * n <= b.len(),
            out@.len() == i,
            forall|j: int| 0 <= j < i ==> #[trigger] out@[j] == ids_at(b, start, n as int)[j],
        decreases n - i,
    {
        match c.i128() {
            Some(v) => {
                proof {
                    assert((v as u128) as i128 == v) by (bit_vector);
                    assert(field(b, start + 16 * i, 16) as u128 == i128_pattern(v));
                }
                out.push(v);
            },
            None => {
                return None;
            },
        }
        i = i + 1;
    }
    proof {
        assert(out@ =~= ids_at(b, start, n as int));
    }
    Some(out)
}

/// Read the curve, or nothing where the version has none.
fn read_curve(c: &mut Cursor, present: bool) -> (r: Option<Vec<(u32, u32)>>)
    requires
        old(c).wf(),
        old(c).bytes().len() >= 8,
        present == has_curve(field(old(c).bytes(), 0, 8)),
    ensures
        final(c).wf(),
        final(c).bytes() == old(c).bytes(),
        match r {
            Some(v) => curve_at(old(c).bytes(), old(c).at()) == Some((v@, final(c).at())),
            None => curve_at(old(c).bytes(), old(c).at()) is None,
        },
{
    let ghost b = c.bytes();
    let ghost start = c.at();
    let mut out: Vec<(u32, u32)> = Vec::new();
    if !present {
        proof {
            assert(out@ =~= Seq::<(u32, u32)>::empty());
        }
        return Some(out);
    }
    let count: u16 = match c.u16() {
        Some(x) => x,
        None => {
            return None;
        },
    };
    let flat: Vec<u32> = match c.words(2 * count as usize) {
        Some(x) => x,
        None => {
            return None;
        },
    };
    let mut i: usize = 0;
    while i < count as usize
        invariant
            i <= count,
            flat@.len() == 2 * count,
            out@.len() == i,
            forall|j: int| 0 <= j < i ==> #[trigger] out@[j] == (flat@[2 * j], flat@[2 * j + 1]),
        decreases count - i,
    {
        out.push((flat[2 * i], flat[2 * i + 1]));
        i = i + 1;
    }
    proof {
        assert(out@ =~= Seq::new(count as nat, |i: int| (flat@[2 * i], flat@[2 * i + 1])));
    }
    Some(out)
}

/// The metric and the fitted ruler of a trailer.
struct Trailer {
    metric: Metric,
    scale: Vec<u32>,
    offset: Vec<u32>,
    norms: Vec<u32>,
}

/// Read the metric and the ruler, or nothing where the version has none.
fn read_ruler(c: &mut Cursor, present: bool, n: usize, dim: usize) -> (r: Option<Option<Trailer>>)
    requires
        old(c).wf(),
        old(c).bytes().len() >= 8,
        present == metric_aware(field(old(c).bytes(), 0, 8)),
        dim <= u32::MAX,
    ensures
        match r {
            Some(t) => ruler_at(old(c).bytes(), old(c).at(), n as int, dim as int) == Some(
                match t {
                    Some(x) => Some((x.metric, x.scale@, x.offset@, x.norms@)),
                    None => None,
                },
            ),
            None => ruler_at(old(c).bytes(), old(c).at(), n as int, dim as int) is None,
        },
{
    if !present {
        return Some(None);
    }
    let tag: u8 = match c.u8() {
        Some(x) => x,
        None => {
            return None;
        },
    };
    let scale: Vec<u32> = match c.words(dim) {
        Some(x) => x,
        None => {
            return None;
        },
    };
    let offset: Vec<u32> = match c.words(dim) {
        Some(x) => x,
        None => {
            return None;
        },
    };
    match metric_from_tag(tag) {
        None => None,
        Some(Metric::Cosine) => None,
        Some(Metric::L2Sq) => match c.words(n) {
            Some(norms) => Some(Some(Trailer { metric: Metric::L2Sq, scale, offset, norms })),
            None => None,
        },
        Some(Metric::NegDot) => {
            let norms: Vec<u32> = Vec::new();
            proof {
                assert(norms@ =~= Seq::<u32>::empty());
            }
            Some(Some(Trailer { metric: Metric::NegDot, scale, offset, norms }))
        },
    }
}

/// The walk planes that a decode makes resident.
struct WalkPlanes {
    sq8: Plane,
    sq4: Option<Sq4Scorer>,
}

/// Step over the walk section and keep what `want` asks for; `None` where it
/// is cut short.
#[verifier::rlimit(40)]
fn read_walk(
    bundle: &Bytes,
    c: &mut Cursor,
    sq16: &[u8],
    stored: WalkCodec,
    want: WalkCodec,
    aware: bool,
    n: usize,
    dim: usize,
) -> (r: Option<WalkPlanes>)
    requires
        old(c).wf(),
        old(c).bytes() == bytes_contents(*bundle),
        old(c).bytes().len() >= 8,
        aware == metric_aware(field(old(c).bytes(), 0, 8)),
        0 < dim <= u32::MAX,
        old(c).at() >= 2 * (n * dim),
        sq16@ == old(c).bytes().subrange(old(c).at() - 2 * (n * dim), old(c).at()),
    ensures
        final(c).wf(),
        final(c).bytes() == old(c).bytes(),
        match r {
            Some(w) => {
                let b = old(c).bytes();
                let at = old(c).at();
                &&& final(c).at() == at + walk_len(stored, n as int, dim as int)
                &&& w.sq8@ == resident_sq8(
                    b,
                    at - 2 * (n * dim),
                    at,
                    n as int,
                    dim as int,
                    stored,
                    want,
                )
                &&& resident_sq4(b, at, n as int, dim as int, stored, want) == (match w.sq4 {
                    Some(s) => Some(s@),
                    None => None,
                })
                &&& w.sq8.shared() == serves_stored_sq8(stored, want)
                &&& w.sq4 matches Some(s) ==> s.shared()
            },
            None => old(c).at() + walk_len(stored, n as int, dim as int) > old(c).bytes().len(),
        },
{
    let ghost b = c.bytes();
    let ghost at = c.at();
    let mut sq8: Plane = Plane::Owned(Vec::new());
    let mut sq4: Option<Sq4Scorer> = None;
    proof {
        assert(sq8@ =~= Seq::<u8>::empty());
    }
    let plain: bool = match want {
        WalkCodec::Sq16 => true,
        _ => false,
    };
    match stored {
        WalkCodec::Sq16 => {
            if !plain && !aware {
                sq8 = Plane::Owned(derive_sq8_plane(sq16));
            }
        },
        WalkCodec::Sq8 => {
            let size: usize = match product_within(n, dim as u64, c.remaining()) {
                Some(x) => x,
                None => {
                    return None;
                },
            };
            let start: usize = c.position();
            match c.take(size) {
                Some(_) => {},
                None => {
                    return None;
                },
            }
            if !plain {
                sq8 = Plane::Shared(shared_view(bundle, start, c.position()));
            }
        },
        _ => {
            let residual: bool = stored.with_residual();
            let stride: usize = Sq4Scorer::stride(dim);
            let rot_seed: u64 = match c.u64() {
                Some(x) => x,
                None => {
                    proof {
                        lemma_walk_len_nonneg(stored, n as int, dim as int);
                    }
                    return None;
                },
            };
            let offset: Vec<u32> = match c.words(dim) {
                Some(x) => x,
                None => {
                    proof {
                        lemma_walk_len_nonneg(stored, n as int, dim as int);
                    }
                    return None;
                },
            };
            let step: Vec<u32> = match c.words(dim) {
                Some(x) => x,
                None => {
                    proof {
                        lemma_walk_len_nonneg(stored, n as int, dim as int);
                    }
                    return None;
                },
            };
            let size: usize = match product_within(n, stride as u64, c.remaining()) {
                Some(x) => x,
                None => {
                    proof {
                        lemma_walk_len_nonneg(stored, n as int, dim as int);
                    }
                    return None;
                },
            };
            let start: usize = c.position();
            match c.take(size) {
                Some(_) => {},
                None => {
                    return None;
                },
            }
            let codes = Plane::Shared(shared_view(bundle, start, c.position()));
            let res: Option<Plane> = if residual {
                let from: usize = c.position();
                match c.take(size) {
                    Some(_) => Some(Plane::Shared(shared_view(bundle, from, c.position()))),
                    None => {
                        return None;
                    },
                }
            } else {
                None
            };
            proof {
                let m = sq4_at(b, at, n as int, dim as int, stored == WalkCodec::Sq4Residual);
                assert(codes@ == m.codes);
                assert(offset@ == m.offset);
                assert(step@ == m.step);
            }
            if want.is_sq4() {
                sq4 = Sq4Scorer::from_parts(codes, res, offset, step, rot_seed, dim, n);
                if sq4.is_none() {
                    sq8 = Plane::Owned(derive_sq8_plane(sq16));
                }
            } else if !plain {
                sq8 = Plane::Owned(derive_sq8_plane(sq16));
            }
        },
    }
    Some(WalkPlanes { sq8, sq4 })
}

proof fn lemma_walk_len_nonneg(w: WalkCodec, n: int, dim: int)
    requires
        0 <= n,
        0 <= dim,
    ensures
        walk_len(w, n, dim) >= 0,
        w.sq4() ==> walk_len(w, n, dim) >= 8 + 8 * dim + n * packed_stride(dim),
        n * dim >= 0,
        n * packed_stride(dim) >= 0,
{
    assert(n * dim >= 0) by (nonlinear_arith)
        requires
            0 <= n,
            0 <= dim,
    ;
    assert(n * packed_stride(dim) >= 0) by (nonlinear_arith)
        requires
            0 <= n,
            0 <= packed_stride(dim),
    ;
}

/// Rebuild a resident index from a bundle. `None` where the bytes hold none.
///
/// The 16-bit plane and the stored walk planes are views into the bundle: no
/// section is copied but for an 8-bit plane that has to be derived. A decode
/// that passes no `want` gets the planes the bundle was written for.
#[verifier::rlimit(60)]
pub fn decode_hnsw(bundle: &Bytes, want: Option<WalkCodec>) -> (r: Option<HnswIndex>)
    ensures
        match r {
            Some(ix) => {
                &&& parse_bundle(bytes_contents(*bundle), want) == Some(ix@)
                &&& ix.graph@.wf()
                &&& ix.scorer@.wf()
                &&& ix.scorer.shared()
                &&& ix.sq4 matches Some(s) ==> s.shared()
                &&& ix.sq8_plane.shared() == serves_stored_sq8(
                    ix.stored_walk,
                    match want {
                        Some(w) => w,
                        None => ix.stored_walk,
                    },
                )
            },
            None => parse_bundle(bytes_contents(*bundle), want) is None,
        },
{
    let bytes = shared_slice(bundle);
    let ghost b = bytes@;
    proof {
        assert(bytes@.len() == bytes.len());
    }
    if bytes.len() < 24 {
        return None;
    }
    let mut c = Cursor::new(bytes);
    let magic: u64 = match c.u64() {
        Some(x) => x,
        None => {
            return None;
        },
    };
    let n64: u64 = match c.u64() {
        Some(x) => x,
        None => {
            return None;
        },
    };
    let dim32: u32 = match c.u32() {
        Some(x) => x,
        None => {
            return None;
        },
    };
    let ef: u32 = match c.u32() {
        Some(x) => x,
        None => {
            return None;
        },
    };
    let tagged: bool = magic == HNSW_DATA_MAGIC_V5 || magic == HNSW_DATA_MAGIC_V6;
    let aware: bool = magic == HNSW_DATA_MAGIC_V6;
    let curved: bool = tagged || magic == HNSW_DATA_MAGIC_V4;
    if !curved && magic != HNSW_DATA_MAGIC_V3 && magic != HNSW_DATA_MAGIC_V2 {
        return None;
    }
    if dim32 == 0 {
        return None;
    }
    let stored: WalkCodec = if tagged {
        let tag: u8 = match c.u8() {
            Some(x) => x,
            None => {
                return None;
            },
        };
        match WalkCodec::from_tag(tag) {
            Some(w) => w,
            None => {
                return None;
            },
        }
    } else if magic == HNSW_DATA_MAGIC_V2 {
        WalkCodec::Sq16
    } else {
        WalkCodec::Sq8
    };
    let wanted: WalkCodec = match want {
        Some(w) => w,
        None => stored,
    };
    let name_len: u32 = match c.u32() {
        Some(x) => x,
        None => {
            return None;
        },
    };
    let ghost gn = n64 as int;
    let ghost gd = dim32 as int;
    let ghost name_at = c.at();
    proof {
        assert(stored_codec(b) == Some(stored));
        assert(name_at == name_len_at(b) + 4);
        lemma_walk_len_nonneg(stored, gn, gd);
    }
    if n64 > usize::MAX as u64 {
        return None;
    }
    let n: usize = n64 as usize;
    let dim: usize = dim32 as usize;
    let name = match c.take(name_len as usize) {
        Some(x) => x,
        None => {
            return None;
        },
    };
    let ghost ids_from = c.at();
    let mut name_copy: Vec<u8> = Vec::new();
    put_slice(&mut name_copy, name);
    proof {
        assert(name_copy@ =~= b.subrange(name_at, ids_from));
    }
    let column: String = match utf8_string(name_copy) {
        Some(x) => x,
        None => {
            return None;
        },
    };
    let doc_ids: Vec<i128> = match read_ids(&mut c, n) {
        Some(x) => x,
        None => {
            return None;
        },
    };
    let sq16_start: usize = c.position();
    proof {
        assert(n * (2 * dim) == 2 * (n * dim)) by (nonlinear_arith);
    }
    let sq16_len: usize = match product_within(n, 2 * dim as u64, c.remaining()) {
        Some(x) => x,
        None => {
            return None;
        },
    };
    let sq16 = match c.take(sq16_len) {
        Some(x) => x,
        None => {
            return None;
        },
    };
    let sq16_plane = Plane::Shared(shared_view(bundle, sq16_start, c.position()));
    let ghost walk_from = c.at();
    let planes = match read_walk(bundle, &mut c, sq16, stored, wanted, aware, n, dim) {
        Some(x) => x,
        None => {
            return None;
        },
    };
    let graph_len: u64 = match c.u64() {
        Some(x) => x,
        None => {
            return None;
        },
    };
    let ghost graph_from = c.at();
    if graph_len > c.remaining() as u64 {
        return None;
    }
    let graph_slice = match c.take(graph_len as usize) {
        Some(x) => x,
        None => {
            return None;
        },
    };
    let ghost graph_end = c.at();
    let graph = match Hnsw::from_bytes(graph_slice) {
        Some(x) => x,
        None => {
            return None;
        },
    };
    let mut ef_curve: Vec<(u32, u32)> = match read_curve(&mut c, curved) {
        Some(x) => x,
        None => {
            return None;
        },
    };
    let trailer = match read_ruler(&mut c, aware, n, dim) {
        Some(x) => x,
        None => {
            return None;
        },
    };
    if graph.len() != n {
        return None;
    }
    if ef_curve.len() == 0 {
        ef_curve.push((u32::MAX, ef));
        proof {
            assert(ef_curve@ =~= seq![(u32::MAX, ef)]);
        }
    }
    let scorer = match trailer {
        Some(t) => Sq16Scorer::from_adaptive_plane(
            sq16_plane,
            dim,
            n,
            t.metric,
            t.scale,
            t.offset,
            t.norms,
        ),
        None => Sq16Scorer::from_plane(sq16_plane, dim, n),
    };
    Some(
        HnswIndex {
            scorer,
            graph,
            doc_ids,
            dim,
            ef_search: ef as usize,
            ef_curve,
            column,
            sq8_plane: planes.sq8,
            sq4: planes.sq4,
            stored_walk: stored,
        },
    )
}

// ---------------- writing ----------------

/// What goes into a bundle.
#[verifier::ext_equal]
pub struct BundleParts {
    pub sq16: Seq<u8>,
    pub doc_ids: Seq<i128>,
    pub graph: GraphModel,
    pub dim: nat,
    pub ef_search: nat,
    pub ef_curve: Seq<(u32, u32)>,
    pub column: Seq<char>,
    pub walk: WalkCodec,
    pub sq4: Option<Sq4Model>,
    pub metric: Metric,
    pub ruler: Option<(Seq<u32>, Seq<u32>)>,
    pub norms: Seq<u32>,
}

impl BundleParts {
    /// The sections describe the same rows: one id and one row of codes per
    /// graph node, a 4-bit plane exactly where the codec names it, and a ruler
    /// and norms of the right size.
    pub open spec fn wf(self) -> bool {
        let n = self.doc_ids.len();
        &&& self.graph.wf()
        &&& self.graph.len() == n
        &&& n <= u32::MAX
        &&& self.sq16.len() == 2 * (n * self.dim)
        &&& self.walk.sq4() == (self.sq4 is Some)
        &&& self.sq4 matches Some(p) ==> {
            &&& p.offset.len() == self.dim
            &&& p.step.len() == self.dim
            &&& p.codes.len() == n * packed_stride(self.dim as int)
            &&& (p.residual is Some) == (self.walk == WalkCodec::Sq4Residual)
            &&& p.residual matches Some(r) ==> r.len() == n * packed_stride(self.dim as int)
        }
        &&& self.ruler matches Some((scale, offset)) ==> {
            &&& self.metric != Metric::Cosine
            &&& scale.len() == self.dim
            &&& offset.len() == self.dim
        }
        &&& self.norms.len() == (if self.ruler is Some && self.metric == Metric::L2Sq {
            n
        } else {
            0
        })
    }
}

pub open spec fn id_bytes(ids: Seq<i128>) -> Seq<u8>
    decreases ids.len(),
{
    if ids.len() == 0 {
        Seq::empty()
    } else {
        id_bytes(ids.drop_last()) + le_bytes(i128_pattern(ids.last()) as nat, 16)
    }
}

/// A 4-bit section.
pub open spec fn sq4_bytes(s: Sq4Model) -> Seq<u8> {
    le_bytes(s.rot_seed as nat, 8) + word_bytes(s.offset) + word_bytes(s.step) + s.codes + (
    match s.residual {
        Some(r) => r,
        None => Seq::empty(),
    })
}

/// The walk section.
pub open spec fn walk_bytes(p: BundleParts) -> Seq<u8> {
    match p.walk {
        WalkCodec::Sq16 => Seq::empty(),
        WalkCodec::Sq8 => high_bytes(p.sq16),
        _ => match p.sq4 {
            None => Seq::empty(),
            Some(s) => sq4_bytes(s),
        },
    }
}

/// The pairs of a curve as a run of words.
pub open spec fn curve_words(curve: Seq<(u32, u32)>) -> Seq<u32> {
    Seq::new(
        2 * curve.len(),
        |i: int|
            if i % 2 == 0 {
                curve[i / 2].0
            } else {
                curve[i / 2].1
            },
    )
}

/// The metric and the ruler, where there is one.
pub open spec fn trailer_for(
    metric: Metric,
    ruler: Option<(Seq<u32>, Seq<u32>)>,
    norms: Seq<u32>,
) -> Seq<u8> {
    match ruler {
        None => Seq::empty(),
        Some((scale, offset)) => le_bytes(metric_tag_of(metric) as nat, 1) + word_bytes(scale)
            + word_bytes(offset) + word_bytes(norms),
    }
}

/// The graph with its length in front.
pub open spec fn graph_section(g: GraphModel) -> Seq<u8> {
    le_bytes(graph_bytes(g).len(), 8) + graph_bytes(g)
}

/// The curve with its pair count in front.
pub open spec fn curve_section(curve: Seq<(u32, u32)>) -> Seq<u8> {
    le_bytes(curve.len(), 2) + word_bytes(curve_words(curve))
}

pub open spec fn magic_for(p: BundleParts) -> u64 {
    if p.ruler is Some {
        HNSW_DATA_MAGIC_V6
    } else {
        HNSW_DATA_MAGIC_V5
    }
}

/// Everything in front of the document ids.
pub open spec fn head_bytes(p: BundleParts) -> Seq<u8> {
    le_bytes(magic_for(p) as nat, 8) + le_bytes(p.doc_ids.len(), 8) + le_bytes(p.dim, 4) + le_bytes(
        p.ef_search,
        4,
    ) + le_bytes(walk_tag(p.walk) as nat, 1) + le_bytes(encode_utf8(p.column).len(), 4)
        + encode_utf8(p.column)
}

/// Everything behind the walk section.
pub open spec fn tail_bytes(p: BundleParts) -> Seq<u8> {
    graph_section(p.graph) + curve_section(p.ef_curve) + trailer_for(p.metric, p.ruler, p.norms)
}

/// The stored form of a bundle.
pub open spec fn bundle_bytes(p: BundleParts) -> Seq<u8> {
    head_bytes(p) + id_bytes(p.doc_ids) + p.sq16 + walk_bytes(p) + tail_bytes(p)
}

/// Append document ids.
fn put_ids(out: &mut Vec<u8>, ids: &Vec<i128>)
    ensures
        final(out)@ == old(out)@ + id_bytes(ids@),
{
    let ghost start = out@;
    let mut i: usize = 0;
    proof {
        assert(ids@.subrange(0, 0) =~= Seq::<i128>::empty());
        assert(start + id_bytes(ids@.subrange(0, 0)) =~= start);
    }
    while i < ids.len()
        invariant
            i <= ids.len(),
            out@ == start + id_bytes(ids@.subrange(0, i as int)),
        decreases ids.len() - i,
    {
        put_i128(out, ids[i]);
        i = i + 1;
        proof {
            let t = ids@.subrange(0, i as int);
            assert(t.drop_last() =~= ids@.subrange(0, i - 1));
            assert(out@ =~= start + id_bytes(t));
        }
    }
    proof {
        assert(ids@.subrange(0, i as int) =~= ids@);
    }
}

/// The bytes of the first pairs of a curve grow by the two words of the next
/// pair.
proof fn lemma_curve_step(curve: Seq<(u32, u32)>, i: int)
    requires
        0 <= i < curve.len(),
    ensures
        ({
            let all = curve_words(curve);
            word_bytes(all.subrange(0, 2 * (i + 1))) == word_bytes(all.subrange(0, 2 * i))
                + le_bytes(curve[i].0 as nat, 4) + le_bytes(curve[i].1 as nat, 4)
        }),
{
    let all = curve_words(curve);
    let t0 = all.subrange(0, 2 * i);
    let t1 = all.subrange(0, 2 * i + 1);
    let t2 = all.subrange(0, 2 * (i + 1));
    assert(t1.drop_last() =~= t0);
    assert(t2.drop_last() =~= t1);
    assert(all[2 * i] == curve[i].0 && all[2 * i + 1] == curve[i].1);
    assert(word_bytes(t1) == word_bytes(t0) + le_bytes(curve[i].0 as nat, 4));
    assert(word_bytes(t2) == word_bytes(t1) + le_bytes(curve[i].1 as nat, 4));
}

/// Append the pairs of a curve.
fn put_curve(out: &mut Vec<u8>, curve: &Vec<(u32, u32)>)
    ensures
        final(out)@ == old(out)@ + word_bytes(curve_words(curve@)),
{
    let ghost start = out@;
    let ghost all = curve_words(curve@);
    let mut i: usize = 0;
    proof {
        assert(all.subrange(0, 0) =~= Seq::<u32>::empty());
        assert(start + word_bytes(all.subrange(0, 0)) =~= start);
    }
    while i < curve.len()
        invariant
            i <= curve.len(),
            all == curve_words(curve@),
            out@ == start + word_bytes(all.subrange(0, 2 * i)),
        decreases curve.len() - i,
    {
        let pair: (u32, u32) = curve[i];
        put_u32(out, pair.0);
        put_u32(out, pair.1);
        i = i + 1;
        proof {
            lemma_curve_step(curve@, i - 1);
            assert(out@ =~= start + word_bytes(all.subrange(0, 2 * i)));
        }
    }
    proof {
        assert(all.subrange(0, 2 * i) =~= all);
    }
}

/// Append everything in front of the document ids.
fn put_head(
    out: &mut Vec<u8>,
    magic: u64,
    n: usize,
    dim: usize,
    ef_search: usize,
    walk: WalkCodec,
    column: &str,
)
    ensures
        final(out)@ == old(out)@ + (le_bytes(magic as nat, 8) + le_bytes(n as nat, 8) + le_bytes(
            dim as nat,
            4,
        ) + le_bytes(ef_search as nat, 4) + le_bytes(walk_tag(walk) as nat, 1) + le_bytes(
            encode_utf8(column@).len(),
            4,
        ) + encode_utf8(column@)),
{
    let ghost start = out@;
    let col = column.as_bytes();
    put_u64(out, magic);
    put_u64(out, n as u64);
    put_le(out, dim as u128, 4);
    put_le(out, ef_search as u128, 4);
    put_le(out, walk.tag() as u128, 1);
    put_le(out, col.len() as u128, 4);
    put_slice(out, col);
    proof {
        assert(out@ =~= start + (le_bytes(magic as nat, 8) + le_bytes(n as nat, 8) + le_bytes(
            dim as nat,
            4,
        ) + le_bytes(ef_search as nat, 4) + le_bytes(walk_tag(walk) as nat, 1) + le_bytes(
            encode_utf8(column@).len(),
            4,
        ) + encode_utf8(column@)));
    }
}

/// Append a 4-bit section: seed and ruler first, then the planes.
fn put_sq4(out: &mut Vec<u8>, s: &Sq4Scorer)
    ensures
        final(out)@ == old(out)@ + sq4_bytes(s@),
{
    let ghost start = out@;
    put_u64(out, s.rot_seed());
    put_words(out, s.offset());
    put_words(out, s.step());
    put_slice(out, s.codes());
    match s.residual() {
        Some(res) => {
            put_slice(out, res);
        },
        None => {},
    }
    proof {
        assert(out@ =~= start + sq4_bytes(s@));
    }
}

/// Append the graph with its length, the curve with its pair count, and the
/// trailer where there is a ruler.
fn put_tail(
    out: &mut Vec<u8>,
    graph: &Hnsw,
    ef_curve: &Vec<(u32, u32)>,
    metric: Metric,
    ruler: Option<(&Vec<u32>, &Vec<u32>)>,
    norms: &Vec<u32>,
)
    requires
        graph@.wf(),
        graph@.len() <= u32::MAX,
    ensures
        final(out)@ == old(out)@ + (graph_section(graph@) + curve_section(ef_curve@) + trailer_for(
            metric,
            match ruler {
                Some((s, o)) => Some((s@, o@)),
                None => None,
            },
            norms@,
        )),
{
    let ghost start = out@;
    let section: Vec<u8> = graph.to_bytes();
    put_u64(out, section.len() as u64);
    put_slice(out, section.as_slice());
    let ghost gs = graph_section(graph@);
    let ghost cs = curve_section(ef_curve@);
    proof {
        lemma_concat_assoc(start, le_bytes(section@.len(), 8), section@);
        assert(out@ == start + gs);
    }
    put_le(out, ef_curve.len() as u128, 2);
    put_curve(out, ef_curve);
    proof {
        lemma_concat_assoc(
            start + gs,
            le_bytes(ef_curve@.len(), 2),
            word_bytes(curve_words(ef_curve@)),
        );
        lemma_concat_assoc(start, gs, cs);
        assert(out@ == start + (gs + cs));
    }
    let ghost with_curve = out@;
    match ruler {
        Some((scale, offset)) => {
            put_le(out, metric_tag(metric) as u128, 1);
            put_words(out, scale);
            put_words(out, offset);
            put_words(out, norms);
            proof {
                let tag = le_bytes(metric_tag_of(metric) as nat, 1);
                let ws = word_bytes(scale@);
                let wo = word_bytes(offset@);
                lemma_concat_assoc(with_curve, tag, ws);
                lemma_concat_assoc(with_curve, tag + ws, wo);
                lemma_concat_assoc(with_curve, tag + ws + wo, word_bytes(norms@));
                assert(out@ == with_curve + trailer_for(metric, Some((scale@, offset@)), norms@));
            }
        },
        None => {
            proof {
                assert(out@ =~= with_curve + trailer_for(metric, None, norms@));
            }
        },
    }
    proof {
        let t = trailer_for(
            metric,
            match ruler {
                Some((s, o)) => Some((s@, o@)),
                None => None,
            },
            norms@,
        );
        lemma_concat_assoc(start, gs + cs, t);
    }
}

/// Serialize an index to a bundle. Only the walk section that the codec needs
/// is written; a ruler makes the bundle metric-aware.
pub fn encode_hnsw(
    sq16_codes: &[u8],
    doc_ids: &Vec<i128>,
    graph: &Hnsw,
    dim: usize,
    ef_search: usize,
    ef_curve: &Vec<(u32, u32)>,
    column: &str,
    walk: WalkCodec,
    sq4: Option<&Sq4Scorer>,
    metric: Metric,
    ruler: Option<(&Vec<u32>, &Vec<u32>)>,
    norms: &Vec<u32>,
) -> (r: Vec<u8>)
    requires
        (BundleParts {
            sq16: sq16_codes@,
            doc_ids: doc_ids@,
            graph: graph@,
            dim: dim as nat,
            ef_search: ef_search as nat,
            ef_curve: ef_curve@,
            column: column@,
            walk,
            sq4: match sq4 {
                Some(s) => Some(s@),
                None => None,
            },
            metric,
            ruler: match ruler {
                Some((s, o)) => Some((s@, o@)),
                None => None,
            },
            norms: norms@,
        }).wf(),
    ensures
        r@ == bundle_bytes(
            (BundleParts {
                sq16: sq16_codes@,
                doc_ids: doc_ids@,
                graph: graph@,
                dim: dim as nat,
                ef_search: ef_search as nat,
                ef_curve: ef_curve@,
                column: column@,
                walk,
                sq4: match sq4 {
                    Some(s) => Some(s@),
                    None => None,
                },
                metric,
                ruler: match ruler {
                    Some((s, o)) => Some((s@, o@)),
                    None => None,
                },
                norms: norms@,
            }),
        ),
{
    let ghost p = BundleParts {
        sq16: sq16_codes@,
        doc_ids: doc_ids@,
        graph: graph@,
        dim: dim as nat,
        ef_search: ef_search as nat,
        ef_curve: ef_curve@,
        column: column@,
        walk,
        sq4: match sq4 {
            Some(s) => Some(s@),
            None => None,
        },
        metric,
        ruler: match ruler {
            Some((s, o)) => Some((s@, o@)),
            None => None,
        },
        norms: norms@,
    };
    let magic: u64 = if ruler.is_some() {
        HNSW_DATA_MAGIC_V6
    } else {
        HNSW_DATA_MAGIC_V5
    };
    let mut out: Vec<u8> = Vec::new();
    put_head(&mut out, magic, doc_ids.len(), dim, ef_search, walk, column);
    proof {
        assert(out@ =~= head_bytes(p));
    }
    put_ids(&mut out, doc_ids);
    put_slice(&mut out, sq16_codes);
    let ghost mid = out@;
    match walk {
        WalkCodec::Sq16 => {},
        WalkCodec::Sq8 => {
            extend_sq8_plane(&mut out, sq16_codes);
        },
        _ => {
            match sq4 {
                Some(s) => {
                    put_sq4(&mut out, s);
                },
                None => {},
            }
        },
    }
    proof {
        assert(out@ =~= mid + walk_bytes(p));
    }
    put_tail(&mut out, graph, ef_curve, metric, ruler, norms);
    out
}

// ---------------- reading back what was written ----------------

proof fn lemma_field_in(b: Seq<u8>, lo: int, hi: int, i: int, w: int)
    requires
        0 <= lo <= hi <= b.len(),
        0 <= i,
        0 <= w,
        i + w <= hi - lo,
    ensures
        field(b, lo + i, w) == field(b.subrange(lo, hi), i, w),
{
    assert(b.subrange(lo + i, lo + i + w) =~= b.subrange(lo, hi).subrange(i, i + w));
}

proof fn lemma_words_in(b: Seq<u8>, lo: int, hi: int, i: int, n: int)
    requires
        0 <= lo <= hi <= b.len(),
        0 <= i,
        0 <= n,
        i + 4 * n <= hi - lo,
    ensures
        words(b, lo + i, n) == words(b.subrange(lo, hi), i, n),
{
    assert forall|j: int| 0 <= j < n implies #[trigger] words(b, lo + i, n)[j] == words(
        b.subrange(lo, hi),
        i,
        n,
    )[j] by {
        lemma_field_in(b, lo, hi, i + 4 * j, 4);
    }
    assert(words(b, lo + i, n) =~= words(b.subrange(lo, hi), i, n));
}

/// A little-endian field in the middle of a buffer reads back.
proof fn lemma_field_between(pre: Seq<u8>, x: nat, w: nat, post: Seq<u8>)
    requires
        x < crate::wire::pow256(w),
    ensures
        field(pre + le_bytes(x, w) + post, pre.len() as int, w as int) == x,
{
    let b = pre + le_bytes(x, w) + post;
    lemma_le_bytes_len(x, w);
    assert(b.subrange(pre.len() as int, (pre.len() + w) as int) =~= le_bytes(x, w));
    lemma_field_of_bytes(b, pre.len() as int, x, w);
}

/// A run of words in the middle of a buffer reads back.
proof fn lemma_words_between(pre: Seq<u8>, s: Seq<u32>, post: Seq<u8>)
    ensures
        words(pre + word_bytes(s) + post, pre.len() as int, s.len() as int) == s,
{
    let b = pre + word_bytes(s) + post;
    lemma_word_bytes_len(s);
    assert(b.subrange(pre.len() as int, (pre.len() + 4 * s.len()) as int) =~= word_bytes(s));
    lemma_words_read_back(b, pre.len() as int, s);
}

proof fn lemma_id_bytes_len(ids: Seq<i128>)
    ensures
        id_bytes(ids).len() == 16 * ids.len(),
    decreases ids.len(),
{
    if ids.len() > 0 {
        lemma_id_bytes_len(ids.drop_last());
        lemma_le_bytes_len(i128_pattern(ids.last()) as nat, 16);
    }
}

proof fn lemma_ids_read_back(ids: Seq<i128>)
    ensures
        ids_at(id_bytes(ids), 0, ids.len() as int) == ids,
    decreases ids.len(),
{
    let b = id_bytes(ids);
    lemma_id_bytes_len(ids);
    let got = ids_at(b, 0, ids.len() as int);
    if ids.len() > 0 {
        let d = ids.drop_last();
        let k = d.len() as int;
        let last = ids.last();
        lemma_id_bytes_len(d);
        lemma_ids_read_back(d);
        assert(b.subrange(0, 16 * k) =~= id_bytes(d));
        assert forall|i: int| 0 <= i < ids.len() implies #[trigger] got[i] == ids[i] by {
            if i < k {
                lemma_field_in(b, 0, 16 * k, 16 * i, 16);
                assert(ids_at(id_bytes(d), 0, k)[i] == d[i]);
            } else {
                lemma_pow256_values();
                let x = i128_pattern(last) as nat;
                lemma_field_between(id_bytes(d), x, 16, Seq::empty());
                assert(b =~= id_bytes(d) + le_bytes(x, 16) + Seq::<u8>::empty());
                assert((last as u128) as i128 == last) by (bit_vector);
            }
        }
    }
    assert(got =~= ids);
}

proof fn lemma_ids_in(b: Seq<u8>, lo: int, ids: Seq<i128>)
    requires
        0 <= lo,
        lo + 16 * ids.len() <= b.len(),
        b.subrange(lo, lo + 16 * ids.len()) == id_bytes(ids),
    ensures
        ids_at(b, lo, ids.len() as int) == ids,
{
    let n = ids.len() as int;
    lemma_ids_read_back(ids);
    assert forall|i: int| 0 <= i < n implies #[trigger] ids_at(b, lo, n)[i] == ids[i] by {
        lemma_field_in(b, lo, lo + 16 * n, 16 * i, 16);
        assert(ids_at(id_bytes(ids), 0, n)[i] == ids[i]);
    }
    assert(ids_at(b, lo, n) =~= ids);
}

/// A 4-bit section reads back.
proof fn lemma_sq4_read_back(b: Seq<u8>, lo: int, m: Sq4Model, n: int, dim: int)
    requires
        0 <= n,
        0 <= dim,
        m.offset.len() == dim,
        m.step.len() == dim,
        m.codes.len() == n * packed_stride(dim),
        m.residual matches Some(r) ==> r.len() == n * packed_stride(dim),
        m.dim == dim,
        m.len == n,
        0 <= lo,
        lo + sq4_bytes(m).len() <= b.len(),
        b.subrange(lo, lo + sq4_bytes(m).len()) == sq4_bytes(m),
    ensures
        sq4_bytes(m).len() == walk_len(
            if m.residual is Some {
                WalkCodec::Sq4Residual
            } else {
                WalkCodec::Sq4
            },
            n,
            dim,
        ),
        sq4_at(b, lo, n, dim, m.residual is Some) == m,
{
    let s = sq4_bytes(m);
    let size = n * packed_stride(dim);
    let seed = le_bytes(m.rot_seed as nat, 8);
    let off = word_bytes(m.offset);
    let stp = word_bytes(m.step);
    let res = match m.residual {
        Some(r) => r,
        None => Seq::empty(),
    };
    lemma_pow256_values();
    lemma_le_bytes_len(m.rot_seed as nat, 8);
    lemma_word_bytes_len(m.offset);
    lemma_word_bytes_len(m.step);
    let hi = lo + s.len();
    assert(s.len() == 8 + 8 * dim + size + res.len());
    let planes = m.codes + res;
    let rest = stp + planes;
    lemma_concat_assoc(seed + off + stp, m.codes, res);
    lemma_concat_assoc(seed + off, stp, planes);
    lemma_concat_assoc(seed, off, rest);
    assert(s == seed + (off + rest));
    assert(Seq::<u8>::empty() + seed =~= seed);
    lemma_field_between(Seq::empty(), m.rot_seed as nat, 8, off + rest);
    lemma_field_in(b, lo, hi, 0, 8);
    lemma_words_between(seed, m.offset, rest);
    lemma_words_in(b, lo, hi, 8, dim);
    lemma_words_between(seed + off, m.step, planes);
    lemma_words_in(b, lo, hi, 8 + 4 * dim, dim);
    let got = sq4_at(b, lo, n, dim, m.residual is Some);
    lemma_two_planes(b, lo, hi, seed + off + stp, m.codes, res);
    if m.residual is None {
        assert(got.residual == m.residual);
    }
    assert(got.codes == m.codes);
    assert(got =~= m);
}

/// Two runs that end a section stand where its front says.
proof fn lemma_two_planes(
    b: Seq<u8>,
    lo: int,
    hi: int,
    front: Seq<u8>,
    x: Seq<u8>,
    y: Seq<u8>,
)
    requires
        0 <= lo <= hi <= b.len(),
        b.subrange(lo, hi) == front + x + y,
    ensures
        b.subrange(lo + front.len(), lo + front.len() + x.len()) == x,
        b.subrange(lo + front.len() + x.len(), lo + front.len() + x.len() + y.len()) == y,
{
    let s = b.subrange(lo, hi);
    let i = front.len() as int;
    let j = i + x.len();
    let k = j + y.len();
    assert(s.len() == k);
    assert(b.subrange(lo + i, lo + j) =~= s.subrange(i, j));
    assert(s.subrange(i, j) =~= x);
    assert(b.subrange(lo + j, lo + k) =~= s.subrange(j, k));
    assert(s.subrange(j, k) =~= y);
}

/// What a decode of the written bundle for `want` gives.
pub open spec fn decoded(p: BundleParts, want: Option<WalkCodec>) -> BundleModel {
    let wanted = match want {
        Some(w) => w,
        None => p.walk,
    };
    let sq4 = if wanted.sq4() && p.walk.sq4() && p.sq4->0.wf() {
        p.sq4
    } else {
        None
    };
    BundleModel {
        scorer: Sq16Model {
            codes: p.sq16,
            dim: p.dim,
            len: p.doc_ids.len(),
            metric: if p.ruler is Some {
                p.metric
            } else {
                Metric::NegDot
            },
            ruler: match p.ruler {
                Some((s, o)) => Some((s, o, p.norms)),
                None => None,
            },
        },
        graph: p.graph,
        doc_ids: p.doc_ids,
        dim: p.dim,
        ef_search: p.ef_search,
        ef_curve: serving_curve(p.ef_curve, p.ef_search),
        column: p.column,
        sq8: if wanted == WalkCodec::Sq16 || sq4 is Some || (p.walk == WalkCodec::Sq16
            && p.ruler is Some) {
            Seq::empty()
        } else {
            high_bytes(p.sq16)
        },
        sq4,
        stored_walk: p.walk,
    }
}

/// Parts whose every number fits its field.
pub open spec fn bundle_storable(p: BundleParts) -> bool {
    &&& p.wf()
    &&& storable(p.graph)
    &&& graph_bytes(p.graph).len() <= u64::MAX
    &&& 0 < p.dim <= u32::MAX
    &&& p.ef_search <= u32::MAX
    &&& p.ef_curve.len() <= u16::MAX
    &&& encode_utf8(p.column).len() <= u32::MAX
    &&& p.sq4 matches Some(s) ==> s.dim == p.dim && s.len == p.doc_ids.len()
}

/// The fields of the header read back.
proof fn lemma_head_read_back(p: BundleParts, rest: Seq<u8>)
    requires
        bundle_storable(p),
    ensures
        ({
            let b = head_bytes(p) + rest;
            let name = encode_utf8(p.column);
            &&& field(b, 0, 8) == magic_for(p)
            &&& field(b, 8, 8) == p.doc_ids.len()
            &&& field(b, 16, 4) == p.dim
            &&& field(b, 20, 4) == p.ef_search
            &&& field(b, 24, 1) == walk_tag(p.walk)
            &&& field(b, 25, 4) == name.len()
            &&& head_bytes(p).len() == 29 + name.len()
            &&& b.subrange(29, (29 + name.len()) as int) == name
        }),
{
    lemma_pow256_values();
    let name = encode_utf8(p.column);
    let b = head_bytes(p) + rest;
    let f0 = le_bytes(magic_for(p) as nat, 8);
    let f1 = le_bytes(p.doc_ids.len(), 8);
    let f2 = le_bytes(p.dim, 4);
    let f3 = le_bytes(p.ef_search, 4);
    let f4 = le_bytes(walk_tag(p.walk) as nat, 1);
    let f5 = le_bytes(name.len(), 4);
    lemma_le_bytes_len(magic_for(p) as nat, 8);
    lemma_le_bytes_len(p.doc_ids.len(), 8);
    lemma_le_bytes_len(p.dim, 4);
    lemma_le_bytes_len(p.ef_search, 4);
    lemma_le_bytes_len(walk_tag(p.walk) as nat, 1);
    lemma_le_bytes_len(name.len(), 4);
    assert(b.subrange(0, 8) =~= f0);
    lemma_field_of_bytes(b, 0, magic_for(p) as nat, 8);
    assert(b.subrange(8, 16) =~= f1);
    lemma_field_of_bytes(b, 8, p.doc_ids.len(), 8);
    assert(b.subrange(16, 20) =~= f2);
    lemma_field_of_bytes(b, 16, p.dim, 4);
    assert(b.subrange(20, 24) =~= f3);
    lemma_field_of_bytes(b, 20, p.ef_search, 4);
    assert(b.subrange(24, 25) =~= f4);
    lemma_field_of_bytes(b, 24, walk_tag(p.walk) as nat, 1);
    assert(b.subrange(25, 29) =~= f5);
    lemma_field_of_bytes(b, 25, name.len(), 4);
    assert(b.subrange(29, (29 + name.len()) as int) =~= name);
}

/// The curve reads back.
proof fn lemma_curve_read_back(b: Seq<u8>, lo: int, curve: Seq<(u32, u32)>)
    requires
        has_curve(field(b, 0, 8)),
        curve.len() <= u16::MAX,
        0 <= lo,
        lo + curve_section(curve).len() <= b.len(),
        b.subrange(lo, lo + curve_section(curve).len()) == curve_section(curve),
    ensures
        curve_section(curve).len() == 2 + 8 * curve.len(),
        curve_at(b, lo) == Some((curve, (lo + 2 + 8 * curve.len()) as int)),
{
    let s = curve_section(curve);
    let n = curve.len();
    let flat = curve_words(curve);
    let hi = lo + s.len();
    lemma_pow256_values();
    lemma_le_bytes_len(n, 2);
    lemma_word_bytes_len(flat);
    assert(s =~= Seq::<u8>::empty() + le_bytes(n, 2) + word_bytes(flat));
    lemma_field_between(Seq::empty(), n, 2, word_bytes(flat));
    lemma_field_in(b, lo, hi, 0, 2);
    assert(s =~= le_bytes(n, 2) + word_bytes(flat) + Seq::<u8>::empty());
    lemma_words_between(le_bytes(n, 2), flat, Seq::empty());
    lemma_words_in(b, lo, hi, 2, 2 * n as int);
    let got = words(b, lo + 2, 2 * n as int);
    assert(got == flat);
    assert(Seq::new(n, |i: int| (got[2 * i], got[2 * i + 1])) =~= curve) by {
        assert forall|i: int| 0 <= i < n implies (got[2 * i], got[2 * i + 1]) == #[trigger] curve[i] by {
            assert(flat[2 * i] == curve[i].0);
            assert(flat[2 * i + 1] == curve[i].1);
        }
    }
}

/// The trailer reads back.
proof fn lemma_trailer_read_back(b: Seq<u8>, lo: int, p: BundleParts)
    requires
        bundle_storable(p),
        field(b, 0, 8) == magic_for(p),
        0 <= lo,
        lo + trailer_for(p.metric, p.ruler, p.norms).len() == b.len(),
        b.subrange(lo, b.len() as int) == trailer_for(p.metric, p.ruler, p.norms),
    ensures
        trailer_for(p.metric, p.ruler, p.norms).len() == trailer_len(p),
        ruler_at(b, lo, p.doc_ids.len() as int, p.dim as int) == Some(
            match p.ruler {
                Some((s, o)) => Some((p.metric, s, o, p.norms)),
                None => None,
            },
        ),
{
    let s = trailer_for(p.metric, p.ruler, p.norms);
    let hi = b.len() as int;
    let dim = p.dim as int;
    if let Some((scale, offset)) = p.ruler {
        let tag = le_bytes(metric_tag_of(p.metric) as nat, 1);
        lemma_pow256_values();
        lemma_le_bytes_len(metric_tag_of(p.metric) as nat, 1);
        lemma_word_bytes_len(scale);
        lemma_word_bytes_len(offset);
        lemma_word_bytes_len(p.norms);
        let ws = word_bytes(scale);
        let wo = word_bytes(offset);
        let wn = word_bytes(p.norms);
        assert(s =~= Seq::<u8>::empty() + tag + (ws + wo + wn));
        lemma_field_between(Seq::empty(), metric_tag_of(p.metric) as nat, 1, ws + wo + wn);
        lemma_field_in(b, lo, hi, 0, 1);
        assert(s =~= tag + ws + (wo + wn));
        lemma_words_between(tag, scale, wo + wn);
        lemma_words_in(b, lo, hi, 1, dim);
        assert(s =~= (tag + ws) + wo + wn);
        lemma_words_between(tag + ws, offset, wn);
        lemma_words_in(b, lo, hi, 1 + 4 * dim, dim);
        assert(s =~= (tag + ws + wo) + wn + Seq::<u8>::empty());
        lemma_words_between(tag + ws + wo, p.norms, Seq::empty());
        lemma_words_in(b, lo, hi, 1 + 8 * dim, p.norms.len() as int);
        if p.metric == Metric::NegDot {
            assert(p.norms =~= Seq::<u32>::empty());
        }
    }
}

/// Where the sections of a written bundle stand and what they read as.
spec fn sections_ok(b: Seq<u8>, p: BundleParts) -> bool {
    let n = p.doc_ids.len() as int;
    let dim = p.dim as int;
    let a_ids = 29 + encode_utf8(p.column).len() as int;
    let a_sq16 = a_ids + 16 * n;
    let a_walk = a_sq16 + 2 * (n * dim);
    let a_glen = a_walk + walk_len(p.walk, n, dim);
    let a_graph = a_glen + 8;
    let a_curve = a_graph + graph_bytes(p.graph).len();
    let a_meta = a_curve + 2 + 8 * p.ef_curve.len();
    &&& field(b, 0, 8) == magic_for(p)
    &&& field(b, 8, 8) == p.doc_ids.len()
    &&& field(b, 16, 4) == p.dim
    &&& field(b, 20, 4) == p.ef_search
    &&& field(b, 24, 1) == walk_tag(p.walk)
    &&& field(b, 25, 4) == encode_utf8(p.column).len()
    &&& b.subrange(29, a_ids) == encode_utf8(p.column)
    &&& ids_at(b, a_ids, n) == p.doc_ids
    &&& b.subrange(a_sq16, a_walk) == p.sq16
    &&& p.walk.sq4() ==> sq4_at(b, a_walk, n, dim, p.walk == WalkCodec::Sq4Residual) == p.sq4->0
    &&& p.walk == WalkCodec::Sq8 ==> b.subrange(a_walk, a_walk + n * dim) == high_bytes(p.sq16)
    &&& field(b, a_glen, 8) == graph_bytes(p.graph).len()
    &&& b.subrange(a_graph, a_curve) == graph_bytes(p.graph)
    &&& curve_at(b, a_curve) == Some((p.ef_curve, a_meta))
    &&& ruler_at(b, a_meta, n, dim) == Some(
        match p.ruler {
            Some((s, o)) => Some((p.metric, s, o, p.norms)),
            None => None,
        },
    )
    &&& 29 <= a_ids <= a_sq16 <= a_walk <= a_glen < a_graph <= a_curve <= b.len()
    &&& b.len() == a_meta + trailer_len(p)
}

/// Size of the metric and the ruler.
spec fn trailer_len(p: BundleParts) -> nat {
    match p.ruler {
        None => 0,
        Some(_) => 1 + 8 * p.dim + 4 * p.norms.len(),
    }
}

/// Where `b` starts with `pre + x`, it starts with `pre` and goes on with `x`.
proof fn lemma_peel(b: Seq<u8>, pre: Seq<u8>, x: Seq<u8>)
    requires
        pre.len() + x.len() <= b.len(),
        b.subrange(0, (pre.len() + x.len()) as int) == pre + x,
    ensures
        b.subrange(0, pre.len() as int) == pre,
        b.subrange(pre.len() as int, (pre.len() + x.len()) as int) == x,
{
    let t = b.subrange(0, (pre.len() + x.len()) as int);
    assert(b.subrange(0, pre.len() as int) =~= t.subrange(0, pre.len() as int));
    assert(t.subrange(0, pre.len() as int) =~= pre);
    assert(b.subrange(pre.len() as int, (pre.len() + x.len()) as int) =~= t.subrange(
        pre.len() as int,
        (pre.len() + x.len()) as int,
    ));
    assert(t.subrange(pre.len() as int, (pre.len() + x.len()) as int) =~= x);
}

#[verifier::spinoff_prover]
#[verifier::rlimit(60)]
proof fn lemma_sections(p: BundleParts)
    requires
        bundle_storable(p),
    ensures
        sections_ok(bundle_bytes(p), p),
{
    let b = bundle_bytes(p);
    let n = p.doc_ids.len() as int;
    let dim = p.dim as int;
    let name = encode_utf8(p.column);
    let gb = graph_bytes(p.graph);
    let gl = le_bytes(gb.len(), 8);
    let cs = curve_section(p.ef_curve);
    let ts = trailer_for(p.metric, p.ruler, p.norms);
    let s0 = head_bytes(p);
    let s1 = s0 + id_bytes(p.doc_ids);
    let s2 = s1 + p.sq16;
    let s3 = s2 + walk_bytes(p);
    let s4 = s3 + gl;
    let s5 = s4 + gb;
    let s6 = s5 + cs;
    lemma_concat_assoc(s3, (gl + gb) + cs, ts);
    lemma_concat_assoc(s3, gl + gb, cs);
    lemma_concat_assoc(s3, gl, gb);
    assert(b == s6 + ts);
    lemma_concat_assoc(s0, id_bytes(p.doc_ids), p.sq16);
    let r0 = id_bytes(p.doc_ids) + p.sq16;
    lemma_concat_assoc(s0, r0, walk_bytes(p));
    let r1 = r0 + walk_bytes(p);
    lemma_concat_assoc(s0, r1, tail_bytes(p));
    assert(b == s0 + (r1 + tail_bytes(p)));
    lemma_head_read_back(p, r1 + tail_bytes(p));
    lemma_pow256_values();
    lemma_id_bytes_len(p.doc_ids);
    lemma_le_bytes_len(gb.len(), 8);
    lemma_walk_len_nonneg(p.walk, n, dim);
    assert(b.subrange(0, b.len() as int) =~= b);
    lemma_peel(b, s6, ts);
    lemma_peel(b, s5, cs);
    lemma_peel(b, s4, gb);
    lemma_peel(b, s3, gl);
    lemma_peel(b, s2, walk_bytes(p));
    lemma_peel(b, s1, p.sq16);
    lemma_peel(b, s0, id_bytes(p.doc_ids));
    let a_ids = 29 + name.len() as int;
    let a_walk = a_ids + 16 * n + 2 * (n * dim);
    let a_glen = a_walk + walk_bytes(p).len();
    assert(s2.len() == a_walk && s3.len() == a_glen);
    lemma_ids_in(b, a_ids, p.doc_ids);
    if p.walk.sq4() {
        lemma_sq4_read_back(b, a_walk, p.sq4->0, n, dim);
    }
    assert(walk_bytes(p).len() == walk_len(p.walk, n, dim));
    lemma_field_of_bytes(b, a_glen, gb.len(), 8);
    lemma_curve_read_back(b, s5.len() as int, p.ef_curve);
    lemma_trailer_read_back(b, s6.len() as int, p);
}

/// Decoding a written bundle gives what was written, for every walk codec the
/// decode may ask for: the 16-bit plane, graph, ids, column and beam as they
/// were; the stored codec whatever was asked for; the 4-bit plane where it is
/// stored, wanted and sound; and the 8-bit plane, stored or derived, where it
/// is wanted and no 4-bit plane takes its place.
pub proof fn law_bundle_round_trip(p: BundleParts, want: Option<WalkCodec>)
    requires
        bundle_storable(p),
    ensures
        parse_bundle(bundle_bytes(p), want) == Some(decoded(p, want)),
{
    let b = bundle_bytes(p);
    lemma_sections(p);
    law_graph_round_trip(p.graph);
    vstd::utf8::encode_utf8_valid_utf8(p.column);
    vstd::utf8::encode_utf8_decode_utf8(p.column);
    crate::codes::law_walk_tags(p.walk, walk_tag(p.walk));
    lemma_parsed(b, p, want);
}

#[verifier::rlimit(60)]
proof fn lemma_parsed(b: Seq<u8>, p: BundleParts, want: Option<WalkCodec>)
    requires
        bundle_storable(p),
        sections_ok(b, p),
        parse_graph(graph_bytes(p.graph)) == Some(p.graph),
        valid_utf8(encode_utf8(p.column)),
        decode_utf8(encode_utf8(p.column)) == p.column,
        walk_of_tag(walk_tag(p.walk)) == Some(p.walk),
    ensures
        parse_bundle(b, want) == Some(decoded(p, want)),
{
    assert(stored_codec(b) == Some(p.walk));
    assert(name_len_at(b) == 25);
    assert(metric_aware(field(b, 0, 8)) == (p.ruler is Some));
    assert(parse_bundle(b, want) is Some);
    let got = parse_bundle(b, want)->0;
    let exp = decoded(p, want);
    assert(got.scorer == exp.scorer);
    assert(got.sq4 == exp.sq4);
    assert(got.sq8 == exp.sq8);
}

/// A truncated bundle is refused: no strict prefix of a written bundle reads
/// as one, whatever codec the decode asks for.
pub proof fn law_truncated_bundle_is_refused(
    p: BundleParts,
    want: Option<WalkCodec>,
    cut: int,
)
    requires
        bundle_storable(p),
        0 <= cut < bundle_bytes(p).len(),
    ensures
        parse_bundle(bundle_bytes(p).subrange(0, cut), want) is None,
{
    let b = bundle_bytes(p);
    lemma_sections(p);
    crate::codes::law_walk_tags(p.walk, walk_tag(p.walk));
    lemma_cut_bundle(b, p, want, cut);
}

#[verifier::rlimit(60)]
proof fn lemma_cut_bundle(b: Seq<u8>, p: BundleParts, want: Option<WalkCodec>, cut: int)
    requires
        bundle_storable(p),
        sections_ok(b, p),
        walk_of_tag(walk_tag(p.walk)) == Some(p.walk),
        0 <= cut < b.len(),
    ensures
        parse_bundle(b.subrange(0, cut), want) is None,
{
    let c = b.subrange(0, cut);
    let n = p.doc_ids.len() as int;
    let dim = p.dim as int;
    let a_ids = 29 + encode_utf8(p.column).len() as int;
    let a_walk = a_ids + 16 * n + 2 * (n * dim);
    let a_glen = a_walk + walk_len(p.walk, n, dim);
    let a_curve = a_glen + 8 + graph_bytes(p.graph).len();
    let a_meta = a_curve + 2 + 8 * p.ef_curve.len();
    if cut >= 24 {
        lemma_prefix_field(b, cut, 0, 8);
        assert(name_len_at(c) == 25);
    }
    if cut >= 29 {
        lemma_prefix_field(b, cut, 8, 8);
        lemma_prefix_field(b, cut, 16, 4);
        lemma_prefix_field(b, cut, 24, 1);
        lemma_prefix_field(b, cut, 25, 4);
        assert(stored_codec(c) == Some(p.walk));
        if cut >= a_glen + 8 {
            lemma_prefix_field(b, cut, a_glen, 8);
        }
        if cut >= a_curve + 2 {
            lemma_prefix_field(b, cut, a_curve, 2);
        }
        if cut < a_meta {
            assert(cut >= a_curve ==> curve_at(c, a_curve) is None);
        } else {
            assert(curve_at(c, a_curve) matches Some((_, end)) && end == a_meta);
            if cut > a_meta {
                lemma_prefix_field(b, cut, a_meta, 1);
            }
            assert(ruler_at(c, a_meta, n, dim) is None);
        }
    }
}

/// Every decode reports the codec the bundle was written for.
pub proof fn law_stored_walk_is_the_header(p: BundleParts, want: Option<WalkCodec>)
    requires
        bundle_storable(p),
    ensures
        parse_bundle(bundle_bytes(p), want) is Some,
        parse_bundle(bundle_bytes(p), want)->0.stored_walk == p.walk,
{
    law_bundle_round_trip(p, want);
}

/// What a maintenance pass would write again from a decoded index.
pub open spec fn reencoded(ix: BundleModel) -> BundleParts {
    BundleParts {
        sq16: ix.scorer.codes,
        doc_ids: ix.doc_ids,
        graph: ix.graph,
        dim: ix.dim,
        ef_search: ix.ef_search,
        ef_curve: ix.ef_curve,
        column: ix.column,
        walk: ix.stored_walk,
        sq4: ix.sq4,
        metric: ix.scorer.metric,
        ruler: match ix.scorer.ruler {
            Some(t) => Some((t.0, t.1)),
            None => None,
        },
        norms: match ix.scorer.ruler {
            Some(t) => t.2,
            None => Seq::empty(),
        },
    }
}

/// Decoding a bundle as stored and encoding it again gives the same bytes: the
/// walk plane, a fitted 4-bit one with its ruler too, survives a maintenance
/// pass. The bundle has a curve, and its 4-bit plane, if any, is sound.
pub proof fn law_as_stored_reencode(p: BundleParts)
    requires
        bundle_storable(p),
        p.ef_curve.len() > 0,
        p.sq4 matches Some(s) ==> s.wf(),
    ensures
        parse_bundle(bundle_bytes(p), None) is Some,
        bundle_bytes(reencoded(parse_bundle(bundle_bytes(p), None)->0)) == bundle_bytes(p),
{
    law_bundle_round_trip(p, None);
    let q = reencoded(decoded(p, None));
    assert(q.sq4 == p.sq4);
    if p.ruler is None {
        assert(p.norms =~= Seq::<u32>::empty());
        assert(trailer_for(q.metric, q.ruler, q.norms) == trailer_for(p.metric, p.ruler, p.norms));
    }
    assert(head_bytes(q) == head_bytes(p));
    assert(walk_bytes(q) == walk_bytes(p));
    assert(tail_bytes(q) == tail_bytes(p));
}

/// A 4-bit section that is not sound leaves the derived 8-bit plane in its
/// place, not a bundle without a walk plane.
pub proof fn law_rejected_sq4_falls_back(p: BundleParts, want: WalkCodec)
    requires
        bundle_storable(p),
        p.walk.sq4(),
        want.sq4(),
        !p.sq4->0.wf(),
    ensures
        parse_bundle(bundle_bytes(p), Some(want)) is Some,
        parse_bundle(bundle_bytes(p), Some(want))->0.sq4 is None,
        parse_bundle(bundle_bytes(p), Some(want))->0.sq8 == high_bytes(p.sq16),
{
    law_bundle_round_trip(p, Some(want));
}

/// The 8-bit code is the high half of the 16-bit one.
pub proof fn law_walk_byte_is_the_high_half(codes: Seq<u8>, i: int)
    requires
        0 <= i < codes.len() / 2,
    ensures
        high_bytes(codes).len() == codes.len() / 2,
        high_bytes(codes)[i] as nat == field(codes, 2 * i, 2) / 256,
{
    let s = codes.subrange(2 * i, 2 * i + 2);
    reveal_with_fuel(crate::wire::le_value, 3);
    assert(s.drop_first()[0] == codes[2 * i + 1]);
    assert(s[0] == codes[2 * i]);
    assert(s.drop_first().drop_first().len() == 0);
}

/// A written bundle begins with the magic of its version, the node count, the
/// dimension, the beam, the walk codec's tag and the column's name; behind it
/// stand the ids, the 16-bit codes, the walk section and the graph with its
/// length in front, each at the end of the one before.
pub proof fn law_bundle_sections_stand_in_place(p: BundleParts)
    requires
        bundle_storable(p),
    ensures
        ({
            let b = bundle_bytes(p);
            let n = p.doc_ids.len() as int;
            let dim = p.dim as int;
            let name = encode_utf8(p.column);
            let ids = 29 + name.len() as int;
            let sq16 = ids + 16 * n;
            let walk = sq16 + 2 * (n * dim);
            let graph = walk + walk_bytes(p).len();
            let curve = graph + 8 + graph_bytes(p.graph).len();
            &&& p.ruler is Some ==> field(b, 0, 8) == 0x3630_4744_4446_4E49
            &&& p.ruler is None ==> field(b, 0, 8) == 0x3530_4744_4446_4E49
            &&& field(b, 8, 8) == n
            &&& field(b, 16, 4) == dim
            &&& field(b, 20, 4) == p.ef_search
            &&& field(b, 24, 1) == (match p.walk {
                WalkCodec::Sq16 => 0int,
                WalkCodec::Sq8 => 1,
                WalkCodec::Sq4 => 2,
                WalkCodec::Sq4Residual => 3,
            })
            &&& field(b, 25, 4) == name.len()
            &&& b.subrange(29, ids) == name
            &&& ids_at(b, ids, n) == p.doc_ids
            &&& b.subrange(sq16, walk) == p.sq16
            &&& b.subrange(walk, graph) == walk_bytes(p)
            &&& field(b, graph, 8) == graph_bytes(p.graph).len()
            &&& b.subrange(graph + 8, curve) == graph_bytes(p.graph)
            &&& field(b, curve, 2) == p.ef_curve.len()
            &&& forall|i: int|
                0 <= i < p.ef_curve.len() ==> field(b, curve + 2 + 8 * i, 4) == (
                #[trigger] p.ef_curve[i]).0 && field(b, curve + 6 + 8 * i, 4) == p.ef_curve[i].1
        }),
{
    let b = bundle_bytes(p);
    lemma_sections(p);
    let n = p.doc_ids.len() as int;
    let dim = p.dim as int;
    let s2 = head_bytes(p) + id_bytes(p.doc_ids) + p.sq16;
    let w = walk_bytes(p);
    lemma_id_bytes_len(p.doc_ids);
    lemma_head_read_back(p, Seq::empty());
    lemma_walk_size(p);
    assert(b == s2 + w + tail_bytes(p));
    assert(b.subrange(s2.len() as int, (s2.len() + w.len()) as int) =~= w);
    let curve = 29 + encode_utf8(p.column).len() as int + 16 * n + 2 * (n * dim) + w.len() + 8
        + graph_bytes(p.graph).len();
    assert(curve_at(b, curve) matches Some((c, _)) && c == p.ef_curve);
    let count = field(b, curve, 2) as int;
    let flat = words(b, curve + 2, 2 * count);
    assert(count == p.ef_curve.len());
    lemma_pow256_values();
    assert forall|i: int| 0 <= i < p.ef_curve.len() implies field(b, curve + 2 + 8 * i, 4) == (
    #[trigger] p.ef_curve[i]).0 && field(b, curve + 6 + 8 * i, 4) == p.ef_curve[i].1 by {
        assert(p.ef_curve[i] == (flat[2 * i], flat[2 * i + 1]));
        assert(curve + 2 + 4 * (2 * i) == curve + 2 + 8 * i);
        assert(curve + 2 + 4 * (2 * i + 1) == curve + 6 + 8 * i);
        crate::wire::lemma_le_value_bound(b.subrange(curve + 2 + 8 * i, curve + 2 + 8 * i + 4));
        crate::wire::lemma_le_value_bound(b.subrange(curve + 6 + 8 * i, curve + 6 + 8 * i + 4));
    }
}

proof fn lemma_walk_size(p: BundleParts)
    requires
        bundle_storable(p),
    ensures
        walk_bytes(p).len() == walk_len(p.walk, p.doc_ids.len() as int, p.dim as int),
{
    let n = p.doc_ids.len();
    if p.walk.sq4() {
        let s = p.sq4->0;
        lemma_le_bytes_len(s.rot_seed as nat, 8);
        lemma_word_bytes_len(s.offset);
        lemma_word_bytes_len(s.step);
    }
}

// ---------------- older versions ----------------

/// A bundle as the versions before the walk tag stored it: the second had no
/// walk section and no curve, the third an 8-bit section, and the fourth a
/// curve as well.
pub open spec fn older_bytes(p: BundleParts, version: int) -> Seq<u8> {
    let name = encode_utf8(p.column);
    let magic = if version == 2 {
        0x3230_4744_4446_4E49nat
    } else if version == 3 {
        0x3330_4744_4446_4E49nat
    } else {
        0x3430_4744_4446_4E49nat
    };
    let head = le_bytes(magic, 8) + le_bytes(p.doc_ids.len(), 8) + le_bytes(p.dim, 4) + le_bytes(
        p.ef_search,
        4,
    ) + le_bytes(name.len(), 4) + name;
    let walk = if version == 2 {
        Seq::<u8>::empty()
    } else {
        high_bytes(p.sq16)
    };
    let curve = if version == 4 {
        curve_section(p.ef_curve)
    } else {
        Seq::<u8>::empty()
    };
    head + id_bytes(p.doc_ids) + p.sq16 + walk + le_bytes(graph_bytes(p.graph).len(), 8)
        + graph_bytes(p.graph) + curve
}

proof fn lemma_older_head(p: BundleParts, magic: nat, rest: Seq<u8>)
    requires
        bundle_storable(p),
        magic <= u64::MAX,
    ensures
        ({
            let name = encode_utf8(p.column);
            let head = le_bytes(magic, 8) + le_bytes(p.doc_ids.len(), 8) + le_bytes(p.dim, 4)
                + le_bytes(p.ef_search, 4) + le_bytes(name.len(), 4) + name;
            let b = head + rest;
            &&& field(b, 0, 8) == magic
            &&& field(b, 8, 8) == p.doc_ids.len()
            &&& field(b, 16, 4) == p.dim
            &&& field(b, 20, 4) == p.ef_search
            &&& field(b, 24, 4) == name.len()
            &&& head.len() == 28 + name.len()
            &&& b.subrange(28, (28 + name.len()) as int) == name
        }),
{
    lemma_pow256_values();
    let name = encode_utf8(p.column);
    let f0 = le_bytes(magic, 8);
    let f1 = le_bytes(p.doc_ids.len(), 8);
    let f2 = le_bytes(p.dim, 4);
    let f3 = le_bytes(p.ef_search, 4);
    let f5 = le_bytes(name.len(), 4);
    let b = f0 + f1 + f2 + f3 + f5 + name + rest;
    lemma_le_bytes_len(magic, 8);
    lemma_le_bytes_len(p.doc_ids.len(), 8);
    lemma_le_bytes_len(p.dim, 4);
    lemma_le_bytes_len(p.ef_search, 4);
    lemma_le_bytes_len(name.len(), 4);
    assert(b.subrange(0, 8) =~= f0);
    lemma_field_of_bytes(b, 0, magic, 8);
    assert(b.subrange(8, 16) =~= f1);
    lemma_field_of_bytes(b, 8, p.doc_ids.len(), 8);
    assert(b.subrange(16, 20) =~= f2);
    lemma_field_of_bytes(b, 16, p.dim, 4);
    assert(b.subrange(20, 24) =~= f3);
    lemma_field_of_bytes(b, 20, p.ef_search, 4);
    assert(b.subrange(24, 28) =~= f5);
    lemma_field_of_bytes(b, 24, name.len(), 4);
    assert(b.subrange(28, (28 + name.len()) as int) =~= name);
}

/// Where the sections of an older bundle stand and what they read as.
spec fn older_ok(b: Seq<u8>, p: BundleParts, version: int) -> bool {
    let n = p.doc_ids.len() as int;
    let dim = p.dim as int;
    let a_ids = 28 + encode_utf8(p.column).len() as int;
    let a_sq16 = a_ids + 16 * n;
    let a_walk = a_sq16 + 2 * (n * dim);
    let a_glen = a_walk + (if version == 2 {
        0
    } else {
        n * dim
    });
    let a_graph = a_glen + 8;
    let a_curve = a_graph + graph_bytes(p.graph).len();
    &&& field(b, 0, 8) == (if version == 2 {
        0x3230_4744_4446_4E49int
    } else if version == 3 {
        0x3330_4744_4446_4E49int
    } else {
        0x3430_4744_4446_4E49int
    })
    &&& field(b, 8, 8) == p.doc_ids.len()
    &&& field(b, 16, 4) == p.dim
    &&& field(b, 20, 4) == p.ef_search
    &&& field(b, 24, 4) == encode_utf8(p.column).len()
    &&& b.subrange(28, a_ids) == encode_utf8(p.column)
    &&& ids_at(b, a_ids, n) == p.doc_ids
    &&& b.subrange(a_sq16, a_walk) == p.sq16
    &&& version != 2 ==> b.subrange(a_walk, a_walk + n * dim) == high_bytes(p.sq16)
    &&& field(b, a_glen, 8) == graph_bytes(p.graph).len()
    &&& b.subrange(a_graph, a_curve) == graph_bytes(p.graph)
    &&& version == 4 ==> (curve_at(b, a_curve) matches Some((c, _)) && c == p.ef_curve)
    &&& 28 <= a_ids <= a_sq16 <= a_walk <= a_glen < a_graph <= a_curve <= b.len()
}

#[verifier::spinoff_prover]
#[verifier::rlimit(60)]
proof fn lemma_older_sections(p: BundleParts, version: int)
    requires
        bundle_storable(p),
        2 <= version <= 4,
    ensures
        older_ok(older_bytes(p, version), p, version),
{
    let b = older_bytes(p, version);
    let n = p.doc_ids.len() as int;
    let dim = p.dim as int;
    let name = encode_utf8(p.column);
    let magic = if version == 2 {
        0x3230_4744_4446_4E49nat
    } else if version == 3 {
        0x3330_4744_4446_4E49nat
    } else {
        0x3430_4744_4446_4E49nat
    };
    let s0 = le_bytes(magic, 8) + le_bytes(p.doc_ids.len(), 8) + le_bytes(p.dim, 4) + le_bytes(
        p.ef_search,
        4,
    ) + le_bytes(name.len(), 4) + name;
    let walk = if version == 2 {
        Seq::<u8>::empty()
    } else {
        high_bytes(p.sq16)
    };
    let cs = if version == 4 {
        curve_section(p.ef_curve)
    } else {
        Seq::<u8>::empty()
    };
    let gb = graph_bytes(p.graph);
    let gl = le_bytes(gb.len(), 8);
    let ib = id_bytes(p.doc_ids);
    let s1 = s0 + ib;
    let s2 = s1 + p.sq16;
    let s3 = s2 + walk;
    let s4 = s3 + gl;
    let s5 = s4 + gb;
    assert(b == s5 + cs);
    lemma_concat_assoc(s0, ib, p.sq16);
    let r0 = ib + p.sq16;
    lemma_concat_assoc(s0, r0, walk);
    let r1 = r0 + walk;
    lemma_concat_assoc(s0, r1, gl);
    let r2 = r1 + gl;
    lemma_concat_assoc(s0, r2, gb);
    let r3 = r2 + gb;
    lemma_concat_assoc(s0, r3, cs);
    assert(b == s0 + (r3 + cs));
    lemma_older_head(p, magic, r3 + cs);
    lemma_pow256_values();
    lemma_id_bytes_len(p.doc_ids);
    lemma_le_bytes_len(gb.len(), 8);
    assert(0 <= n * dim) by (nonlinear_arith)
        requires
            0 <= n,
            0 <= dim,
    ;
    assert(b.subrange(0, b.len() as int) =~= b);
    lemma_peel(b, s5, cs);
    lemma_peel(b, s4, gb);
    lemma_peel(b, s3, gl);
    lemma_peel(b, s2, walk);
    lemma_peel(b, s1, p.sq16);
    lemma_peel(b, s0, ib);
    let a_ids = 28 + name.len() as int;
    let a_walk = a_ids + 16 * n + 2 * (n * dim);
    let a_glen = a_walk + walk.len();
    assert(s2.len() == a_walk && s3.len() == a_glen);
    lemma_ids_in(b, a_ids, p.doc_ids);
    lemma_field_of_bytes(b, a_glen, gb.len(), 8);
    if version == 4 {
        lemma_curve_read_back(b, s5.len() as int, p.ef_curve);
    }
}

/// Bundles of the older versions still read: without a walk section as 16-bit
/// ones, else as 8-bit ones, on the fixed grid, and without a curve as served
/// at the one stamped beam.
#[verifier::rlimit(60)]
pub proof fn law_older_bundles_still_read(p: BundleParts, version: int, want: Option<WalkCodec>)
    requires
        bundle_storable(p),
        2 <= version <= 4,
        p.ruler is None,
        version == 2 ==> p.walk == WalkCodec::Sq16,
        version > 2 ==> p.walk == WalkCodec::Sq8,
        version < 4 ==> p.ef_curve.len() == 0,
    ensures
        parse_bundle(older_bytes(p, version), want) == Some(decoded(p, want)),
{
    let b = older_bytes(p, version);
    lemma_older_sections(p, version);
    law_graph_round_trip(p.graph);
    vstd::utf8::encode_utf8_valid_utf8(p.column);
    vstd::utf8::encode_utf8_decode_utf8(p.column);
    assert(stored_codec(b) == Some(p.walk));
    assert(name_len_at(b) == 24);
    assert(parse_bundle(b, want) is Some);
    let got = parse_bundle(b, want)->0;
    let exp = decoded(p, want);
    assert(got.scorer == exp.scorer);
    assert(got.sq4 == exp.sq4);
    assert(got.sq8 == exp.sq8);
    assert(p.ef_curve.len() == 0 ==> p.ef_curve =~= Seq::empty());
}

/// Whatever a decode is for, it gives back what was written: the codes, the
/// ids, the graph, the beam and the name. The curve is the written one, or one
/// pair that serves every `k` at the stamped beam.
pub proof fn law_decode_keeps_what_was_written(p: BundleParts, want: Option<WalkCodec>, k: u32)
    requires
        bundle_storable(p),
    ensures
        parse_bundle(bundle_bytes(p), want) is Some,
        ({
            let m = parse_bundle(bundle_bytes(p), want)->0;
            &&& m.scorer.codes == p.sq16
            &&& m.scorer.len == p.doc_ids.len()
            &&& m.scorer.dim == p.dim
            &&& m.scorer.ruler is Some <==> p.ruler is Some
            &&& p.ruler matches Some((scale, offset)) ==> m.scorer.metric == p.metric
                && m.scorer.ruler == Some((scale, offset, p.norms))
            &&& m.graph == p.graph
            &&& m.doc_ids == p.doc_ids
            &&& m.dim == p.dim
            &&& m.column == p.column
            &&& m.ef_search == p.ef_search
            &&& p.ef_curve.len() > 0 ==> m.ef_curve == p.ef_curve
            &&& p.ef_curve.len() == 0 ==> m.ef_curve.len() == 1 && m.ef_curve[0].1 == p.ef_search
                && k <= m.ef_curve[0].0
        }),
{
    law_bundle_round_trip(p, want);
}

/// A decode makes at most one walk plane resident, and none for a 16-bit walk.
/// For any other walk there is one, but on a fitted ruler that was stored
/// without one. A 4-bit plane is the written one and sound; it is resident
/// exactly where it is stored, sound and wanted. The 8-bit plane is the high
/// half of the codes.
pub proof fn law_decode_serves_one_walk_plane(p: BundleParts, want: Option<WalkCodec>)
    requires
        bundle_storable(p),
        p.doc_ids.len() > 0,
    ensures
        parse_bundle(bundle_bytes(p), want) is Some,
        ({
            let m = parse_bundle(bundle_bytes(p), want)->0;
            let wanted = if want is Some {
                want->0
            } else {
                p.walk
            };
            let fitted_bare = p.ruler is Some && p.walk == WalkCodec::Sq16;
            &&& m.sq4 is Some ==> m.sq8.len() == 0 && m.sq4 == p.sq4 && m.sq4->0.wf()
            &&& wanted == WalkCodec::Sq16 ==> m.sq4 is None && m.sq8.len() == 0
            &&& fitted_bare ==> m.sq4 is None && m.sq8.len() == 0
            &&& wanted != WalkCodec::Sq16 && !fitted_bare ==> m.sq4 is Some || m.sq8 == high_bytes(
                p.sq16,
            )
            &&& m.sq8.len() > 0 ==> m.sq8.len() == p.doc_ids.len() * p.dim
            &&& wanted == WalkCodec::Sq8 ==> m.sq4 is None
            &&& wanted != WalkCodec::Sq8 && wanted != WalkCodec::Sq16 && p.sq4 is Some
                && p.sq4->0.wf() ==> m.sq4 is Some
            &&& want is None && p.walk == WalkCodec::Sq8 ==> m.sq8 == high_bytes(p.sq16)
            &&& m.stored_walk == p.walk
        }),
{
    law_bundle_round_trip(p, want);
    assert(p.sq16.len() == 2 * (p.doc_ids.len() * p.dim));
}

} // verus!
