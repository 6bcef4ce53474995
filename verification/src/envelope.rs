//! The envelope that carries the resident sections: a fixed header, the
//! centroid graph, and at most one payload section.
//!
//! ```text
//! magic u64 | population key u64 | high water i128
//! centroid graph len u64 | centroid graph
//! payload kind u8 | [len u64 | payload]
//! ```
use bytes::Bytes;
use vstd::prelude::*;

use crate::plane::{bytes_contents, shared_copy, shared_slice, shared_view};
use crate::wire::{
    field, i128_pattern, le_bytes, lemma_field_of_bytes, lemma_le_bytes_len, lemma_pow256_values,
    lemma_prefix_field, put_i128, put_slice, put_u64, put_u8, Cursor,
};

verus! {

/// The bytes `INFVGB01`, read as a little-endian number.
pub const GRAPH_BUNDLE_MAGIC: u64 = 0x3130_4247_5646_4E49;

/// Bytes of the header: magic, population key and high-water id.
pub const GRAPH_BUNDLE_HEADER_BYTES: usize = 32;

/// Which index the payload section holds.
#[derive(Clone, Copy, Debug, PartialEq, Eq, Structural)]
pub enum PayloadKind {
    /// Graph, 16-bit plane and walk plane.
    Graph,
    /// Flat 4-bit index.
    Flat,
}

pub open spec fn kind_tag(k: PayloadKind) -> u8 {
    match k {
        PayloadKind::Graph => 1,
        PayloadKind::Flat => 2,
    }
}

pub open spec fn kind_of_tag(tag: u8) -> Option<PayloadKind> {
    if tag == 1 {
        Some(PayloadKind::Graph)
    } else if tag == 2 {
        Some(PayloadKind::Flat)
    } else {
        None
    }
}

/// Reading a kind's tag gives the kind; no kind has the tag of an absent
/// section, and other tags are unknown.
pub proof fn law_kind_tags(k: PayloadKind, tag: u8)
    ensures
        kind_of_tag(kind_tag(k)) == Some(k),
        kind_tag(k) != 0,
        kind_of_tag(tag) matches Some(x) ==> kind_tag(x) == tag,
        kind_of_tag(tag) is None <==> tag == 0 || tag > 2,
{
}

impl PayloadKind {
    /// Tag of the section.
    pub fn tag(self) -> (r: u8)
        ensures
            r == kind_tag(self),
    {
        match self {
            PayloadKind::Graph => 1,
            PayloadKind::Flat => 2,
        }
    }

    /// The kind of a tag; `None` for one that is not known.
    pub fn from_tag(tag: u8) -> (r: Option<PayloadKind>)
        ensures
            r == kind_of_tag(tag),
    {
        if tag == 1 {
            Some(PayloadKind::Graph)
        } else if tag == 2 {
            Some(PayloadKind::Flat)
        } else {
            None
        }
    }

    /// The kind's name.
    pub fn label(self) -> (r: &'static str)
        ensures
            r@ == (match self {
                PayloadKind::Graph => "hnsw"@,
                PayloadKind::Flat => "flat"@,
            }),
    {
        match self {
            PayloadKind::Graph => "hnsw",
            PayloadKind::Flat => "flat",
        }
    }
}

/// What an envelope carries.
#[verifier::ext_equal]
pub struct EnvelopeModel {
    pub population_key: u64,
    pub high_water_id: i128,
    pub centroid_graph: Seq<u8>,
    pub data_bundle: Option<(PayloadKind, Seq<u8>)>,
}

/// The sections of a parsed envelope.
pub struct ResidentIndexEnvelope {
    /// Digest of the covered document population.
    pub population_key: u64,
    /// Largest stable document id covered.
    pub high_water_id: i128,
    pub centroid_graph: Vec<u8>,
    pub data_bundle: Option<(PayloadKind, Bytes)>,
}

impl View for ResidentIndexEnvelope {
    type V = EnvelopeModel;

    open spec fn view(&self) -> EnvelopeModel {
        EnvelopeModel {
            population_key: self.population_key,
            high_water_id: self.high_water_id,
            centroid_graph: self.centroid_graph@,
            data_bundle: match self.data_bundle {
                Some((k, b)) => Some((k, bytes_contents(b))),
                None => None,
            },
        }
    }
}

/// The header of an envelope.
pub open spec fn header_bytes(key: u64, high_water: i128) -> Seq<u8> {
    le_bytes(GRAPH_BUNDLE_MAGIC as nat, 8) + le_bytes(key as nat, 8) + le_bytes(
        i128_pattern(high_water) as nat,
        16,
    )
}

/// The payload section: a tag, and behind one that is not zero the length and
/// the bytes.
pub open spec fn section_bytes(tag: u8, payload: Seq<u8>) -> Seq<u8> {
    if tag == 0 {
        seq![0u8]
    } else {
        seq![tag] + le_bytes(payload.len(), 8) + payload
    }
}

/// The stored form of an envelope whose payload section has the given tag.
pub open spec fn tagged_envelope(
    key: u64,
    high_water: i128,
    centroid: Seq<u8>,
    tag: u8,
    payload: Seq<u8>,
) -> Seq<u8> {
    header_bytes(key, high_water) + le_bytes(centroid.len(), 8) + centroid + section_bytes(
        tag,
        payload,
    )
}

/// The stored form of an envelope.
pub open spec fn envelope_bytes(e: EnvelopeModel) -> Seq<u8> {
    match e.data_bundle {
        Some((k, p)) => tagged_envelope(
            e.population_key,
            e.high_water_id,
            e.centroid_graph,
            kind_tag(k),
            p,
        ),
        None => tagged_envelope(
            e.population_key,
            e.high_water_id,
            e.centroid_graph,
            0,
            Seq::empty(),
        ),
    }
}

/// The population key and high-water id in the first bytes of an envelope;
/// `None` on a wrong magic or too few bytes.
pub open spec fn header_of(b: Seq<u8>) -> Option<(u64, i128)> {
    if b.len() < GRAPH_BUNDLE_HEADER_BYTES || field(b, 0, 8) != GRAPH_BUNDLE_MAGIC {
        None
    } else {
        Some((field(b, 8, 8) as u64, (field(b, 16, 16) as u128) as i128))
    }
}

/// What the envelope `b` carries; `None` on a wrong magic or a truncation. A
/// payload of an unknown kind is left out, not the envelope.
pub open spec fn parse_envelope(b: Seq<u8>) -> Option<EnvelopeModel> {
    match header_of(b) {
        None => None,
        Some((key, high)) => {
            let at: int = 40 + field(b, 32, 8) as int;
            if b.len() < 40 || at + 1 > b.len() {
                None
            } else {
                let tag = b[at];
                let centroid = b.subrange(40, at);
                let from = at + 9;
                let end = from + field(b, at + 1, 8);
                if tag == 0 {
                    Some(
                        EnvelopeModel {
                            population_key: key,
                            high_water_id: high,
                            centroid_graph: centroid,
                            data_bundle: None,
                        },
                    )
                } else if from > b.len() || end > b.len() {
                    None
                } else {
                    Some(
                        EnvelopeModel {
                            population_key: key,
                            high_water_id: high,
                            centroid_graph: centroid,
                            data_bundle: match kind_of_tag(tag) {
                                Some(k) => Some((k, b.subrange(from, end))),
                                None => None,
                            },
                        },
                    )
                }
            }
        },
    }
}

/// Read the population key and high-water id from the first bytes of an
/// envelope.
pub fn resident_envelope_header(header: &[u8]) -> (r: Option<(u64, i128)>)
    ensures
        r == header_of(header@),
{
    if header.len() < GRAPH_BUNDLE_HEADER_BYTES {
        return None;
    }
    let mut c = Cursor::new(header);
    match (c.u64(), c.u64(), c.i128()) {
        (Some(magic), Some(key), Some(high)) => {
            if magic != GRAPH_BUNDLE_MAGIC {
                return None;
            }
            proof {
                assert((high as u128) as i128 == high) by (bit_vector);
                assert(field(header@, 16, 16) as u128 == i128_pattern(high));
            }
            Some((key, high))
        },
        _ => None,
    }
}

/// Append the payload section, or the tag of an absent one.
fn put_opt_section(out: &mut Vec<u8>, section: Option<(PayloadKind, &[u8])>)
    ensures
        final(out)@ == old(out)@ + (match section {
            Some((k, p)) => section_bytes(kind_tag(k), p@),
            None => section_bytes(0, Seq::empty()),
        }),
{
    let ghost start = out@;
    match section {
        Some((kind, bytes)) => {
            put_u8(out, kind.tag());
            put_u64(out, bytes.len() as u64);
            put_slice(out, bytes);
            proof {
                law_kind_tags(kind, 0);
                assert(out@ =~= start + section_bytes(kind_tag(kind), bytes@));
            }
        },
        None => {
            put_u8(out, 0);
            proof {
                assert(out@ =~= start + section_bytes(0, Seq::empty()));
            }
        },
    }
}

/// Frame the sections into one envelope.
pub fn encode_resident_envelope(
    population_key: u64,
    high_water_id: i128,
    centroid_graph: &[u8],
    payload: Option<(PayloadKind, &[u8])>,
) -> (r: Vec<u8>)
    ensures
        r@ == envelope_bytes(
            (EnvelopeModel {
                population_key,
                high_water_id,
                centroid_graph: centroid_graph@,
                data_bundle: match payload {
                    Some((k, p)) => Some((k, p@)),
                    None => None,
                },
            }),
        ),
{
    let mut out: Vec<u8> = Vec::new();
    put_u64(&mut out, GRAPH_BUNDLE_MAGIC);
    put_u64(&mut out, population_key);
    put_i128(&mut out, high_water_id);
    proof {
        assert(out@ =~= header_bytes(population_key, high_water_id));
    }
    put_u64(&mut out, centroid_graph.len() as u64);
    put_slice(&mut out, centroid_graph);
    put_opt_section(&mut out, payload);
    out
}

/// Parse an envelope. On a mapped buffer the payload is a view into it; else
/// it is copied out, so that the buffer can go. Both hold the same bytes, and
/// the contract speaks of those only.
pub fn decode_resident_envelope(raw: &Bytes, mmap_backed: bool) -> (r: Option<
    ResidentIndexEnvelope,
>)
    ensures
        match r {
            Some(e) => parse_envelope(bytes_contents(*raw)) == Some(e@),
            None => parse_envelope(bytes_contents(*raw)) is None,
        },
{
    let bytes = shared_slice(raw);
    let ghost b = bytes@;
    let (population_key, high_water_id) = match resident_envelope_header(bytes) {
        Some(h) => h,
        None => {
            return None;
        },
    };
    let mut c = Cursor::new(bytes);
    match c.take(GRAPH_BUNDLE_HEADER_BYTES) {
        Some(_) => {},
        None => {
            return None;
        },
    }
    let centroid_len: u64 = match c.u64() {
        Some(x) => x,
        None => {
            return None;
        },
    };
    if centroid_len > c.remaining() as u64 {
        return None;
    }
    let centroid = match c.take(centroid_len as usize) {
        Some(x) => x,
        None => {
            return None;
        },
    };
    let mut centroid_graph: Vec<u8> = Vec::new();
    put_slice(&mut centroid_graph, centroid);
    proof {
        assert(centroid_graph@ =~= centroid@);
    }
    let ghost at = c.at();
    let tag: u8 = match c.take(1) {
        Some(x) => x[0],
        None => {
            return None;
        },
    };
    assert(tag == b[at]);
    if tag == 0 {
        return Some(
            ResidentIndexEnvelope {
                population_key,
                high_water_id,
                centroid_graph,
                data_bundle: None,
            },
        );
    }
    let len: u64 = match c.u64() {
        Some(x) => x,
        None => {
            return None;
        },
    };
    if len > c.remaining() as u64 {
        return None;
    }
    let start: usize = c.position();
    let section = match c.take(len as usize) {
        Some(x) => x,
        None => {
            return None;
        },
    };
    let data_bundle: Option<(PayloadKind, Bytes)> = match PayloadKind::from_tag(tag) {
        Some(kind) => if mmap_backed {
            Some((kind, shared_view(raw, start, c.position())))
        } else {
            Some((kind, shared_copy(section)))
        },
        None => None,
    };
    Some(ResidentIndexEnvelope { population_key, high_water_id, centroid_graph, data_bundle })
}

/// The header and sections of a framed envelope read back; a payload of a kind
/// that is not known is declined and the rest is still served.
pub proof fn law_envelope_frames_sections(
    key: u64,
    high_water: i128,
    centroid: Seq<u8>,
    tag: u8,
    payload: Seq<u8>,
)
    requires
        centroid.len() <= u64::MAX,
        payload.len() <= u64::MAX,
    ensures
        parse_envelope(tagged_envelope(key, high_water, centroid, tag, payload)) == Some(
            (EnvelopeModel {
                population_key: key,
                high_water_id: high_water,
                centroid_graph: centroid,
                data_bundle: match kind_of_tag(tag) {
                    Some(k) => Some((k, payload)),
                    None => None,
                },
            }),
        ),
        header_of(tagged_envelope(key, high_water, centroid, tag, payload)) == Some(
            (key, high_water),
        ),
{
    let b = tagged_envelope(key, high_water, centroid, tag, payload);
    let x = i128_pattern(high_water) as nat;
    let sec = section_bytes(tag, payload);
    lemma_pow256_values();
    lemma_le_bytes_len(GRAPH_BUNDLE_MAGIC as nat, 8);
    lemma_le_bytes_len(key as nat, 8);
    lemma_le_bytes_len(x, 16);
    lemma_le_bytes_len(centroid.len(), 8);
    lemma_le_bytes_len(payload.len(), 8);
    let at = (40 + centroid.len()) as int;
    assert(b.subrange(0, 8) =~= le_bytes(GRAPH_BUNDLE_MAGIC as nat, 8));
    lemma_field_of_bytes(b, 0, GRAPH_BUNDLE_MAGIC as nat, 8);
    assert(b.subrange(8, 16) =~= le_bytes(key as nat, 8));
    lemma_field_of_bytes(b, 8, key as nat, 8);
    assert(b.subrange(16, 32) =~= le_bytes(x, 16));
    lemma_field_of_bytes(b, 16, x, 16);
    assert((high_water as u128) as i128 == high_water) by (bit_vector);
    assert(b.subrange(32, 40) =~= le_bytes(centroid.len(), 8));
    lemma_field_of_bytes(b, 32, centroid.len(), 8);
    assert(b.subrange(40, at) =~= centroid);
    assert(b[at] == tag) by {
        assert(b[at] == sec[0]);
    }
    if tag != 0 {
        assert(b.subrange(at + 1, at + 9) =~= le_bytes(payload.len(), 8));
        lemma_field_of_bytes(b, at + 1, payload.len(), 8);
        assert(b.subrange(at + 9, at + 9 + payload.len()) =~= payload);
    }
}

/// Decoding an encoded envelope gives it back.
pub proof fn law_envelope_round_trip(e: EnvelopeModel)
    requires
        e.centroid_graph.len() <= u64::MAX,
        e.data_bundle matches Some((k, p)) ==> p.len() <= u64::MAX,
    ensures
        parse_envelope(envelope_bytes(e)) == Some(e),
{
    match e.data_bundle {
        Some((k, p)) => {
            law_kind_tags(k, 0);
            law_envelope_frames_sections(
                e.population_key,
                e.high_water_id,
                e.centroid_graph,
                kind_tag(k),
                p,
            );
        },
        None => {
            law_envelope_frames_sections(
                e.population_key,
                e.high_water_id,
                e.centroid_graph,
                0,
                Seq::empty(),
            );
        },
    }
}

/// A truncated envelope is refused: no strict prefix of a framed envelope
/// reads as one, whatever its payload's tag.
pub proof fn law_truncated_envelope_is_refused(
    key: u64,
    high_water: i128,
    centroid: Seq<u8>,
    tag: u8,
    payload: Seq<u8>,
    cut: int,
)
    requires
        centroid.len() <= u64::MAX,
        payload.len() <= u64::MAX,
        0 <= cut < tagged_envelope(key, high_water, centroid, tag, payload).len(),
    ensures
        parse_envelope(
            tagged_envelope(key, high_water, centroid, tag, payload).subrange(0, cut),
        ) is None,
{
    let b = tagged_envelope(key, high_water, centroid, tag, payload);
    let c = b.subrange(0, cut);
    let x = i128_pattern(high_water) as nat;
    let sec = section_bytes(tag, payload);
    lemma_pow256_values();
    lemma_le_bytes_len(GRAPH_BUNDLE_MAGIC as nat, 8);
    lemma_le_bytes_len(key as nat, 8);
    lemma_le_bytes_len(x, 16);
    lemma_le_bytes_len(centroid.len(), 8);
    lemma_le_bytes_len(payload.len(), 8);
    let at = (40 + centroid.len()) as int;
    if cut >= 40 {
        assert(b.subrange(32, 40) =~= le_bytes(centroid.len(), 8));
        lemma_field_of_bytes(b, 32, centroid.len(), 8);
        lemma_prefix_field(b, cut, 32, 8);
        if cut > at {
            assert(c[at] == tag) by {
                assert(b[at] == sec[0]);
            }
            if cut >= at + 9 {
                assert(b.subrange(at + 1, at + 9) =~= le_bytes(payload.len(), 8));
                lemma_field_of_bytes(b, at + 1, payload.len(), 8);
                lemma_prefix_field(b, cut, at + 1, 8);
            }
        }
    }
}

/// The header can be read from the first bytes alone.
pub proof fn law_header_from_prefix(b: Seq<u8>)
    requires
        b.len() >= GRAPH_BUNDLE_HEADER_BYTES,
    ensures
        header_of(b.subrange(0, GRAPH_BUNDLE_HEADER_BYTES as int)) == header_of(b),
{
    let h = b.subrange(0, GRAPH_BUNDLE_HEADER_BYTES as int);
    assert(h.subrange(0, 8) =~= b.subrange(0, 8));
    assert(h.subrange(8, 16) =~= b.subrange(8, 16));
    assert(h.subrange(16, 32) =~= b.subrange(16, 32));
}

/// An envelope begins with its magic, the population key, the high-water id
/// and the length of the centroid graph, whose bytes follow; behind them stand
/// the payload's tag, its length and its bytes, or a tag of 0 alone.
pub proof fn law_envelope_layout(
    key: u64,
    high_water: i128,
    centroid: Seq<u8>,
    tag: u8,
    payload: Seq<u8>,
)
    requires
        centroid.len() <= u64::MAX,
        payload.len() <= u64::MAX,
    ensures
        ({
            let b = tagged_envelope(key, high_water, centroid, tag, payload);
            let at = 40 + centroid.len() as int;
            &&& field(b, 0, 8) == 0x3130_4247_5646_4E49
            &&& field(b, 8, 8) == key
            &&& (field(b, 16, 16) as u128) as i128 == high_water
            &&& field(b, 32, 8) == centroid.len()
            &&& b.subrange(40, at) == centroid
            &&& b[at] == tag
            &&& tag == 0 ==> b.len() == at + 1
            &&& tag != 0 ==> {
                &&& field(b, at + 1, 8) == payload.len()
                &&& b.subrange(at + 9, at + 9 + payload.len()) == payload
                &&& b.len() == at + 9 + payload.len()
            }
        }),
{
    let b = tagged_envelope(key, high_water, centroid, tag, payload);
    let x = i128_pattern(high_water) as nat;
    let sec = section_bytes(tag, payload);
    lemma_pow256_values();
    lemma_le_bytes_len(GRAPH_BUNDLE_MAGIC as nat, 8);
    lemma_le_bytes_len(key as nat, 8);
    lemma_le_bytes_len(x, 16);
    lemma_le_bytes_len(centroid.len(), 8);
    lemma_le_bytes_len(payload.len(), 8);
    let at = (40 + centroid.len()) as int;
    assert(b.subrange(0, 8) =~= le_bytes(GRAPH_BUNDLE_MAGIC as nat, 8));
    lemma_field_of_bytes(b, 0, GRAPH_BUNDLE_MAGIC as nat, 8);
    assert(b.subrange(8, 16) =~= le_bytes(key as nat, 8));
    lemma_field_of_bytes(b, 8, key as nat, 8);
    assert(b.subrange(16, 32) =~= le_bytes(x, 16));
    lemma_field_of_bytes(b, 16, x, 16);
    assert((high_water as u128) as i128 == high_water) by (bit_vector);
    assert(b.subrange(32, 40) =~= le_bytes(centroid.len(), 8));
    lemma_field_of_bytes(b, 32, centroid.len(), 8);
    assert(b.subrange(40, at) =~= centroid);
    assert(b[at] == sec[0]);
    if tag != 0 {
        assert(b.subrange(at + 1, at + 9) =~= le_bytes(payload.len(), 8));
        lemma_field_of_bytes(b, at + 1, payload.len(), 8);
        assert(b.subrange(at + 9, at + 9 + payload.len()) =~= payload);
    }
}

/// A graph payload has the tag 1 and a flat one the tag 2.
pub proof fn law_envelope_payload_tags(e: EnvelopeModel, k: PayloadKind, p: Seq<u8>)
    requires
        e.data_bundle == Some((k, p)),
        e.centroid_graph.len() <= u64::MAX,
        p.len() <= u64::MAX,
    ensures
        envelope_bytes(e)[(40 + e.centroid_graph.len()) as int] == (match k {
            PayloadKind::Graph => 1u8,
            PayloadKind::Flat => 2u8,
        }),
{
    law_envelope_layout(e.population_key, e.high_water_id, e.centroid_graph, kind_tag(k), p);
}

} // verus!
