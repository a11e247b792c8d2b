//! The stored form of a graph: a tag and a version, the length of the
//! payload, the payload, and a checksum of the payload.

use vstd::prelude::*;
use vstd::bytes::{
    lemma_auto_spec_u64_to_from_le_bytes, spec_u64_from_le_bytes, spec_u64_to_le_bytes,
    u64_from_le_bytes, u64_to_le_bytes,
};
use vstd::slice::slice_subrange;
use vstd::wrapping::u64_specs::wrapping_mul;
use crate::graph::{AppGraph, GraphError, GraphModel};
use crate::label::Label;
use crate::overlay::lemma_overlay_determined;
use crate::wire::Wire;

verus! {

/// The version of the stored form.
pub const VERSION: u8 = 1;

/// The bytes that a stored graph begins with.
pub open spec fn magic() -> Seq<u8> {
    seq![0x41u8, 0x47u8, 0x52u8, 0x46u8]
}

/// The bytes of a stored graph that are not payload: tag, version, length
/// and checksum.
pub const OVERHEAD: usize = 21;

/// What the checksum starts from.
pub const CHECKSUM_START: u64 = 0xcbf2_9ce4_8422_2325;

/// What the checksum is multiplied by at each step.
pub const CHECKSUM_FACTOR: u64 = 0x0000_0100_0000_01b3;

/// One step of the checksum: the byte is mixed in, and the whole multiplied.
pub open spec fn mix(h: u64, b: u8) -> u64 {
    wrapping_mul(h ^ (b as u64), CHECKSUM_FACTOR)
}

/// The checksum of a byte string (FNV-1a, 64 bits).
pub open spec fn checksum(s: Seq<u8>) -> u64
    decreases s.len(),
{
    if s.len() == 0 {
        CHECKSUM_START
    } else {
        mix(checksum(s.drop_last()), s.last())
    }
}

/// Computes the checksum of `bytes`.
pub fn compute_checksum(bytes: &[u8]) -> (h: u64)
    ensures
        h == checksum(bytes@),
{
    let mut h: u64 = CHECKSUM_START;
    let mut i: usize = 0;
    while i < bytes.len()
        invariant
            i <= bytes@.len(),
            h == checksum(bytes@.subrange(0, i as int)),
        decreases bytes@.len() - i,
    {
        proof {
            let next = bytes@.subrange(0, i + 1);
            assert(next.drop_last() =~= bytes@.subrange(0, i as int));
            assert(next.last() == bytes@[i as int]);
        }
        h = (h ^ (bytes[i] as u64)).wrapping_mul(CHECKSUM_FACTOR);
        i += 1;
    }
    assert(bytes@.subrange(0, i as int) =~= bytes@);
    h
}

/// A payload in its frame.
pub open spec fn frame(payload: Seq<u8>) -> Seq<u8> {
    magic() + seq![VERSION] + usize::image(payload.len() as usize) + payload
        + spec_u64_to_le_bytes(checksum(payload))
}

/// The payload of a frame: `None` where the tag, the version, the length or
/// the checksum is not what it has to be.
pub open spec fn unframe(bytes: Seq<u8>) -> Option<Seq<u8>> {
    let payload = bytes.subrange(13, bytes.len() - 8);
    if bytes.len() >= OVERHEAD && bytes.subrange(0, 4) == magic() && bytes[4] == VERSION && (
    match usize::parse(bytes, 5) {
        Some((n, _)) => n == bytes.len() - OVERHEAD,
        None => false,
    }) && spec_u64_from_le_bytes(bytes.subrange(bytes.len() - 8, bytes.len() as int))
        == checksum(payload) {
        Some(payload)
    } else {
        None
    }
}

/// What is put in a frame comes out of it.
pub proof fn lemma_unframe_frame(payload: Seq<u8>)
    requires
        payload.len() <= usize::MAX,
    ensures
        unframe(frame(payload)) == Some(payload),
{
    lemma_auto_spec_u64_to_from_le_bytes();
    let bytes = frame(payload);
    let n = payload.len() as usize;
    let sum = spec_u64_to_le_bytes(checksum(payload));
    assert(usize::image(n).len() == 8);
    assert(bytes.len() == payload.len() + OVERHEAD);
    assert(bytes.subrange(0, 4) =~= magic());
    assert(bytes.subrange(5, 13) =~= usize::image(n));
    assert(bytes.subrange(13, bytes.len() - 8) =~= payload);
    assert(bytes.subrange(bytes.len() - 8, bytes.len() as int) =~= sum);
}

/// What comes out of a frame was put in it: only the frame of a payload
/// has that payload.
pub proof fn lemma_frame_unframe(bytes: Seq<u8>)
    requires
        unframe(bytes) is Some,
    ensures
        ({
            let payload = unframe(bytes)->0;
            &&& frame(payload) == bytes
            &&& payload.len() <= usize::MAX
        }),
{
    lemma_auto_spec_u64_to_from_le_bytes();
    let payload = unframe(bytes)->0;
    let tail = bytes.subrange(bytes.len() - 8, bytes.len() as int);
    usize::lemma_image_parse(bytes, 5);
    assert(bytes.subrange(5, 13) =~= usize::image(payload.len() as usize));
    assert(spec_u64_to_le_bytes(spec_u64_from_le_bytes(tail)) == tail);
    assert(bytes.subrange(0, 4)[0] == bytes[0]);
    assert(bytes.subrange(0, 4)[1] == bytes[1]);
    assert(bytes.subrange(0, 4)[2] == bytes[2]);
    assert(bytes.subrange(0, 4)[3] == bytes[3]);
    assert(frame(payload) =~= bytes);
}

/// A frame whose last byte was changed is no frame.
pub proof fn lemma_unframe_damaged(payload: Seq<u8>, last: u8)
    requires
        payload.len() <= usize::MAX,
        last != frame(payload).last(),
    ensures
        unframe(frame(payload).update(frame(payload).len() - 1, last)) is None,
{
    lemma_auto_spec_u64_to_from_le_bytes();
    lemma_unframe_frame(payload);
    let bytes = frame(payload);
    let damaged = bytes.update(bytes.len() - 1, last);
    let sum = spec_u64_to_le_bytes(checksum(payload));
    let n = payload.len() as usize;
    assert(usize::image(n).len() == 8);
    assert(bytes.len() == payload.len() + OVERHEAD);
    assert(bytes.subrange(13, bytes.len() - 8) =~= payload);
    assert(damaged.subrange(13, damaged.len() - 8) =~= payload);
    assert(bytes.subrange(bytes.len() - 8, bytes.len() as int) =~= sum);
    let tail = damaged.subrange(damaged.len() - 8, damaged.len() as int);
    assert(tail[7] == last);
    assert(sum[7] == bytes.last());
    if spec_u64_from_le_bytes(tail) == checksum(payload) {
        assert(spec_u64_to_le_bytes(spec_u64_from_le_bytes(tail)) == tail);
        assert(tail == sum);
    }
}

/// Puts `payload` in its frame.
pub fn seal(payload: Vec<u8>) -> (bytes: Vec<u8>)
    ensures
        bytes@ == frame(payload@),
{
    let mut payload = payload;
    let sum = compute_checksum(payload.as_slice());
    let mut bytes: Vec<u8> = Vec::new();
    bytes.push(0x41u8);
    bytes.push(0x47u8);
    bytes.push(0x52u8);
    bytes.push(0x46u8);
    bytes.push(VERSION);
    payload.len().write(&mut bytes);
    let ghost kept = payload@;
    bytes.append(&mut payload);
    let mut tail = u64_to_le_bytes(sum);
    bytes.append(&mut tail);
    assert(bytes@ =~= frame(kept));
    bytes
}

/// Takes the payload out of its frame.
pub fn unseal(bytes: &[u8]) -> (r: Option<&[u8]>)
    ensures
        match r {
            Some(payload) => unframe(bytes@) == Some(payload@),
            None => unframe(bytes@) is None,
        },
{
    let len = bytes.len();
    if len < OVERHEAD {
        return None;
    }
    if bytes[0] != 0x41u8 || bytes[1] != 0x47u8 || bytes[2] != 0x52u8 || bytes[3] != 0x46u8 {
        assert(bytes@.subrange(0, 4)[0] == bytes@[0]);
        assert(bytes@.subrange(0, 4)[1] == bytes@[1]);
        assert(bytes@.subrange(0, 4)[2] == bytes@[2]);
        assert(bytes@.subrange(0, 4)[3] == bytes@[3]);
        return None;
    }
    assert(bytes@.subrange(0, 4) =~= magic());
    if bytes[4] != VERSION {
        return None;
    }
    match usize::read(bytes, 5) {
        Some((n, end)) => {
            if n != len - OVERHEAD {
                return None;
            }
        },
        None => {
            return None;
        },
    }
    let payload = slice_subrange(bytes, 13, len - 8);
    let stored = u64_from_le_bytes(slice_subrange(bytes, len - 8, len));
    if stored != compute_checksum(payload) {
        return None;
    }
    Some(payload)
}

impl<K: Label, V: Label> AppGraph<K, V> {
    /// The stored form of a graph.
    pub open spec fn encoding(g: GraphModel<K::Model, V::Model>) -> Seq<u8> {
        frame(Self::payload(g))
    }

    /// The graph that `bytes` is the stored form of, if it is one.
    pub open spec fn decoding(bytes: Seq<u8>) -> Option<GraphModel<K::Model, V::Model>> {
        match unframe(bytes) {
            Some(payload) => Self::parsed(payload),
            None => None,
        }
    }

    /// The models that have a stored form: those that can be stored, in less
    /// bytes than memory can hold.
    pub open spec fn encodable(g: GraphModel<K::Model, V::Model>) -> bool {
        Self::storable(g) && Self::payload(g).len() <= usize::MAX
    }

    /// The stored form of the graph: the same bytes for the same graph, and
    /// bytes that decode to it.
    pub fn ser(&self) -> (bytes: Vec<u8>)
        requires
            self.wf(),
        ensures
            bytes@ == Self::encoding(self@),
            Self::encodable(self@),
            Self::decoding(bytes@) == Some(self@),
    {
        let payload = self.write_payload();
        let n = payload.len();
        proof {
            lemma_unframe_frame(payload@);
            Self::lemma_parsed_payload(self@);
        }
        seal(payload)
    }

    /// The graph that `s` is the stored form of. Bytes that are cut short,
    /// damaged or not a graph at all are refused as corrupt.
    pub fn deser(s: &[u8]) -> (r: Result<Self, GraphError>)
        ensures
            match r {
                Ok(graph) => graph.wf() && Self::decoding(s@) == Some(graph@) && Self::encoding(
                    graph@,
                ) == s@,
                Err(e) => e == GraphError::Corrupt && Self::decoding(s@) is None,
            },
    {
        match unseal(s) {
            Some(payload) => match Self::read_payload(payload) {
                Some(graph) => {
                    proof {
                        Self::lemma_decoding_exact(s@);
                    }
                    Ok(graph)
                },
                None => Err(GraphError::Corrupt),
            },
            None => Err(GraphError::Corrupt),
        }
    }

    /// Round trip: the stored form of a graph decodes to that graph, with
    /// the same node labels and edges in the same order, the same
    /// annotations and the same path.
    pub proof fn lemma_round_trip(g: GraphModel<K::Model, V::Model>)
        requires
            Self::encodable(g),
        ensures
            Self::decoding(Self::encoding(g)) == Some(g),
    {
        lemma_unframe_frame(Self::payload(g));
        Self::lemma_parsed_payload(g);
    }

    /// Only the stored form of a graph decodes to it: what decodes to a
    /// graph is, byte for byte, what that graph is stored as.
    pub proof fn lemma_decoding_exact(bytes: Seq<u8>)
        requires
            Self::decoding(bytes) is Some,
        ensures
            Self::encodable(Self::decoding(bytes)->0),
            Self::encoding(Self::decoding(bytes)->0) == bytes,
    {
        lemma_frame_unframe(bytes);
        Self::lemma_payload_parsed(unframe(bytes)->0);
    }

    /// One graph has one stored form: graphs in order with the same nodes,
    /// the same edges, annotations that say the same, and the same path
    /// are stored as the same bytes.
    pub proof fn lemma_one_stored_form(
        g1: GraphModel<K::Model, V::Model>,
        g2: GraphModel<K::Model, V::Model>,
    )
        requires
            g1.wf(),
            g2.wf(),
            g1.nodes == g2.nodes,
            g1.edges == g2.edges,
            g1.annotations() == g2.annotations(),
            g1.path == g2.path,
        ensures
            g1 == g2,
            Self::encoding(g1) == Self::encoding(g2),
    {
        lemma_overlay_determined(g1.meta, g2.meta);
    }

    /// A stored form whose last byte was changed decodes to nothing.
    pub proof fn lemma_damage_detected(g: GraphModel<K::Model, V::Model>, last: u8)
        requires
            Self::encodable(g),
            last != Self::encoding(g).last(),
        ensures
            Self::decoding(Self::encoding(g).update(Self::encoding(g).len() - 1, last)) is None,
    {
        lemma_unframe_damaged(Self::payload(g), last);
    }
}

/// Why a read from storage failed.
#[derive(Clone, Copy, Debug, PartialEq, Eq, Structural)]
pub enum IoFailure {
    /// Nothing is kept at the place.
    NotFound,
    /// The place could not be read for another reason.
    Other,
}

/// Why a graph could not be loaded.
#[derive(Clone, Copy, Debug, PartialEq, Eq, Structural)]
pub enum LoadError {
    /// The bytes could not be read.
    Io(IoFailure),
    /// The bytes were read, and are not the stored form of a graph.
    Corrupt,
}

impl<K: Label, V: Label> AppGraph<K, V> {
    /// The graph that a read from storage gave: the failure of the read
    /// where it failed, else what the bytes decode to.
    pub fn load(read: Result<Vec<u8>, IoFailure>) -> (r: Result<Self, LoadError>)
        ensures
            match r {
                Ok(graph) => read matches Ok(bytes) && graph.wf() && Self::decoding(bytes@)
                    == Some(graph@),
                Err(LoadError::Io(failure)) => read == Err::<Vec<u8>, IoFailure>(failure),
                Err(LoadError::Corrupt) => read matches Ok(bytes) && Self::decoding(bytes@)
                    is None,
            },
    {
        match read {
            Ok(bytes) => match Self::deser(bytes.as_slice()) {
                Ok(graph) => Ok(graph),
                Err(_) => Err(LoadError::Corrupt),
            },
            Err(failure) => Err(LoadError::Io(failure)),
        }
    }
}

} // verus!
