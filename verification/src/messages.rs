//! Wire format of the packets that nodes exchange.
//!
//! Every packet starts with a one-byte type tag. Message identifiers and
//! sequence numbers are written as 8-byte little-endian integers.
//!
//! | tag | packet          | layout                                  |
//! |-----|-----------------|-----------------------------------------|
//! | 0   | ProposalReply   | tag, message id, proposed sequence      |
//! | 1   | ProposalRequest | tag, message id, message bytes (rest)   |
//! | 2   | Agreement       | tag, message id, final sequence         |
//! | 3   | Ping            | tag                                     |
//! | 4   | Pong            | tag                                     |
use vstd::prelude::*;
use vstd::bytes::{
    spec_u32_to_le_bytes, spec_u64_from_le_bytes, spec_u64_to_le_bytes, u32_to_le_bytes,
    u64_from_le_bytes, u64_to_le_bytes,
};

verus! {

/// Identifier of a multicast message, chosen at random by its sender.
pub type MessageId = u64;

/// The payload of a multicast message.
pub type Message = Vec<u8>;

/// A packet exchanged between two nodes.
#[derive(Debug, Clone)]
pub enum Packet {
    ProposalRequest(MessageId, Vec<u8>),
    ProposalReply(MessageId, u64),
    Agreement(MessageId, u64),
    Ping(),
    Pong(),
}

/// Why a byte string is not a packet.
#[derive(Debug, Clone, Copy, PartialEq, Eq, Structural)]
pub enum PacketDecodeError {
    /// The byte string is empty.
    Empty,
    /// The first byte is not one of the five known tags.
    UnknownType(u8),
    /// The byte string is too short for the packet its tag announces.
    InvalidLength,
}

/// Mathematical model of a [`Packet`]: the message bytes as a sequence.
pub enum PacketModel {
    ProposalRequest(u64, Seq<u8>),
    ProposalReply(u64, u64),
    Agreement(u64, u64),
    Ping,
    Pong,
}

impl View for Packet {
    type V = PacketModel;

    open spec fn view(&self) -> PacketModel {
        match self {
            Packet::ProposalRequest(id, msg) => PacketModel::ProposalRequest(*id, msg@),
            Packet::ProposalReply(id, seq) => PacketModel::ProposalReply(*id, *seq),
            Packet::Agreement(id, seq) => PacketModel::Agreement(*id, *seq),
            Packet::Ping() => PacketModel::Ping,
            Packet::Pong() => PacketModel::Pong,
        }
    }
}

/// The tag byte that opens the encoding of a packet.
pub open spec fn spec_tag(p: PacketModel) -> u8 {
    match p {
        PacketModel::ProposalReply(..) => 0,
        PacketModel::ProposalRequest(..) => 1,
        PacketModel::Agreement(..) => 2,
        PacketModel::Ping => 3,
        PacketModel::Pong => 4,
    }
}

/// The bytes that encode a packet.
pub open spec fn spec_encode(p: PacketModel) -> Seq<u8> {
    match p {
        PacketModel::ProposalReply(id, seq) => seq![0u8] + spec_u64_to_le_bytes(id)
            + spec_u64_to_le_bytes(seq),
        PacketModel::ProposalRequest(id, msg) => seq![1u8] + spec_u64_to_le_bytes(id) + msg,
        PacketModel::Agreement(id, seq) => seq![2u8] + spec_u64_to_le_bytes(id)
            + spec_u64_to_le_bytes(seq),
        PacketModel::Ping => seq![3u8],
        PacketModel::Pong => seq![4u8],
    }
}

/// The 8-byte little-endian integer that starts at `start` in `b`.
pub open spec fn spec_u64_at(b: Seq<u8>, start: int) -> u64 {
    spec_u64_from_le_bytes(b.subrange(start, start + 8))
}

/// What the bytes `b` decode to.
///
/// A fixed-size packet ignores the bytes after its last field; a proposal
/// request takes every byte after its message id as the message.
pub open spec fn spec_decode(b: Seq<u8>) -> Result<PacketModel, PacketDecodeError> {
    if b.len() == 0 {
        Err(PacketDecodeError::Empty)
    } else if b[0] == 0 {
        if b.len() < 17 {
            Err(PacketDecodeError::InvalidLength)
        } else {
            Ok(PacketModel::ProposalReply(spec_u64_at(b, 1), spec_u64_at(b, 9)))
        }
    } else if b[0] == 1 {
        if b.len() < 9 {
            Err(PacketDecodeError::InvalidLength)
        } else {
            Ok(PacketModel::ProposalRequest(spec_u64_at(b, 1), b.subrange(9, b.len() as int)))
        }
    } else if b[0] == 2 {
        if b.len() < 17 {
            Err(PacketDecodeError::InvalidLength)
        } else {
            Ok(PacketModel::Agreement(spec_u64_at(b, 1), spec_u64_at(b, 9)))
        }
    } else if b[0] == 3 {
        Ok(PacketModel::Ping)
    } else if b[0] == 4 {
        Ok(PacketModel::Pong)
    } else {
        Err(PacketDecodeError::UnknownType(b[0]))
    }
}

/// The model of a decoding result.
pub open spec fn decoded_view(r: Result<Packet, PacketDecodeError>) -> Result<
    PacketModel,
    PacketDecodeError,
> {
    match r {
        Ok(p) => Ok(p@),
        Err(e) => Err(e),
    }
}

/// A length-prefixed frame: the payload's length as a 4-byte little-endian
/// integer (cut to its low 32 bits), then the payload.
pub open spec fn spec_frame(payload: Seq<u8>) -> Seq<u8> {
    spec_u32_to_le_bytes(payload.len() as u32) + payload
}

fn append_u64_le(out: &mut Vec<u8>, x: u64)
    ensures
        final(out)@ == old(out)@ + spec_u64_to_le_bytes(x),
{
    let mut bytes = u64_to_le_bytes(x);
    out.append(&mut bytes);
}

impl Packet {
    /// Encodes the packet as bytes.
    pub fn encode(&self) -> (bytes: Vec<u8>)
        ensures
            bytes@ == spec_encode(self@),
    {
        match self {
            Packet::ProposalReply(message_id, proposed_seq) => {
                let mut encoded = Vec::with_capacity(17);
                encoded.push(0u8);
                append_u64_le(&mut encoded, *message_id);
                append_u64_le(&mut encoded, *proposed_seq);
                encoded
            },
            Packet::ProposalRequest(message_id, buf) => {
                let mut encoded = Vec::new();
                encoded.push(1u8);
                append_u64_le(&mut encoded, *message_id);
                let mut rest = vstd::slice::slice_to_vec(buf.as_slice());
                encoded.append(&mut rest);
                encoded
            },
            Packet::Agreement(message_id, final_seq) => {
                let mut encoded = Vec::with_capacity(17);
                encoded.push(2u8);
                append_u64_le(&mut encoded, *message_id);
                append_u64_le(&mut encoded, *final_seq);
                encoded
            },
            Packet::Ping() => {
                let mut encoded = Vec::new();
                encoded.push(3u8);
                encoded
            },
            Packet::Pong() => {
                let mut encoded = Vec::new();
                encoded.push(4u8);
                encoded
            },
        }
    }

    /// Decodes a packet from bytes.
    pub fn decode(value: &[u8]) -> (r: Result<Packet, PacketDecodeError>)
        ensures
            decoded_view(r) == spec_decode(value@),
    {
        if value.len() == 0 {
            return Err(PacketDecodeError::Empty);
        }
        let packet_type = value[0];
        if packet_type == 0 {
            if value.len() < 17 {
                return Err(PacketDecodeError::InvalidLength);
            }
            let message_id = u64_from_le_bytes(&value[1..9]);
            let proposed_seq = u64_from_le_bytes(&value[9..17]);
            Ok(Packet::ProposalReply(message_id, proposed_seq))
        } else if packet_type == 1 {
            if value.len() < 9 {
                return Err(PacketDecodeError::InvalidLength);
            }
            let message_id = u64_from_le_bytes(&value[1..9]);
            let msg = vstd::slice::slice_to_vec(&value[9..value.len()]);
            Ok(Packet::ProposalRequest(message_id, msg))
        } else if packet_type == 2 {
            if value.len() < 17 {
                return Err(PacketDecodeError::InvalidLength);
            }
            let message_id = u64_from_le_bytes(&value[1..9]);
            let final_seq = u64_from_le_bytes(&value[9..17]);
            Ok(Packet::Agreement(message_id, final_seq))
        } else if packet_type == 3 {
            Ok(Packet::Ping())
        } else if packet_type == 4 {
            Ok(Packet::Pong())
        } else {
            Err(PacketDecodeError::UnknownType(packet_type))
        }
    }
}

/// Frames a payload for a stream: its length as a 4-byte little-endian
/// integer, then the payload itself.
pub fn frame(payload: &[u8]) -> (framed: Vec<u8>)
    ensures
        framed@ == spec_frame(payload@),
{
    let mut framed = u32_to_le_bytes(payload.len() as u32);
    let mut rest = vstd::slice::slice_to_vec(payload);
    framed.append(&mut rest);
    framed
}

/// Encoding through `From`, as [`Packet::encode`] does.
impl From<&Packet> for Vec<u8> {
    fn from(value: &Packet) -> (bytes: Vec<u8>)
        ensures
            bytes@ == spec_encode(value@),
    {
        value.encode()
    }
}

/// Verus's model does not make two vectors with the same contents equal, so
/// `from_spec` cannot name the vector returned and the generic `From`
/// specification is not claimed; the impl's own `ensures` states the bytes.
impl vstd::std_specs::convert::FromSpecImpl<&Packet> for Vec<u8> {
    open spec fn obeys_from_spec() -> bool {
        false
    }

    open spec fn from_spec(value: &Packet) -> Vec<u8> {
        choose|bytes: Vec<u8>| bytes@ == spec_encode(value@)
    }
}

/// Encoding a packet by value, as for a borrowed one.
impl From<Packet> for Vec<u8> {
    fn from(value: Packet) -> (bytes: Vec<u8>)
        ensures
            bytes@ == spec_encode(value@),
    {
        value.encode()
    }
}

/// As for a borrowed packet, the impl's own `ensures` states the bytes.
impl vstd::std_specs::convert::FromSpecImpl<Packet> for Vec<u8> {
    open spec fn obeys_from_spec() -> bool {
        false
    }

    open spec fn from_spec(value: Packet) -> Vec<u8> {
        choose|bytes: Vec<u8>| bytes@ == spec_encode(value@)
    }
}

/// Decoding through `TryFrom`, as [`Packet::decode`] does.
impl TryFrom<&[u8]> for Packet {
    type Error = PacketDecodeError;

    fn try_from(value: &[u8]) -> (r: Result<Packet, PacketDecodeError>)
        ensures
            decoded_view(r) == spec_decode(value@),
    {
        Packet::decode(value)
    }
}

impl vstd::std_specs::convert::TryFromSpecImpl<&[u8]> for Packet {
    open spec fn obeys_try_from_spec() -> bool {
        false
    }

    open spec fn try_from_spec(value: &[u8]) -> Result<Packet, PacketDecodeError> {
        choose|r: Result<Packet, PacketDecodeError>| decoded_view(r) == spec_decode(value@)
    }
}

/// The 8 bytes at `start` of `b` read back the integer written there.
proof fn lemma_u64_at(b: Seq<u8>, start: int, x: u64)
    requires
        0 <= start,
        start + 8 <= b.len(),
        b.subrange(start, start + 8) == spec_u64_to_le_bytes(x),
    ensures
        spec_u64_at(b, start) == x,
{
    vstd::bytes::lemma_auto_spec_u64_to_from_le_bytes();
}

/// Decoding the encoding of a packet, followed by any bytes at all, gives the
/// packet back, with the trailing bytes appended to the message when the
/// packet is a proposal request (whose message runs to the end of the
/// bytes).
pub proof fn lemma_decode_encode_prefix(p: PacketModel, rest: Seq<u8>)
    ensures
        spec_decode(spec_encode(p) + rest) == Ok::<PacketModel, PacketDecodeError>(
            match p {
                PacketModel::ProposalRequest(id, msg) => PacketModel::ProposalRequest(id, msg + rest),
                _ => p,
            },
        ),
{
    vstd::bytes::lemma_auto_spec_u64_to_from_le_bytes();
    let b = spec_encode(p) + rest;
    match p {
        PacketModel::ProposalReply(id, seq) | PacketModel::Agreement(id, seq) => {
            assert(b.subrange(1, 9) =~= spec_u64_to_le_bytes(id));
            assert(b.subrange(9, 17) =~= spec_u64_to_le_bytes(seq));
            lemma_u64_at(b, 1, id);
            lemma_u64_at(b, 9, seq);
        },
        PacketModel::ProposalRequest(id, msg) => {
            assert(b.subrange(1, 9) =~= spec_u64_to_le_bytes(id));
            assert(b.subrange(9, b.len() as int) =~= msg + rest);
            lemma_u64_at(b, 1, id);
        },
        _ => {},
    }
}

/// Decoding the encoding of any packet gives the packet back.
pub proof fn lemma_decode_encode(p: PacketModel)
    ensures
        spec_decode(spec_encode(p)) == Ok::<PacketModel, PacketDecodeError>(p),
{
    lemma_decode_encode_prefix(p, Seq::empty());
    assert(spec_encode(p) + Seq::<u8>::empty() =~= spec_encode(p));
    if let PacketModel::ProposalRequest(id, msg) = p {
        assert(msg + Seq::<u8>::empty() =~= msg);
    }
}

/// Two packets with the same encoding are the same packet.
pub proof fn lemma_encode_injective(p: PacketModel, q: PacketModel)
    requires
        spec_encode(p) == spec_encode(q),
    ensures
        p == q,
{
    lemma_decode_encode(p);
    lemma_decode_encode(q);
}

/// The encoding of a packet opens with the packet's tag and has the length
/// of its fields: 17 bytes for a reply or an agreement, 9 plus the message
/// for a request, 1 for a ping or a pong.
pub proof fn lemma_encode_shape(p: PacketModel)
    ensures
        spec_encode(p)[0] == spec_tag(p),
        spec_encode(p).len() == match p {
            PacketModel::ProposalRequest(_, msg) => 9 + msg.len(),
            PacketModel::ProposalReply(..) | PacketModel::Agreement(..) => 17,
            PacketModel::Ping | PacketModel::Pong => 1,
        },
{
    vstd::bytes::lemma_auto_spec_u64_to_from_le_bytes();
}

/// The frame of a packet, as it goes on a stream.
pub fn frame_packet(packet: &Packet) -> (framed: Vec<u8>)
    ensures
        framed@ == spec_frame(spec_encode(packet@)),
{
    let bytes = packet.encode();
    frame(bytes.as_slice())
}

/// A frame opens with the 4-byte little-endian length of its payload (its
/// low 32 bits), and the payload follows it unchanged.
pub proof fn lemma_frame_layout(payload: Seq<u8>)
    ensures
        spec_frame(payload).len() == payload.len() + 4,
        vstd::bytes::spec_u32_from_le_bytes(spec_frame(payload).subrange(0, 4)) == payload.len() as u32,
        spec_frame(payload).subrange(4, spec_frame(payload).len() as int) == payload,
{
    vstd::bytes::lemma_auto_spec_u32_to_from_le_bytes();
    let f = spec_frame(payload);
    assert(f.subrange(0, 4) =~= spec_u32_to_le_bytes(payload.len() as u32));
    assert(f.subrange(4, f.len() as int) =~= payload);
}

} // verus!
