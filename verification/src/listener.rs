//! Datagram classification for the receive loop: every inbound datagram
//! takes exactly one branch.
//!
//! A datagram that exactly matches the discovery-signal sentinel triggers
//! the responder logic; anything else is decoded as a packet and routed
//! to the text-apply or chunk-reassembly logic, or discarded as
//! unrecognised. The sentinel is a fixed byte sequence distinguishable
//! from every encoded packet and every encoded discovery reply.

use vstd::prelude::*;
use crate::util::bytes_eq;
use crate::wire::{
    decode_packet, spec_decode_packet, spec_encode_initiation, spec_encode_packet, ChunkView,
    ImageChunkPacket, PacketView, TextPacket, UniPacket, TAG_DISCOVERY, TAG_IMAGE_CHUNK,
    TAG_INITIATION, TAG_TEXT,
};

verus! {

/// The fixed sentinel a joiner broadcasts to find existing peers: the
/// ASCII bytes of `DISCOVER_SIGNAL`.
pub open spec fn discovery_sentinel() -> Seq<u8> {
    seq![
        0x44u8,
        0x49u8,
        0x53u8,
        0x43u8,
        0x4fu8,
        0x56u8,
        0x45u8,
        0x52u8,
        0x5fu8,
        0x53u8,
        0x49u8,
        0x47u8,
        0x4eu8,
        0x41u8,
        0x4cu8,
    ]
}

/// The sentinel as sendable bytes.
pub fn discovery_signal_bytes() -> (r: Vec<u8>)
    ensures
        r@ == discovery_sentinel(),
{
    let mut r: Vec<u8> = Vec::new();
    r.push(0x44);
    r.push(0x49);
    r.push(0x53);
    r.push(0x43);
    r.push(0x4f);
    r.push(0x56);
    r.push(0x45);
    r.push(0x52);
    r.push(0x5f);
    r.push(0x53);
    r.push(0x49);
    r.push(0x47);
    r.push(0x4e);
    r.push(0x41);
    r.push(0x4c);
    proof {
        assert(r@ =~= discovery_sentinel());
    }
    r
}

/// The branch an inbound datagram takes.
pub enum Inbound {
    Discovery,
    Text(TextPacket),
    Chunk(ImageChunkPacket),
    Ignored,
}

/// Mathematical image of a routed datagram.
pub enum InboundView {
    Discovery,
    Text(Seq<u8>),
    Chunk(ChunkView),
    Ignored,
}

impl View for Inbound {
    type V = InboundView;

    open spec fn view(&self) -> InboundView {
        match self {
            Inbound::Discovery => InboundView::Discovery,
            Inbound::Text(t) => InboundView::Text(t@),
            Inbound::Chunk(c) => InboundView::Chunk(c@),
            Inbound::Ignored => InboundView::Ignored,
        }
    }
}

/// The branch a datagram takes: the sentinel first, then one decode, with
/// everything else discarded.
pub open spec fn spec_classify(b: Seq<u8>) -> InboundView {
    if b == discovery_sentinel() {
        InboundView::Discovery
    } else {
        match spec_decode_packet(b) {
            Some(PacketView::Text(t)) => InboundView::Text(t),
            Some(PacketView::ImageChunk(c)) => InboundView::Chunk(c),
            _ => InboundView::Ignored,
        }
    }
}

/// Route one inbound datagram to its branch.
pub fn classify_datagram(data: &Vec<u8>) -> (r: Inbound)
    ensures
        r@ == spec_classify(data@),
{
    let sentinel = discovery_signal_bytes();
    if bytes_eq(data, &sentinel) {
        return Inbound::Discovery;
    }
    match decode_packet(data) {
        Ok(UniPacket::Text(t)) => Inbound::Text(t),
        Ok(UniPacket::ImageChunk(c)) => Inbound::Chunk(c),
        Ok(UniPacket::DiscoverySignal) => Inbound::Ignored,
        Err(_) => Inbound::Ignored,
    }
}

/// The sentinel cannot be mistaken for a structured message: no packet
/// and no discovery reply encodes to it, whatever its fields hold.
pub proof fn lemma_sentinel_distinct(p: PacketView, l: Seq<Seq<u8>>)
    ensures
        spec_encode_packet(p) != discovery_sentinel(),
        spec_encode_initiation(l) != discovery_sentinel(),
{
    let s = discovery_sentinel();
    assert(s[0] == 0x44);
    match p {
        PacketView::DiscoverySignal => {
            assert(spec_encode_packet(p)[0] == TAG_DISCOVERY);
        },
        PacketView::Text(t) => {
            assert(spec_encode_packet(p)[0] == TAG_TEXT);
        },
        PacketView::ImageChunk(c) => {
            assert(spec_encode_packet(p)[0] == TAG_IMAGE_CHUNK);
        },
    }
    assert(spec_encode_initiation(l)[0] == TAG_INITIATION);
}

} // verus!
