//! Content distribution: serialising outbound clipboard content and
//! planning its fan-out to every registered peer.
//!
//! Text goes out as one datagram per peer. An image is split into chunks
//! sized to stay under the transport's practical datagram limit; each
//! chunk carries the shared content hash, its index, the total count and
//! the image dimensions, and is fanned out to every peer before the next
//! chunk. Sending itself is best-effort and lives with the caller: one
//! failed send must not abort the remaining peers.

use vstd::prelude::*;
use vstd::slice::{slice_subrange, slice_to_vec};
use crate::reassembly::{
    concat_slots, entry_index, has_entry, spec_completes, spec_entry_after, spec_rejects,
    EntryView,
};
use crate::registry::PeerRegistry;
use crate::util::clone_bytes;
use crate::wire::{
    encode_packet, spec_encode_packet, ChunkView, ImageChunkPacket, PacketView, TextPacket,
    UniPacket,
};

verus! {

/// The chunk payload size, chosen to stay safely under the transport's
/// practical datagram limit.
pub const CHUNK_SIZE: usize = 60000;

/// The well-known service port, as the ASCII suffix appended to a peer's
/// host address.
pub open spec fn port_suffix() -> Seq<u8> {
    seq![0x3au8, 0x32u8, 0x36u8, 0x30u8, 0x32u8, 0x35u8]
}

/// One planned send: a destination address and the datagram bytes.
pub struct Datagram {
    pub addr: Vec<u8>,
    pub payload: Vec<u8>,
}

/// Mathematical image of a planned send.
pub struct DatagramView {
    pub addr: Seq<u8>,
    pub payload: Seq<u8>,
}

impl View for Datagram {
    type V = DatagramView;

    open spec fn view(&self) -> DatagramView {
        DatagramView { addr: self.addr@, payload: self.payload@ }
    }
}

/// A peer's host address with the service port appended, `host:26025`.
pub fn addr_with_port(ip: &Vec<u8>) -> (r: Vec<u8>)
    ensures
        r@ == ip@ + port_suffix(),
{
    let mut r = clone_bytes(ip);
    r.push(0x3a);
    r.push(0x32);
    r.push(0x36);
    r.push(0x30);
    r.push(0x32);
    r.push(0x35);
    proof {
        assert(r@ =~= ip@ + port_suffix());
    }
    r
}

/// One datagram addressed to every registered peer, in registry order.
pub fn fan_out(registry: &PeerRegistry, message: &Vec<u8>) -> (r: Vec<Datagram>)
    ensures
        r@.len() == registry@.len(),
        forall|i: int|
            0 <= i < r@.len() ==> (#[trigger] r@[i])@.addr == registry@[i] + port_suffix()
                && r@[i]@.payload == message@,
{
    let n = registry.len();
    let mut r: Vec<Datagram> = Vec::new();
    let mut i: usize = 0;
    while i < n
        invariant
            n == registry@.len(),
            i <= n,
            r@.len() == i,
            forall|k: int|
                0 <= k < i ==> (#[trigger] r@[k])@.addr == registry@[k] + port_suffix()
                    && r@[k]@.payload == message@,
        decreases n - i,
    {
        let ip = registry.addr_at(i);
        let addr = addr_with_port(&ip);
        let payload = clone_bytes(message);
        r.push(Datagram { addr, payload });
        i = i + 1;
    }
    r
}

/// Plan a text share: encode the text once and address it to every peer.
pub fn share_clip_text(registry: &PeerRegistry, text: &Vec<u8>) -> (r: Vec<Datagram>)
    requires
        text@.len() <= u32::MAX,
    ensures
        r@.len() == registry@.len(),
        forall|i: int|
            0 <= i < r@.len() ==> (#[trigger] r@[i])@.addr == registry@[i] + port_suffix()
                && r@[i]@.payload == spec_encode_packet(PacketView::Text(text@)),
{
    let packet = UniPacket::Text(TextPacket { text: clone_bytes(text) });
    let message = encode_packet(&packet);
    fan_out(registry, &message)
}

/// How many chunks a pixel buffer of this length splits into.
pub open spec fn spec_num_chunks(len: int) -> int {
    (len + CHUNK_SIZE - 1) / (CHUNK_SIZE as int)
}

/// The bytes of one chunk: a full-size slice, or the shorter tail.
pub open spec fn spec_chunk_of(b: Seq<u8>, ci: int) -> Seq<u8> {
    let start = ci * (CHUNK_SIZE as int);
    let end = if b.len() < start + CHUNK_SIZE {
        b.len() as int
    } else {
        start + (CHUNK_SIZE as int)
    };
    b.subrange(start, end)
}

/// The packet carrying one chunk of an image.
pub open spec fn spec_chunk_packet(
    hash: Seq<u8>,
    width: u64,
    height: u64,
    b: Seq<u8>,
    ci: int,
) -> PacketView {
    PacketView::ImageChunk(
        ChunkView {
            hash,
            chunk_index: ci as u32,
            total_chunks: spec_num_chunks(b.len() as int) as u32,
            width,
            height,
            chunk_data: spec_chunk_of(b, ci),
        },
    )
}

/// Plan an image share: split the pixel bytes into chunks, and address
/// each chunk packet to every peer before moving to the next chunk. The
/// plan is one fan-out per chunk, in chunk order.
pub fn share_clip_img(
    registry: &PeerRegistry,
    width: u64,
    height: u64,
    bytes: &Vec<u8>,
    hash: &Vec<u8>,
) -> (r: Vec<Vec<Datagram>>)
    requires
        bytes@.len() <= u32::MAX,
        hash@.len() <= u32::MAX,
    ensures
        r@.len() == spec_num_chunks(bytes@.len() as int),
        forall|ci: int|
            0 <= ci < r@.len() ==> {
                let plan = #[trigger] r@[ci];
                &&& plan@.len() == registry@.len()
                &&& forall|pi: int|
                    0 <= pi < plan@.len() ==> (#[trigger] plan@[pi])@.addr == registry@[pi]
                        + port_suffix() && plan@[pi]@.payload == spec_encode_packet(
                        spec_chunk_packet(hash@, width, height, bytes@, ci),
                    )
            },
{
    let len = bytes.len();
    let total64: u64 = (len as u64 + (CHUNK_SIZE as u64 - 1)) / (CHUNK_SIZE as u64);
    proof {
        assert(total64 == spec_num_chunks(bytes@.len() as int));
        assert(total64 <= u32::MAX as u64) by (nonlinear_arith)
            requires
                total64 == (len + CHUNK_SIZE - 1) / (CHUNK_SIZE as int),
                len <= u32::MAX,
        ;
    }
    let total = total64 as u32;
    let total_usize = total as usize;
    let mut r: Vec<Vec<Datagram>> = Vec::new();
    let mut ci: usize = 0;
    let mut start: usize = 0;
    while ci < total_usize
        invariant
            len == bytes@.len(),
            len <= u32::MAX,
            hash@.len() <= u32::MAX,
            total == spec_num_chunks(len as int),
            total == total_usize,
            ci <= total_usize,
            ci < total_usize ==> start == ci * (CHUNK_SIZE as int),
            start <= len,
            r@.len() == ci,
            forall|c2: int|
                0 <= c2 < ci ==> {
                    let plan = #[trigger] r@[c2];
                    &&& plan@.len() == registry@.len()
                    &&& forall|pi: int|
                        0 <= pi < plan@.len() ==> (#[trigger] plan@[pi])@.addr == registry@[pi]
                            + port_suffix() && plan@[pi]@.payload == spec_encode_packet(
                            spec_chunk_packet(hash@, width, height, bytes@, c2),
                        )
                },
        decreases total_usize - ci,
    {
        proof {
            assert(start < len) by (nonlinear_arith)
                requires
                    start == ci * (CHUNK_SIZE as int),
                    0 <= ci,
                    ci < total,
                    total == (len + CHUNK_SIZE - 1) / (CHUNK_SIZE as int),
                    0 <= len,
            ;
        }
        let end = if len - start < CHUNK_SIZE {
            len
        } else {
            start + CHUNK_SIZE
        };
        let chunk_data = slice_to_vec(slice_subrange(bytes.as_slice(), start, end));
        proof {
            assert(chunk_data@ == spec_chunk_of(bytes@, ci as int));
        }
        let packet = UniPacket::ImageChunk(
            ImageChunkPacket {
                hash: clone_bytes(hash),
                chunk_index: ci as u32,
                total_chunks: total,
                width,
                height,
                chunk_data,
            },
        );
        proof {
            assert(packet@ == spec_chunk_packet(hash@, width, height, bytes@, ci as int));
        }
        let message = encode_packet(&packet);
        let plan = fan_out(registry, &message);
        r.push(plan);
        proof {
            if ci + 1 < total {
                assert(len - start >= CHUNK_SIZE && end == (ci + 1) * (CHUNK_SIZE as int))
                    by (nonlinear_arith)
                    requires
                        start == ci * (CHUNK_SIZE as int),
                        0 <= ci,
                        ci + 1 < total,
                        total == (len + CHUNK_SIZE - 1) / (CHUNK_SIZE as int),
                        0 <= len,
                        end == if len - start < CHUNK_SIZE {
                            len as int
                        } else {
                            start + (CHUNK_SIZE as int)
                        },
                ;
            }
        }
        ci = ci + 1;
        start = end;
    }
    r
}

/// Reassembly completeness, the sender's half: once every chunk index of
/// an image has been delivered — slot `i` holding chunk `i` — the slots
/// concatenated in index order are byte-identical to the original pixel
/// buffer, whatever order the chunks arrived in.
pub proof fn lemma_chunks_rebuild(b: Seq<u8>)
    ensures
        concat_slots(
            Seq::new(
                spec_num_chunks(b.len() as int) as nat,
                |ci: int| Some(spec_chunk_of(b, ci)),
            ),
        ) == b,
    decreases b.len(),
{
    let n = spec_num_chunks(b.len() as int);
    let slots = Seq::new(n as nat, |ci: int| Some(spec_chunk_of(b, ci)));
    if b.len() == 0 {
        assert(n == 0);
        assert(concat_slots(slots) =~= b);
    } else if b.len() <= CHUNK_SIZE {
        assert(n == 1);
        assert(slots[0] == Some(spec_chunk_of(b, 0)));
        assert(spec_chunk_of(b, 0) =~= b);
        assert(slots.drop_first().len() == 0);
        assert(concat_slots(slots.drop_first()) == Seq::<u8>::empty());
        assert(concat_slots(slots) == spec_chunk_of(b, 0) + Seq::<u8>::empty());
        assert(spec_chunk_of(b, 0) + Seq::<u8>::empty() =~= b);
    } else {
        let c = CHUNK_SIZE as int;
        let rest = b.skip(c);
        lemma_chunks_rebuild(rest);
        let m = spec_num_chunks(rest.len() as int);
        assert(m == n - 1);
        let rslots = Seq::new(m as nat, |ci: int| Some(spec_chunk_of(rest, ci)));
        assert forall|i: int| 0 <= i < m implies slots.drop_first()[i] == rslots[i] by {
            assert(spec_chunk_of(b, i + 1) =~= spec_chunk_of(rest, i));
        }
        assert(slots.drop_first() =~= rslots);
        assert(concat_slots(rslots) == rest);
        assert(slots[0] == Some(spec_chunk_of(b, 0)));
        assert(concat_slots(slots) == spec_chunk_of(b, 0) + rest);
        assert(spec_chunk_of(b, 0) + rest =~= b);
    }
}

/// Reassembly completeness, the receiver's half: a slot array in which
/// every index holds its chunk of a source image — however and in
/// whatever order the chunks arrived — concatenates to exactly the
/// source bytes.
pub proof fn lemma_slots_of_chunks_rebuild(b: Seq<u8>, slots: Seq<Option<Seq<u8>>>)
    requires
        slots.len() == spec_num_chunks(b.len() as int),
        forall|i: int| 0 <= i < slots.len() ==> slots[i] == Some(spec_chunk_of(b, i)),
    ensures
        concat_slots(slots) == b,
{
    assert(slots =~= Seq::new(
        spec_num_chunks(b.len() as int) as nat,
        |ci: int| Some(spec_chunk_of(b, ci)),
    ));
    lemma_chunks_rebuild(b);
}

/// Every filled slot holds its chunk of the source image.
pub open spec fn slots_match(slots: Seq<Option<Seq<u8>>>, b: Seq<u8>) -> bool {
    forall|i: int|
        0 <= i < slots.len() ==> ((#[trigger] slots[i]) matches Some(d) ==> d == spec_chunk_of(
            b,
            i,
        ))
}

/// Reassembly integrity: when the chunks arriving for an image carry its
/// true chunk data — in any order, duplicates included — the buffer's
/// entry only ever holds true chunks, and the chunk that fills the last
/// slot hands back exactly the image's pixel bytes.
pub proof fn lemma_reassembly_step(
    s: Seq<EntryView>,
    p: crate::wire::ChunkView,
    now: u64,
    b: Seq<u8>,
)
    requires
        has_entry(s, p.hash) ==> slots_match(s[entry_index(s, p.hash)].slots, b)
            && crate::reassembly::entry_wf(s[entry_index(s, p.hash)])
            && s[entry_index(s, p.hash)].total_chunks == spec_num_chunks(b.len() as int),
        !has_entry(s, p.hash) ==> p.total_chunks == spec_num_chunks(b.len() as int),
        p.chunk_data == spec_chunk_of(b, p.chunk_index as int),
        !spec_rejects(s, p),
    ensures
        slots_match(spec_entry_after(s, p, now).slots, b),
        spec_entry_after(s, p, now).slots.len() == spec_num_chunks(b.len() as int),
        spec_completes(s, p, now) ==> concat_slots(spec_entry_after(s, p, now).slots) == b,
{
    let e1 = spec_entry_after(s, p, now);
    let idx = p.chunk_index as int;
    let e0_slots = if has_entry(s, p.hash) {
        s[entry_index(s, p.hash)].slots
    } else {
        crate::reassembly::spec_fresh_entry(p, now).slots
    };
    assert(e1.slots == e0_slots.update(idx, Some(p.chunk_data)));
    assert(e0_slots.len() == spec_num_chunks(b.len() as int));
    assert forall|i: int|
        0 <= i < e1.slots.len() implies ((#[trigger] e1.slots[i]) matches Some(d) ==> d
        == spec_chunk_of(b, i)) by {
        if i != idx {
            assert(e1.slots[i] == e0_slots[i]);
            if !has_entry(s, p.hash) {
                assert(e0_slots[i] is None);
            }
        }
    }
    assert(slots_match(e1.slots, b));
    if spec_completes(s, p, now) {
        assert forall|i: int| 0 <= i < e1.slots.len() implies e1.slots[i] == Some(
            spec_chunk_of(b, i),
        ) by {
            assert(e1.slots[i] is Some);
        }
        lemma_slots_of_chunks_rebuild(b, e1.slots);
    }
}

} // verus!
