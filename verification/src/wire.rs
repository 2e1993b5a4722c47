//! The wire codec: the datagram envelope and the message shapes.
//!
//! Every structured message uses one fixed, deterministic binary format so
//! that any implementation can interoperate: a one-byte tag, fixed-width
//! little-endian numeric fields, and length-prefixed variable-length fields.
//! Decoding is total over arbitrary bytes: malformed or foreign input is
//! classified and rejected, never a crash.

use vstd::prelude::*;
use vstd::bytes::{
    lemma_auto_spec_u32_to_from_le_bytes, lemma_auto_spec_u64_to_from_le_bytes,
    spec_u32_from_le_bytes, spec_u32_to_le_bytes, spec_u64_from_le_bytes, spec_u64_to_le_bytes,
    u32_from_le_bytes, u32_to_le_bytes, u64_from_le_bytes, u64_to_le_bytes,
};
use vstd::slice::{slice_subrange, slice_to_vec};

verus! {

/// Wire tag of the discovery-signal packet variant.
pub const TAG_DISCOVERY: u8 = 1;

/// Wire tag of a text packet.
pub const TAG_TEXT: u8 = 2;

/// Wire tag of an image-chunk packet.
pub const TAG_IMAGE_CHUNK: u8 = 3;

/// Wire tag of the discovery-reply message.
pub const TAG_INITIATION: u8 = 4;

/// A clipboard text payload, carried as raw bytes.
#[derive(Debug, PartialEq, Eq)]
pub struct TextPacket {
    pub text: Vec<u8>,
}

/// One fragment of a larger image payload, carrying enough metadata to be
/// reassembled independently of arrival order.
#[derive(Debug, PartialEq, Eq)]
pub struct ImageChunkPacket {
    pub hash: Vec<u8>,
    pub chunk_index: u32,
    pub total_chunks: u32,
    pub width: u64,
    pub height: u64,
    pub chunk_data: Vec<u8>,
}

/// The tagged union of the three datagram shapes.
#[derive(Debug, PartialEq, Eq)]
pub enum UniPacket {
    DiscoverySignal,
    Text(TextPacket),
    ImageChunk(ImageChunkPacket),
}

/// The discovery reply: the responder's known peer list, possibly extended
/// with its own address. A top-level message of its own, distinct from
/// every `UniPacket`.
#[derive(Debug, PartialEq, Eq)]
pub struct InitiationMessage {
    pub ip_list: Vec<Vec<u8>>,
}

/// Rejection of a malformed or foreign datagram.
#[derive(Debug, PartialEq, Eq)]
pub enum DecodeError {
    Malformed,
}

/// Mathematical image of an `ImageChunkPacket`.
pub struct ChunkView {
    pub hash: Seq<u8>,
    pub chunk_index: u32,
    pub total_chunks: u32,
    pub width: u64,
    pub height: u64,
    pub chunk_data: Seq<u8>,
}

/// Mathematical image of a `UniPacket`.
pub enum PacketView {
    DiscoverySignal,
    Text(Seq<u8>),
    ImageChunk(ChunkView),
}

impl View for TextPacket {
    type V = Seq<u8>;

    open spec fn view(&self) -> Seq<u8> {
        self.text@
    }
}

impl View for ImageChunkPacket {
    type V = ChunkView;

    open spec fn view(&self) -> ChunkView {
        ChunkView {
            hash: self.hash@,
            chunk_index: self.chunk_index,
            total_chunks: self.total_chunks,
            width: self.width,
            height: self.height,
            chunk_data: self.chunk_data@,
        }
    }
}

impl View for UniPacket {
    type V = PacketView;

    open spec fn view(&self) -> PacketView {
        match self {
            UniPacket::DiscoverySignal => PacketView::DiscoverySignal,
            UniPacket::Text(t) => PacketView::Text(t@),
            UniPacket::ImageChunk(c) => PacketView::ImageChunk(c@),
        }
    }
}

impl View for InitiationMessage {
    type V = Seq<Seq<u8>>;

    open spec fn view(&self) -> Seq<Seq<u8>> {
        self.ip_list.deep_view()
    }
}

/// A variable-length field on the wire: a little-endian length, then the bytes.
pub open spec fn len_pfx(s: Seq<u8>) -> Seq<u8> {
    spec_u32_to_le_bytes(s.len() as u32) + s
}

/// A packet that the format can carry: length prefixes fit their fixed
/// width, and an image chunk announces at least one chunk.
pub open spec fn packet_wf(p: PacketView) -> bool {
    match p {
        PacketView::DiscoverySignal => true,
        PacketView::Text(t) => t.len() <= u32::MAX,
        PacketView::ImageChunk(c) => {
            &&& c.hash.len() <= u32::MAX
            &&& c.chunk_data.len() <= u32::MAX
            &&& c.total_chunks >= 1
        },
    }
}

/// The encoding of a packet.
pub open spec fn spec_encode_packet(p: PacketView) -> Seq<u8> {
    match p {
        PacketView::DiscoverySignal => seq![TAG_DISCOVERY],
        PacketView::Text(t) => seq![TAG_TEXT] + len_pfx(t),
        PacketView::ImageChunk(c) => seq![TAG_IMAGE_CHUNK] + len_pfx(c.hash)
            + spec_u32_to_le_bytes(c.chunk_index) + spec_u32_to_le_bytes(c.total_chunks)
            + spec_u64_to_le_bytes(c.width) + spec_u64_to_le_bytes(c.height)
            + len_pfx(c.chunk_data),
    }
}

/// The image-chunk fields of an encoding, once the tag is known.
pub open spec fn spec_decode_chunk(b: Seq<u8>) -> Option<PacketView> {
    if b.len() < 5 {
        None
    } else {
        let hl = spec_u32_from_le_bytes(b.subrange(1, 5)) as int;
        if b.len() < 33 + hl {
            None
        } else {
            let o = 5 + hl;
            let tc = spec_u32_from_le_bytes(b.subrange(o + 4, o + 8));
            let dl = spec_u32_from_le_bytes(b.subrange(o + 24, o + 28)) as int;
            if b.len() == 33 + hl + dl && tc >= 1 {
                Some(
                    PacketView::ImageChunk(
                        ChunkView {
                            hash: b.subrange(5, o),
                            chunk_index: spec_u32_from_le_bytes(b.subrange(o, o + 4)),
                            total_chunks: tc,
                            width: spec_u64_from_le_bytes(b.subrange(o + 8, o + 16)),
                            height: spec_u64_from_le_bytes(b.subrange(o + 16, o + 24)),
                            chunk_data: b.subrange(o + 28, o + 28 + dl),
                        },
                    ),
                )
            } else {
                None
            }
        }
    }
}

/// What a sequence of bytes decodes to, if anything: the inverse of
/// `spec_encode_packet` on well-formed packets, `None` on all other input.
pub open spec fn spec_decode_packet(b: Seq<u8>) -> Option<PacketView> {
    if b.len() < 1 {
        None
    } else if b[0] == TAG_DISCOVERY {
        if b.len() == 1 {
            Some(PacketView::DiscoverySignal)
        } else {
            None
        }
    } else if b[0] == TAG_TEXT {
        if b.len() < 5 {
            None
        } else {
            let n = spec_u32_from_le_bytes(b.subrange(1, 5)) as int;
            if b.len() == 5 + n {
                Some(PacketView::Text(b.subrange(5, 5 + n)))
            } else {
                None
            }
        }
    } else if b[0] == TAG_IMAGE_CHUNK {
        spec_decode_chunk(b)
    } else {
        None
    }
}

/// Encoding then decoding gives back every packet the format can carry.
pub proof fn lemma_packet_round_trip(p: PacketView)
    requires
        packet_wf(p),
    ensures
        spec_decode_packet(spec_encode_packet(p)) == Some(p),
{
    lemma_auto_spec_u32_to_from_le_bytes();
    lemma_auto_spec_u64_to_from_le_bytes();
    let b = spec_encode_packet(p);
    match p {
        PacketView::DiscoverySignal => {
        },
        PacketView::Text(t) => {
            assert(b.subrange(1, 5) =~= spec_u32_to_le_bytes(t.len() as u32));
            assert(b.subrange(5, 5 + t.len() as int) =~= t);
        },
        PacketView::ImageChunk(c) => {
            let hl = c.hash.len() as int;
            let o = 5 + hl;
            assert(b.subrange(1, 5) =~= spec_u32_to_le_bytes(c.hash.len() as u32));
            assert(b.subrange(5, o) =~= c.hash);
            assert(b.subrange(o, o + 4) =~= spec_u32_to_le_bytes(c.chunk_index));
            assert(b.subrange(o + 4, o + 8) =~= spec_u32_to_le_bytes(c.total_chunks));
            assert(b.subrange(o + 8, o + 16) =~= spec_u64_to_le_bytes(c.width));
            assert(b.subrange(o + 16, o + 24) =~= spec_u64_to_le_bytes(c.height));
            assert(b.subrange(o + 24, o + 28) =~= spec_u32_to_le_bytes(c.chunk_data.len() as u32));
            assert(b.subrange(o + 28, o + 28 + c.chunk_data.len() as int) =~= c.chunk_data);
            assert(spec_decode_chunk(b) == Some(p));
        },
    }
}

/// Decoding is sound: whatever decodes was the encoding of exactly that
/// well-formed packet. Together with the round trip this makes decoding
/// the inverse of encoding.
pub proof fn lemma_packet_decode_sound(b: Seq<u8>, p: PacketView)
    requires
        spec_decode_packet(b) == Some(p),
    ensures
        packet_wf(p),
        spec_encode_packet(p) == b,
{
    lemma_auto_spec_u32_to_from_le_bytes();
    lemma_auto_spec_u64_to_from_le_bytes();
    if b[0] == TAG_DISCOVERY {
        assert(spec_encode_packet(p) =~= b);
    } else if b[0] == TAG_TEXT {
        let n = spec_u32_from_le_bytes(b.subrange(1, 5)) as int;
        let t = b.subrange(5, 5 + n);
        assert(p == PacketView::Text(t));
        assert(spec_u32_to_le_bytes(t.len() as u32) == b.subrange(1, 5));
        assert(spec_encode_packet(p) =~= b);
    } else {
        let hl = spec_u32_from_le_bytes(b.subrange(1, 5)) as int;
        let o = 5 + hl;
        let dl = spec_u32_from_le_bytes(b.subrange(o + 24, o + 28)) as int;
        let c = ChunkView {
            hash: b.subrange(5, o),
            chunk_index: spec_u32_from_le_bytes(b.subrange(o, o + 4)),
            total_chunks: spec_u32_from_le_bytes(b.subrange(o + 4, o + 8)),
            width: spec_u64_from_le_bytes(b.subrange(o + 8, o + 16)),
            height: spec_u64_from_le_bytes(b.subrange(o + 16, o + 24)),
            chunk_data: b.subrange(o + 28, o + 28 + dl),
        };
        assert(p == PacketView::ImageChunk(c));
        assert(spec_u32_to_le_bytes(c.hash.len() as u32) == b.subrange(1, 5));
        assert(spec_u32_to_le_bytes(c.chunk_data.len() as u32) == b.subrange(o + 24, o + 28));
        assert(spec_encode_packet(p) =~= b);
    }
}

/// Encode a packet into its datagram bytes.
pub fn encode_packet(p: &UniPacket) -> (r: Vec<u8>)
    requires
        packet_wf(p@),
    ensures
        r@ == spec_encode_packet(p@),
{
    let mut v: Vec<u8> = Vec::new();
    match p {
        UniPacket::DiscoverySignal => {
            v.push(TAG_DISCOVERY);
            proof {
                assert(v@ =~= spec_encode_packet(p@));
            }
        },
        UniPacket::Text(t) => {
            v.push(TAG_TEXT);
            let mut lb = u32_to_le_bytes(t.text.len() as u32);
            v.append(&mut lb);
            v.extend_from_slice(t.text.as_slice());
            proof {
                assert(v@ =~= spec_encode_packet(p@));
            }
        },
        UniPacket::ImageChunk(c) => {
            v.push(TAG_IMAGE_CHUNK);
            let mut hlb = u32_to_le_bytes(c.hash.len() as u32);
            v.append(&mut hlb);
            v.extend_from_slice(c.hash.as_slice());
            let mut cib = u32_to_le_bytes(c.chunk_index);
            v.append(&mut cib);
            let mut tcb = u32_to_le_bytes(c.total_chunks);
            v.append(&mut tcb);
            let mut wb = u64_to_le_bytes(c.width);
            v.append(&mut wb);
            let mut hb = u64_to_le_bytes(c.height);
            v.append(&mut hb);
            let mut dlb = u32_to_le_bytes(c.chunk_data.len() as u32);
            v.append(&mut dlb);
            v.extend_from_slice(c.chunk_data.as_slice());
            proof {
                assert(v@ =~= spec_encode_packet(p@));
            }
        },
    }
    v
}

/// A peer list that the format can carry: the count and every address
/// length fit their fixed-width prefixes.
pub open spec fn initiation_wf(l: Seq<Seq<u8>>) -> bool {
    &&& l.len() <= u32::MAX
    &&& forall|i: int| 0 <= i < l.len() ==> #[trigger] l[i].len() <= u32::MAX
}

/// The body of an encoded peer list: each address length-prefixed, in order.
pub open spec fn spec_encode_addrs(l: Seq<Seq<u8>>) -> Seq<u8>
    decreases l.len(),
{
    if l.len() == 0 {
        Seq::empty()
    } else {
        len_pfx(l[0]) + spec_encode_addrs(l.drop_first())
    }
}

/// The encoding of a discovery reply.
pub open spec fn spec_encode_initiation(l: Seq<Seq<u8>>) -> Seq<u8> {
    seq![TAG_INITIATION] + spec_u32_to_le_bytes(l.len() as u32) + spec_encode_addrs(l)
}

/// Parse exactly `count` length-prefixed addresses filling `b` completely.
pub open spec fn spec_parse_addrs(b: Seq<u8>, count: int) -> Option<Seq<Seq<u8>>>
    decreases count,
{
    if count <= 0 {
        if b.len() == 0 {
            Some(Seq::empty())
        } else {
            None
        }
    } else if b.len() < 4 {
        None
    } else {
        let n = spec_u32_from_le_bytes(b.subrange(0, 4)) as int;
        if b.len() < 4 + n {
            None
        } else {
            match spec_parse_addrs(b.skip(4 + n), count - 1) {
                Some(rest) => Some(seq![b.subrange(4, 4 + n)] + rest),
                None => None,
            }
        }
    }
}

/// What a sequence of bytes decodes to as a discovery reply, if anything.
pub open spec fn spec_decode_initiation(b: Seq<u8>) -> Option<Seq<Seq<u8>>> {
    if b.len() < 5 || b[0] != TAG_INITIATION {
        None
    } else {
        spec_parse_addrs(b.skip(5), spec_u32_from_le_bytes(b.subrange(1, 5)) as int)
    }
}

/// Parsing inverts the peer-list body encoding.
proof fn lemma_parse_encode_addrs(l: Seq<Seq<u8>>)
    requires
        forall|i: int| 0 <= i < l.len() ==> #[trigger] l[i].len() <= u32::MAX,
    ensures
        spec_parse_addrs(spec_encode_addrs(l), l.len() as int) == Some(l),
    decreases l.len(),
{
    lemma_auto_spec_u32_to_from_le_bytes();
    if l.len() == 0 {
        assert(Seq::<Seq<u8>>::empty() =~= l);
    } else {
        let e = spec_encode_addrs(l);
        let n0 = l[0].len() as int;
        assert(e.subrange(0, 4) =~= spec_u32_to_le_bytes(l[0].len() as u32));
        assert(e.subrange(4, 4 + n0) =~= l[0]);
        assert(e.skip(4 + n0) =~= spec_encode_addrs(l.drop_first()));
        assert(forall|i: int|
            0 <= i < l.drop_first().len() ==> #[trigger] l.drop_first()[i].len() <= u32::MAX);
        lemma_parse_encode_addrs(l.drop_first());
        assert(seq![l[0]] + l.drop_first() =~= l);
    }
}

/// Encoding then decoding gives back every discovery reply the format can carry.
pub proof fn lemma_initiation_round_trip(l: Seq<Seq<u8>>)
    requires
        initiation_wf(l),
    ensures
        spec_decode_initiation(spec_encode_initiation(l)) == Some(l),
{
    lemma_auto_spec_u32_to_from_le_bytes();
    let b = spec_encode_initiation(l);
    assert(b.subrange(1, 5) =~= spec_u32_to_le_bytes(l.len() as u32));
    assert(b.skip(5) =~= spec_encode_addrs(l));
    lemma_parse_encode_addrs(l);
}

/// Encode a discovery reply into its datagram bytes.
pub fn encode_initiation_message(m: &InitiationMessage) -> (r: Vec<u8>)
    requires
        initiation_wf(m@),
    ensures
        r@ == spec_encode_initiation(m@),
{
    let count = m.ip_list.len();
    let mut v: Vec<u8> = Vec::new();
    v.push(TAG_INITIATION);
    let mut cb = u32_to_le_bytes(count as u32);
    v.append(&mut cb);
    proof {
        assert(m@.take(0) =~= Seq::<Seq<u8>>::empty());
        assert(v@ =~= seq![TAG_INITIATION] + spec_u32_to_le_bytes(count as u32)
            + spec_encode_addrs(m@.take(0)));
    }
    let mut i: usize = 0;
    while i < count
        invariant
            count == m.ip_list.len(),
            initiation_wf(m@),
            i <= count,
            v@ == seq![TAG_INITIATION] + spec_u32_to_le_bytes(count as u32)
                + spec_encode_addrs(m@.take(i as int)),
        decreases count - i,
    {
        let item = &m.ip_list[i];
        let mut lb = u32_to_le_bytes(item.len() as u32);
        v.append(&mut lb);
        v.extend_from_slice(item.as_slice());
        proof {
            lemma_encode_addrs_push(m@.take(i as int), m@[i as int]);
            assert(m@.take(i as int).push(m@[i as int]) =~= m@.take(i + 1));
            assert(v@ =~= seq![TAG_INITIATION] + spec_u32_to_le_bytes(count as u32)
                + spec_encode_addrs(m@.take(i + 1)));
        }
        i = i + 1;
    }
    proof {
        assert(m@.take(count as int) =~= m@);
    }
    v
}

/// Appending one address extends the encoded body by its length-prefixed bytes.
proof fn lemma_encode_addrs_push(l: Seq<Seq<u8>>, x: Seq<u8>)
    ensures
        spec_encode_addrs(l.push(x)) == spec_encode_addrs(l) + len_pfx(x),
    decreases l.len(),
{
    if l.len() == 0 {
        let p = l.push(x);
        assert(p.drop_first() =~= Seq::<Seq<u8>>::empty());
        assert(spec_encode_addrs(p.drop_first()) == Seq::<u8>::empty());
        assert(p[0] == x);
        assert(spec_encode_addrs(p) == len_pfx(x) + Seq::<u8>::empty());
        assert(len_pfx(x) + Seq::<u8>::empty() =~= len_pfx(x));
        assert(Seq::<u8>::empty() + len_pfx(x) =~= len_pfx(x));
    } else {
        assert(l.push(x).drop_first() =~= l.drop_first().push(x));
        assert(l.push(x)[0] == l[0]);
        lemma_encode_addrs_push(l.drop_first(), x);
        assert(len_pfx(l[0]) + (spec_encode_addrs(l.drop_first()) + len_pfx(x)) =~= (len_pfx(l[0])
            + spec_encode_addrs(l.drop_first())) + len_pfx(x));
    }
}

/// `Some` prefixed with already-parsed addresses; `None` stays `None`.
pub open spec fn opt_prepend(pre: Seq<Seq<u8>>, rest: Option<Seq<Seq<u8>>>) -> Option<
    Seq<Seq<u8>>,
> {
    match rest {
        Some(r) => Some(pre + r),
        None => None,
    }
}

/// Decode a discovery reply, rejecting malformed or foreign input.
pub fn decode_initiation_message(bytes: &Vec<u8>) -> (r: Result<InitiationMessage, DecodeError>)
    ensures
        r matches Ok(m) ==> spec_decode_initiation(bytes@) == Some(m@),
        r is Err ==> spec_decode_initiation(bytes@) is None,
{
    let n = bytes.len();
    if n < 5 {
        return Err(DecodeError::Malformed);
    }
    let tag = bytes[0];
    if tag != TAG_INITIATION {
        return Err(DecodeError::Malformed);
    }
    let count = u32_from_le_bytes(slice_subrange(bytes.as_slice(), 1, 5)) as usize;
    let mut acc: Vec<Vec<u8>> = Vec::new();
    let mut pos: usize = 5;
    let mut i: usize = 0;
    proof {
        match spec_parse_addrs(bytes@.skip(5), count as int) {
            Some(r) => {
                assert(Seq::<Seq<u8>>::empty() + r =~= r);
            },
            None => {
            },
        }
        assert(acc.deep_view() =~= Seq::<Seq<u8>>::empty());
    }
    while i < count
        invariant
            n == bytes@.len(),
            5 <= pos <= n,
            i <= count,
            acc.deep_view().len() == i,
            spec_decode_initiation(bytes@) == opt_prepend(
                acc.deep_view(),
                spec_parse_addrs(bytes@.skip(pos as int), count - i),
            ),
        decreases count - i,
    {
        if n - pos < 4 {
            return Err(DecodeError::Malformed);
        }
        let alen = u32_from_le_bytes(slice_subrange(bytes.as_slice(), pos, pos + 4)) as usize;
        proof {
            assert(bytes@.skip(pos as int).subrange(0, 4) =~= bytes@.subrange(
                pos as int,
                pos + 4,
            ));
        }
        if n - (pos + 4) < alen {
            return Err(DecodeError::Malformed);
        }
        let item = slice_to_vec(slice_subrange(bytes.as_slice(), pos + 4, pos + 4 + alen));
        proof {
            let rest = bytes@.skip(pos as int);
            assert(rest.subrange(4, 4 + alen as int) =~= bytes@.subrange(
                pos + 4,
                pos + 4 + alen,
            ));
            assert(rest.skip(4 + alen as int) =~= bytes@.skip(pos + 4 + alen));
            match spec_parse_addrs(bytes@.skip(pos + 4 + alen), count - i - 1) {
                Some(r) => {
                    assert(acc.deep_view() + (seq![item@] + r) =~= acc.deep_view().push(item@)
                        + r);
                },
                None => {
                },
            }
        }
        let ghost old_acc = acc.deep_view();
        let ghost itemv = item@;
        proof {
            assert(item.deep_view() =~= itemv);
        }
        acc.push(item);
        proof {
            assert(acc.deep_view() =~= old_acc.push(itemv));
        }
        pos = pos + 4 + alen;
        i = i + 1;
    }
    if pos != n {
        return Err(DecodeError::Malformed);
    }
    proof {
        assert(bytes@.skip(pos as int).len() == 0);
        assert(acc.deep_view() + Seq::<Seq<u8>>::empty() =~= acc.deep_view());
    }
    Ok(InitiationMessage { ip_list: acc })
}

/// Decode a datagram into a packet, rejecting malformed or foreign input.
pub fn decode_packet(bytes: &Vec<u8>) -> (r: Result<UniPacket, DecodeError>)
    ensures
        r matches Ok(p) ==> spec_decode_packet(bytes@) == Some(p@),
        r is Err ==> spec_decode_packet(bytes@) is None,
{
    let n = bytes.len();
    if n < 1 {
        return Err(DecodeError::Malformed);
    }
    let tag = bytes[0];
    if tag == TAG_DISCOVERY {
        if n == 1 {
            Ok(UniPacket::DiscoverySignal)
        } else {
            Err(DecodeError::Malformed)
        }
    } else if tag == TAG_TEXT {
        if n < 5 {
            return Err(DecodeError::Malformed);
        }
        let tl = u32_from_le_bytes(slice_subrange(bytes.as_slice(), 1, 5)) as usize;
        if n - 5 != tl {
            return Err(DecodeError::Malformed);
        }
        let text = slice_to_vec(slice_subrange(bytes.as_slice(), 5, n));
        Ok(UniPacket::Text(TextPacket { text }))
    } else if tag == TAG_IMAGE_CHUNK {
        if n < 5 {
            return Err(DecodeError::Malformed);
        }
        let hl = u32_from_le_bytes(slice_subrange(bytes.as_slice(), 1, 5)) as usize;
        if n < 33 || n - 33 < hl {
            return Err(DecodeError::Malformed);
        }
        let o = 5 + hl;
        let hash = slice_to_vec(slice_subrange(bytes.as_slice(), 5, o));
        let chunk_index = u32_from_le_bytes(slice_subrange(bytes.as_slice(), o, o + 4));
        let total_chunks = u32_from_le_bytes(slice_subrange(bytes.as_slice(), o + 4, o + 8));
        let width = u64_from_le_bytes(slice_subrange(bytes.as_slice(), o + 8, o + 16));
        let height = u64_from_le_bytes(slice_subrange(bytes.as_slice(), o + 16, o + 24));
        let dl = u32_from_le_bytes(slice_subrange(bytes.as_slice(), o + 24, o + 28)) as usize;
        if total_chunks < 1 || n - (o + 28) != dl {
            return Err(DecodeError::Malformed);
        }
        let chunk_data = slice_to_vec(slice_subrange(bytes.as_slice(), o + 28, n));
        Ok(
            UniPacket::ImageChunk(
                ImageChunkPacket { hash, chunk_index, total_chunks, width, height, chunk_data },
            ),
        )
    } else {
        Err(DecodeError::Malformed)
    }
}

} // verus!
