use uniclip::wire::{
    decode_initiation_message, decode_packet, encode_initiation_message, encode_packet,
    ImageChunkPacket, InitiationMessage, TextPacket, UniPacket,
};
use uniclip::listener::{classify_datagram, discovery_signal_bytes, Inbound};

fn sample_chunk() -> ImageChunkPacket {
    ImageChunkPacket {
        hash: b"abcd1234".to_vec(),
        chunk_index: 2,
        total_chunks: 4,
        width: 640,
        height: 480,
        chunk_data: vec![9, 8, 7, 6, 5],
    }
}

#[test]
fn round_trip_discovery_variant() {
    let p = UniPacket::DiscoverySignal;
    let bytes = encode_packet(&p);
    assert_eq!(decode_packet(&bytes), Ok(UniPacket::DiscoverySignal));
}

#[test]
fn round_trip_text() {
    let p = UniPacket::Text(TextPacket { text: b"hello world".to_vec() });
    let bytes = encode_packet(&p);
    assert_eq!(decode_packet(&bytes), Ok(p));
}

#[test]
fn round_trip_empty_text() {
    let p = UniPacket::Text(TextPacket { text: Vec::new() });
    let bytes = encode_packet(&p);
    assert_eq!(decode_packet(&bytes), Ok(p));
}

#[test]
fn round_trip_image_chunk() {
    let p = UniPacket::ImageChunk(sample_chunk());
    let bytes = encode_packet(&p);
    assert_eq!(decode_packet(&bytes), Ok(p));
}

#[test]
fn round_trip_image_chunk_empty_data() {
    let p = UniPacket::ImageChunk(ImageChunkPacket {
        hash: Vec::new(),
        chunk_index: 0,
        total_chunks: 1,
        width: 0,
        height: 0,
        chunk_data: Vec::new(),
    });
    let bytes = encode_packet(&p);
    assert_eq!(decode_packet(&bytes), Ok(p));
}

#[test]
fn zero_total_chunks_is_rejected_not_a_crash() {
    // The encoding of a chunk announcing one chunk, with the total-count
    // field overwritten to zero: tag, hash length, hash, index, total.
    let p = UniPacket::ImageChunk(ImageChunkPacket {
        hash: b"hh".to_vec(),
        chunk_index: 0,
        total_chunks: 1,
        width: 1,
        height: 1,
        chunk_data: vec![42],
    });
    let mut bytes = encode_packet(&p);
    let total_at = 1 + 4 + 2 + 4;
    bytes[total_at] = 0;
    bytes[total_at + 1] = 0;
    bytes[total_at + 2] = 0;
    bytes[total_at + 3] = 0;
    assert!(decode_packet(&bytes).is_err());
}

#[test]
fn malformed_input_is_rejected() {
    assert!(decode_packet(&Vec::new()).is_err());
    assert!(decode_packet(&vec![0x99]).is_err());
    // A discovery variant with trailing bytes.
    assert!(decode_packet(&vec![1, 0]).is_err());
    // A text packet whose announced length disagrees with the payload.
    assert!(decode_packet(&vec![2, 5, 0, 0, 0, 1, 2]).is_err());
    // A truncated image chunk.
    assert!(decode_packet(&vec![3, 1, 0, 0, 0, 7]).is_err());
}

#[test]
fn text_decode_layout_is_fixed_little_endian() {
    let p = UniPacket::Text(TextPacket { text: vec![0xaa, 0xbb] });
    let bytes = encode_packet(&p);
    assert_eq!(bytes, vec![2, 2, 0, 0, 0, 0xaa, 0xbb]);
}

#[test]
fn round_trip_initiation_empty() {
    let m = InitiationMessage { ip_list: Vec::new() };
    let bytes = encode_initiation_message(&m);
    assert_eq!(decode_initiation_message(&bytes), Ok(m));
}

#[test]
fn round_trip_initiation_list() {
    let m = InitiationMessage {
        ip_list: vec![b"192.168.1.4".to_vec(), b"10.0.0.9".to_vec(), Vec::new()],
    };
    let bytes = encode_initiation_message(&m);
    assert_eq!(decode_initiation_message(&bytes), Ok(m));
}

#[test]
fn initiation_rejects_packet_bytes_and_vice_versa() {
    let m = InitiationMessage { ip_list: vec![b"10.1.2.3".to_vec()] };
    let mbytes = encode_initiation_message(&m);
    assert!(decode_packet(&mbytes).is_err());
    let p = UniPacket::Text(TextPacket { text: b"hi".to_vec() });
    let pbytes = encode_packet(&p);
    assert!(decode_initiation_message(&pbytes).is_err());
}

#[test]
fn sentinel_takes_the_discovery_branch() {
    let s = discovery_signal_bytes();
    assert_eq!(s, b"DISCOVER_SIGNAL".to_vec());
    assert!(matches!(classify_datagram(&s), Inbound::Discovery));
}

#[test]
fn classification_routes_each_shape() {
    let t = encode_packet(&UniPacket::Text(TextPacket { text: b"x".to_vec() }));
    match classify_datagram(&t) {
        Inbound::Text(tp) => assert_eq!(tp.text, b"x".to_vec()),
        _ => panic!("text datagram took the wrong branch"),
    }
    let c = encode_packet(&UniPacket::ImageChunk(sample_chunk()));
    match classify_datagram(&c) {
        Inbound::Chunk(cp) => assert_eq!(cp.chunk_index, 2),
        _ => panic!("chunk datagram took the wrong branch"),
    }
    assert!(matches!(classify_datagram(&vec![0x7f, 0x00]), Inbound::Ignored));
    // An encoded discovery variant is not the sentinel: it is discarded.
    let d = encode_packet(&UniPacket::DiscoverySignal);
    assert!(matches!(classify_datagram(&d), Inbound::Ignored));
    // The sentinel itself never decodes as a packet.
    assert!(decode_packet(&discovery_signal_bytes()).is_err());
}
