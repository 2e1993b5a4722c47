use uniclip::dedup::DedupState;
use uniclip::distribution::share_clip_img;
use uniclip::hashing::hash_img;
use uniclip::reassembly::{handle_incoming_img_chunk, ChunkAction, ChunkOutcome, ReassemblyBuffer};
use uniclip::registry::PeerRegistry;
use uniclip::wire::{decode_packet, ImageChunkPacket, UniPacket};

fn chunk(hash: &[u8], index: u32, total: u32, data: &[u8]) -> ImageChunkPacket {
    ImageChunkPacket {
        hash: hash.to_vec(),
        chunk_index: index,
        total_chunks: total,
        width: 2,
        height: 2,
        chunk_data: data.to_vec(),
    }
}

#[test]
fn out_of_bounds_index_is_rejected_without_mutation() {
    let mut buf = ReassemblyBuffer::new();
    // Establish an entry announcing three chunks.
    assert!(matches!(buf.insert_chunk(&chunk(b"h", 0, 3, b"aa"), 10), ChunkOutcome::Stored));
    assert_eq!(buf.len(), 1);
    // An index at or past the entry's chunk count is rejected.
    assert!(matches!(buf.insert_chunk(&chunk(b"h", 3, 3, b"xx"), 11), ChunkOutcome::OutOfBounds));
    assert!(matches!(buf.insert_chunk(&chunk(b"h", 9, 3, b"xx"), 11), ChunkOutcome::OutOfBounds));
    assert_eq!(buf.len(), 1);
    // The entry still completes with its untouched slots.
    assert!(matches!(buf.insert_chunk(&chunk(b"h", 1, 3, b"bb"), 12), ChunkOutcome::Stored));
    match buf.insert_chunk(&chunk(b"h", 2, 3, b"cc"), 13) {
        ChunkOutcome::Completed { bytes, .. } => assert_eq!(bytes, b"aabbcc".to_vec()),
        _ => panic!("entry should have completed"),
    }
    assert_eq!(buf.len(), 0);
}

#[test]
fn zero_total_on_a_fresh_hash_is_rejected() {
    let mut buf = ReassemblyBuffer::new();
    assert!(matches!(buf.insert_chunk(&chunk(b"z", 0, 0, b"aa"), 1), ChunkOutcome::OutOfBounds));
    assert_eq!(buf.len(), 0);
}

#[test]
fn duplicates_do_not_complete_an_entry_early() {
    let mut buf = ReassemblyBuffer::new();
    assert!(matches!(buf.insert_chunk(&chunk(b"h", 0, 2, b"one"), 1), ChunkOutcome::Stored));
    assert!(matches!(buf.insert_chunk(&chunk(b"h", 0, 2, b"ONE"), 2), ChunkOutcome::Stored));
    match buf.insert_chunk(&chunk(b"h", 1, 2, b"two"), 3) {
        // The duplicate overwrote slot zero; every index has been seen.
        ChunkOutcome::Completed { bytes, .. } => assert_eq!(bytes, b"ONEtwo".to_vec()),
        _ => panic!("entry should have completed"),
    }
}

#[test]
fn single_chunk_image_completes_immediately() {
    let mut buf = ReassemblyBuffer::new();
    match buf.insert_chunk(&chunk(b"h", 0, 1, b"whole"), 1) {
        ChunkOutcome::Completed { width, height, bytes } => {
            assert_eq!((width, height), (2, 2));
            assert_eq!(bytes, b"whole".to_vec());
        },
        _ => panic!("one-chunk image should complete at once"),
    }
    assert_eq!(buf.len(), 0);
}

#[test]
fn stale_incomplete_entry_is_evicted_and_never_applied() {
    let mut buf = ReassemblyBuffer::new();
    // Three of four chunks arrive, then nothing for over the window.
    buf.insert_chunk(&chunk(b"h", 0, 4, b"a"), 100);
    buf.insert_chunk(&chunk(b"h", 1, 4, b"b"), 101);
    buf.insert_chunk(&chunk(b"h", 2, 4, b"c"), 102);
    assert_eq!(buf.len(), 1);
    // Within the window the entry survives a sweep.
    buf.cleanup_stale_chunks(162);
    assert_eq!(buf.len(), 1);
    // Past the window it is freed.
    buf.cleanup_stale_chunks(163);
    assert_eq!(buf.len(), 0);
    // The late fourth chunk starts a fresh entry; nothing completes.
    assert!(matches!(buf.insert_chunk(&chunk(b"h", 3, 4, b"d"), 164), ChunkOutcome::Stored));
    assert_eq!(buf.len(), 1);
}

#[test]
fn sweep_keeps_fresh_entries_and_drops_stale_ones() {
    let mut buf = ReassemblyBuffer::new();
    buf.insert_chunk(&chunk(b"old", 0, 2, b"a"), 10);
    buf.insert_chunk(&chunk(b"new", 0, 2, b"b"), 60);
    buf.cleanup_stale_chunks(80);
    assert_eq!(buf.len(), 1);
    assert!(buf.has_entry_for(&b"new".to_vec()));
    assert!(!buf.has_entry_for(&b"old".to_vec()));
}

#[test]
fn image_is_rebuilt_from_chunks_in_scrambled_order() {
    // A 200 000-byte image chunked at 60 000 bytes per chunk: four chunks.
    let bytes: Vec<u8> = (0u32..200_000).map(|i| (i % 241) as u8).collect();
    let hash = hash_img(500, 100, &bytes);

    let mut reg = PeerRegistry::new();
    reg.add_ip(b"10.0.0.7".to_vec());
    let plans = share_clip_img(&reg, 500, 100, &bytes, &hash);
    assert_eq!(plans.len(), 4);

    let mut packets: Vec<ImageChunkPacket> = Vec::new();
    for plan in &plans {
        assert_eq!(plan.len(), 1);
        assert_eq!(plan[0].addr, b"10.0.0.7:26025".to_vec());
        match decode_packet(&plan[0].payload) {
            Ok(UniPacket::ImageChunk(c)) => packets.push(c),
            _ => panic!("a chunk datagram must decode as an image chunk"),
        }
    }
    assert!(packets.iter().all(|c| c.total_chunks == 4 && c.hash == hash));
    assert_eq!(packets[0].chunk_data.len(), 60_000);
    assert_eq!(packets[3].chunk_data.len(), 20_000);

    // The receiver gets them in the order 2, 0, 3, 1.
    let mut buf = ReassemblyBuffer::new();
    let mut dedup = DedupState::new();
    for &i in &[2usize, 0, 3] {
        let action = handle_incoming_img_chunk(&mut buf, &mut dedup, &packets[i], 5);
        assert!(matches!(action, ChunkAction::Stored));
    }
    match handle_incoming_img_chunk(&mut buf, &mut dedup, &packets[1], 6) {
        ChunkAction::Completed { applied, width, height, bytes: rebuilt } => {
            assert!(applied);
            assert_eq!((width, height), (500, 100));
            assert_eq!(rebuilt, bytes);
        },
        _ => panic!("the last chunk must complete the image"),
    }
    // The entry is gone: a late duplicate starts a fresh entry.
    assert_eq!(buf.len(), 0);
    assert!(matches!(
        handle_incoming_img_chunk(&mut buf, &mut dedup, &packets[0], 7),
        ChunkAction::Stored
    ));
    assert_eq!(buf.len(), 1);
    assert!(buf.has_entry_for(&hash));
}

#[test]
fn empty_image_splits_into_no_chunks() {
    let mut reg = PeerRegistry::new();
    reg.add_ip(b"10.0.0.7".to_vec());
    let hash = hash_img(0, 0, &Vec::new());
    assert_eq!(share_clip_img(&reg, 0, 0, &Vec::new(), &hash).len(), 0);
}

#[test]
fn chunk_sizes_split_at_the_chunk_boundary() {
    let mut reg = PeerRegistry::new();
    reg.add_ip(b"10.0.0.7".to_vec());
    // Exactly one chunk's worth of bytes makes one chunk, one more byte
    // makes two.
    let exact: Vec<u8> = vec![1; 60_000];
    let hash = hash_img(1, 1, &exact);
    assert_eq!(share_clip_img(&reg, 1, 1, &exact, &hash).len(), 1);
    let over: Vec<u8> = vec![1; 60_001];
    let hash2 = hash_img(1, 1, &over);
    let plans = share_clip_img(&reg, 1, 1, &over, &hash2);
    assert_eq!(plans.len(), 2);
    match decode_packet(&plans[1][0].payload) {
        Ok(UniPacket::ImageChunk(c)) => {
            assert_eq!(c.chunk_data.len(), 1);
            assert_eq!(c.total_chunks, 2);
        },
        _ => panic!("the tail chunk must decode as an image chunk"),
    }
}

#[test]
fn echoed_image_is_freed_but_not_applied() {
    let mut buf = ReassemblyBuffer::new();
    let mut dedup = DedupState::new();
    // The node has just shared an image with this hash itself.
    assert!(dedup.observe_local_image(&b"h".to_vec()));
    match handle_incoming_img_chunk(&mut buf, &mut dedup, &chunk(b"h", 0, 1, b"pix"), 1) {
        ChunkAction::Completed { applied, .. } => assert!(!applied),
        _ => panic!("the echoed image still completes"),
    }
    assert_eq!(buf.len(), 0);
}
