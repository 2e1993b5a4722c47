use uniclip::dedup::DedupState;
use uniclip::registry::PeerRegistry;

#[test]
fn remote_text_then_different_text_then_repeat() {
    let mut d = DedupState::new();
    assert!(d.handle_incoming_txt(&b"first".to_vec()));
    assert!(d.handle_incoming_txt(&b"second".to_vec()));
    // The same text again is a no-op against the clipboard.
    assert!(!d.handle_incoming_txt(&b"second".to_vec()));
}

#[test]
fn applied_text_is_not_reshared_by_the_tick() {
    let mut d = DedupState::new();
    assert!(d.handle_incoming_txt(&b"hello".to_vec()));
    // The change-detection tick sees the same clipboard content and
    // does not send it back out.
    assert!(!d.observe_local_text(&b"hello".to_vec()));
    assert!(d.observe_local_text(&b"other".to_vec()));
}

#[test]
fn empty_remote_text_is_a_noop_at_start() {
    let mut d = DedupState::new();
    assert!(!d.handle_incoming_txt(&Vec::new()));
}

#[test]
fn image_hash_shares_when_empty_or_changed() {
    let mut d = DedupState::new();
    assert!(d.observe_local_image(&b"h1".to_vec()));
    assert!(!d.observe_local_image(&b"h1".to_vec()));
    assert!(d.observe_local_image(&b"h2".to_vec()));
}

#[test]
fn remote_image_hash_applies_only_when_changed() {
    let mut d = DedupState::new();
    assert!(d.note_remote_image(&b"h1".to_vec()));
    assert!(!d.note_remote_image(&b"h1".to_vec()));
    assert!(d.note_remote_image(&b"h2".to_vec()));
}

#[test]
fn registry_holds_each_address_once() {
    let mut r = PeerRegistry::new();
    assert_eq!(r.len(), 0);
    assert!(r.add_ip(b"10.0.0.1".to_vec()));
    assert!(r.add_ip(b"10.0.0.2".to_vec()));
    assert!(!r.add_ip(b"10.0.0.1".to_vec()));
    assert_eq!(r.len(), 2);
    assert!(r.contains_ip(&b"10.0.0.2".to_vec()));
    assert!(!r.contains_ip(&b"10.0.0.3".to_vec()));
    assert_eq!(r.addr_at(0), b"10.0.0.1".to_vec());
    assert_eq!(r.addr_at(1), b"10.0.0.2".to_vec());
}

#[test]
fn merge_adds_unknown_addresses_in_order() {
    let mut r = PeerRegistry::new();
    r.add_ip(b"10.0.0.1".to_vec());
    r.merge(&vec![b"10.0.0.2".to_vec(), b"10.0.0.1".to_vec(), b"10.0.0.3".to_vec()]);
    assert_eq!(r.len(), 3);
    assert_eq!(r.addr_at(1), b"10.0.0.2".to_vec());
    assert_eq!(r.addr_at(2), b"10.0.0.3".to_vec());
}
