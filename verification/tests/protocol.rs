use uniclip::dedup::DedupState;
use uniclip::discovery::{create_initiation_message, Ipv4Info, NetInterface};
use uniclip::distribution::share_clip_text;
use uniclip::listener::{classify_datagram, discovery_signal_bytes, Inbound};
use uniclip::registry::PeerRegistry;
use uniclip::wire::{decode_initiation_message, encode_initiation_message};

/// Two nodes join and propagate a text change exactly once.
#[test]
fn discovery_then_text_share_between_two_nodes() {
    // Node A and node B both start with empty registries.
    let mut a_registry = PeerRegistry::new();
    let mut b_registry = PeerRegistry::new();
    let mut a_dedup = DedupState::new();
    let mut b_dedup = DedupState::new();

    // A broadcasts its discovery signal; B, already running, receives it.
    let signal = discovery_signal_bytes();
    assert!(matches!(classify_datagram(&signal), Inbound::Discovery));

    // B replies with its (empty) peer list plus its own address, and
    // records A as a peer.
    let b_ifaces = vec![NetInterface {
        name: b"wlan0".to_vec(),
        is_loopback: false,
        v4: Some(Ipv4Info { ip: [192, 168, 1, 2], netmask: [255, 255, 255, 0] }),
    }];
    let reply = create_initiation_message(&b_registry, &b_ifaces);
    let reply_bytes = encode_initiation_message(&reply);
    b_registry.add_ip(b"192.168.1.1".to_vec());

    // A merges the reply: its registry now contains B's address.
    let got = decode_initiation_message(&reply_bytes).expect("the reply must decode");
    a_registry.merge(&got.ip_list);
    assert_eq!(a_registry.len(), 1);
    assert!(a_registry.contains_ip(&b"192.168.1.2".to_vec()));

    // A's clipboard text changes to "hello": the tick detects it and
    // fans it out to B.
    let hello = b"hello".to_vec();
    assert!(a_dedup.observe_local_text(&hello));
    let plan = share_clip_text(&a_registry, &hello);
    assert_eq!(plan.len(), 1);
    assert_eq!(plan[0].addr, b"192.168.1.2:26025".to_vec());

    // B receives the datagram, applies it, and remembers it.
    match classify_datagram(&plan[0].payload) {
        Inbound::Text(t) => {
            assert_eq!(t.text, hello);
            assert!(b_dedup.handle_incoming_txt(&t.text));
        },
        _ => panic!("the text datagram took the wrong branch"),
    }

    // B's next tick sees its own clipboard already holds "hello" and
    // does not send it back out.
    assert!(!b_dedup.observe_local_text(&hello));
}

/// A node with an empty registry (a solo start) shares to nobody.
#[test]
fn solo_node_plans_no_sends() {
    let reg = PeerRegistry::new();
    assert_eq!(share_clip_text(&reg, &b"alone".to_vec()).len(), 0);
}

/// A text share addresses every known peer, in registry order.
#[test]
fn text_share_fans_out_to_every_peer() {
    let mut reg = PeerRegistry::new();
    reg.add_ip(b"10.0.0.1".to_vec());
    reg.add_ip(b"10.0.0.2".to_vec());
    reg.add_ip(b"10.0.0.3".to_vec());
    let plan = share_clip_text(&reg, &b"note".to_vec());
    assert_eq!(plan.len(), 3);
    assert_eq!(plan[0].addr, b"10.0.0.1:26025".to_vec());
    assert_eq!(plan[1].addr, b"10.0.0.2:26025".to_vec());
    assert_eq!(plan[2].addr, b"10.0.0.3:26025".to_vec());
    assert!(plan.iter().all(|d| d.payload == plan[0].payload));
}
