use uniclip::discovery::{
    create_initiation_message, get_broadcast_address, Ipv4Info, NetInterface,
};
use uniclip::registry::PeerRegistry;

fn iface(name: &str, is_loopback: bool, ip: [u8; 4], netmask: [u8; 4]) -> NetInterface {
    NetInterface {
        name: name.as_bytes().to_vec(),
        is_loopback,
        v4: Some(Ipv4Info { ip, netmask }),
    }
}

#[test]
fn broadcast_is_ip_or_not_mask() {
    let ifaces = vec![iface("eth0", false, [192, 168, 1, 5], [255, 255, 255, 0])];
    assert_eq!(get_broadcast_address(&ifaces), b"192.168.1.255:26025".to_vec());
}

#[test]
fn broadcast_falls_back_to_limited_broadcast() {
    assert_eq!(get_broadcast_address(&Vec::new()), b"255.255.255.255:26025".to_vec());
    // Loopback, VPN-named, virtual and zero-mask interfaces are skipped.
    let ifaces = vec![
        iface("lo", true, [127, 0, 0, 1], [255, 0, 0, 0]),
        iface("myvpn0", false, [10, 8, 0, 2], [255, 255, 255, 0]),
        iface("VirtualBox Host", false, [192, 168, 56, 1], [255, 255, 255, 0]),
        iface("tun0", false, [10, 9, 0, 2], [0, 0, 0, 0]),
    ];
    assert_eq!(get_broadcast_address(&ifaces), b"255.255.255.255:26025".to_vec());
}

#[test]
fn ethernet_name_overrides_an_earlier_candidate() {
    let ifaces = vec![
        iface("br0", false, [172, 17, 0, 1], [255, 255, 0, 0]),
        iface("wlan0", false, [192, 168, 0, 10], [255, 255, 255, 0]),
    ];
    assert_eq!(get_broadcast_address(&ifaces), b"192.168.0.255:26025".to_vec());
}

#[test]
fn initiation_carries_registry_and_own_private_address() {
    let mut reg = PeerRegistry::new();
    reg.add_ip(b"10.0.0.3".to_vec());
    let ifaces = vec![
        iface("lo", true, [127, 0, 0, 1], [255, 0, 0, 0]),
        iface("eth0", false, [10, 1, 2, 3], [255, 0, 0, 0]),
        iface("wlan0", false, [192, 168, 1, 20], [255, 255, 255, 0]),
    ];
    let m = create_initiation_message(&reg, &ifaces);
    // The home-network-looking address wins over the earlier private one.
    assert_eq!(m.ip_list, vec![b"10.0.0.3".to_vec(), b"192.168.1.20".to_vec()]);
}

#[test]
fn initiation_without_a_private_address_sends_registry_alone() {
    let mut reg = PeerRegistry::new();
    reg.add_ip(b"10.0.0.3".to_vec());
    let ifaces = vec![iface("eth0", false, [8, 8, 8, 8], [255, 255, 255, 0])];
    let m = create_initiation_message(&reg, &ifaces);
    assert_eq!(m.ip_list, vec![b"10.0.0.3".to_vec()]);
}

#[test]
fn private_172_range_is_recognised() {
    let reg = PeerRegistry::new();
    let ifaces = vec![iface("eth1", false, [172, 16, 5, 5], [255, 255, 0, 0])];
    let m = create_initiation_message(&reg, &ifaces);
    assert_eq!(m.ip_list, vec![b"172.16.5.5".to_vec()]);
    let outside = vec![iface("eth1", false, [172, 32, 5, 5], [255, 255, 0, 0])];
    assert_eq!(create_initiation_message(&reg, &outside).ip_list.len(), 0);
}
