//! The discovery handshake decisions: which own address a responder
//! advertises, which broadcast address a joiner targets, and the reply
//! message built from the peer registry.
//!
//! Network-interface enumeration happens outside; these functions take
//! the interfaces as plain values (name bytes, loopback flag, IPv4
//! address and netmask) and make the protocol's choices over them.

use vstd::prelude::*;
use crate::distribution::port_suffix;
use crate::registry::PeerRegistry;
use crate::wire::InitiationMessage;

verus! {

/// An interface's IPv4 address and netmask, four octets each.
#[derive(Clone, Copy)]
pub struct Ipv4Info {
    pub ip: [u8; 4],
    pub netmask: [u8; 4],
}

/// Mathematical image of an interface's IPv4 data.
pub struct V4View {
    pub ip: Seq<u8>,
    pub netmask: Seq<u8>,
}

impl View for Ipv4Info {
    type V = V4View;

    open spec fn view(&self) -> V4View {
        V4View { ip: self.ip@, netmask: self.netmask@ }
    }
}

/// One local network interface, as the enumeration reports it.
pub struct NetInterface {
    pub name: Vec<u8>,
    pub is_loopback: bool,
    pub v4: Option<Ipv4Info>,
}

/// Mathematical image of an interface.
pub struct IfaceView {
    pub name: Seq<u8>,
    pub is_loopback: bool,
    pub v4: Option<V4View>,
}

impl View for NetInterface {
    type V = IfaceView;

    open spec fn view(&self) -> IfaceView {
        IfaceView {
            name: self.name@,
            is_loopback: self.is_loopback,
            v4: match self.v4 {
                Some(v) => Some(v@),
                None => None,
            },
        }
    }
}

/// The views of an interface list.
pub open spec fn iface_views(v: Seq<NetInterface>) -> Seq<IfaceView> {
    Seq::new(v.len(), |i: int| v[i]@)
}

/// Whether a byte string occurs inside another.
pub open spec fn contains_sub(hay: Seq<u8>, pat: Seq<u8>) -> bool {
    exists|i: int|
        0 <= i <= hay.len() - pat.len() && #[trigger] hay.subrange(i, i + pat.len()) == pat
}

/// The interface-name fragments that mark a virtual or VPN adapter.
pub open spec fn vpn_pat() -> Seq<u8> {
    seq![0x76u8, 0x70u8, 0x6eu8]
}

/// See `vpn_pat`.
pub open spec fn virtual_pat() -> Seq<u8> {
    seq![0x56u8, 0x69u8, 0x72u8, 0x74u8, 0x75u8, 0x61u8, 0x6cu8]
}

/// The interface-name fragments that mark a physical Ethernet adapter.
pub open spec fn eth_pat() -> Seq<u8> {
    seq![0x65u8, 0x74u8, 0x68u8]
}

/// The interface-name fragments that mark a Wi-Fi adapter.
pub open spec fn wlan_pat() -> Seq<u8> {
    seq![0x77u8, 0x6cu8, 0x61u8, 0x6eu8]
}

/// An adapter skipped by broadcast selection: loopback aside, one whose
/// name marks it as virtual or VPN.
pub open spec fn name_excluded(name: Seq<u8>) -> bool {
    contains_sub(name, vpn_pat()) || contains_sub(name, virtual_pat())
}

/// An adapter whose name looks like physical Ethernet or Wi-Fi, preferred
/// as the broadcast target.
pub open spec fn name_preferred(name: Seq<u8>) -> bool {
    contains_sub(name, eth_pat()) || contains_sub(name, wlan_pat())
}

/// A private-range IPv4 address.
pub open spec fn is_private(ip: Seq<u8>) -> bool {
    ip[0] == 10 || (ip[0] == 192 && ip[1] == 168) || (ip[0] == 172 && 16 <= ip[1] <= 31)
}

/// A home-network-looking address, preferred over other private ranges.
pub open spec fn is_pref192(ip: Seq<u8>) -> bool {
    ip[0] == 192 && ip[1] == 168
}

/// The fold that picks the responder's own discoverable address: walk the
/// interfaces, keep a private non-loopback IPv4 address, letting a
/// `192.168.x.x` address override an earlier choice.
pub open spec fn spec_select_own_ip(ifaces: Seq<IfaceView>, cur: Option<Seq<u8>>) -> Option<
    Seq<u8>,
>
    decreases ifaces.len(),
{
    if ifaces.len() == 0 {
        cur
    } else {
        let f = ifaces[0];
        let step = if !f.is_loopback && f.v4 is Some && is_private(f.v4->0.ip) && (cur is None
            || is_pref192(f.v4->0.ip)) {
            Some(f.v4->0.ip)
        } else {
            cur
        };
        spec_select_own_ip(ifaces.drop_first(), step)
    }
}

/// An all-zero netmask, which disqualifies an interface.
pub open spec fn zero_mask() -> Seq<u8> {
    seq![0u8, 0u8, 0u8, 0u8]
}

/// The directed broadcast address of an interface: `ip | !mask`, octet by
/// octet.
pub open spec fn bcast_of(v4: V4View) -> Seq<u8> {
    Seq::new(4, |i: int| v4.ip[i] | !v4.netmask[i])
}

/// The fold that picks the joiner's broadcast target: skip loopback,
/// virtual and VPN adapters and all-zero masks, keep a directed broadcast
/// address, letting an Ethernet- or Wi-Fi-named adapter override an
/// earlier choice.
pub open spec fn spec_select_broadcast(ifaces: Seq<IfaceView>, cur: Option<Seq<u8>>) -> Option<
    Seq<u8>,
>
    decreases ifaces.len(),
{
    if ifaces.len() == 0 {
        cur
    } else {
        let f = ifaces[0];
        let step = if !f.is_loopback && !name_excluded(f.name) && f.v4 is Some && f.v4->0.netmask
            != zero_mask() && (cur is None || name_preferred(f.name)) {
            Some(bcast_of(f.v4->0))
        } else {
            cur
        };
        spec_select_broadcast(ifaces.drop_first(), step)
    }
}

/// The decimal ASCII digits of an octet, no leading zeros.
pub open spec fn dec_digits(n: u8) -> Seq<u8> {
    if n < 10 {
        seq![(0x30 + n) as u8]
    } else if n < 100 {
        seq![(0x30 + n / 10) as u8, (0x30 + n % 10) as u8]
    } else {
        seq![(0x30 + n / 100) as u8, (0x30 + (n / 10) % 10) as u8, (0x30 + n % 10) as u8]
    }
}

/// The dotted-decimal ASCII form of an IPv4 address.
pub open spec fn fmt_ipv4(ip: Seq<u8>) -> Seq<u8> {
    dec_digits(ip[0]) + seq![0x2eu8] + dec_digits(ip[1]) + seq![0x2eu8] + dec_digits(ip[2])
        + seq![0x2eu8] + dec_digits(ip[3])
}

/// The limited broadcast address, the fallback when no interface fits.
pub open spec fn limited_broadcast() -> Seq<u8> {
    seq![255u8, 255u8, 255u8, 255u8]
}

/// The broadcast target the joiner sends its discovery signal to:
/// the selected interface's directed broadcast, else the limited
/// broadcast, with the service port appended.
pub open spec fn spec_broadcast_address(ifaces: Seq<IfaceView>) -> Seq<u8> {
    match spec_select_broadcast(ifaces, None) {
        Some(b) => fmt_ipv4(b) + port_suffix(),
        None => fmt_ipv4(limited_broadcast()) + port_suffix(),
    }
}

/// The discovery reply's peer list: the registry, plus the responder's
/// own formatted address when one is selected.
pub open spec fn spec_initiation_list(reg: Seq<Seq<u8>>, ifaces: Seq<IfaceView>) -> Seq<Seq<u8>> {
    match spec_select_own_ip(ifaces, None) {
        Some(ip) => reg.push(fmt_ipv4(ip)),
        None => reg,
    }
}

/// Whether a byte string occurs inside another.
fn contains_sub_bytes(hay: &Vec<u8>, pat: &Vec<u8>) -> (r: bool)
    ensures
        r == contains_sub(hay@, pat@),
{
    let hn = hay.len();
    let pn = pat.len();
    if pn > hn {
        proof {
            if contains_sub(hay@, pat@) {
                let k = choose|k: int|
                    0 <= k <= hay@.len() - pat@.len() && #[trigger] hay@.subrange(
                        k,
                        k + pat@.len(),
                    ) == pat@;
                assert(false);
            }
        }
        return false;
    }
    let mut i: usize = 0;
    while i <= hn - pn
        invariant
            hn == hay@.len(),
            pn == pat@.len(),
            pn <= hn,
            i <= hn - pn + 1,
            forall|k: int| 0 <= k < i ==> #[trigger] hay@.subrange(k, k + pat@.len()) != pat@,
        decreases hn - pn - i + 1,
    {
        let mut j: usize = 0;
        let mut matched = true;
        while j < pn
            invariant
                hn == hay@.len(),
                pn == pat@.len(),
                i + pn <= hn,
                j <= pn,
                matched ==> forall|k: int| 0 <= k < j ==> hay@[i + k] == pat@[k],
                !matched ==> hay@.subrange(i as int, i + pat@.len()) != pat@,
            decreases pn - j,
        {
            if hay[i + j] != pat[j] {
                matched = false;
                proof {
                    assert(hay@.subrange(i as int, i + pat@.len())[j as int] != pat@[j as int]);
                }
            }
            j = j + 1;
        }
        if matched {
            proof {
                assert(hay@.subrange(i as int, i + pat@.len()) =~= pat@);
            }
            return true;
        }
        proof {
            if pn == 0 {
                assert(hay@.subrange(i as int, i + pat@.len()) =~= pat@);
            }
        }
        i = i + 1;
    }
    proof {
        if contains_sub(hay@, pat@) {
            let k = choose|k: int|
                0 <= k <= hay@.len() - pat@.len() && #[trigger] hay@.subrange(k, k + pat@.len())
                    == pat@;
            assert(hay@.subrange(k, k + pat@.len()) != pat@);
        }
    }
    false
}

/// Append the decimal ASCII digits of an octet.
fn push_dec(v: &mut Vec<u8>, n: u8)
    ensures
        final(v)@ == old(v)@ + dec_digits(n),
{
    if n < 10 {
        v.push(0x30 + n);
        proof {
            assert(final(v)@ =~= old(v)@ + dec_digits(n));
        }
    } else if n < 100 {
        v.push(0x30 + n / 10);
        v.push(0x30 + n % 10);
        proof {
            assert(final(v)@ =~= old(v)@ + dec_digits(n));
        }
    } else {
        v.push(0x30 + n / 100);
        v.push(0x30 + (n / 10) % 10);
        v.push(0x30 + n % 10);
        proof {
            assert(final(v)@ =~= old(v)@ + dec_digits(n));
        }
    }
}

/// The dotted-decimal ASCII form of an IPv4 address.
fn format_ipv4(ip: [u8; 4]) -> (r: Vec<u8>)
    ensures
        r@ == fmt_ipv4(ip@),
{
    let mut v: Vec<u8> = Vec::new();
    push_dec(&mut v, ip[0]);
    v.push(0x2e);
    push_dec(&mut v, ip[1]);
    v.push(0x2e);
    push_dec(&mut v, ip[2]);
    v.push(0x2e);
    push_dec(&mut v, ip[3]);
    proof {
        assert(v@ =~= fmt_ipv4(ip@));
    }
    v
}

/// The responder's own discoverable address, if any interface offers a
/// private non-loopback IPv4 address.
fn select_own_ip(ifaces: &Vec<NetInterface>) -> (r: Option<[u8; 4]>)
    ensures
        r matches Some(ip) ==> spec_select_own_ip(iface_views(ifaces@), None) == Some(ip@),
        r is None ==> spec_select_own_ip(iface_views(ifaces@), None) is None,
{
    let ghost views = iface_views(ifaces@);
    let n = ifaces.len();
    let mut cur: Option<[u8; 4]> = None;
    let mut i: usize = 0;
    proof {
        assert(views.skip(0) =~= views);
    }
    while i < n
        invariant
            n == ifaces@.len(),
            views == iface_views(ifaces@),
            i <= n,
            spec_select_own_ip(views, None) == spec_select_own_ip(
                views.skip(i as int),
                match cur {
                    Some(ip) => Some(ip@),
                    None => None,
                },
            ),
        decreases n - i,
    {
        proof {
            assert(views.skip(i as int)[0] == views[i as int]);
            assert(views.skip(i as int).drop_first() =~= views.skip(i + 1));
        }
        let f = &ifaces[i];
        match &f.v4 {
            Some(v4) => {
                let ip = v4.ip;
                if !f.is_loopback && (ip[0] == 10 || (ip[0] == 192 && ip[1] == 168) || (ip[0]
                    == 172 && 16 <= ip[1] && ip[1] <= 31)) && (cur.is_none() || (ip[0] == 192
                    && ip[1] == 168)) {
                    cur = Some(ip);
                }
            },
            None => {
            },
        }
        i = i + 1;
    }
    proof {
        assert(views.skip(n as int).len() == 0);
    }
    cur
}

/// The joiner's broadcast target with the service port appended, falling
/// back to the limited broadcast address when no usable interface exists.
pub fn get_broadcast_address(ifaces: &Vec<NetInterface>) -> (r: Vec<u8>)
    ensures
        r@ == spec_broadcast_address(iface_views(ifaces@)),
{
    let ghost views = iface_views(ifaces@);
    let mut vpn: Vec<u8> = Vec::new();
    vpn.push(0x76);
    vpn.push(0x70);
    vpn.push(0x6e);
    let mut virt: Vec<u8> = Vec::new();
    virt.push(0x56);
    virt.push(0x69);
    virt.push(0x72);
    virt.push(0x74);
    virt.push(0x75);
    virt.push(0x61);
    virt.push(0x6c);
    let mut eth: Vec<u8> = Vec::new();
    eth.push(0x65);
    eth.push(0x74);
    eth.push(0x68);
    let mut wlan: Vec<u8> = Vec::new();
    wlan.push(0x77);
    wlan.push(0x6c);
    wlan.push(0x61);
    wlan.push(0x6e);
    proof {
        assert(vpn@ =~= vpn_pat());
        assert(virt@ =~= virtual_pat());
        assert(eth@ =~= eth_pat());
        assert(wlan@ =~= wlan_pat());
    }
    let n = ifaces.len();
    let mut cur: Option<[u8; 4]> = None;
    let mut i: usize = 0;
    proof {
        assert(views.skip(0) =~= views);
    }
    while i < n
        invariant
            n == ifaces@.len(),
            views == iface_views(ifaces@),
            vpn@ == vpn_pat(),
            virt@ == virtual_pat(),
            eth@ == eth_pat(),
            wlan@ == wlan_pat(),
            i <= n,
            spec_select_broadcast(views, None) == spec_select_broadcast(
                views.skip(i as int),
                match cur {
                    Some(b) => Some(b@),
                    None => None,
                },
            ),
        decreases n - i,
    {
        proof {
            assert(views.skip(i as int)[0] == views[i as int]);
            assert(views.skip(i as int).drop_first() =~= views.skip(i + 1));
        }
        let f = &ifaces[i];
        let excluded = contains_sub_bytes(&f.name, &vpn) || contains_sub_bytes(&f.name, &virt);
        match &f.v4 {
            Some(v4) => {
                let m = v4.netmask;
                let zero = m[0] == 0 && m[1] == 0 && m[2] == 0 && m[3] == 0;
                proof {
                    assert(zero == (views[i as int].v4->0.netmask =~= zero_mask()));
                }
                if !f.is_loopback && !excluded && !zero {
                    let preferred = contains_sub_bytes(&f.name, &eth) || contains_sub_bytes(
                        &f.name,
                        &wlan,
                    );
                    if cur.is_none() || preferred {
                        let b: [u8; 4] = [
                            v4.ip[0] | !m[0],
                            v4.ip[1] | !m[1],
                            v4.ip[2] | !m[2],
                            v4.ip[3] | !m[3],
                        ];
                        proof {
                            assert(b@ =~= bcast_of(views[i as int].v4->0));
                        }
                        cur = Some(b);
                    }
                }
            },
            None => {
            },
        }
        i = i + 1;
    }
    proof {
        assert(views.skip(n as int).len() == 0);
    }
    match cur {
        Some(b) => {
            let mut r = format_ipv4(b);
            r.push(0x3a);
            r.push(0x32);
            r.push(0x36);
            r.push(0x30);
            r.push(0x32);
            r.push(0x35);
            proof {
                assert(r@ =~= fmt_ipv4(b@) + port_suffix());
            }
            r
        },
        None => {
            let fb: [u8; 4] = [255, 255, 255, 255];
            let mut r = format_ipv4(fb);
            r.push(0x3a);
            r.push(0x32);
            r.push(0x36);
            r.push(0x30);
            r.push(0x32);
            r.push(0x35);
            proof {
                assert(fb@ =~= limited_broadcast());
                assert(r@ =~= fmt_ipv4(limited_broadcast()) + port_suffix());
            }
            r
        },
    }
}

/// Build the discovery reply: the current registry, with the responder's
/// own discoverable address appended when one is selected.
pub fn create_initiation_message(registry: &PeerRegistry, ifaces: &Vec<NetInterface>) -> (r:
    InitiationMessage)
    ensures
        r@ == spec_initiation_list(registry@, iface_views(ifaces@)),
{
    let n = registry.len();
    let mut ip_list: Vec<Vec<u8>> = Vec::new();
    let mut i: usize = 0;
    while i < n
        invariant
            n == registry@.len(),
            i <= n,
            ip_list.deep_view().len() == i,
            forall|k: int| 0 <= k < i ==> ip_list.deep_view()[k] == registry@[k],
        decreases n - i,
    {
        let a = registry.addr_at(i);
        let ghost av = a@;
        proof {
            assert(a.deep_view() =~= av);
        }
        ip_list.push(a);
        i = i + 1;
    }
    match select_own_ip(ifaces) {
        Some(ip) => {
            let own = format_ipv4(ip);
            let ghost ownv = own@;
            proof {
                assert(own.deep_view() =~= ownv);
            }
            ip_list.push(own);
            let r = InitiationMessage { ip_list };
            proof {
                assert(r@ =~= registry@.push(fmt_ipv4(ip@)));
            }
            r
        },
        None => {
            let r = InitiationMessage { ip_list };
            proof {
                assert(r@ =~= registry@);
            }
            r
        },
    }
}

} // verus!
