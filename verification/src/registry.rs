//! The peer registry: the append-only set of known peer network addresses.
//!
//! Addresses are byte strings in the transport's `host:port` form (or a
//! bare host, to which the service port is appended when sending). The
//! registry holds each address at most once; insertion order is kept but
//! carries no meaning. Peers are never removed: there is no liveness
//! tracking.

use vstd::prelude::*;
use crate::util::{bytes_eq, clone_bytes, lemma_deep_view_index};

verus! {

/// The set of known peer addresses, each held once.
pub struct PeerRegistry {
    addrs: Vec<Vec<u8>>,
}

impl View for PeerRegistry {
    type V = Seq<Seq<u8>>;

    closed spec fn view(&self) -> Seq<Seq<u8>> {
        self.addrs.deep_view()
    }
}

/// One merge step: add an address unless it is already known.
pub open spec fn spec_add_ip(v: Seq<Seq<u8>>, ip: Seq<u8>) -> Seq<Seq<u8>> {
    if v.contains(ip) {
        v
    } else {
        v.push(ip)
    }
}

/// Merging a peer list adds each unknown address, in list order.
pub open spec fn spec_merge(v: Seq<Seq<u8>>, l: Seq<Seq<u8>>) -> Seq<Seq<u8>>
    decreases l.len(),
{
    if l.len() == 0 {
        v
    } else {
        spec_merge(spec_add_ip(v, l[0]), l.drop_first())
    }
}

impl PeerRegistry {
    /// No address is held twice.
    pub open spec fn wf(&self) -> bool {
        forall|i: int, j: int| 0 <= i < j < self@.len() ==> self@[i] != self@[j]
    }

    /// An empty registry, as every node starts.
    pub fn new() -> (r: PeerRegistry)
        ensures
            r@ == Seq::<Seq<u8>>::empty(),
            r.wf(),
    {
        let r = PeerRegistry { addrs: Vec::new() };
        proof {
            assert(r@ =~= Seq::<Seq<u8>>::empty());
        }
        r
    }

    /// How many peers are known.
    pub fn len(&self) -> (n: usize)
        ensures
            n == self@.len(),
    {
        proof {
            assert(self@.len() == self.addrs@.len());
        }
        self.addrs.len()
    }

    /// A copy of the address at a position.
    pub fn addr_at(&self, i: usize) -> (r: Vec<u8>)
        requires
            i < self@.len(),
        ensures
            r@ == self@[i as int],
    {
        proof {
            lemma_deep_view_index(&self.addrs, i as int);
        }
        clone_bytes(&self.addrs[i])
    }

    /// Whether an address is already known.
    pub fn contains_ip(&self, ip: &Vec<u8>) -> (r: bool)
        ensures
            r == self@.contains(ip@),
    {
        let n = self.addrs.len();
        let mut i: usize = 0;
        while i < n
            invariant
                n == self.addrs@.len(),
                i <= n,
                forall|j: int| 0 <= j < i ==> self@[j] != ip@,
            decreases n - i,
        {
            proof {
                lemma_deep_view_index(&self.addrs, i as int);
            }
            if bytes_eq(&self.addrs[i], ip) {
                proof {
                    assert(self@[i as int] == ip@);
                }
                return true;
            }
            i = i + 1;
        }
        proof {
            assert(forall|j: int| 0 <= j < self@.len() ==> self@[j] != ip@);
            if self@.contains(ip@) {
                let j = choose|j: int| 0 <= j < self@.len() && self@[j] == ip@;
                assert(self@[j] != ip@);
            }
        }
        false
    }

    /// Record a peer address, keeping the registry duplicate-free.
    pub fn add_ip(&mut self, ip: Vec<u8>) -> (added: bool)
        requires
            old(self).wf(),
        ensures
            final(self).wf(),
            final(self)@ == spec_add_ip(old(self)@, ip@),
            added == !old(self)@.contains(ip@),
    {
        if self.contains_ip(&ip) {
            false
        } else {
            let ghost oldv = self@;
            proof {
                assert(ip.deep_view() =~= ip@);
            }
            self.addrs.push(ip);
            proof {
                assert(self@ =~= oldv.push(ip@));
                assert forall|i: int, j: int| 0 <= i < j < self@.len() implies self@[i]
                    != self@[j] by {
                    if j == self@.len() - 1 {
                        assert(!oldv.contains(self@[j]));
                        assert(oldv[i] == self@[i]);
                    }
                }
            }
            true
        }
    }

    /// Merge a received peer list, adding each unknown address in order.
    pub fn merge(&mut self, list: &Vec<Vec<u8>>)
        requires
            old(self).wf(),
        ensures
            final(self).wf(),
            final(self)@ == spec_merge(old(self)@, list.deep_view()),
    {
        let ghost l = list.deep_view();
        let n = list.len();
        let mut i: usize = 0;
        proof {
            assert(l.skip(0) =~= l);
        }
        while i < n
            invariant
                n == list@.len(),
                l == list.deep_view(),
                i <= n,
                self.wf(),
                spec_merge(old(self)@, l) == spec_merge(self@, l.skip(i as int)),
            decreases n - i,
        {
            proof {
                lemma_deep_view_index(list, i as int);
                assert(l.skip(i as int)[0] == l[i as int]);
                assert(l.skip(i as int).drop_first() =~= l.skip(i + 1));
            }
            let item = clone_bytes(&list[i]);
            self.add_ip(item);
            i = i + 1;
        }
        proof {
            assert(l.skip(n as int).len() == 0);
        }
    }
}

} // verus!
