//! Links: bounded packet FIFOs with transmit/receive counters, owned by the
//! link registry and addressed by their canonical spec string.

use vstd::prelude::*;
use crate::stats::sat_add;
use crate::stats::counter_add;
use crate::table::Table;

verus! {

/// Capacity of every link, in packets.
pub const LINK_MAX_PACKETS: usize = 1024;

/// Recommended number of packets an app inhales per `pull` call.
pub const PULL_NPACKETS: usize = LINK_MAX_PACKETS / 10;

/// An opaque byte buffer moved through links. The engine never reads the
/// payload; it only records sizes when packets are freed.
pub struct Packet {
    pub data: Vec<u8>,
}

/// A bounded FIFO of packets with counters. The front of the queue is index
/// zero.
pub struct Link {
    pub packets: Vec<Packet>,
    /// Packets accepted for transmission.
    pub txpackets: u64,
    /// Packets dropped because the link was full.
    pub txdrop: u64,
    /// Packets received off the link.
    pub rxpackets: u64,
}

/// The queue never exceeds the link capacity.
pub open spec fn link_wf(l: Link) -> bool {
    l.packets@.len() <= LINK_MAX_PACKETS
}

/// Relation between a link before and after a `transmit` of packet `p` that
/// the call reported as `acc`.
pub open spec fn transmit_rel(l0: Link, l1: Link, p: Packet, acc: bool) -> bool {
    &&& acc == (l0.packets@.len() < LINK_MAX_PACKETS)
    &&& (acc ==> l1.packets@ == l0.packets@.push(p) && l1.txpackets == sat_add(l0.txpackets, 1)
        && l1.txdrop == l0.txdrop)
    &&& (!acc ==> l1.packets@ == l0.packets@ && l1.txdrop == sat_add(l0.txdrop, 1) && l1.txpackets
        == l0.txpackets)
    &&& l1.rxpackets == l0.rxpackets
}

impl Link {
    pub fn new() -> (r: Link)
        ensures
            link_wf(r),
            r.packets@.len() == 0,
            r.txpackets == 0,
            r.txdrop == 0,
            r.rxpackets == 0,
    {
        Link { packets: Vec::new(), txpackets: 0, txdrop: 0, rxpackets: 0 }
    }

    /// Enqueue a packet, or drop it when the link is full. Returns whether it
    /// was accepted.
    pub fn transmit(&mut self, p: Packet) -> (accepted: bool)
        requires
            link_wf(*old(self)),
        ensures
            link_wf(*final(self)),
            accepted == (old(self).packets@.len() < LINK_MAX_PACKETS),
            accepted ==> final(self).packets@ == old(self).packets@.push(p) && final(self).txpackets
                == sat_add(old(self).txpackets, 1) && final(self).txdrop == old(self).txdrop,
            !accepted ==> final(self).packets@ == old(self).packets@ && final(self).txdrop
                == sat_add(old(self).txdrop, 1) && final(self).txpackets == old(self).txpackets,
            final(self).rxpackets == old(self).rxpackets,
    {
        if self.packets.len() < LINK_MAX_PACKETS {
            self.packets.push(p);
            self.txpackets = counter_add(self.txpackets, 1);
            true
        } else {
            self.txdrop = counter_add(self.txdrop, 1);
            false
        }
    }

    /// Dequeue the oldest packet, if any.
    pub fn receive(&mut self) -> (r: Option<Packet>)
        requires
            link_wf(*old(self)),
        ensures
            link_wf(*final(self)),
            old(self).packets@.len() == 0 ==> r is None && *final(self) == *old(self),
            old(self).packets@.len() > 0 ==> {
                &&& r == Some(old(self).packets@[0])
                &&& final(self).packets@ == old(self).packets@.skip(1)
                &&& final(self).rxpackets == sat_add(old(self).rxpackets, 1)
            },
            final(self).txpackets == old(self).txpackets,
            final(self).txdrop == old(self).txdrop,
    {
        if self.packets.len() == 0 {
            None
        } else {
            let p = self.packets.remove(0);
            self.rxpackets = counter_add(self.rxpackets, 1);
            proof {
                assert(self.packets@ =~= old(self).packets@.skip(1));
            }
            Some(p)
        }
    }

    pub fn is_empty(&self) -> (r: bool)
        ensures
            r == (self.packets@.len() == 0),
    {
        self.packets.len() == 0
    }

    pub fn is_full(&self) -> (r: bool)
        ensures
            r == (self.packets@.len() >= LINK_MAX_PACKETS),
    {
        self.packets.len() >= LINK_MAX_PACKETS
    }
}

/// Every link value in a registry respects its capacity bound.
pub open spec fn links_wf(t: Table<Link>) -> bool {
    forall|i: int| 0 <= i < t.vals@.len() ==> link_wf(#[trigger] t.vals@[i])
}

/// Transmit a packet onto the link bound under `key`. The packet is lost (not
/// counted anywhere) when no such link exists; apps only use keys out of
/// their own slot tables, which the engine keeps bound.
pub fn transmit_on(links: &mut Table<Link>, key: &String, p: Packet) -> (r: bool)
    requires
        old(links).wf(),
        links_wf(*old(links)),
    ensures
        final(links).wf(),
        links_wf(*final(links)),
        final(links).keys@ == old(links).keys@,
        !old(links).has_key(key@) ==> *final(links) == *old(links) && !r,
        old(links).has_key(key@) ==> ({
            let idx = old(links).key_index(key@);
            &&& final(links).vals@ =~= old(links).vals@.update(idx, final(links).vals@[idx])
            &&& transmit_rel(old(links).spec_get(key@), final(links).vals@[idx], p, r)
        }),
{
    match links.index_of(key) {
        Some(i) => {
            proof {
                crate::table::lemma_table_index_facts(*old(links));
            }
            let acc = links.vals[i].transmit(p);
            proof {
                assert forall|j: int| 0 <= j < links.vals@.len() implies link_wf(
                    #[trigger] links.vals@[j],
                ) by {
                    if j != i {
                        assert(links.vals@[j] == old(links).vals@[j]);
                    }
                }
            }
            acc
        },
        None => false,
    }
}

/// Receive a packet off the link bound under `key`, if any is queued.
pub fn receive_on(links: &mut Table<Link>, key: &String) -> (r: Option<Packet>)
    requires
        old(links).wf(),
        links_wf(*old(links)),
    ensures
        final(links).wf(),
        links_wf(*final(links)),
        final(links).keys@ == old(links).keys@,
        !old(links).has_key(key@) ==> *final(links) == *old(links) && r is None,
        old(links).has_key(key@) ==> ({
            let idx = old(links).key_index(key@);
            &&& final(links).vals@ =~= old(links).vals@.update(idx, final(links).vals@[idx])
            &&& (r is Some <==> old(links).spec_get(key@).packets@.len() > 0)
            &&& (r is Some ==> r == Some(old(links).spec_get(key@).packets@[0]))
        }),
{
    match links.index_of(key) {
        Some(i) => {
            proof {
                crate::table::lemma_table_index_facts(*old(links));
            }
            let r = links.vals[i].receive();
            proof {
                assert forall|j: int| 0 <= j < links.vals@.len() implies link_wf(
                    #[trigger] links.vals@[j],
                ) by {
                    if j != i {
                        assert(links.vals@[j] == old(links).vals@[j]);
                    }
                }
            }
            r
        },
        None => None,
    }
}

} // verus!
