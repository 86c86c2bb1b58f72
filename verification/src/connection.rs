//! Per-peer state over an inherently connectionless transport.

use vstd::prelude::*;
use crate::ack::{ExternalAcks, LocalAckRecord};
use crate::address::Address;
use crate::packet::Packet;

verus! {

/// Everything remembered about one peer: the next outgoing sequence number,
/// the two acknowledgment records, the packets most recently classified
/// dropped (drained on demand), and when the peer was last heard from.
pub struct Connection {
    /// The peer's address.
    pub addr: Address,
    /// The next outgoing sequence number; wraps at 65536.
    pub seq_num: u16,
    /// What we have received from the peer — the source of outgoing
    /// acknowledgment headers.
    pub their_acks: ExternalAcks,
    /// What we have sent and still await acknowledgment of.
    pub waiting_packets: LocalAckRecord,
    /// The packets classified dropped by the peer's most recent report,
    /// replaced (not accumulated) on every receive and drained on demand.
    pub dropped_packets: Vec<Packet>,
    /// The caller-supplied clock value of the last receive (or of creation).
    pub last_heard: u64,
}

/// What a just-created connection looks like: counters at zero, both
/// acknowledgment records empty, nothing dropped, created `now`.
pub open spec fn is_fresh_connection(c: Connection, addr: Address, now: u64) -> bool {
    &&& c.wf()
    &&& c.addr == addr
    &&& c.seq_num == 0
    &&& !c.their_acks.initialized
    &&& c.their_acks.last_seq == 0
    &&& c.their_acks.field == 0
    &&& c.their_acks.received@ == Set::<u16>::empty()
    &&& c.waiting_packets@ == Seq::<(u16, Packet)>::empty()
    &&& c.dropped_packets@ == Seq::<Packet>::empty()
    &&& c.last_heard == now
}

impl Connection {
    /// Both acknowledgment records are internally consistent.
    pub open spec fn wf(self) -> bool {
        &&& self.their_acks.wf()
        &&& self.waiting_packets.wf()
    }

    /// A connection has timed out when the caller's clock has advanced
    /// `timeout` or more past the last time the peer was heard.
    pub open spec fn timed_out(self, now: u64, timeout: u64) -> bool {
        now >= self.last_heard + timeout
    }

    /// Fresh state for a peer first seen at clock value `now`.
    pub fn new(addr: Address, now: u64) -> (r: Connection)
        ensures
            is_fresh_connection(r, addr, now),
    {
        let r = Connection {
            addr,
            seq_num: 0,
            their_acks: ExternalAcks::new(),
            waiting_packets: LocalAckRecord::new(),
            dropped_packets: Vec::new(),
            last_heard: now,
        };
        proof {
            assert(r.dropped_packets@ =~= Seq::<Packet>::empty());
        }
        r
    }
}

} // verus!
