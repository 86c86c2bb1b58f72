//! The logical unit of traffic: a payload bound for (or received from) one
//! peer. The payload is immutable once constructed.

use vstd::prelude::*;
use vstd::slice::slice_to_vec;
use crate::address::Address;

verus! {

/// A payload together with the peer it travels to or came from.
#[derive(Debug)]
pub struct Packet {
    /// The address the packet will be sent to, or was received from.
    pub addr: Address,
    /// The raw payload of the packet.
    pub payload: Vec<u8>,
}

impl Packet {
    /// Bind a payload to a destination.
    pub fn new(addr: Address, payload: Vec<u8>) -> (r: Self)
        ensures
            r.addr == addr,
            r.payload == payload,
    {
        Packet { addr, payload }
    }

    /// The raw payload bytes.
    pub fn payload(&self) -> (r: &[u8])
        ensures
            r@ == self.payload@,
    {
        self.payload.as_slice()
    }

    /// The peer this packet belongs to.
    pub fn addr(&self) -> (r: Address)
        ensures
            r == self.addr,
    {
        self.addr
    }
}

impl Clone for Packet {
    /// An exact copy: same peer, same payload bytes.
    fn clone(&self) -> (r: Self)
        ensures
            r.addr == self.addr,
            r.payload@ == self.payload@,
    {
        Packet { addr: self.addr, payload: slice_to_vec(self.payload.as_slice()) }
    }
}

/// A packet as it stands on the wire, headers and payload in one place:
/// the sequence number, the last acknowledged sequence number, the bitfield
/// of the 32 acknowledged packets before it, and the payload bytes.
#[derive(Debug)]
pub struct RawPacket {
    /// This packet's position in the sender's per-peer stream.
    pub seq: u16,
    /// The last acknowledged sequence number.
    pub ack_seq: u16,
    /// A bitfield over the 32 acknowledged packets preceding `ack_seq`.
    pub ack_field: u32,
    /// The payload in which the packet data is stored.
    pub payload: Vec<u8>,
}

impl RawPacket {
    /// Stamp a packet with its sequence number and the acknowledgment state
    /// of the connection it belongs to.
    pub fn new(seq_num: u16, p: &Packet, connection: &crate::connection::Connection) -> (r:
        RawPacket)
        ensures
            r.seq == seq_num,
            r.ack_seq == connection.their_acks.last_seq,
            r.ack_field == connection.their_acks.field,
            r.payload@ == p.payload@,
    {
        RawPacket {
            seq: seq_num,
            ack_seq: connection.their_acks.last_seq,
            ack_field: connection.their_acks.field,
            payload: slice_to_vec(p.payload.as_slice()),
        }
    }
}

/// The ready-to-send wire form of one logical packet: one byte buffer per
/// datagram — a single one for an unfragmented packet, several for a
/// fragmented one, in fragment order.
#[derive(Debug)]
pub struct PacketData {
    parts: Vec<Vec<u8>>,
}

impl PacketData {
    /// The datagrams held, as byte sequences in order.
    pub closed spec fn parts_view(self) -> Seq<Seq<u8>> {
        self.parts@.map_values(|p: Vec<u8>| p@)
    }

    /// No datagrams yet.
    pub fn new() -> (r: PacketData)
        ensures
            r.parts_view() == Seq::<Seq<u8>>::empty(),
    {
        let r = PacketData { parts: Vec::new() };
        proof {
            assert(r.parts_view() =~= Seq::<Seq<u8>>::empty());
        }
        r
    }

    /// Add one datagram: a serialized header followed by its payload slice.
    pub fn add_fragment(&mut self, fragment: Vec<u8>, fragment_data: Vec<u8>)
        ensures
            final(self).parts_view() == old(self).parts_view().push(fragment@ + fragment_data@),
    {
        let ghost combined = fragment@ + fragment_data@;
        let mut part = fragment;
        let mut data = fragment_data;
        part.append(&mut data);
        self.parts.push(part);
        proof {
            assert(part@ =~= combined);
            assert(self.parts_view() =~= old(self).parts_view().push(combined));
        }
    }

    /// How many datagrams this packet was divided into.
    pub fn fragment_count(&self) -> (r: usize)
        ensures
            r == self.parts_view().len(),
    {
        self.parts.len()
    }

    /// Surrender the datagrams, in order.
    pub fn parts(self) -> (r: Vec<Vec<u8>>)
        ensures
            r@.map_values(|p: Vec<u8>| p@) == self.parts_view(),
    {
        self.parts
    }
}

} // verus!
