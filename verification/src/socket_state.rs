//! The peer registry: per-peer connections, lazily created, with the
//! per-send header stamping and per-receive acknowledgment processing.

use vstd::prelude::*;
use crate::ack::{dropped_from, keep_outstanding, upsert};
use crate::address::Address;
use crate::config::NetworkConfig;
use crate::connection::{is_fresh_connection, Connection};
use crate::error::NetworkError;
use crate::header::{
    chunk_of, num_fragments_of, spec_datagrams, FragmentHeader, PacketHeader,
    lemma_num_fragments_bounds,
};
use crate::packet::{Packet, PacketData};

verus! {

/// The number of seconds without traffic after which a peer is considered
/// timed out, unless overridden.
pub const TIMEOUT_DEFAULT: u64 = 10;

/// Grant mutable access to one element of a vector; whatever the caller
/// writes through the result becomes that element.
fn vec_index_mut<T>(v: &mut Vec<T>, i: usize) -> (element: &mut T)
    requires
        i < old(v).len(),
    ensures
        *element == old(v)@[i as int],
        final(v)@ == old(v)@.update(i as int, *final(element)),
{
    &mut v[i]
}

/// The virtual connections currently known to the socket.
pub struct SocketState {
    timeout: u64,
    connections: Vec<Connection>,
}

impl SocketState {
    /// The configured timeout, in the caller's clock units.
    pub closed spec fn timeout_spec(self) -> u64 {
        self.timeout
    }

    /// The connections, in creation order.
    pub closed spec fn conns(self) -> Seq<Connection> {
        self.connections@
    }

    /// Whether a connection for `a` exists.
    pub open spec fn has_conn(self, a: Address) -> bool {
        exists|i: int| 0 <= i < self.conns().len() && (#[trigger] self.conns()[i]).addr == a
    }

    /// Where the connection for `a` sits; unique when the state is
    /// well-formed.
    pub open spec fn conn_index(self, a: Address) -> int {
        choose|i: int| 0 <= i < self.conns().len() && (#[trigger] self.conns()[i]).addr == a
    }

    /// The connection for `a`.
    pub open spec fn conn_of(self, a: Address) -> Connection {
        self.conns()[self.conn_index(a)]
    }

    /// Every peer has at most one connection, and each connection's own
    /// records are consistent.
    pub open spec fn wf(self) -> bool {
        &&& forall|i: int, j: int|
            0 <= i < j < self.conns().len() ==> (#[trigger] self.conns()[i]).addr != (
            #[trigger] self.conns()[j]).addr
        &&& forall|i: int| 0 <= i < self.conns().len() ==> (#[trigger] self.conns()[i]).wf()
    }

    /// An element whose address is `a` really is the connection `conn_of`
    /// names: well-formedness makes the position unique.
    pub proof fn lemma_conn_lookup(self, a: Address, i: int)
        requires
            self.wf(),
            0 <= i < self.conns().len(),
            self.conns()[i].addr == a,
        ensures
            self.has_conn(a),
            self.conn_index(a) == i,
            self.conn_of(a) == self.conns()[i],
    {
        assert(self.has_conn(a));
        let j = self.conn_index(a);
        assert(0 <= j < self.conns().len() && self.conns()[j].addr == a);
        if j < i {
            assert(self.conns()[j].addr != self.conns()[i].addr);
        }
        if j > i {
            assert(self.conns()[i].addr != self.conns()[j].addr);
        }
    }

    /// An empty registry with the stock timeout. Unlike a socket, the
    /// registry performs no background work of its own; the shell that owns
    /// it runs the periodic timeout scan.
    pub fn new() -> (r: SocketState)
        ensures
            r.wf(),
            r.conns() == Seq::<Connection>::empty(),
            r.timeout_spec() == TIMEOUT_DEFAULT,
    {
        SocketState { timeout: TIMEOUT_DEFAULT, connections: Vec::new() }
    }

    /// The same registry with another timeout.
    pub fn with_client_timeout(self, timeout: u64) -> (r: SocketState)
        ensures
            r.conns() == self.conns(),
            r.timeout_spec() == timeout,
            self.wf() ==> r.wf(),
    {
        let r = SocketState { timeout, connections: self.connections };
        proof {
            assert(r.conns() == self.conns());
        }
        r
    }

    /// The position of the connection for `addr`, if one exists.
    fn find_connection(&self, addr: &Address) -> (r: Option<usize>)
        requires
            self.wf(),
        ensures
            r is Some <==> self.has_conn(*addr),
            r is Some ==> r.unwrap() as int == self.conn_index(*addr) && r.unwrap()
                < self.conns().len(),
    {
        let n = self.connections.len();
        let mut i: usize = 0;
        while i < n
            invariant
                self.wf(),
                n == self.conns().len(),
                i <= n,
                forall|j: int| 0 <= j < i ==> (#[trigger] self.conns()[j]).addr != *addr,
            decreases n - i,
        {
            if self.connections[i].addr == *addr {
                proof {
                    self.lemma_conn_lookup(*addr, i as int);
                }
                return Some(i);
            }
            i += 1;
        }
        proof {
            if self.has_conn(*addr) {
                let w = self.conn_index(*addr);
                assert(self.conns()[w].addr != *addr);
            }
        }
        None
    }

    /// If there is no connection for the given address, create a fresh one,
    /// stamped with the caller's clock. Returns where the connection sits.
    pub fn create_connection_if_not_exists(&mut self, addr: &Address, now: u64) -> (idx: usize)
        requires
            old(self).wf(),
        ensures
            final(self).wf(),
            final(self).timeout_spec() == old(self).timeout_spec(),
            idx < final(self).conns().len(),
            final(self).conns()[idx as int].addr == *addr,
            final(self).has_conn(*addr),
            final(self).conn_index(*addr) == idx as int,
            old(self).has_conn(*addr) ==> *final(self) == *old(self),
            !old(self).has_conn(*addr) ==> {
                &&& idx == old(self).conns().len()
                &&& final(self).conns().len() == old(self).conns().len() + 1
                &&& final(self).conns().subrange(0, old(self).conns().len() as int) == old(
                    self,
                ).conns()
                &&& is_fresh_connection(final(self).conns().last(), *addr, now)
            },
            forall|b: Address| #[trigger]
                final(self).has_conn(b) <==> old(self).has_conn(b) || b == *addr,
            forall|b: Address|
                b != *addr && old(self).has_conn(b) ==> #[trigger] final(self).conn_of(b) == old(
                    self,
                ).conn_of(b) && final(self).conn_index(b) == old(self).conn_index(b),
    {
        match self.find_connection(addr) {
            Some(i) => i,
            None => {
                let idx = self.connections.len();
                self.connections.push(Connection::new(*addr, now));
                proof {
                    assert(self.conns() == old(self).conns().push(self.conns().last()));
                    assert forall|i: int, j: int|
                        0 <= i < j < self.conns().len() implies (#[trigger] self.conns()[i]).addr
                        != (#[trigger] self.conns()[j]).addr by {
                        if j < self.conns().len() - 1 {
                            assert(old(self).conns()[i].addr != old(self).conns()[j].addr);
                        } else {
                            if old(self).has_conn(old(self).conns()[i].addr) {
                            }
                            assert(old(self).conns()[i].addr == self.conns()[i].addr);
                            if self.conns()[i].addr == *addr {
                                old(self).lemma_conn_lookup(*addr, i);
                            }
                        }
                    }
                    self.lemma_conn_lookup(*addr, idx as int);
                    assert(self.conns().subrange(0, old(self).conns().len() as int) =~= old(
                        self,
                    ).conns());
                    assert forall|b: Address|
                        self.has_conn(b) <==> (old(self).has_conn(b) || b == *addr) by {
                        if old(self).has_conn(b) {
                            let w = old(self).conn_index(b);
                            assert(self.conns()[w].addr == b);
                            assert(self.has_conn(b));
                        }
                        if b == *addr {
                            assert(self.has_conn(b));
                        }
                        if self.has_conn(b) && b != *addr {
                            let w = self.conn_index(b);
                            assert(self.conns()[w].addr == b);
                            assert(w < old(self).conns().len());
                            assert(old(self).conns()[w].addr == b);
                            assert(old(self).has_conn(b));
                        }
                    }
                    assert forall|b: Address|
                        b != *addr && old(self).has_conn(b) implies #[trigger] self.conn_of(b)
                        == old(self).conn_of(b) && self.conn_index(b) == old(self).conn_index(
                        b,
                    ) by {
                        let w = old(self).conn_index(b);
                        assert(old(self).conns()[w].addr == b);
                        assert(self.conns()[w].addr == b);
                        self.lemma_conn_lookup(b, w);
                    }
                }
                idx
            },
        }
    }

    /// The header the next packet to `a` will be stamped with: the peer's
    /// next outgoing sequence number and the current acknowledgment state —
    /// all zero for a peer not seen yet.
    pub open spec fn pre_header(self, a: Address) -> PacketHeader {
        if self.has_conn(a) {
            PacketHeader {
                seq: self.conn_of(a).seq_num,
                ack_seq: self.conn_of(a).their_acks.last_seq,
                ack_field: self.conn_of(a).their_acks.field,
            }
        } else {
            PacketHeader { seq: 0, ack_seq: 0, ack_field: 0 }
        }
    }

    /// What is awaiting acknowledgment from `a` — empty for a peer not seen
    /// yet.
    pub open spec fn pre_waiting(self, a: Address) -> Seq<(u16, Packet)> {
        if self.has_conn(a) {
            self.conn_of(a).waiting_packets@
        } else {
            Seq::empty()
        }
    }

    /// Stamp a packet for the wire: look up (or create) its destination's
    /// connection, build the header from the connection's state, enqueue the
    /// packet as awaiting acknowledgment, advance the sequence counter, and
    /// serialize — one datagram when the payload fits in a fragment, else
    /// one per fragment. Fails with `FragmentInvalid`, changing nothing,
    /// when the payload needs more fragments than the configuration allows.
    pub fn pre_process_packet(&mut self, packet: Packet, config: &NetworkConfig, now: u64) -> (r:
        Result<(Address, PacketData), NetworkError>)
        requires
            old(self).wf(),
            config.wf(),
        ensures
            final(self).wf(),
            final(self).timeout_spec() == old(self).timeout_spec(),
            r is Ok <==> (packet.payload@.len() <= config.fragment_size || num_fragments_of(
                packet.payload@.len() as int,
                config.fragment_size as int,
            ) <= config.max_fragments),
            r is Err ==> *final(self) == *old(self) && r.unwrap_err()
                == NetworkError::FragmentInvalid,
            r is Ok ==> ({
                let h = old(self).pre_header(packet.addr);
                let c = final(self).conn_of(packet.addr);
                &&& r.unwrap().0 == packet.addr
                &&& r.unwrap().1.parts_view() == spec_datagrams(
                    h,
                    packet.payload@,
                    config.fragment_size as int,
                )
                &&& final(self).has_conn(packet.addr)
                &&& c.addr == packet.addr
                &&& c.seq_num as int == (h.seq + 1) % 0x10000
                &&& c.their_acks.last_seq == h.ack_seq
                &&& c.their_acks.field == h.ack_field
                &&& c.waiting_packets@ == upsert(old(self).pre_waiting(packet.addr), h.seq, packet)
                &&& (old(self).has_conn(packet.addr) ==> c.their_acks == old(self).conn_of(
                    packet.addr,
                ).their_acks && c.dropped_packets == old(self).conn_of(packet.addr).dropped_packets
                    && c.last_heard == old(self).conn_of(packet.addr).last_heard)
                &&& (!old(self).has_conn(packet.addr) ==> !c.their_acks.initialized
                    && c.dropped_packets@ == Seq::<Packet>::empty() && c.last_heard == now)
            }),
            r is Ok ==> forall|b: Address| #[trigger]
                final(self).has_conn(b) <==> (old(self).has_conn(b) || b == packet.addr),
            forall|b: Address|
                b != packet.addr && old(self).has_conn(b) ==> #[trigger] final(self).conn_of(b)
                    == old(self).conn_of(b),
    {
        let payload_len = packet.payload.len();
        if payload_len > config.fragment_size {
            if payload_len > (config.max_fragments as usize) * config.fragment_size {
                proof {
                    crate::header::lemma_num_fragments_le(
                        payload_len as int,
                        config.fragment_size as int,
                        config.max_fragments as int,
                    );
                }
                return Err(NetworkError::FragmentInvalid);
            }
            proof {
                crate::header::lemma_num_fragments_le(
                    payload_len as int,
                    config.fragment_size as int,
                    config.max_fragments as int,
                );
            }
        }
        let addr = packet.addr;
        let idx = self.create_connection_if_not_exists(&addr, now);
        let ghost mid = *self;
        let connection_seq = self.connections[idx].seq_num;
        let last_seq = self.connections[idx].their_acks.last_seq;
        let field = self.connections[idx].their_acks.field;
        let packet_header = PacketHeader::new(connection_seq, last_seq, field);
        proof {
            if old(self).has_conn(addr) {
                assert(mid.conn_of(addr) == mid.conns()[idx as int]);
            } else {
                mid.lemma_conn_lookup(addr, idx as int);
            }
            assert(packet_header == old(self).pre_header(addr));
        }
        let ghost fs = config.fragment_size as int;
        let mut packet_data = PacketData::new();
        if payload_len <= config.fragment_size {
            let mut prefix: Vec<u8> = Vec::new();
            prefix.push(0u8);
            let mut hb = packet_header.parse();
            prefix.append(&mut hb);
            let body = vstd::slice::slice_to_vec(packet.payload.as_slice());
            proof {
                assert(prefix@ =~= seq![0u8] + packet_header.bytes());
            }
            packet_data.add_fragment(prefix, body);
            proof {
                assert(packet_data.parts_view() =~= seq![
                    crate::header::normal_datagram(packet_header, packet.payload@),
                ]);
            }
        } else {
            proof {
                vstd::arithmetic::div_mod::lemma_div_nonincreasing(payload_len as int, fs);
                vstd::arithmetic::div_mod::lemma_div_pos_is_pos(payload_len as int, fs);
            }
            let remainder: usize = if payload_len % config.fragment_size > 0 {
                1
            } else {
                0
            };
            let num_fragments = payload_len / config.fragment_size + remainder;
            proof {
                lemma_num_fragments_bounds(payload_len as int, fs);
                assert(num_fragments as int == num_fragments_of(payload_len as int, fs));
                vstd::arithmetic::mul::lemma_mul_inequality(
                    num_fragments as int,
                    config.max_fragments as int,
                    fs,
                );
            }
            let mut fragment_id: usize = 0;
            while fragment_id < num_fragments
                invariant
                    config.wf(),
                    fs == config.fragment_size as int,
                    payload_len == packet.payload@.len(),
                    payload_len > config.fragment_size,
                    num_fragments as int == num_fragments_of(payload_len as int, fs),
                    2 <= num_fragments <= config.max_fragments,
                    (num_fragments - 1) * fs < payload_len <= num_fragments * fs,
                    fragment_id <= num_fragments,
                    packet_data.parts_view().len() == fragment_id,
                    forall|k: int|
                        0 <= k < fragment_id ==> #[trigger] packet_data.parts_view()[k]
                            == crate::header::fragment_datagram(
                            crate::header::fragment_header_for(
                                packet_header,
                                num_fragments as int,
                                k,
                            ),
                            chunk_of(packet.payload@, fs, k),
                        ),
                decreases num_fragments - fragment_id,
            {
                let fragment = FragmentHeader::new(
                    fragment_id as u8,
                    num_fragments as u8,
                    packet_header,
                );
                let mut prefix: Vec<u8> = Vec::new();
                prefix.push(1u8);
                let mut fb = fragment.parse();
                prefix.append(&mut fb);
                proof {
                    assert(fragment == crate::header::fragment_header_for(
                        packet_header,
                        num_fragments as int,
                        fragment_id as int,
                    ));
                    assert(prefix@ =~= seq![1u8] + fragment.bytes());
                    assert(fragment_id as int * fs <= (num_fragments - 1) * fs) by (
                    nonlinear_arith)
                        requires
                            fragment_id as int <= num_fragments as int - 1,
                            fs > 0,
                    ;
                    assert((fragment_id as int + 1) * fs == fragment_id as int * fs + fs) by (
                    nonlinear_arith);
                    assert(fragment_id as int * fs >= 0) by (nonlinear_arith)
                        requires
                            fragment_id as int >= 0,
                            fs > 0,
                    ;
                }
                proof {
                    vstd::arithmetic::mul::lemma_mul_inequality(
                        fragment_id as int + 1,
                        num_fragments as int,
                        fs,
                    );
                    vstd::arithmetic::mul::lemma_mul_inequality(
                        num_fragments as int,
                        config.max_fragments as int,
                        fs,
                    );
                }
                let start_fragment_pos: usize = fragment_id * config.fragment_size;
                let mut end_fragment_pos: usize = start_fragment_pos + config.fragment_size;
                if end_fragment_pos > payload_len {
                    end_fragment_pos = payload_len;
                }
                let chunk = vstd::slice::slice_to_vec(
                    vstd::slice::slice_subrange(
                        packet.payload.as_slice(),
                        start_fragment_pos,
                        end_fragment_pos,
                    ),
                );
                proof {
                    assert(chunk@ =~= chunk_of(packet.payload@, fs, fragment_id as int));
                }
                packet_data.add_fragment(prefix, chunk);
                fragment_id += 1;
            }
            proof {
                assert(packet_data.parts_view() =~= spec_datagrams(
                    packet_header,
                    packet.payload@,
                    fs,
                ));
            }
        }
        let ghost parts_final = packet_data.parts_view();
        let c = vec_index_mut(&mut self.connections, idx);
        c.waiting_packets.enqueue(connection_seq, packet);
        c.seq_num = connection_seq.wrapping_add(1);
        proof {
            assert(self.conns() == mid.conns().update(idx as int, self.conns()[idx as int]));
            assert(self.conns()[idx as int].addr == addr);
            assert forall|i: int, j: int|
                0 <= i < j < self.conns().len() implies (#[trigger] self.conns()[i]).addr != (
            #[trigger] self.conns()[j]).addr by {
                assert(mid.conns()[i].addr == self.conns()[i].addr);
                assert(mid.conns()[j].addr == self.conns()[j].addr);
            }
            assert forall|i: int| 0 <= i < self.conns().len() implies (
            #[trigger] self.conns()[i]).wf() by {
                if i != idx as int {
                    assert(self.conns()[i] == mid.conns()[i]);
                }
            }
            self.lemma_conn_lookup(addr, idx as int);
            assert(self.conn_of(addr).seq_num as int == (packet_header.seq + 1) % 0x10000);
            assert(old(self).pre_waiting(addr) == mid.conns()[idx as int].waiting_packets@);
            assert forall|b: Address|
                b != addr && old(self).has_conn(b) implies #[trigger] self.conn_of(b) == old(
                self,
            ).conn_of(b) by {
                let w = mid.conn_index(b);
                assert(mid.conns()[w].addr == b);
                assert(self.conns()[w] == mid.conns()[w]);
                self.lemma_conn_lookup(b, w);
            }
            assert forall|b: Address|
                self.has_conn(b) <==> (old(self).has_conn(b) || b == addr) by {
                if self.has_conn(b) && b != addr {
                    let w = self.conn_index(b);
                    assert(self.conns()[w].addr == b);
                    assert(mid.conns()[w].addr == b);
                    assert(mid.has_conn(b));
                }
                if mid.has_conn(b) && b != addr {
                    let w = mid.conn_index(b);
                    assert(mid.conns()[w].addr == b);
                    assert(self.conns()[w].addr == b);
                    assert(self.has_conn(b));
                }
                if b == addr {
                    assert(self.has_conn(b));
                }
            }
        }
        Ok((addr, packet_data))
    }

    /// What `process_received` does to the registry: the connection for
    /// `addr` (created fresh if absent) records `h.seq` as received, its
    /// waiting record keeps exactly the entries `h`'s acknowledgment pair
    /// leaves outstanding, the packets that pair proves lost become the
    /// connection's current dropped list (replacing the prior one), the peer
    /// counts as heard `now` — and no other connection changes.
    pub open spec fn received_header_effect(
        pre: SocketState,
        post: SocketState,
        addr: Address,
        h: PacketHeader,
        now: u64,
    ) -> bool {
        let acks0 = if pre.has_conn(addr) {
            pre.conn_of(addr).their_acks
        } else {
            crate::ack::ExternalAcks {
                last_seq: 0,
                field: 0,
                initialized: false,
                received: Ghost(Set::empty()),
            }
        };
        let waiting0 = pre.pre_waiting(addr);
        let c = post.conn_of(addr);
        &&& post.wf()
        &&& post.timeout_spec() == pre.timeout_spec()
        &&& post.has_conn(addr)
        &&& c.addr == addr
        &&& (c.their_acks.last_seq, c.their_acks.field, c.their_acks.initialized)
            == acks0.spec_ack(h.seq)
        &&& c.their_acks.received@ == acks0.received@.insert(h.seq)
        &&& c.waiting_packets@ == keep_outstanding(waiting0, h.ack_seq, h.ack_field)
        &&& c.dropped_packets@ == dropped_from(waiting0, h.ack_seq, h.ack_field)
        &&& c.last_heard == now
        &&& c.seq_num == (if pre.has_conn(addr) {
            pre.conn_of(addr).seq_num
        } else {
            0u16
        })
        &&& forall|b: Address| #[trigger] post.has_conn(b) <==> (pre.has_conn(b) || b == addr)
        &&& forall|b: Address|
            b != addr && pre.has_conn(b) ==> #[trigger] post.conn_of(b) == pre.conn_of(b)
    }

    /// Process an incoming packet header from `addr`: record its sequence
    /// number as received, consume its acknowledgment pair — storing the
    /// newly classified dropped packets as the connection's current dropped
    /// list, replacing the prior one — and note the peer as heard `now`.
    pub fn process_received(&mut self, addr: Address, packet: &PacketHeader, now: u64) -> (r:
        Result<(), NetworkError>)
        requires
            old(self).wf(),
        ensures
            r is Ok,
            SocketState::received_header_effect(*old(self), *final(self), addr, *packet, now),
    {
        let idx = self.create_connection_if_not_exists(&addr, now);
        let ghost mid = *self;
        proof {
            if !old(self).has_conn(addr) {
                mid.lemma_conn_lookup(addr, idx as int);
            }
        }
        let c = vec_index_mut(&mut self.connections, idx);
        c.their_acks.ack(packet.seq);
        let dropped = c.waiting_packets.ack(packet.ack_seq, packet.ack_field);
        c.dropped_packets = dropped;
        c.last_heard = now;
        proof {
            assert(self.conns() == mid.conns().update(idx as int, self.conns()[idx as int]));
            assert(self.conns()[idx as int].addr == addr);
            assert forall|i: int, j: int|
                0 <= i < j < self.conns().len() implies (#[trigger] self.conns()[i]).addr != (
            #[trigger] self.conns()[j]).addr by {
                assert(mid.conns()[i].addr == self.conns()[i].addr);
                assert(mid.conns()[j].addr == self.conns()[j].addr);
            }
            assert forall|i: int| 0 <= i < self.conns().len() implies (
            #[trigger] self.conns()[i]).wf() by {
                if i != idx as int {
                    assert(self.conns()[i] == mid.conns()[i]);
                }
            }
            self.lemma_conn_lookup(addr, idx as int);
            assert forall|b: Address|
                b != addr && old(self).has_conn(b) implies #[trigger] self.conn_of(b) == old(
                self,
            ).conn_of(b) by {
                let w = mid.conn_index(b);
                assert(mid.conns()[w].addr == b);
                assert(self.conns()[w] == mid.conns()[w]);
                self.lemma_conn_lookup(b, w);
            }
            assert forall|b: Address|
                self.has_conn(b) <==> (old(self).has_conn(b) || b == addr) by {
                if self.has_conn(b) && b != addr {
                    let w = self.conn_index(b);
                    assert(self.conns()[w].addr == b);
                    assert(mid.conns()[w].addr == b);
                    assert(mid.has_conn(b));
                }
                if mid.has_conn(b) && b != addr {
                    let w = mid.conn_index(b);
                    assert(mid.conns()[w].addr == b);
                    assert(self.conns()[w].addr == b);
                    assert(self.has_conn(b));
                }
                if b == addr {
                    assert(self.has_conn(b));
                }
            }
        }
        Ok(())
    }

    /// Drain and return all packets most recently classified dropped for
    /// this peer; the connection's list is left empty. A peer not seen yet
    /// gets a connection with nothing dropped.
    pub fn dropped_packets(&mut self, addr: Address, now: u64) -> (r: Result<
        Vec<Packet>,
        NetworkError,
    >)
        requires
            old(self).wf(),
        ensures
            final(self).wf(),
            final(self).timeout_spec() == old(self).timeout_spec(),
            r is Ok,
            r.unwrap()@ == (if old(self).has_conn(addr) {
                old(self).conn_of(addr).dropped_packets@
            } else {
                Seq::<Packet>::empty()
            }),
            final(self).has_conn(addr),
            final(self).conn_of(addr).dropped_packets@ == Seq::<Packet>::empty(),
            ({
                let c0 = if old(self).has_conn(addr) {
                    old(self).conn_of(addr)
                } else {
                    final(self).conn_of(addr)
                };
                let c = final(self).conn_of(addr);
                c.addr == addr && c.seq_num == c0.seq_num && c.their_acks == c0.their_acks
                    && c.waiting_packets@ == c0.waiting_packets@ && c.last_heard == c0.last_heard
            }),
            forall|b: Address| #[trigger]
                final(self).has_conn(b) <==> (old(self).has_conn(b) || b == addr),
            forall|b: Address|
                b != addr && old(self).has_conn(b) ==> #[trigger] final(self).conn_of(b) == old(
                    self,
                ).conn_of(b),
    {
        let idx = self.create_connection_if_not_exists(&addr, now);
        let ghost mid = *self;
        proof {
            if !old(self).has_conn(addr) {
                mid.lemma_conn_lookup(addr, idx as int);
            }
        }
        let c = vec_index_mut(&mut self.connections, idx);
        let mut packets: Vec<Packet> = Vec::new();
        core::mem::swap(&mut packets, &mut c.dropped_packets);
        proof {
            assert(self.conns() == mid.conns().update(idx as int, self.conns()[idx as int]));
            assert(self.conns()[idx as int].addr == addr);
            assert forall|i: int, j: int|
                0 <= i < j < self.conns().len() implies (#[trigger] self.conns()[i]).addr != (
            #[trigger] self.conns()[j]).addr by {
                assert(mid.conns()[i].addr == self.conns()[i].addr);
                assert(mid.conns()[j].addr == self.conns()[j].addr);
            }
            assert forall|i: int| 0 <= i < self.conns().len() implies (
            #[trigger] self.conns()[i]).wf() by {
                if i != idx as int {
                    assert(self.conns()[i] == mid.conns()[i]);
                }
            }
            self.lemma_conn_lookup(addr, idx as int);
            assert(self.conn_of(addr).dropped_packets@ =~= Seq::<Packet>::empty());
            assert forall|b: Address|
                b != addr && old(self).has_conn(b) implies #[trigger] self.conn_of(b) == old(
                self,
            ).conn_of(b) by {
                let w = mid.conn_index(b);
                assert(mid.conns()[w].addr == b);
                assert(self.conns()[w] == mid.conns()[w]);
                self.lemma_conn_lookup(b, w);
            }
            assert forall|b: Address|
                self.has_conn(b) <==> (old(self).has_conn(b) || b == addr) by {
                if self.has_conn(b) && b != addr {
                    let w = self.conn_index(b);
                    assert(self.conns()[w].addr == b);
                    assert(mid.conns()[w].addr == b);
                    assert(mid.has_conn(b));
                }
                if mid.has_conn(b) && b != addr {
                    let w = mid.conn_index(b);
                    assert(mid.conns()[w].addr == b);
                    assert(self.conns()[w].addr == b);
                    assert(self.has_conn(b));
                }
                if b == addr {
                    assert(self.has_conn(b));
                }
            }
        }
        Ok(packets)
    }

    /// The addresses of the timed-out peers, in connection order.
    pub open spec fn timed_out_addrs(s: Seq<Connection>, now: u64, timeout: u64) -> Seq<Address>
        decreases s.len(),
    {
        if s.len() == 0 {
            Seq::empty()
        } else {
            Self::timed_out_addrs(s.drop_last(), now, timeout) + (if s.last().timed_out(
                now,
                timeout,
            ) {
                seq![s.last().addr]
            } else {
                Seq::empty()
            })
        }
    }

    /// Scan every connection read-only against the caller's clock and report
    /// the peers not heard from within the timeout. Nothing is mutated and
    /// nothing is evicted; what to do about a timed-out peer is the caller's
    /// decision.
    pub fn check_for_timeouts(&self, now: u64) -> (r: Vec<Address>)
        ensures
            r@ == Self::timed_out_addrs(self.conns(), now, self.timeout_spec()),
    {
        let n = self.connections.len();
        let mut r: Vec<Address> = Vec::new();
        let mut i: usize = 0;
        while i < n
            invariant
                n == self.conns().len(),
                i <= n,
                r@ == Self::timed_out_addrs(
                    self.conns().subrange(0, i as int),
                    now,
                    self.timeout_spec(),
                ),
            decreases n - i,
        {
            let ghost prefix = self.conns().subrange(0, i as int + 1);
            proof {
                assert(prefix.drop_last() =~= self.conns().subrange(0, i as int));
                assert(prefix.last() == self.conns()[i as int]);
            }
            let last_heard = self.connections[i].last_heard;
            if now >= last_heard && now - last_heard >= self.timeout {
                r.push(self.connections[i].addr);
            } else {
                proof {
                    assert(!self.conns()[i as int].timed_out(now, self.timeout_spec()));
                    assert(r@ =~= Self::timed_out_addrs(prefix, now, self.timeout_spec()));
                }
            }
            i += 1;
        }
        proof {
            assert(self.conns().subrange(0, n as int) =~= self.conns());
        }
        r
    }
}

} // verus!
