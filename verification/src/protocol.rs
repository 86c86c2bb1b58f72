//! The protocol core: everything the socket does between the wire and the
//! application, on plain bytes. The unverified shell reads one datagram from
//! the transport and hands its bytes here; the core inspects the type byte,
//! dispatches between the whole-packet and the fragment path, keeps the
//! per-peer acknowledgment state current, and reassembles fragmented
//! payloads. Sending goes the other way through the registry's
//! `pre_process_packet`.

use vstd::prelude::*;
use crate::address::Address;
use crate::config::NetworkConfig;
use crate::error::NetworkError;
use crate::header::{
    chunk_of, lemma_num_fragments_bounds, num_fragments_of, FragmentHeader, PacketHeader,
};
use crate::packet::Packet;
use crate::reassembly::{assembled, ReassemblyData};
use crate::sequence_buffer::SequenceBuffer;
use crate::socket_state::SocketState;

verus! {

/// The verified half of a protocol socket: the peer registry, the
/// configuration, and the reassembly ring buffer.
pub struct ProtocolCore {
    /// The per-peer connections and their acknowledgment state.
    pub state: SocketState,
    /// The protocol limits, fixed at construction.
    pub config: NetworkConfig,
    /// Partially reassembled fragmented packets, keyed by sequence number.
    pub reassembly_buffer: SequenceBuffer<ReassemblyData>,
}

impl ProtocolCore {
    /// The reassembly entry currently answering for sequence number `s`.
    pub open spec fn reassembly_of(self, s: u16) -> Option<ReassemblyData> {
        self.reassembly_buffer.spec_get(s)
    }

    /// Which ring slot sequence number `s` maps to; entries sharing a slot
    /// evict one another.
    pub open spec fn reassembly_slot(self, s: u16) -> int {
        self.reassembly_buffer.slot_of(s)
    }

    /// Every stored reassembly entry is consistent with the configuration:
    /// internally well formed for this fragment size, filed under its own
    /// sequence number, within the fragment-count limit, and still waiting
    /// for at least one fragment (completed entries are removed at once).
    pub open spec fn reassembly_wf(self) -> bool {
        &&& self.reassembly_buffer.wf()
        &&& forall|s: u16|
            (#[trigger] self.reassembly_buffer.spec_get(s)) is Some ==> {
                let rd = self.reassembly_buffer.spec_get(s).unwrap();
                &&& rd.wf(self.config.fragment_size as int)
                &&& rd.sequence == s
                &&& rd.num_fragments_total <= self.config.max_fragments
                &&& rd.num_fragments_received < rd.num_fragments_total
            }
    }

    /// The core is consistent: registry, configuration and reassembly state.
    pub open spec fn wf(self) -> bool {
        &&& self.state.wf()
        &&& self.config.wf()
        &&& self.reassembly_wf()
    }

    /// A fresh core: no peers, nothing in reassembly.
    pub fn new(config: NetworkConfig) -> (r: Self)
        requires
            config.wf(),
        ensures
            r.wf(),
            r.config == config,
            r.state.conns() == Seq::<crate::connection::Connection>::empty(),
            r.state.timeout_spec() == crate::socket_state::TIMEOUT_DEFAULT,
            r.reassembly_buffer.spec_capacity() == config.fragment_reassembly_buffer_size,
            forall|s: u16| r.reassembly_of(s) is None,
    {
        ProtocolCore {
            state: SocketState::new(),
            config,
            reassembly_buffer: SequenceBuffer::with_capacity(
                config.fragment_reassembly_buffer_size,
            ),
        }
    }

    /// Whether one fragment datagram may touch the reassembly state: a
    /// sequence not under reassembly accepts only its first fragment, whole
    /// and within the fragment-count limit; a sequence under reassembly
    /// accepts a fragment that agrees on the count, is not a duplicate, and
    /// has the size its position demands.
    pub open spec fn fragment_acceptable(self, fh: FragmentHeader, chunk: Seq<u8>) -> bool {
        let fs = self.config.fragment_size as int;
        match self.reassembly_of(fh.sequence) {
            None => {
                &&& fh.id == 0
                &&& 2 <= fh.num_fragments as int
                &&& fh.num_fragments as int <= self.config.max_fragments as int
                &&& chunk.len() == fs
            },
            Some(rd) => {
                &&& fh.num_fragments as int == rd.num_fragments_total as int
                &&& (fh.id as int) < rd.num_fragments_total as int
                &&& !rd.fragments_received@[fh.id as int]
                &&& chunk.len() <= fs
                &&& ((fh.id as int) < rd.num_fragments_total as int - 1 ==> chunk.len() == fs)
            },
        }
    }

    /// A result's payload bytes, forgetting the container.
    pub open spec fn bytes_result(r: Result<Option<Vec<u8>>, NetworkError>) -> Result<
        Option<Seq<u8>>,
        NetworkError,
    > {
        match r {
            Ok(Some(v)) => Ok(Some(v@)),
            Ok(None) => Ok(None),
            Err(e) => Err(e),
        }
    }

    /// A received packet's payload bytes, forgetting the container.
    pub open spec fn packet_bytes_result(r: Result<Option<Packet>, NetworkError>) -> Result<
        Option<Seq<u8>>,
        NetworkError,
    > {
        match r {
            Ok(Some(p)) => Ok(Some(p.payload@)),
            Ok(None) => Ok(None),
            Err(e) => Err(e),
        }
    }

    /// Everything handling one fragment datagram does, for every input.
    /// Truncated headers fail with `HeaderParsingFailed` and change nothing.
    /// An unacceptable fragment (see `fragment_acceptable`) fails with
    /// `FragmentInvalid` and changes nothing: neither the connections nor
    /// any in-progress reassembly. An acceptable first fragment processes
    /// the embedded packet header against the registry and opens an entry
    /// holding its bytes (evicting whatever shared the ring slot); an
    /// acceptable later fragment adds its bytes to the entry, untouched
    /// otherwise, and the connections stay as they were. The fragment that
    /// completes its entry removes it and surfaces the assembled payload:
    /// exactly the received fragments' bytes in fragment order.
    pub open spec fn fragment_receive_post(
        pre: Self,
        post: Self,
        data: Seq<u8>,
        addr: Address,
        now: u64,
        r: Result<Option<Seq<u8>>, NetworkError>,
    ) -> bool {
        let body = data.skip(1);
        match FragmentHeader::spec_read(body) {
            None => {
                &&& r == Result::<Option<Seq<u8>>, NetworkError>::Err(
                    NetworkError::HeaderParsingFailed,
                )
                &&& post == pre
            },
            Some((fh, consumed)) => {
                let chunk = body.skip(consumed);
                if !pre.fragment_acceptable(fh, chunk) {
                    &&& r == Result::<Option<Seq<u8>>, NetworkError>::Err(
                        NetworkError::FragmentInvalid,
                    )
                    &&& post.state == pre.state
                    &&& post.config == pre.config
                    &&& forall|s: u16| post.reassembly_of(s) == pre.reassembly_of(s)
                } else {
                    match pre.reassembly_of(fh.sequence) {
                        None => {
                            let h = fh.packet_header.unwrap();
                            &&& r == Result::<Option<Seq<u8>>, NetworkError>::Ok(None)
                            &&& post.config == pre.config
                            &&& SocketState::received_header_effect(
                                pre.state,
                                post.state,
                                addr,
                                h,
                                now,
                            )
                            &&& post.reassembly_of(fh.sequence) is Some
                            &&& ({
                                let rd = post.reassembly_of(fh.sequence).unwrap();
                                &&& rd.num_fragments_total as int == fh.num_fragments as int
                                &&& rd.num_fragments_received == 1
                                &&& rd.chunks@ == Map::<int, Seq<u8>>::empty().insert(0, chunk)
                                &&& rd.ack == h.ack_seq
                                &&& rd.ack_bits == h.ack_field
                            })
                            &&& forall|s: u16|
                                s != fh.sequence ==> post.reassembly_of(s) == (
                                if pre.reassembly_slot(s) == pre.reassembly_slot(fh.sequence) {
                                    None::<ReassemblyData>
                                } else {
                                    pre.reassembly_of(s)
                                })
                        },
                        Some(rd0) => {
                            let new_chunks = rd0.chunks@.insert(fh.id as int, chunk);
                            let total = rd0.num_fragments_total as int;
                            &&& post.state == pre.state
                            &&& post.config == pre.config
                            &&& (if rd0.num_fragments_received + 1 == total {
                                &&& r is Ok
                                &&& r.unwrap() is Some
                                &&& r.unwrap().unwrap() == assembled(new_chunks, total)
                                &&& post.reassembly_of(fh.sequence) is None
                            } else {
                                &&& r == Result::<Option<Seq<u8>>, NetworkError>::Ok(None)
                                &&& post.reassembly_of(fh.sequence) is Some
                                &&& ({
                                    let rd1 = post.reassembly_of(fh.sequence).unwrap();
                                    &&& rd1.chunks@ == new_chunks
                                    &&& rd1.num_fragments_received == rd0.num_fragments_received
                                        + 1
                                    &&& rd1.num_fragments_total == rd0.num_fragments_total
                                    &&& rd1.ack == rd0.ack
                                    &&& rd1.ack_bits == rd0.ack_bits
                                })
                            })
                            &&& forall|s: u16|
                                s != fh.sequence ==> post.reassembly_of(s) == pre.reassembly_of(s)
                        },
                    }
                }
            },
        }
    }

    /// Handle one fragment datagram (`data` still carries its type byte).
    /// See `fragment_receive_post` for everything this does.
    pub fn handle_fragment(&mut self, data: &[u8], addr: Address, now: u64) -> (r: Result<
        Option<Vec<u8>>,
        NetworkError,
    >)
        requires
            old(self).wf(),
            data@.len() >= 1,
        ensures
            final(self).wf(),
            Self::fragment_receive_post(
                *old(self),
                *final(self),
                data@,
                addr,
                now,
                Self::bytes_result(r),
            ),
    {
        let body = vstd::slice::slice_subrange(data, 1, data.len());
        proof {
            assert(body@ =~= data@.skip(1));
        }
        let parsed = match FragmentHeader::read(body) {
            Ok(p) => p,
            Err(e) => {
                return Err(e);
            },
        };
        let fragment_header = parsed.0;
        let consumed = parsed.1;
        let chunk = vstd::slice::slice_subrange(body, consumed, body.len());
        proof {
            assert(chunk@ =~= body@.skip(consumed as int));
        }
        let seq = fragment_header.sequence;
        let num_usize = fragment_header.num_fragments as usize;
        let id_usize = fragment_header.id as usize;
        let fs = self.config.fragment_size;
        if !self.reassembly_buffer.contains(seq) {
            if fragment_header.id != 0 {
                return Err(NetworkError::FragmentInvalid);
            }
            if num_usize < 2 || (fragment_header.num_fragments as u32) > self.config.max_fragments {
                return Err(NetworkError::FragmentInvalid);
            }
            if chunk.len() != fs {
                return Err(NetworkError::FragmentInvalid);
            }
            let packet_header = match &fragment_header.packet_header {
                Some(h) => *h,
                None => {
                    return Err(NetworkError::FragmentInvalid);
                },
            };
            match self.state.process_received(addr, &packet_header, now) {
                Ok(()) => {},
                Err(_) => {
                    return Err(NetworkError::FragmentInvalid);
                },
            }
            proof {
                vstd::arithmetic::mul::lemma_mul_inequality(
                    num_usize as int,
                    self.config.max_fragments as int,
                    fs as int,
                );
            }
            let prealloc = num_usize * fs;
            let mut reassembly_data = ReassemblyData::new(
                seq,
                packet_header.ack_seq,
                packet_header.ack_field,
                num_usize,
                consumed + 1,
                prealloc,
            );
            proof {
                reassembly_data.lemma_new_wf(fs as int);
            }
            reassembly_data.store_chunk(0, chunk, fs);
            self.reassembly_buffer.insert(reassembly_data, seq);
            proof {
                assert(self.reassembly_of(seq).unwrap().chunks@ =~= Map::<
                    int,
                    Seq<u8>,
                >::empty().insert(0, chunk@));
            }
            return Ok(None);
        }
        let rd = match self.reassembly_buffer.get_mut(seq) {
            Some(r) => r,
            None => {
                return Err(NetworkError::FragmentInvalid);
            },
        };
        if rd.num_fragments_total != num_usize {
            return Err(NetworkError::FragmentInvalid);
        }
        if id_usize >= rd.num_fragments_total {
            return Err(NetworkError::FragmentInvalid);
        }
        if rd.fragments_received[id_usize] {
            return Err(NetworkError::FragmentInvalid);
        }
        if id_usize < rd.num_fragments_total - 1 {
            if chunk.len() != fs {
                return Err(NetworkError::FragmentInvalid);
            }
        } else {
            if chunk.len() > fs {
                return Err(NetworkError::FragmentInvalid);
            }
        }
        rd.store_chunk(id_usize, chunk, fs);
        let complete = rd.num_fragments_received == rd.num_fragments_total;
        let output = if complete {
            Some(rd.assembled_payload(fs))
        } else {
            None
        };
        if complete {
            self.reassembly_buffer.remove(seq);
            proof {
                assert forall|s: u16|
                    s != seq implies self.reassembly_of(s) == old(self).reassembly_of(s) by {
                    if old(self).reassembly_slot(s) == old(self).reassembly_slot(seq) {
                        old(self).reassembly_buffer.lemma_same_slot_exclusive(seq, s);
                    }
                }
            }
            return Ok(Some(output.unwrap()));
        }
        Ok(None)
    }

    /// Handle one normal datagram (`data` still carries its type byte):
    /// parse the 8-byte packet header after the type byte, update the
    /// sender's connection from it, and surface the remaining bytes as the
    /// payload. Truncated input fails with `HeaderParsingFailed` and changes
    /// nothing.
    pub fn handle_normal_packet(&mut self, data: &[u8], addr: Address, now: u64) -> (r: Result<
        Option<Vec<u8>>,
        NetworkError,
    >)
        requires
            old(self).wf(),
            data@.len() >= 1,
        ensures
            final(self).wf(),
            final(self).config == old(self).config,
            forall|s: u16| final(self).reassembly_of(s) == old(self).reassembly_of(s),
            r is Ok <==> data@.len() >= 9,
            r is Err ==> *final(self) == *old(self) && r.unwrap_err()
                == NetworkError::HeaderParsingFailed,
            r is Ok ==> r.unwrap() is Some && r.unwrap().unwrap()@ == data@.skip(9)
                && SocketState::received_header_effect(
                old(self).state,
                final(self).state,
                addr,
                PacketHeader::spec_read(data@.skip(1)),
                now,
            ),
    {
        let body = vstd::slice::slice_subrange(data, 1, data.len());
        proof {
            assert(body@ =~= data@.skip(1));
        }
        match PacketHeader::read(body) {
            Ok(header) => {
                match self.state.process_received(addr, &header, now) {
                    Ok(()) => {},
                    Err(e) => {
                        return Err(e);
                    },
                }
                let payload = vstd::slice::slice_to_vec(
                    vstd::slice::slice_subrange(data, 9, data.len()),
                );
                proof {
                    assert(payload@ =~= data@.skip(9));
                }
                Ok(Some(payload))
            },
            Err(e) => Err(e),
        }
    }

    /// Receive one datagram's bytes from `addr`. An empty read surfaces
    /// nothing. Otherwise the type byte's low bit picks the path: a normal
    /// datagram yields its payload at once; a fragment feeds reassembly and
    /// yields the whole payload only when it was the last piece missing.
    /// The packet surfaced carries the sender's address.
    pub fn receive(&mut self, payload: &[u8], addr: Address, now: u64) -> (r: Result<
        Option<Packet>,
        NetworkError,
    >)
        requires
            old(self).wf(),
        ensures
            final(self).wf(),
            final(self).config == old(self).config,
            payload@.len() == 0 ==> r is Ok && r.unwrap() is None && *final(self) == *old(self),
            (r is Ok && r.unwrap() is Some) ==> r.unwrap().unwrap().addr == addr,
            payload@.len() >= 1 && payload@[0] & 1 == 0 ==> {
                &&& (r is Ok <==> payload@.len() >= 9)
                &&& (r is Err ==> *final(self) == *old(self) && r.unwrap_err()
                    == NetworkError::HeaderParsingFailed)
                &&& (forall|s: u16| final(self).reassembly_of(s) == old(self).reassembly_of(s))
                &&& (r is Ok ==> r.unwrap() is Some && r.unwrap().unwrap().payload@
                    == payload@.skip(9) && SocketState::received_header_effect(
                    old(self).state,
                    final(self).state,
                    addr,
                    PacketHeader::spec_read(payload@.skip(1)),
                    now,
                ))
            },
            payload@.len() >= 1 && payload@[0] & 1 == 1 ==> Self::fragment_receive_post(
                *old(self),
                *final(self),
                payload@,
                addr,
                now,
                Self::packet_bytes_result(r),
            ),
    {
        if payload.len() == 0 {
            return Ok(None);
        }
        let prefix_byte = payload[0];
        let received_bytes = if prefix_byte & 1 == 0 {
            self.handle_normal_packet(payload, addr, now)
        } else {
            self.handle_fragment(payload, addr, now)
        };
        match received_bytes {
            Ok(Some(bytes)) => Ok(Some(Packet::new(addr, bytes))),
            Ok(None) => Ok(None),
            Err(e) => Err(e),
        }
    }
}

/// The first `k` fragment slices assemble into the payload's first
/// `k * fs` bytes (all of it, once `k * fs` passes the end).
proof fn lemma_assembled_prefix(payload: Seq<u8>, fs: int, chunks: Map<int, Seq<u8>>, k: int)
    requires
        fs > 0,
        payload.len() > fs,
        0 <= k <= num_fragments_of(payload.len() as int, fs),
        forall|i: int|
            0 <= i < num_fragments_of(payload.len() as int, fs) ==> #[trigger] chunks.dom().contains(
                i,
            ) && chunks[i] == chunk_of(payload, fs, i),
    ensures
        assembled(chunks, k) == payload.subrange(
            0,
            if k * fs <= payload.len() {
                k * fs
            } else {
                payload.len() as int
            },
        ),
    decreases k,
{
    let len = payload.len() as int;
    let num = num_fragments_of(len, fs);
    lemma_num_fragments_bounds(len, fs);
    if k == 0 {
        assert(k * fs == 0) by (nonlinear_arith)
            requires
                k == 0,
        ;
        assert(payload.subrange(0, 0) =~= Seq::<u8>::empty());
    } else {
        lemma_assembled_prefix(payload, fs, chunks, k - 1);
        vstd::arithmetic::mul::lemma_mul_inequality(k - 1, num - 1, fs);
        assert((k - 1) * fs == k * fs - fs) by (nonlinear_arith);
        assert((k - 1) * fs >= 0) by (nonlinear_arith)
            requires
                k >= 1 && fs > 0,
        ;
        let cut = if k * fs <= len {
            k * fs
        } else {
            len
        };
        assert(chunks.dom().contains(k - 1));
        assert(chunks[k - 1] == payload.subrange((k - 1) * fs, cut));
        assert(payload.subrange(0, cut) =~= payload.subrange(0, (k - 1) * fs) + payload.subrange(
            (k - 1) * fs,
            cut,
        ));
        assert(assembled(chunks, k) == assembled(chunks, k - 1) + chunks[k - 1]);
    }
}

/// Fragmentation round-trips: a payload too large for one fragment splits
/// into `num_fragments_of` slices — fragment `i` carrying exactly
/// `chunk_of(payload, fs, i)`, as `pre_process_packet`'s datagrams do — and
/// reassembling all of them yields the original payload exactly. The map
/// remembers no arrival order, so the result is the same in whatever order
/// the fragments came.
pub proof fn lemma_fragmentation_round_trip(payload: Seq<u8>, fs: int, chunks: Map<int, Seq<u8>>)
    requires
        fs > 0,
        payload.len() > fs,
        forall|i: int|
            0 <= i < num_fragments_of(payload.len() as int, fs) ==> #[trigger] chunks.dom().contains(
                i,
            ) && chunks[i] == chunk_of(payload, fs, i),
    ensures
        assembled(chunks, num_fragments_of(payload.len() as int, fs)) == payload,
{
    let len = payload.len() as int;
    let num = num_fragments_of(len, fs);
    lemma_num_fragments_bounds(len, fs);
    assert forall|i: int|
        0 <= i < num_fragments_of(payload.len() as int, fs) implies #[trigger] chunks.dom().contains(
        i,
    ) && chunks[i] == chunk_of(payload, fs, i) by {
        assert(chunks.dom().contains(i));
    }
    lemma_assembled_prefix(payload, fs, chunks, num);
    assert(payload.subrange(0, len) =~= payload);
}

} // verus!
