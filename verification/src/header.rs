//! Fixed-layout binary wire headers, big-endian throughout.
//!
//! A normal datagram is `[type byte 0][PacketHeader][payload]`; a fragment
//! datagram is `[type byte 1][sequence 2B][fragment id 1B][fragment count 1B]
//! [embedded PacketHeader 8B, only when the fragment id is 0][payload]`.
//! The type byte's low bit is the sole discriminant the receiver reads
//! before any other parsing.

use vstd::prelude::*;
use crate::error::NetworkError;

verus! {

/// The two big-endian bytes of a 16-bit value, most significant first.
pub open spec fn spec_u16_to_be_bytes(x: u16) -> Seq<u8> {
    seq![((x >> 8) & 0xff) as u8, (x & 0xff) as u8]
}

/// The 16-bit value read from two big-endian bytes.
pub open spec fn spec_u16_from_be_bytes(s: Seq<u8>) -> u16
    recommends
        s.len() == 2,
{
    (((s[0] as u16) << 8) | (s[1] as u16)) as u16
}

/// The four big-endian bytes of a 32-bit value, most significant first.
pub open spec fn spec_u32_to_be_bytes(x: u32) -> Seq<u8> {
    seq![
        ((x >> 24) & 0xff) as u8,
        ((x >> 16) & 0xff) as u8,
        ((x >> 8) & 0xff) as u8,
        (x & 0xff) as u8,
    ]
}

/// The 32-bit value read from four big-endian bytes.
pub open spec fn spec_u32_from_be_bytes(s: Seq<u8>) -> u32
    recommends
        s.len() == 4,
{
    (((s[0] as u32) << 24) | ((s[1] as u32) << 16) | ((s[2] as u32) << 8) | (s[3] as u32)) as u32
}

/// Big-endian encoding of a 16-bit value reads back as itself, and two
/// bytes read as a value encode back to the same two bytes.
pub proof fn lemma_u16_be_bytes_round_trip()
    ensures
        forall|x: u16| #[trigger] spec_u16_from_be_bytes(spec_u16_to_be_bytes(x)) == x,
        forall|s: Seq<u8>|
            s.len() == 2 ==> #[trigger] spec_u16_to_be_bytes(spec_u16_from_be_bytes(s)) =~= s,
{
    assert forall|x: u16| #[trigger] spec_u16_from_be_bytes(spec_u16_to_be_bytes(x)) == x by {
        let b0 = ((x >> 8) & 0xff) as u8;
        let b1 = (x & 0xff) as u8;
        assert((((b0 as u16) << 8) | (b1 as u16)) as u16 == x) by (bit_vector)
            requires
                b0 == ((x >> 8) & 0xff) as u8,
                b1 == (x & 0xff) as u8,
        ;
    }
    assert forall|s: Seq<u8>|
        s.len() == 2 implies #[trigger] spec_u16_to_be_bytes(spec_u16_from_be_bytes(s)) =~= s by {
        let x = spec_u16_from_be_bytes(s);
        let b0 = s[0];
        let b1 = s[1];
        assert(((x >> 8) & 0xff) as u8 == b0 && (x & 0xff) as u8 == b1) by (bit_vector)
            requires
                x == (((b0 as u16) << 8) | (b1 as u16)) as u16,
        ;
    }
}

/// Big-endian encoding of a 32-bit value reads back as itself, and four
/// bytes read as a value encode back to the same four bytes.
pub proof fn lemma_u32_be_bytes_round_trip()
    ensures
        forall|x: u32| #[trigger] spec_u32_from_be_bytes(spec_u32_to_be_bytes(x)) == x,
        forall|s: Seq<u8>|
            s.len() == 4 ==> #[trigger] spec_u32_to_be_bytes(spec_u32_from_be_bytes(s)) =~= s,
{
    assert forall|x: u32| #[trigger] spec_u32_from_be_bytes(spec_u32_to_be_bytes(x)) == x by {
        let b0 = ((x >> 24) & 0xff) as u8;
        let b1 = ((x >> 16) & 0xff) as u8;
        let b2 = ((x >> 8) & 0xff) as u8;
        let b3 = (x & 0xff) as u8;
        assert((((b0 as u32) << 24) | ((b1 as u32) << 16) | ((b2 as u32) << 8) | (b3 as u32)) as u32
            == x) by (bit_vector)
            requires
                b0 == ((x >> 24) & 0xff) as u8,
                b1 == ((x >> 16) & 0xff) as u8,
                b2 == ((x >> 8) & 0xff) as u8,
                b3 == (x & 0xff) as u8,
        ;
    }
    assert forall|s: Seq<u8>|
        s.len() == 4 implies #[trigger] spec_u32_to_be_bytes(spec_u32_from_be_bytes(s)) =~= s by {
        let x = spec_u32_from_be_bytes(s);
        let b0 = s[0];
        let b1 = s[1];
        let b2 = s[2];
        let b3 = s[3];
        assert(((x >> 24) & 0xff) as u8 == b0 && ((x >> 16) & 0xff) as u8 == b1 && ((x >> 8)
            & 0xff) as u8 == b2 && (x & 0xff) as u8 == b3) by (bit_vector)
            requires
                x == (((b0 as u32) << 24) | ((b1 as u32) << 16) | ((b2 as u32) << 8) | (b3
                    as u32)) as u32,
        ;
    }
}

/// Append the two big-endian bytes of `x` to `out`.
pub fn write_u16_be(out: &mut Vec<u8>, x: u16)
    ensures
        final(out)@ =~= old(out)@ + spec_u16_to_be_bytes(x),
{
    out.push(((x >> 8) & 0xff) as u8);
    out.push((x & 0xff) as u8);
}

/// Append the four big-endian bytes of `x` to `out`.
pub fn write_u32_be(out: &mut Vec<u8>, x: u32)
    ensures
        final(out)@ =~= old(out)@ + spec_u32_to_be_bytes(x),
{
    out.push(((x >> 24) & 0xff) as u8);
    out.push(((x >> 16) & 0xff) as u8);
    out.push(((x >> 8) & 0xff) as u8);
    out.push((x & 0xff) as u8);
}

/// Read a big-endian 16-bit value from `bytes` at `offset`.
pub fn read_u16_be(bytes: &[u8], offset: usize) -> (r: u16)
    requires
        offset + 2 <= bytes@.len(),
    ensures
        r == spec_u16_from_be_bytes(bytes@.subrange(offset as int, offset + 2)),
{
    let b0 = bytes[offset];
    let b1 = bytes[offset + 1];
    assert(bytes@.subrange(offset as int, offset + 2)[0] == b0);
    assert(bytes@.subrange(offset as int, offset + 2)[1] == b1);
    ((b0 as u16) << 8) | (b1 as u16)
}

/// Read a big-endian 32-bit value from `bytes` at `offset`.
pub fn read_u32_be(bytes: &[u8], offset: usize) -> (r: u32)
    requires
        offset + 4 <= bytes@.len(),
    ensures
        r == spec_u32_from_be_bytes(bytes@.subrange(offset as int, offset + 4)),
{
    let b0 = bytes[offset];
    let b1 = bytes[offset + 1];
    let b2 = bytes[offset + 2];
    let b3 = bytes[offset + 3];
    assert(bytes@.subrange(offset as int, offset + 4)[0] == b0);
    assert(bytes@.subrange(offset as int, offset + 4)[1] == b1);
    assert(bytes@.subrange(offset as int, offset + 4)[2] == b2);
    assert(bytes@.subrange(offset as int, offset + 4)[3] == b3);
    ((b0 as u32) << 24) | ((b1 as u32) << 16) | ((b2 as u32) << 8) | (b3 as u32)
}

/// The 8-byte header stamped on every outgoing logical packet.
#[derive(Clone, Copy, PartialEq, Eq, Structural, Debug)]
pub struct PacketHeader {
    /// This datagram's position in the sender's per-peer stream.
    pub seq: u16,
    /// The most recent sequence number the sender has received from this peer.
    pub ack_seq: u16,
    /// Bit `i` (0-indexed) set means sequence `ack_seq - i - 1` (mod 65536)
    /// has been received.
    pub ack_field: u32,
}

impl PacketHeader {
    /// The header's wire encoding: `seq`, `ack_seq`, `ack_field`, big-endian.
    pub open spec fn bytes(self) -> Seq<u8> {
        spec_u16_to_be_bytes(self.seq) + spec_u16_to_be_bytes(self.ack_seq)
            + spec_u32_to_be_bytes(self.ack_field)
    }

    /// The header encoded in the first 8 bytes of `s`.
    pub open spec fn spec_read(s: Seq<u8>) -> PacketHeader
        recommends
            s.len() >= 8,
    {
        PacketHeader {
            seq: spec_u16_from_be_bytes(s.subrange(0, 2)),
            ack_seq: spec_u16_from_be_bytes(s.subrange(2, 4)),
            ack_field: spec_u32_from_be_bytes(s.subrange(4, 8)),
        }
    }

    /// Build a header from the sender's next sequence number and the
    /// acknowledgment state of the peer it is addressed to.
    pub fn new(seq_num: u16, last_seq: u16, field: u32) -> (r: PacketHeader)
        ensures
            r == (PacketHeader { seq: seq_num, ack_seq: last_seq, ack_field: field }),
    {
        PacketHeader { seq: seq_num, ack_seq: last_seq, ack_field: field }
    }

    /// Get the size of this header on the wire.
    pub fn size(&self) -> (r: u8)
        ensures
            r == 8,
            r == self.bytes().len(),
    {
        8
    }

    /// Serialize the header into its 8 wire bytes.
    pub fn parse(&self) -> (r: Vec<u8>)
        ensures
            r@ =~= self.bytes(),
    {
        let mut wtr: Vec<u8> = Vec::new();
        write_u16_be(&mut wtr, self.seq);
        write_u16_be(&mut wtr, self.ack_seq);
        write_u32_be(&mut wtr, self.ack_field);
        wtr
    }

    /// Deserialize a header from the first 8 bytes of `bytes`; truncated
    /// input fails with `HeaderParsingFailed`.
    pub fn read(bytes: &[u8]) -> (r: Result<PacketHeader, NetworkError>)
        ensures
            r is Ok <==> bytes@.len() >= 8,
            r is Ok ==> r.unwrap() == PacketHeader::spec_read(bytes@),
            r is Err ==> r.unwrap_err() == NetworkError::HeaderParsingFailed,
    {
        if bytes.len() < 8 {
            return Err(NetworkError::HeaderParsingFailed);
        }
        let seq = read_u16_be(bytes, 0);
        let ack_seq = read_u16_be(bytes, 2);
        let ack_field = read_u32_be(bytes, 4);
        Ok(PacketHeader { seq, ack_seq, ack_field })
    }
}

/// Serializing a packet header and reading the bytes back yields the same
/// header, whatever bytes follow it; and reading any 8 bytes and serializing
/// the result reproduces those bytes. The wire format round-trips exactly.
pub proof fn lemma_packet_header_round_trip(h: PacketHeader, tail: Seq<u8>)
    ensures
        PacketHeader::spec_read(h.bytes() + tail) == h,
        forall|s: Seq<u8>|
            s.len() == 8 ==> #[trigger] PacketHeader::spec_read(s).bytes() =~= s,
{
    lemma_u16_be_bytes_round_trip();
    lemma_u32_be_bytes_round_trip();
    let b = h.bytes() + tail;
    assert(b.subrange(0, 2) =~= spec_u16_to_be_bytes(h.seq));
    assert(b.subrange(2, 4) =~= spec_u16_to_be_bytes(h.ack_seq));
    assert(b.subrange(4, 8) =~= spec_u32_to_be_bytes(h.ack_field));
    assert forall|s: Seq<u8>|
        s.len() == 8 implies #[trigger] PacketHeader::spec_read(s).bytes() =~= s by {
        assert(spec_u16_to_be_bytes(spec_u16_from_be_bytes(s.subrange(0, 2))) =~= s.subrange(
            0,
            2,
        ));
        assert(spec_u16_to_be_bytes(spec_u16_from_be_bytes(s.subrange(2, 4))) =~= s.subrange(
            2,
            4,
        ));
        assert(spec_u32_to_be_bytes(spec_u32_from_be_bytes(s.subrange(4, 8))) =~= s.subrange(
            4,
            8,
        ));
    }
}

/// The header carried by every fragment datagram. All fragments of one
/// logical packet share `sequence` and `num_fragments`; only the fragment
/// with id 0 embeds the logical packet's `PacketHeader`.
#[derive(Debug)]
pub struct FragmentHeader {
    /// The logical packet's sequence number, shared by all its fragments.
    pub sequence: u16,
    /// This fragment's position, counted from 0.
    pub id: u8,
    /// How many fragments the logical packet was split into.
    pub num_fragments: u8,
    /// The logical packet's header, embedded in the first fragment alone.
    pub packet_header: Option<PacketHeader>,
}

impl FragmentHeader {
    /// The embedded packet header travels with the first fragment and with
    /// no other.
    pub open spec fn wf(self) -> bool {
        self.id == 0 <==> self.packet_header is Some
    }

    /// The header's wire encoding: `sequence` big-endian, then the fragment
    /// id and the fragment count as single bytes, then the embedded packet
    /// header when this is the first fragment.
    pub open spec fn bytes(self) -> Seq<u8> {
        spec_u16_to_be_bytes(self.sequence) + seq![self.id, self.num_fragments] + (
        match self.packet_header {
            Some(h) => h.bytes(),
            None => Seq::<u8>::empty(),
        })
    }

    /// The fragment header at the front of `s`, together with how many bytes
    /// it occupies, or nothing when `s` is too short for the layout its own
    /// fragment id announces.
    pub open spec fn spec_read(s: Seq<u8>) -> Option<(FragmentHeader, int)> {
        if s.len() < 4 {
            None
        } else {
            let head = FragmentHeader {
                sequence: spec_u16_from_be_bytes(s.subrange(0, 2)),
                id: s[2],
                num_fragments: s[3],
                packet_header: None,
            };
            if s[2] == 0 {
                if s.len() < 12 {
                    None
                } else {
                    Some(
                        (
                            FragmentHeader {
                                packet_header: Some(PacketHeader::spec_read(s.subrange(4, 12))),
                                ..head
                            },
                            12,
                        ),
                    )
                }
            } else {
                Some((head, 4))
            }
        }
    }

    /// Build the header for one fragment of a logical packet. The packet
    /// header is kept only for the first fragment, which is the one that
    /// carries it on the wire.
    pub fn new(fragment_id: u8, num_fragments: u8, packet_header: PacketHeader) -> (r:
        FragmentHeader)
        ensures
            r.wf(),
            r.id == fragment_id,
            r.num_fragments == num_fragments,
            r.sequence == packet_header.seq,
            fragment_id == 0 ==> r.packet_header == Some(packet_header),
    {
        FragmentHeader {
            sequence: packet_header.seq,
            id: fragment_id,
            num_fragments,
            packet_header: if fragment_id == 0 {
                Some(packet_header)
            } else {
                None
            },
        }
    }

    /// Get the size of this header on the wire.
    pub fn size(&self) -> (r: u8)
        requires
            self.wf(),
        ensures
            r == self.bytes().len(),
    {
        if self.id == 0 {
            12
        } else {
            4
        }
    }

    /// Serialize the header into its wire bytes.
    pub fn parse(&self) -> (r: Vec<u8>)
        requires
            self.wf(),
        ensures
            r@ =~= self.bytes(),
    {
        let mut wtr: Vec<u8> = Vec::new();
        write_u16_be(&mut wtr, self.sequence);
        wtr.push(self.id);
        wtr.push(self.num_fragments);
        match &self.packet_header {
            Some(h) => {
                let mut header_bytes = h.parse();
                wtr.append(&mut header_bytes);
            },
            None => {},
        }
        wtr
    }

    /// Deserialize a fragment header from the front of `bytes`, returning it
    /// together with the number of bytes it occupied; truncated input fails
    /// with `HeaderParsingFailed`.
    pub fn read(bytes: &[u8]) -> (r: Result<(FragmentHeader, usize), NetworkError>)
        ensures
            r is Ok <==> FragmentHeader::spec_read(bytes@) is Some,
            r is Ok ==> {
                &&& r.unwrap().0 == FragmentHeader::spec_read(bytes@).unwrap().0
                &&& r.unwrap().1 as int == FragmentHeader::spec_read(bytes@).unwrap().1
                &&& r.unwrap().0.wf()
                &&& r.unwrap().1 <= bytes@.len()
            },
            r is Err ==> r.unwrap_err() == NetworkError::HeaderParsingFailed,
    {
        if bytes.len() < 4 {
            return Err(NetworkError::HeaderParsingFailed);
        }
        let sequence = read_u16_be(bytes, 0);
        let id = bytes[2];
        let num_fragments = bytes[3];
        if id == 0 {
            if bytes.len() < 12 {
                return Err(NetworkError::HeaderParsingFailed);
            }
            let seq = read_u16_be(bytes, 4);
            let ack_seq = read_u16_be(bytes, 6);
            let ack_field = read_u32_be(bytes, 8);
            let embedded = PacketHeader { seq, ack_seq, ack_field };
            proof {
                let s = bytes@;
                assert(s.subrange(4, 12).subrange(0, 2) =~= s.subrange(4, 6));
                assert(s.subrange(4, 12).subrange(2, 4) =~= s.subrange(6, 8));
                assert(s.subrange(4, 12).subrange(4, 8) =~= s.subrange(8, 12));
            }
            Ok((FragmentHeader { sequence, id, num_fragments, packet_header: Some(embedded) }, 12))
        } else {
            Ok((FragmentHeader { sequence, id, num_fragments, packet_header: None }, 4))
        }
    }
}

/// Serializing a fragment header and reading the bytes back yields the same
/// header and its exact length, whatever bytes follow it. The wire format
/// round-trips exactly.
pub proof fn lemma_fragment_header_round_trip(fh: FragmentHeader, tail: Seq<u8>)
    requires
        fh.wf(),
    ensures
        FragmentHeader::spec_read(fh.bytes() + tail) == Some((fh, fh.bytes().len() as int)),
{
    lemma_u16_be_bytes_round_trip();
    let b = fh.bytes() + tail;
    assert(b.subrange(0, 2) =~= spec_u16_to_be_bytes(fh.sequence));
    assert(b[2] == fh.id && b[3] == fh.num_fragments);
    match fh.packet_header {
        Some(h) => {
            assert(PacketHeader::spec_read(b.subrange(4, 12)) == h) by {
                assert(b.subrange(4, 12) =~= h.bytes());
                lemma_packet_header_round_trip(h, Seq::<u8>::empty());
                assert(h.bytes() + Seq::<u8>::empty() =~= h.bytes());
            }
        },
        None => {},
    }
}

/// A whole normal datagram: the type byte 0, the packet header, the payload.
pub open spec fn normal_datagram(h: PacketHeader, payload: Seq<u8>) -> Seq<u8> {
    seq![0u8] + h.bytes() + payload
}

/// A whole fragment datagram: the type byte 1, the fragment header, one
/// payload slice.
pub open spec fn fragment_datagram(fh: FragmentHeader, chunk: Seq<u8>) -> Seq<u8> {
    seq![1u8] + fh.bytes() + chunk
}

/// How many fragments a payload of `len` bytes needs at `fragment_size`
/// bytes apiece: the quotient, rounded up.
pub open spec fn num_fragments_of(len: int, fragment_size: int) -> int
    recommends
        fragment_size > 0,
{
    len / fragment_size + if len % fragment_size > 0 {
        1int
    } else {
        0int
    }
}

/// Fragment `i`'s slice of the payload: exactly `fragment_size` bytes at
/// offset `i * fragment_size`, except that the last fragment holds the
/// remainder.
pub open spec fn chunk_of(payload: Seq<u8>, fragment_size: int, i: int) -> Seq<u8> {
    payload.subrange(
        i * fragment_size,
        if (i + 1) * fragment_size <= payload.len() {
            (i + 1) * fragment_size
        } else {
            payload.len() as int
        },
    )
}

/// The fragment header stamped on fragment `i` of a packet whose header is
/// `h`, split `num` ways.
pub open spec fn fragment_header_for(h: PacketHeader, num: int, i: int) -> FragmentHeader {
    FragmentHeader {
        sequence: h.seq,
        id: i as u8,
        num_fragments: num as u8,
        packet_header: if i == 0 {
            Some(h)
        } else {
            None
        },
    }
}

/// Every datagram that one logical packet becomes on the wire: a single
/// normal datagram when the payload fits in one fragment, else one fragment
/// datagram per payload slice, in fragment order.
pub open spec fn spec_datagrams(h: PacketHeader, payload: Seq<u8>, fragment_size: int) -> Seq<
    Seq<u8>,
> {
    if payload.len() <= fragment_size {
        seq![normal_datagram(h, payload)]
    } else {
        let num = num_fragments_of(payload.len() as int, fragment_size);
        Seq::new(
            num as nat,
            |i: int|
                fragment_datagram(
                    fragment_header_for(h, num, i),
                    chunk_of(payload, fragment_size, i),
                ),
        )
    }
}

/// For a payload that does not fit in one fragment, the fragment count is
/// at least two, and it is the least count whose fragments cover the
/// payload: the first `num - 1` full fragments fall short, `num` suffice.
pub proof fn lemma_num_fragments_bounds(len: int, fs: int)
    requires
        fs > 0,
        len > fs,
    ensures
        2 <= num_fragments_of(len, fs),
        (num_fragments_of(len, fs) - 1) * fs < len,
        len <= num_fragments_of(len, fs) * fs,
{
    let q = len / fs;
    let r = len % fs;
    vstd::arithmetic::div_mod::lemma_fundamental_div_mod(len, fs);
    vstd::arithmetic::div_mod::lemma_mod_bound(len, fs);
    assert(len == fs * q + r);
    if r == 0 {
        assert((q - 1) * fs == fs * q - fs) by (nonlinear_arith);
        assert(q * fs == fs * q) by (nonlinear_arith);
        assert(q >= 2) by {
            if q < 2 {
                assert(fs * q <= fs) by (nonlinear_arith)
                    requires
                        q <= 1 && fs > 0,
                ;
            }
        }
    } else {
        assert((q + 1 - 1) * fs == fs * q) by (nonlinear_arith);
        assert((q + 1) * fs == fs * q + fs) by (nonlinear_arith);
        assert(q >= 1) by {
            if q < 1 {
                assert(fs * q <= 0) by (nonlinear_arith)
                    requires
                        q <= 0 && fs > 0,
                ;
            }
        }
    }
}

/// A normal datagram is recognized by its type byte and parses back to
/// exactly the header and payload it was built from.
pub proof fn lemma_normal_datagram_parses(h: PacketHeader, payload: Seq<u8>)
    ensures
        normal_datagram(h, payload)[0] & 1 == 0,
        normal_datagram(h, payload).len() >= 9,
        PacketHeader::spec_read(normal_datagram(h, payload).skip(1)) == h,
        normal_datagram(h, payload).skip(9) =~= payload,
{
    let d = normal_datagram(h, payload);
    assert(d[0] == 0u8);
    assert(0u8 & 1 == 0) by (bit_vector);
    assert(d.skip(1) =~= h.bytes() + payload);
    lemma_packet_header_round_trip(h, payload);
}

/// A fragment datagram is recognized by its type byte and parses back to
/// exactly the fragment header and payload slice it was built from.
pub proof fn lemma_fragment_datagram_parses(fh: FragmentHeader, chunk: Seq<u8>)
    requires
        fh.wf(),
    ensures
        fragment_datagram(fh, chunk)[0] & 1 == 1,
        FragmentHeader::spec_read(fragment_datagram(fh, chunk).skip(1)) == Some(
            (fh, fh.bytes().len() as int),
        ),
        fragment_datagram(fh, chunk).skip(1).skip(fh.bytes().len() as int) =~= chunk,
{
    let d = fragment_datagram(fh, chunk);
    assert(d[0] == 1u8);
    assert(1u8 & 1 == 1) by (bit_vector);
    assert(d.skip(1) =~= fh.bytes() + chunk);
    lemma_fragment_header_round_trip(fh, chunk);
}

/// A payload needs at most `m` fragments exactly when it fits in `m` of
/// them.
pub proof fn lemma_num_fragments_le(len: int, fs: int, m: int)
    requires
        fs > 0,
        len > fs,
        m >= 0,
    ensures
        num_fragments_of(len, fs) <= m <==> len <= m * fs,
{
    lemma_num_fragments_bounds(len, fs);
    let num = num_fragments_of(len, fs);
    if len <= m * fs && num > m {
        vstd::arithmetic::mul::lemma_mul_inequality(m, num - 1, fs);
    }
    if num <= m {
        vstd::arithmetic::mul::lemma_mul_inequality(num, m, fs);
    }
}

} // verus!
