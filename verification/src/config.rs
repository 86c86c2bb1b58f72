//! Protocol configuration: plain values fixed at construction, passed
//! explicitly rather than read from ambient global state.

use vstd::prelude::*;

verus! {

/// The tunable limits of the protocol.
#[derive(Clone, Copy, PartialEq, Eq, Structural, Debug)]
pub struct NetworkConfig {
    /// The largest logical payload a packet may carry.
    pub max_packet_size: usize,
    /// How many fragments one packet may at most be split into.
    pub max_fragments: u32,
    /// The payload size of every fragment but the last.
    pub fragment_size: usize,
    /// How many slots the reassembly ring buffer holds.
    pub fragment_reassembly_buffer_size: usize,
    /// The receive buffer's size; must exceed one datagram's largest
    /// expected size.
    pub receive_buffer_max_size: usize,
}

impl NetworkConfig {
    /// The bounds every usable configuration obeys: a fragmented packet has
    /// more than one and at most 255 fragments (the count travels in one
    /// byte), fragment sizes keep every reassembly buffer comfortably inside
    /// address-space limits, and the reassembly ring has a valid capacity.
    pub open spec fn wf(self) -> bool {
        &&& 0 < self.fragment_size <= 0xFFFF
        &&& 1 < self.max_fragments <= 0xFF
        &&& self.max_fragments * self.fragment_size <= 0xFF_FFFF
        &&& 0 < self.fragment_reassembly_buffer_size <= 0xFFFF
    }
}

impl Default for NetworkConfig {
    /// The stock configuration: 16 KiB packets, up to 16 fragments of
    /// 1024 bytes, a 64-slot reassembly ring, and a 1500-byte receive
    /// buffer.
    fn default() -> (r: Self)
        ensures
            r.wf(),
            r == (NetworkConfig {
                max_packet_size: 16384usize,
                max_fragments: 16u32,
                fragment_size: 1024usize,
                fragment_reassembly_buffer_size: 64usize,
                receive_buffer_max_size: 1500usize,
            }),
    {
        NetworkConfig {
            max_packet_size: 16 * 1024,
            max_fragments: 16,
            fragment_size: 1024,
            fragment_reassembly_buffer_size: 64,
            receive_buffer_max_size: 1500,
        }
    }
}

} // verus!
