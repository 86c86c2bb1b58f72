//! Partial-state reassembly of out-of-order fragments.
//!
//! Each entry accumulates the fragments of one logical packet. Because the
//! network may deliver fragments in any order, a fragment's bytes are written
//! at the byte offset `fragment_id * fragment_size` of the accumulation
//! buffer, never appended — in-order append would corrupt the payload.

use vstd::prelude::*;

verus! {

/// How many entries of `s` are set.
pub open spec fn count_true(s: Seq<bool>) -> int
    decreases s.len(),
{
    if s.len() == 0 {
        0
    } else {
        count_true(s.drop_last()) + if s.last() {
            1int
        } else {
            0int
        }
    }
}

/// Setting one unset entry raises the count by one.
pub proof fn lemma_count_true_update(s: Seq<bool>, i: int)
    requires
        0 <= i < s.len(),
        !s[i],
    ensures
        count_true(s.update(i, true)) == count_true(s) + 1,
    decreases s.len(),
{
    let t = s.update(i, true);
    if i == s.len() - 1 {
        assert(t.drop_last() =~= s.drop_last());
    } else {
        assert(t.drop_last() =~= s.drop_last().update(i, true));
        lemma_count_true_update(s.drop_last(), i);
        assert(t.last() == s.last());
    }
}

/// No more entries are set than exist.
pub proof fn lemma_count_true_le(s: Seq<bool>)
    ensures
        count_true(s) <= s.len(),
    decreases s.len(),
{
    if s.len() > 0 {
        lemma_count_true_le(s.drop_last());
    }
}

/// When every entry counts, every entry is set.
pub proof fn lemma_count_true_full(s: Seq<bool>)
    requires
        count_true(s) == s.len(),
    ensures
        forall|i: int| 0 <= i < s.len() ==> s[i],
    decreases s.len(),
{
    if s.len() > 0 {
        lemma_count_true_le(s.drop_last());
        assert(s.last());
        lemma_count_true_full(s.drop_last());
        assert forall|i: int| 0 <= i < s.len() implies s[i] by {
            if i < s.len() - 1 {
                assert(s.drop_last()[i]);
            }
        }
    }
}

/// The payload that fragments 0 through `k - 1` assemble into: their bytes,
/// in fragment order.
pub open spec fn assembled(chunks: Map<int, Seq<u8>>, k: int) -> Seq<u8>
    decreases k,
{
    if k <= 0 {
        Seq::empty()
    } else {
        assembled(chunks, k - 1) + chunks[k - 1]
    }
}

/// The information needed to reassemble the fragments of one logical packet.
pub struct ReassemblyData {
    /// The logical packet's sequence number.
    pub sequence: u16,
    /// The `ack_seq` of the packet header embedded in the first fragment.
    pub ack: u16,
    /// The `ack_field` of the packet header embedded in the first fragment.
    pub ack_bits: u32,
    /// How many distinct fragments have arrived.
    pub num_fragments_received: usize,
    /// How many fragments the packet was split into.
    pub num_fragments_total: usize,
    /// The accumulation buffer, sized for `num_fragments_total` full
    /// fragments; each fragment lands at its own byte offset.
    pub buffer: Vec<u8>,
    /// Which fragment ids have arrived.
    pub fragments_received: Vec<bool>,
    /// How many bytes of wire header preceded the first fragment's payload.
    pub header_size: usize,
    /// The length of the final fragment's payload, recorded when it arrives;
    /// every other fragment is a full `fragment_size`.
    pub last_fragment_len: usize,
    /// The bytes of each received fragment, kept only for the proof that the
    /// assembled buffer is exactly their concatenation.
    pub chunks: Ghost<Map<int, Seq<u8>>>,
}

impl ReassemblyData {
    /// The accumulation state is consistent for fragments of `fs` bytes:
    /// the bitmap and buffer have their fixed sizes, the received count
    /// matches the bitmap, and every received fragment's bytes sit intact at
    /// that fragment's offset — a full `fs` bytes for every fragment but the
    /// last.
    pub open spec fn wf(self, fs: int) -> bool {
        &&& 2 <= self.num_fragments_total <= 0xFF
        &&& 0 < fs
        &&& self.fragments_received@.len() == self.num_fragments_total
        &&& self.buffer@.len() == self.num_fragments_total * fs
        &&& self.num_fragments_received == count_true(self.fragments_received@)
        &&& forall|i: int|
            0 <= i < self.num_fragments_total ==> (#[trigger] self.fragments_received@[i]
                <==> self.chunks@.dom().contains(i))
        &&& forall|i: int|
            0 <= i < self.num_fragments_total && #[trigger] self.fragments_received@[i] ==> {
                &&& self.chunks@[i].len() <= fs
                &&& (i < self.num_fragments_total - 1 ==> self.chunks@[i].len() == fs)
                &&& (i == self.num_fragments_total - 1 ==> self.chunks@[i].len()
                    == self.last_fragment_len)
                &&& self.buffer@.subrange(i * fs, i * fs + self.chunks@[i].len()) == self.chunks@[i]
            }
    }

    /// An entry expecting `num_fragments_total` fragments, none arrived yet,
    /// with an accumulation buffer of `prealloc` zero bytes.
    pub fn new(
        sequence: u16,
        ack: u16,
        ack_bits: u32,
        num_fragments_total: usize,
        header_size: usize,
        prealloc: usize,
    ) -> (r: Self)
        ensures
            r.sequence == sequence,
            r.ack == ack,
            r.ack_bits == ack_bits,
            r.num_fragments_received == 0,
            r.num_fragments_total == num_fragments_total,
            r.buffer@ == Seq::new(prealloc as nat, |i: int| 0u8),
            r.fragments_received@ == Seq::new(num_fragments_total as nat, |i: int| false),
            r.header_size == header_size,
            r.last_fragment_len == 0,
            r.chunks@ == Map::<int, Seq<u8>>::empty(),
    {
        let mut buffer: Vec<u8> = Vec::new();
        let mut i: usize = 0;
        while i < prealloc
            invariant
                i <= prealloc,
                buffer@ =~= Seq::new(i as nat, |j: int| 0u8),
            decreases prealloc - i,
        {
            buffer.push(0);
            proof {
                assert(buffer@ =~= Seq::new((i + 1) as nat, |j: int| 0u8));
            }
            i += 1;
        }
        let mut fragments_received: Vec<bool> = Vec::new();
        let mut k: usize = 0;
        while k < num_fragments_total
            invariant
                k <= num_fragments_total,
                fragments_received@ =~= Seq::new(k as nat, |j: int| false),
            decreases num_fragments_total - k,
        {
            fragments_received.push(false);
            proof {
                assert(fragments_received@ =~= Seq::new((k + 1) as nat, |j: int| false));
            }
            k += 1;
        }
        ReassemblyData {
            sequence,
            ack,
            ack_bits,
            num_fragments_received: 0,
            num_fragments_total,
            buffer,
            fragments_received,
            header_size,
            last_fragment_len: 0,
            chunks: Ghost(Map::empty()),
        }
    }

    /// A fresh entry has received nothing.
    pub proof fn lemma_new_wf(self, fs: int)
        requires
            2 <= self.num_fragments_total <= 0xFF,
            0 < fs,
            self.num_fragments_received == 0,
            self.buffer@ == Seq::new((self.num_fragments_total * fs) as nat, |i: int| 0u8),
            self.fragments_received@ == Seq::new(self.num_fragments_total as nat, |i: int| false),
            self.chunks@ == Map::<int, Seq<u8>>::empty(),
        ensures
            self.wf(fs),
    {
        assert(count_true(self.fragments_received@) == 0) by {
            Self::lemma_count_false(self.fragments_received@);
        }
    }

    /// An all-clear bitmap counts zero.
    proof fn lemma_count_false(s: Seq<bool>)
        requires
            forall|i: int| 0 <= i < s.len() ==> !s[i],
        ensures
            count_true(s) == 0,
        decreases s.len(),
    {
        if s.len() > 0 {
            Self::lemma_count_false(s.drop_last());
        }
    }

    /// Record fragment `id`: write its bytes at offset `id * fragment_size`,
    /// mark it received, and count it. Everything already received stays
    /// intact.
    pub fn store_chunk(&mut self, id: usize, chunk: &[u8], fragment_size: usize)
        requires
            old(self).wf(fragment_size as int),
            id < old(self).num_fragments_total,
            !old(self).fragments_received@[id as int],
            chunk@.len() <= fragment_size,
            (id as int) < old(self).num_fragments_total - 1 ==> chunk@.len() == fragment_size,
        ensures
            final(self).wf(fragment_size as int),
            final(self).sequence == old(self).sequence,
            final(self).ack == old(self).ack,
            final(self).ack_bits == old(self).ack_bits,
            final(self).header_size == old(self).header_size,
            final(self).num_fragments_total == old(self).num_fragments_total,
            final(self).num_fragments_received == old(self).num_fragments_received + 1,
            final(self).fragments_received@ == old(self).fragments_received@.update(
                id as int,
                true,
            ),
            final(self).chunks@ == old(self).chunks@.insert(id as int, chunk@),
    {
        let ghost fs = fragment_size as int;
        let buffer_len = self.buffer.len();
        proof {
            vstd::arithmetic::mul::lemma_mul_inequality(
                id as int + 1,
                old(self).num_fragments_total as int,
                fs,
            );
            assert((id as int + 1) * fs == id as int * fs + fs) by (nonlinear_arith);
            assert(id as int * fs >= 0) by (nonlinear_arith)
                requires
                    id as int >= 0 && fs > 0,
            ;
            assert(id as int * fs + fs <= buffer_len);
            lemma_count_true_update(old(self).fragments_received@, id as int);
            lemma_count_true_le(old(self).fragments_received@);
        }
        let start = id * fragment_size;
        let n = chunk.len();
        let mut j: usize = 0;
        while j < n
            invariant
                n == chunk@.len(),
                j <= n,
                start == id as int * fragment_size as int,
                buffer_len == self.buffer@.len(),
                start + fragment_size <= buffer_len,
                n <= fragment_size,
                self.buffer@.len() == old(self).buffer@.len(),
                forall|t: int|
                    0 <= t < self.buffer@.len() && !(start <= t < start + j)
                        ==> #[trigger] self.buffer@[t] == old(self).buffer@[t],
                forall|t: int|
                    0 <= t < j ==> #[trigger] self.buffer@[start + t] == chunk@[t],
                self.fragments_received@ == old(self).fragments_received@,
                self.num_fragments_received == old(self).num_fragments_received,
                self.num_fragments_total == old(self).num_fragments_total,
                self.last_fragment_len == old(self).last_fragment_len,
                self.chunks@ == old(self).chunks@,
                self.sequence == old(self).sequence,
                self.ack == old(self).ack,
                self.ack_bits == old(self).ack_bits,
                self.header_size == old(self).header_size,
            decreases n - j,
        {
            self.buffer.set(start + j, chunk[j]);
            j += 1;
        }
        self.fragments_received.set(id, true);
        self.num_fragments_received = self.num_fragments_received + 1;
        if id == self.num_fragments_total - 1 {
            self.last_fragment_len = n;
        }
        self.chunks = Ghost(self.chunks@.insert(id as int, chunk@));
        proof {
            assert forall|t: int|
                0 <= t < chunk@.len() implies self.buffer@[id as int * fs + t] == chunk@[t] by {
                assert(self.buffer@[start as int + t] == chunk@[t]);
            }
            assert(self.buffer@.subrange(id as int * fs, id as int * fs + chunk@.len())
                =~= chunk@);
            assert forall|i: int|
                0 <= i < self.num_fragments_total && #[trigger] self.fragments_received@[i] implies {
                &&& self.chunks@[i].len() <= fs
                &&& (i < self.num_fragments_total - 1 ==> self.chunks@[i].len() == fs)
                &&& (i == self.num_fragments_total - 1 ==> self.chunks@[i].len()
                    == self.last_fragment_len)
                &&& self.buffer@.subrange(i * fs, i * fs + self.chunks@[i].len())
                    == self.chunks@[i]
            } by {
                if i != id as int {
                    assert(old(self).fragments_received@[i]);
                    let c = old(self).chunks@[i];
                    assert(old(self).buffer@.subrange(i * fs, i * fs + c.len()) == c);
                    assert(self.chunks@[i] == c);
                    if i < id as int {
                        assert((i + 1) * fs <= id as int * fs) by (nonlinear_arith)
                            requires
                                i + 1 <= id as int && fs > 0,
                        ;
                        assert((i + 1) * fs == i * fs + fs) by (nonlinear_arith);
                    } else {
                        assert((id as int + 1) * fs <= i * fs) by (nonlinear_arith)
                            requires
                                id as int + 1 <= i && fs > 0,
                        ;
                        assert((id as int + 1) * fs == id as int * fs + fs) by (nonlinear_arith);
                        vstd::arithmetic::mul::lemma_mul_inequality(
                            i + 1,
                            self.num_fragments_total as int,
                            fs,
                        );
                        assert((i + 1) * fs == i * fs + fs) by (nonlinear_arith);
                    }
                    assert(self.buffer@.subrange(i * fs, i * fs + c.len()) =~= c);
                    if i == self.num_fragments_total - 1 {
                        assert(id as int != self.num_fragments_total - 1);
                        assert(self.last_fragment_len == old(self).last_fragment_len);
                    }
                }
            }
        }
    }

    /// The assembled buffer is, prefix by prefix, the concatenation of the
    /// received fragments.
    proof fn lemma_buffer_prefix(self, fs: int, k: int)
        requires
            self.wf(fs),
            self.num_fragments_received == self.num_fragments_total,
            0 <= k <= self.num_fragments_total - 1,
        ensures
            self.buffer@.subrange(0, k * fs) == assembled(self.chunks@, k),
        decreases k,
    {
        lemma_count_true_full(self.fragments_received@);
        vstd::arithmetic::mul::lemma_mul_inequality(k, self.num_fragments_total as int, fs);
        assert(k * fs >= 0) by (nonlinear_arith)
            requires
                k >= 0 && fs > 0,
        ;
        if k == 0 {
            assert(k * fs == 0) by (nonlinear_arith)
                requires
                    k == 0,
            ;
            assert(assembled(self.chunks@, 0) == Seq::<u8>::empty());
            assert(self.buffer@.subrange(0, 0) =~= Seq::<u8>::empty());
        }
        if k > 0 {
            self.lemma_buffer_prefix(fs, k - 1);
            assert((k - 1) * fs == k * fs - fs) by (nonlinear_arith);
            assert(self.fragments_received@[k - 1]);
            assert(k - 1 < self.num_fragments_total - 1);
            assert(self.chunks@[k - 1].len() == fs);
            assert(self.buffer@.subrange((k - 1) * fs, (k - 1) * fs + fs) == self.chunks@[k - 1]);
            assert(self.buffer@.subrange((k - 1) * fs, (k - 1) * fs + fs) == self.chunks@[k - 1]);
            assert(self.buffer@.subrange(0, k * fs) =~= self.buffer@.subrange(0, (k - 1) * fs)
                + self.buffer@.subrange((k - 1) * fs, k * fs));
            assert(self.buffer@.subrange(0, k * fs) == assembled(self.chunks@, k - 1)
                + self.chunks@[k - 1]);
            assert(assembled(self.chunks@, k) == assembled(self.chunks@, k - 1) + self.chunks@[k
                - 1]);
        }
    }

    /// Once every fragment has arrived, surrender the assembled payload:
    /// exactly the received fragments' bytes, in fragment order.
    pub fn assembled_payload(&self, fragment_size: usize) -> (r: Vec<u8>)
        requires
            self.wf(fragment_size as int),
            self.num_fragments_received == self.num_fragments_total,
        ensures
            r@ == assembled(self.chunks@, self.num_fragments_total as int),
    {
        let ghost fs = fragment_size as int;
        let total = self.num_fragments_total;
        let buffer_len = self.buffer.len();
        proof {
            lemma_count_true_full(self.fragments_received@);
            assert(self.fragments_received@[total - 1]);
            assert(self.chunks@[total as int - 1].len() == self.last_fragment_len);
            vstd::arithmetic::mul::lemma_mul_inequality(total as int - 1, total as int, fs);
            assert((total as int - 1) * fs + fs == total as int * fs) by (nonlinear_arith);
            assert((total as int - 1) * fs >= 0) by (nonlinear_arith)
                requires
                    total as int >= 1 && fs > 0,
            ;
            assert((total as int - 1) * fs + self.last_fragment_len <= buffer_len);
        }
        let end = (total - 1) * fragment_size + self.last_fragment_len;
        let r = vstd::slice::slice_to_vec(
            vstd::slice::slice_subrange(self.buffer.as_slice(), 0, end),
        );
        proof {
            self.lemma_buffer_prefix(fs, total as int - 1);
            assert(self.buffer@.subrange(
                (total as int - 1) * fs,
                (total as int - 1) * fs + self.last_fragment_len as int,
            ) == self.chunks@[total as int - 1]);
            assert(r@ =~= self.buffer@.subrange(0, (total as int - 1) * fs)
                + self.buffer@.subrange(
                (total as int - 1) * fs,
                (total as int - 1) * fs + self.last_fragment_len as int,
            ));
            assert(assembled(self.chunks@, total as int) == assembled(self.chunks@, total as int
                - 1) + self.chunks@[total as int - 1]);
        }
        r
    }
}

impl Default for ReassemblyData {
    /// An inert placeholder: no fragments expected, nothing received.
    fn default() -> (r: Self)
        ensures
            r.sequence == 0,
            r.num_fragments_received == 0,
            r.num_fragments_total == 0,
            r.buffer@ == Seq::<u8>::empty(),
            r.fragments_received@ == Seq::<bool>::empty(),
            r.chunks@ == Map::<int, Seq<u8>>::empty(),
    {
        let r = ReassemblyData {
            sequence: 0,
            ack: 0,
            ack_bits: 0,
            num_fragments_received: 0,
            num_fragments_total: 0,
            buffer: Vec::new(),
            fragments_received: Vec::new(),
            header_size: 0,
            last_fragment_len: 0,
            chunks: Ghost(Map::empty()),
        };
        proof {
            assert(r.buffer@ =~= Seq::<u8>::empty());
            assert(r.fragments_received@ =~= Seq::<bool>::empty());
        }
        r
    }
}

} // verus!
