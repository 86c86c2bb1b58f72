//! A fixed-capacity ring buffer addressed by a wraparound 16-bit sequence
//! number.
//!
//! Every slot carries a 32-bit tag; a slot answers for sequence number `s`
//! only while its tag equals `s`, so inserting at `s + capacity` silently
//! reuses the slot that held `s` with no eviction bookkeeping. The tag space
//! is wider than the sequence space so that a sentinel outside `[0, 65535]`
//! can mark a slot as empty.

use vstd::prelude::*;

verus! {

/// The tag value marking a slot that holds no entry. It lies outside the
/// 16-bit sequence space, so it can never equal a stored sequence tag.
pub const EMPTY_SLOT_TAG: u32 = 0xFFFF_FFFF;

/// Collection for storing data of any kind, addressed by sequence number.
pub struct SequenceBuffer<T> {
    entries: Vec<Option<T>>,
    entry_sequences: Vec<u32>,
    sequence: u16,
    size: usize,
}

impl<T> SequenceBuffer<T> {
    /// How many slots the buffer was created with.
    pub closed spec fn spec_capacity(self) -> int {
        self.size as int
    }

    /// The slot that sequence number `seq` is stored in.
    pub open spec fn slot_of(self, seq: u16) -> int {
        seq as int % self.spec_capacity()
    }

    /// Structural well-formedness: the two slot vectors share the fixed
    /// length, and every occupied slot's tag names a sequence number that
    /// maps back to that slot.
    pub closed spec fn wf(self) -> bool {
        &&& 0 < self.size <= 0xFFFF
        &&& self.entries@.len() == self.size
        &&& self.entry_sequences@.len() == self.size
        &&& forall|i: int|
            0 <= i < self.size && self.entry_sequences@[i] != EMPTY_SLOT_TAG ==> {
                &&& self.entry_sequences@[i] <= 0xFFFF
                &&& self.entry_sequences@[i] as int % self.size as int == i
                &&& self.entries@[i] is Some
            }
    }

    /// The entry stored for sequence number `seq`, if its slot still answers
    /// for `seq`.
    pub closed spec fn spec_get(self, seq: u16) -> Option<T> {
        if self.entry_sequences@[self.slot_of(seq)] == seq as u32 {
            self.entries@[self.slot_of(seq)]
        } else {
            None
        }
    }

    /// A well-formed buffer's capacity is positive and fits the 16-bit
    /// sequence space: stated here because well-formedness itself is opaque
    /// to other modules.
    pub proof fn lemma_capacity_bounds(self)
        requires
            self.wf(),
        ensures
            0 < self.spec_capacity() <= 0xFFFF,
    {
    }

    /// Two different sequence numbers that share a slot cannot both be
    /// present: the slot's tag answers for at most one of them.
    pub proof fn lemma_same_slot_exclusive(self, a: u16, b: u16)
        requires
            self.wf(),
            a != b,
            self.slot_of(a) == self.slot_of(b),
            self.spec_get(a) is Some,
        ensures
            self.spec_get(b) is None,
    {
    }

    /// Create a collection with a specific capacity; every slot starts empty.
    pub fn with_capacity(size: usize) -> (r: Self)
        requires
            0 < size <= 0xFFFF,
        ensures
            r.wf(),
            r.spec_capacity() == size,
            forall|s: u16| r.spec_get(s) is None,
            r.sequence_spec() == 0,
    {
        let mut entries: Vec<Option<T>> = Vec::new();
        let mut entry_sequences: Vec<u32> = Vec::new();
        let mut i: usize = 0;
        while i < size
            invariant
                i <= size,
                entries@.len() == i,
                entry_sequences@.len() == i,
                forall|j: int| 0 <= j < i ==> entries@[j] is None,
                forall|j: int| 0 <= j < i ==> entry_sequences@[j] == EMPTY_SLOT_TAG,
            decreases size - i,
        {
            entries.push(None);
            entry_sequences.push(EMPTY_SLOT_TAG);
            i += 1;
        }
        Self { sequence: 0, size, entries, entry_sequences }
    }

    /// Get an entry from the collection by sequence number.
    pub fn get(&self, sequence: u16) -> (r: Option<&T>)
        requires
            self.wf(),
        ensures
            r is Some <==> self.spec_get(sequence) is Some,
            r is Some ==> *r.unwrap() == self.spec_get(sequence).unwrap(),
    {
        let index = self.index(sequence);
        if self.entry_sequences[index] != sequence as u32 {
            return None;
        }
        self.entries[index].as_ref()
    }

    /// Get a mutable entry from the collection by sequence number. Whatever
    /// the caller writes through the result becomes the stored entry for
    /// `sequence`; no other slot changes.
    pub fn get_mut(&mut self, sequence: u16) -> (r: Option<&mut T>)
        requires
            old(self).wf(),
        ensures
            r is Some <==> old(self).spec_get(sequence) is Some,
            r is None ==> *final(self) == *old(self),
            r is Some ==> {
                &&& *r.unwrap() == old(self).spec_get(sequence).unwrap()
                &&& final(self).wf()
                &&& final(self).spec_capacity() == old(self).spec_capacity()
                &&& final(self).sequence_spec() == old(self).sequence_spec()
                &&& final(self).spec_get(sequence) == Some(*final(r.unwrap()))
                &&& forall|s: u16|
                    s != sequence ==> final(self).spec_get(s) == old(self).spec_get(s)
            },
    {
        let index = self.index(sequence);
        if self.entry_sequences[index] != sequence as u32 {
            return None;
        }
        proof {
            assert(forall|s: u16|
                s != sequence && old(self).slot_of(s) == old(self).slot_of(sequence)
                    ==> old(self).spec_get(s) is None);
        }
        self.entries[index].as_mut()
    }

    /// What one insert at `seq` does, observed through `spec_get`: the new
    /// entry answers for `seq`, whatever shared its slot is gone no matter
    /// its own tag, and every other slot keeps its entry.
    pub open spec fn insert_effect(pre: Self, post: Self, data: T, seq: u16) -> bool {
        &&& post.wf()
        &&& post.spec_capacity() == pre.spec_capacity()
        &&& post.sequence_spec() == pre.sequence_spec()
        &&& post.spec_get(seq) == Some(data)
        &&& forall|s: u16|
            s != seq ==> post.spec_get(s) == (if pre.slot_of(s) == pre.slot_of(seq) {
                None::<T>
            } else {
                pre.spec_get(s)
            })
    }

    /// Insert a new entry into the collection, overwriting whatever occupied
    /// its slot, no matter that occupant's own tag.
    pub fn insert(&mut self, data: T, sequence: u16)
        requires
            old(self).wf(),
        ensures
            Self::insert_effect(*old(self), *final(self), data, sequence),
    {
        let index = self.index(sequence);
        self.entries.set(index, Some(data));
        self.entry_sequences.set(index, sequence as u32);
    }

    /// Remove the entry for `sequence`: its slot is reset to empty. Like
    /// insertion, removal acts on the whole slot, whatever tag it carried.
    pub fn remove(&mut self, sequence: u16)
        requires
            old(self).wf(),
        ensures
            final(self).wf(),
            final(self).spec_capacity() == old(self).spec_capacity(),
            final(self).sequence_spec() == old(self).sequence_spec(),
            final(self).spec_get(sequence) is None,
            forall|s: u16|
                s != sequence ==> final(self).spec_get(s) == (if old(self).slot_of(s)
                    == old(self).slot_of(sequence) {
                    None::<T>
                } else {
                    old(self).spec_get(s)
                }),
    {
        let index = self.index(sequence);
        self.entries.set(index, None);
        self.entry_sequences.set(index, EMPTY_SLOT_TAG);
    }

    /// Check whether an entry for `sequence` is present, without granting
    /// access to it.
    pub fn contains(&self, sequence: u16) -> (r: bool)
        requires
            self.wf(),
        ensures
            r == (self.spec_get(sequence) is Some),
    {
        let index = self.index(sequence);
        self.entry_sequences[index] == sequence as u32
    }

    /// The buffer's own running sequence counter.
    pub closed spec fn sequence_spec(self) -> u16 {
        self.sequence
    }

    /// Read the buffer's own running sequence counter.
    pub fn sequence(&self) -> (r: u16)
        ensures
            r == self.sequence_spec(),
    {
        self.sequence
    }

    /// Get the length of the collection: the fixed number of slots.
    pub fn len(&self) -> (r: usize)
        requires
            self.wf(),
        ensures
            r == self.spec_capacity(),
    {
        self.entries.len()
    }

    /// Check whether the collection is empty: it has no slots at all. A
    /// buffer that could be constructed always has some, so this is never
    /// true of one.
    pub fn is_empty(&self) -> (r: bool)
        requires
            self.wf(),
        ensures
            r == (self.spec_capacity() == 0),
    {
        self.len() == 0
    }

    /// Get the total capacity of the collection.
    pub fn capacity(&self) -> (r: usize)
        requires
            self.wf(),
        ensures
            r == self.spec_capacity(),
    {
        self.entries.len()
    }

    /// For every sequence number `s`: a buffer that just had `x` inserted at
    /// `s` answers `get(s)` with exactly `x`.
    pub proof fn lemma_insert_then_get(pre: Self, post: Self, x: T, s: u16)
        requires
            pre.wf(),
            Self::insert_effect(pre, post, x, s),
        ensures
            post.spec_get(s) == Some(x),
    {
    }

    /// Inserting under a different sequence number that lands on the same
    /// slot — such as `s` plus the capacity — leaves `s` absent: the slot
    /// now carries the other tag, even though it holds data.
    pub proof fn lemma_insert_same_slot_evicts(pre: Self, post: Self, y: T, s: u16, t: u16)
        requires
            pre.wf(),
            Self::insert_effect(pre, post, y, t),
            s != t,
            pre.slot_of(s) == pre.slot_of(t),
        ensures
            post.spec_get(s) is None,
    {
    }

    /// The sequence number one whole capacity after `s` is a different tag
    /// for the same slot.
    pub proof fn lemma_slot_after_capacity(self, s: u16)
        requires
            self.wf(),
            s as int + self.spec_capacity() <= 0xFFFF,
        ensures
            self.slot_of((s as int + self.spec_capacity()) as u16) == self.slot_of(s),
            (s as int + self.spec_capacity()) as u16 != s,
    {
        let c = self.spec_capacity();
        vstd::arithmetic::div_mod::lemma_mod_multiples_vanish(1, s as int, c);
    }

    /// Convert a sequence number to an index into the inner storage.
    fn index(&self, sequence: u16) -> (r: usize)
        requires
            self.wf(),
        ensures
            r == self.slot_of(sequence),
            r < self.spec_capacity(),
    {
        (sequence % (self.entries.len() as u16)) as usize
    }
}

} // verus!
