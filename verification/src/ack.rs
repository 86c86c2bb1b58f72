//! Acknowledgment tracking: wraparound-safe sequence arithmetic and the two
//! cooperating records kept per connection.
//!
//! The incoming record (`ExternalAcks`) follows the sequence numbers we have
//! received from a peer and produces the `(ack_seq, ack_field)` pair stamped
//! on outgoing packet headers. The outgoing record (`LocalAckRecord`) holds
//! the packets we have sent that still await proof of receipt, and consumes
//! a peer-reported pair to classify each of them as acknowledged, dropped,
//! or still outstanding.

use vstd::prelude::*;
use crate::packet::Packet;

verus! {

/// The wraparound distance from `b` up to `a`: how many increments, modulo
/// 65536, lead from `b` to `a`.
pub open spec fn seq_offset(a: u16, b: u16) -> int {
    (a as int - b as int) % 0x10000
}

/// Sequence number `a` is more recent than `b` under signed-wraparound
/// comparison: the 16-bit difference `a - b`, read as a signed value, is
/// positive. All freshness comparisons use this rule, never a plain `<`.
pub open spec fn seq_more_recent(a: u16, b: u16) -> bool {
    0 < seq_offset(a, b) < 0x8000
}

/// The sequence number `k` steps before `a`, modulo 65536.
pub open spec fn seq_sub(a: u16, k: int) -> u16 {
    ((a as int - k) % 0x10000) as u16
}

/// Stepping back the wraparound distance from `b` to `a` lands on `b`.
pub proof fn lemma_seq_offset_sub(a: u16, b: u16)
    ensures
        seq_sub(a, seq_offset(a, b)) == b,
{
    let d = seq_offset(a, b);
    if a >= b {
        assert(d == a - b);
    } else {
        assert(d == a - b + 0x10000);
    }
}

/// Stepping back twice is stepping back the sum.
pub proof fn lemma_seq_sub_add(a: u16, j: int, k: int)
    requires
        0 <= j <= 0x10000,
        0 <= k <= 0x10000,
    ensures
        seq_sub(seq_sub(a, j), k) == seq_sub(a, j + k),
{
    let m = 0x10000;
    let x = seq_sub(a, j);
    assert(x == (a as int - j) % m);
    if a as int - j >= 0 {
        assert((a as int - j) % m == a as int - j);
    } else {
        assert((a as int - j) % m == a as int - j + m);
    }
    let y = (x as int - k) % m;
    let z = (a as int - (j + k)) % m;
    assert(y == z) by {
        assert(x as int == a as int - j || x as int == a as int - j + m);
        if x as int == a as int - j {
            assert((x as int - k) % m == (a as int - j - k) % m);
        } else {
            assert(x as int - k == (a as int - j - k) + m);
            assert(((a as int - j - k) + m) % m == (a as int - j - k) % m);
        }
    }
}

/// The peer that is `d` ahead of `b` is reached by stepping back the rest of
/// the cycle.
pub proof fn lemma_seq_sub_wrap(a: u16, b: u16)
    ensures
        seq_sub(b, 0x10000 - seq_offset(a, b)) == a,
{
    let d = seq_offset(a, b);
    if a >= b {
        assert(d == a - b);
        assert((b as int - (0x10000 - d)) % 0x10000 == (a as int - 0x10000) % 0x10000);
        assert((a as int - 0x10000) % 0x10000 == a as int);
    } else {
        assert(d == a - b + 0x10000);
        assert((b as int - (0x10000 - d)) % 0x10000 == a as int % 0x10000);
        assert(a as int % 0x10000 == a as int);
    }
}

/// The record of sequence numbers received from one peer. `last_seq` is the
/// most recent one under wraparound comparison, and bit `i` of `field` set
/// means sequence `last_seq - i - 1` (mod 65536) has also been received.
/// Bits beyond the 32-deep window are lost information.
///
/// A fresh record reports nothing until the first receipt initializes it;
/// without that rule an empty record would falsely claim receipt of
/// sequence number 0.
pub struct ExternalAcks {
    /// The most recent sequence number received.
    pub last_seq: u16,
    /// The 32-bit window of receipts preceding `last_seq`.
    pub field: u32,
    /// Whether anything has been received at all.
    pub initialized: bool,
    /// Every sequence number ever passed to `ack`, kept only for the proof
    /// that the bitfield never claims a receipt that did not happen.
    pub received: Ghost<Set<u16>>,
}

impl ExternalAcks {
    /// The bitfield never lies: every receipt it reports — the most recent
    /// sequence number and every set window bit — was actually received.
    pub open spec fn wf(self) -> bool {
        &&& (!self.initialized ==> self.field == 0)
        &&& (self.initialized ==> self.received@.contains(self.last_seq))
        &&& forall|i: u32|
            i < 32 && #[trigger] ((self.field >> i) & 1u32) == 1u32 ==> self.received@.contains(
                seq_sub(self.last_seq, i as int + 1),
            ) && self.initialized
    }

    /// An empty record: nothing received yet.
    pub fn new() -> (r: Self)
        ensures
            r.wf(),
            r.last_seq == 0,
            r.field == 0,
            !r.initialized,
            r.received@ == Set::<u16>::empty(),
    {
        let r = ExternalAcks { last_seq: 0, field: 0, initialized: false, received: Ghost(Set::empty()) };
        proof {
            assert forall|i: u32| i < 32 implies ((r.field >> i) & 1u32) != 1u32 by {
                assert((0u32 >> i) & 1u32 == 0u32) by (bit_vector);
            }
        }
        r
    }

    /// The `(last_seq, field, initialized)` triple after recording a receipt
    /// of `seq`: the first receipt initializes the record; a more recent
    /// `seq` becomes `last_seq` and the window shifts under it so each bit
    /// keeps its meaning; an older `seq` inside the window sets its bit; an
    /// older one beyond the window is lost.
    pub open spec fn spec_ack(self, seq: u16) -> (u16, u32, bool) {
        if !self.initialized {
            (seq, self.field, true)
        } else {
            let d = seq_offset(seq, self.last_seq);
            if d == 0 {
                (self.last_seq, self.field, true)
            } else if d < 0x8000 {
                let shifted: u32 = if d <= 32 {
                    ((self.field << 1) | 1u32) << ((d - 1) as u32)
                } else {
                    0u32
                };
                (seq, shifted, true)
            } else {
                let nd = 0x10000 - d;
                if nd <= 32 {
                    (self.last_seq, self.field | (1u32 << ((nd - 1) as u32)), true)
                } else {
                    (self.last_seq, self.field, true)
                }
            }
        }
    }

    /// Record that sequence number `seq_num` arrived from the peer.
    pub fn ack(&mut self, seq_num: u16)
        requires
            old(self).wf(),
        ensures
            final(self).wf(),
            (final(self).last_seq, final(self).field, final(self).initialized) == old(
                self,
            ).spec_ack(seq_num),
            final(self).received@ == old(self).received@.insert(seq_num),
    {
        self.received = Ghost(self.received@.insert(seq_num));
        if !self.initialized {
            self.last_seq = seq_num;
            self.initialized = true;
            proof {
                assert forall|i: u32|
                    i < 32 && ((self.field >> i) & 1u32) == 1u32 implies self.received@.contains(
                    seq_sub(self.last_seq, i as int + 1),
                ) && self.initialized by {
                    assert((0u32 >> i) & 1u32 == 0u32) by (bit_vector);
                }
            }
            return ;
        }
        let pos_diff = seq_num.wrapping_sub(self.last_seq);
        proof {
            assert(pos_diff as int == seq_offset(seq_num, old(self).last_seq));
        }
        if pos_diff == 0 {
            return ;
        }
        if pos_diff < 0x8000 {
            let ghost old_field = self.field;
            let ghost old_last = self.last_seq;
            if pos_diff <= 32 {
                let d32 = pos_diff as u32;
                self.field = ((self.field << 1) | 1u32) << (d32 - 1);
                proof {
                    let f = old_field;
                    assert(forall|i: u32|
                        (i < 32 && #[trigger] (((((f << 1) | 1u32) << ((d32 - 1) as u32)) >> i)
                            & 1u32) == 1u32) ==> ((i == (d32 - 1) as u32) || (d32 <= i && ((f >> ((
                        i - d32) as u32)) & 1u32) == 1u32))) by (bit_vector)
                        requires
                            1 <= d32 <= 32,
                    ;
                }
            } else {
                self.field = 0;
                proof {
                    assert forall|i: u32| i < 32 implies ((0u32 >> i) & 1u32) != 1u32 by {
                        assert((0u32 >> i) & 1u32 == 0u32) by (bit_vector);
                    }
                }
            }
            self.last_seq = seq_num;
            proof {
                let d = pos_diff as int;
                lemma_seq_offset_sub(seq_num, old_last);
                assert forall|i: u32|
                    i < 32 && ((self.field >> i) & 1u32) == 1u32 implies self.received@.contains(
                    seq_sub(self.last_seq, i as int + 1),
                ) && self.initialized by {
                    if i as int == d - 1 {
                        assert(seq_sub(seq_num, d) == old_last);
                    } else {
                        assert(d <= i as int && ((old_field >> ((i - pos_diff as u32) as u32))
                            & 1u32) == 1u32);
                        assert(old(self).received@.contains(
                            seq_sub(old_last, (i as int - d) + 1),
                        ));
                        lemma_seq_sub_add(seq_num, d, (i as int - d) + 1);
                    }
                }
            }
        } else {
            let neg_diff = self.last_seq.wrapping_sub(seq_num);
            proof {
                assert(neg_diff as int == 0x10000 - pos_diff as int) by {
                    if (seq_num as int - self.last_seq as int) < 0 {
                        assert(pos_diff as int == seq_num as int - self.last_seq as int + 0x10000);
                        assert(neg_diff as int == self.last_seq as int - seq_num as int);
                    } else {
                        assert(pos_diff as int == seq_num as int - self.last_seq as int);
                        assert(pos_diff as int >= 0x8000 ==> (self.last_seq as int
                            - seq_num as int) < 0);
                        assert(neg_diff as int == self.last_seq as int - seq_num as int + 0x10000);
                    }
                }
            }
            if neg_diff <= 32 {
                let n32 = neg_diff as u32;
                let ghost old_field = self.field;
                self.field = self.field | (1u32 << (n32 - 1));
                proof {
                    let f = old_field;
                    assert(forall|i: u32|
                        (i < 32 && #[trigger] (((f | (1u32 << ((n32 - 1) as u32))) >> i) & 1u32)
                            == 1u32) ==> ((i == (n32 - 1) as u32) || ((f >> i) & 1u32) == 1u32))
                        by (bit_vector)
                        requires
                            1 <= n32 <= 32,
                    ;
                    lemma_seq_sub_wrap(seq_num, self.last_seq);
                    assert forall|i: u32|
                        i < 32 && ((self.field >> i) & 1u32) == 1u32 implies self.received@.contains(
                        seq_sub(self.last_seq, i as int + 1),
                    ) && self.initialized by {
                        assert(((f | (1u32 << ((n32 - 1) as u32))) >> i) & 1u32 == 1u32);
                        if i as int == n32 as int - 1 {
                            assert(seq_sub(self.last_seq, neg_diff as int) == seq_num);
                        } else {
                            assert(((f >> i) & 1u32) == 1u32);
                        }
                    }
                }
            }
        }
    }
}

/// What a peer-reported `(ack_seq, ack_field)` pair says about one sent
/// sequence number.
#[derive(Clone, Copy, PartialEq, Eq, Structural, Debug)]
pub enum AckClassification {
    /// The peer confirmed receipt: equal to `ack_seq`, or covered by a set
    /// bit of the window.
    Acked,
    /// Older than `ack_seq` but not confirmed — inferred lost. A gap older
    /// than the 32-deep window can no longer be proven received, so it too
    /// is classified dropped.
    Dropped,
    /// More recent than `ack_seq`; the peer may yet report it.
    Outstanding,
}

/// Classify a sent sequence number `key` against a peer-reported pair:
/// `Acked` when `key == ack_seq` or the window bit `ack_seq - key - 1` is
/// set; `Outstanding` when `key` is more recent than `ack_seq`; `Dropped`
/// otherwise.
pub open spec fn spec_classify(ack_seq: u16, ack_field: u32, key: u16) -> AckClassification {
    let d = seq_offset(ack_seq, key);
    if d == 0 {
        AckClassification::Acked
    } else if d <= 32 {
        if ((ack_field >> ((d - 1) as u32)) & 1u32) == 1u32 {
            AckClassification::Acked
        } else {
            AckClassification::Dropped
        }
    } else if d < 0x8000 {
        AckClassification::Dropped
    } else {
        AckClassification::Outstanding
    }
}

/// Runtime counterpart of `spec_classify`.
pub fn classify(ack_seq: u16, ack_field: u32, key: u16) -> (r: AckClassification)
    ensures
        r == spec_classify(ack_seq, ack_field, key),
{
    let d = ack_seq.wrapping_sub(key);
    proof {
        assert(d as int == seq_offset(ack_seq, key));
    }
    if d == 0 {
        AckClassification::Acked
    } else if d <= 32 {
        if (ack_field >> ((d - 1) as u32)) & 1u32 == 1u32 {
            AckClassification::Acked
        } else {
            AckClassification::Dropped
        }
    } else if d < 0x8000 {
        AckClassification::Dropped
    } else {
        AckClassification::Outstanding
    }
}

/// No two entries of `s` carry the same sequence number.
pub open spec fn unique_keys(s: Seq<(u16, Packet)>) -> bool {
    forall|i: int, j: int| 0 <= i < j < s.len() ==> (#[trigger] s[i]).0 != (#[trigger] s[j]).0
}

/// Some entry of `s` carries sequence number `k`.
pub open spec fn record_contains_key(s: Seq<(u16, Packet)>, k: u16) -> bool {
    exists|i: int| 0 <= i < s.len() && (#[trigger] s[i]).0 == k
}

/// The position of the entry carrying sequence number `k`; unique when the
/// keys are.
pub open spec fn record_key_index(s: Seq<(u16, Packet)>, k: u16) -> int {
    choose|i: int| 0 <= i < s.len() && (#[trigger] s[i]).0 == k
}

/// The record after storing `p` under `k`: a stale entry under the same key
/// is replaced in place, a new key is appended.
pub open spec fn upsert(s: Seq<(u16, Packet)>, k: u16, p: Packet) -> Seq<(u16, Packet)> {
    if record_contains_key(s, k) {
        s.update(record_key_index(s, k), (k, p))
    } else {
        s.push((k, p))
    }
}

/// The entries of `s` that stay outstanding after consuming the pair
/// `(ack_seq, ack_field)`, in their stored order.
pub open spec fn keep_outstanding(s: Seq<(u16, Packet)>, ack_seq: u16, ack_field: u32) -> Seq<
    (u16, Packet),
>
    decreases s.len(),
{
    if s.len() == 0 {
        Seq::empty()
    } else {
        let rest = keep_outstanding(s.skip(1), ack_seq, ack_field);
        if spec_classify(ack_seq, ack_field, s[0].0) is Outstanding {
            seq![s[0]] + rest
        } else {
            rest
        }
    }
}

/// The packets of `s` classified dropped by the pair `(ack_seq, ack_field)`,
/// in their stored order.
pub open spec fn dropped_from(s: Seq<(u16, Packet)>, ack_seq: u16, ack_field: u32) -> Seq<Packet>
    decreases s.len(),
{
    if s.len() == 0 {
        Seq::empty()
    } else {
        let rest = dropped_from(s.skip(1), ack_seq, ack_field);
        if spec_classify(ack_seq, ack_field, s[0].0) is Dropped {
            seq![s[0].1] + rest
        } else {
            rest
        }
    }
}

/// Removing one inner entry keeps the keys unique.
proof fn lemma_unique_keys_drop_mid(a: Seq<(u16, Packet)>, e: (u16, Packet), r: Seq<(u16, Packet)>)
    requires
        unique_keys(a + (seq![e] + r)),
    ensures
        unique_keys(a + r),
{
    let whole = a + (seq![e] + r);
    let thin = a + r;
    assert forall|i: int, j: int| 0 <= i < j < thin.len() implies (#[trigger] thin[i]).0 != (
    #[trigger] thin[j]).0 by {
        let i2 = if i < a.len() {
            i
        } else {
            i + 1
        };
        let j2 = if j < a.len() {
            j
        } else {
            j + 1
        };
        assert(thin[i] == whole[i2]);
        assert(thin[j] == whole[j2]);
    }
}

/// The record of packets we have sent that still await proof of receipt,
/// keyed by their sequence numbers.
pub struct LocalAckRecord {
    entries: Vec<(u16, Packet)>,
}

impl View for LocalAckRecord {
    type V = Seq<(u16, Packet)>;

    closed spec fn view(&self) -> Seq<(u16, Packet)> {
        self.entries@
    }
}

impl LocalAckRecord {
    /// Each sent sequence number is outstanding at most once.
    pub open spec fn wf(self) -> bool {
        unique_keys(self@)
    }

    /// An empty record: nothing awaits acknowledgment.
    pub fn new() -> (r: Self)
        ensures
            r.wf(),
            r@ == Seq::<(u16, Packet)>::empty(),
    {
        LocalAckRecord { entries: Vec::new() }
    }

    /// How many packets await acknowledgment.
    pub fn len(&self) -> (r: usize)
        ensures
            r == self@.len(),
    {
        self.entries.len()
    }

    /// Whether no packet awaits acknowledgment.
    pub fn is_empty(&self) -> (r: bool)
        ensures
            r == (self@.len() == 0),
    {
        self.entries.len() == 0
    }

    /// Record a sent packet awaiting proof of receipt. A stale entry under
    /// the same (wrapped-around) sequence number is replaced.
    pub fn enqueue(&mut self, seq: u16, packet: Packet)
        requires
            old(self).wf(),
        ensures
            final(self).wf(),
            final(self)@ == upsert(old(self)@, seq, packet),
    {
        let n = self.entries.len();
        let mut i: usize = 0;
        while i < n
            invariant
                old(self).wf(),
                n == self.entries.len(),
                i <= n,
                *self == *old(self),
                forall|j: int| 0 <= j < i ==> (#[trigger] self.entries@[j]).0 != seq,
            decreases n - i,
        {
            if self.entries[i].0 == seq {
                proof {
                    assert(self.entries@[i as int].0 == seq);
                }
                self.entries.set(i, (seq, packet));
                proof {
                    assert(self.entries@ == old(self)@.update(i as int, (seq, packet)));
                    assert(old(self)@[i as int].0 == seq);
                    assert(unique_keys(old(self)@));
                    assert forall|a: int, b: int|
                        0 <= a < b < self.entries@.len() implies (#[trigger] self.entries@[a]).0
                        != (#[trigger] self.entries@[b]).0 by {
                        assert(old(self)@[a].0 != old(self)@[b].0);
                        assert(self.entries@[a].0 == old(self)@[a].0);
                        assert(self.entries@[b].0 == old(self)@[b].0);
                    }
                    assert(record_contains_key(old(self)@, seq));
                    let j = record_key_index(old(self)@, seq);
                    assert(0 <= j < old(self)@.len() && old(self)@[j].0 == seq);
                    assert(j == i as int) by {
                        if j < i as int {
                            assert(old(self)@[j].0 != old(self)@[i as int].0);
                        }
                        if j > i as int {
                            assert(old(self)@[i as int].0 != old(self)@[j].0);
                        }
                    }
                }
                return ;
            }
            i += 1;
        }
        proof {
            assert(!record_contains_key(old(self)@, seq)) by {
                if record_contains_key(old(self)@, seq) {
                    let w = choose|w: int|
                        0 <= w < old(self)@.len() && (#[trigger] old(self)@[w]).0 == seq;
                    assert((self.entries@[w]).0 != seq);
                }
            }
        }
        self.entries.push((seq, packet));
    }

    /// Consume a peer-reported `(ack_seq, ack_field)` pair: entries it
    /// confirms are removed as acknowledged, entries it proves lost are
    /// removed and returned as the newly classified dropped packets (in
    /// stored order), and entries more recent than `ack_seq` remain
    /// outstanding.
    pub fn ack(&mut self, seq: u16, seq_field: u32) -> (dropped: Vec<Packet>)
        requires
            old(self).wf(),
        ensures
            final(self).wf(),
            final(self)@ == keep_outstanding(old(self)@, seq, seq_field),
            dropped@ == dropped_from(old(self)@, seq, seq_field),
    {
        let ghost orig = self.entries@;
        let mut kept: Vec<(u16, Packet)> = Vec::new();
        let mut dropped: Vec<Packet> = Vec::new();
        while self.entries.len() > 0
            invariant
                unique_keys(kept@ + self.entries@),
                kept@ + keep_outstanding(self.entries@, seq, seq_field) == keep_outstanding(
                    orig,
                    seq,
                    seq_field,
                ),
                dropped@ + dropped_from(self.entries@, seq, seq_field) == dropped_from(
                    orig,
                    seq,
                    seq_field,
                ),
            decreases self.entries.len(),
        {
            let ghost before = self.entries@;
            let ghost kept_before = kept@;
            let ghost dropped_before = dropped@;
            let (k, p) = self.entries.remove(0);
            proof {
                assert(self.entries@ =~= before.skip(1));
                assert(before =~= seq![before[0]] + before.skip(1));
            }
            match classify(seq, seq_field, k) {
                AckClassification::Outstanding => {
                    kept.push((k, p));
                    proof {
                        assert(kept@ =~= kept_before.push((k, p)));
                        assert(kept@ + self.entries@ =~= kept_before + before);
                        assert(kept@ + keep_outstanding(self.entries@, seq, seq_field)
                            =~= kept_before + keep_outstanding(before, seq, seq_field));
                    }
                },
                AckClassification::Dropped => {
                    dropped.push(p);
                    proof {
                        lemma_unique_keys_drop_mid(kept_before, (k, p), self.entries@);
                        assert(dropped@ + dropped_from(self.entries@, seq, seq_field)
                            =~= dropped_before + dropped_from(before, seq, seq_field));
                    }
                },
                AckClassification::Acked => {
                    proof {
                        lemma_unique_keys_drop_mid(kept_before, (k, p), self.entries@);
                    }
                },
            }
        }
        proof {
            assert(self.entries@ =~= Seq::<(u16, Packet)>::empty());
            assert(kept@ + keep_outstanding(self.entries@, seq, seq_field) =~= kept@);
            assert(dropped@ + dropped_from(self.entries@, seq, seq_field) =~= dropped@);
            assert(kept@ + self.entries@ =~= kept@);
        }
        self.entries = kept;
        dropped
    }
}

} // verus!
