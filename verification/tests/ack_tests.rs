use seqnet::ack::{classify, AckClassification, ExternalAcks, LocalAckRecord};
use seqnet::{Address, Packet};

fn addr() -> Address {
    Address::new(0x7F000001, 9000)
}

#[test]
fn ack_bitfield_encoding() {
    // Receipts in order [100, 98, 95]: the outgoing header exposes
    // ack_seq = 100 with bit 1 set (98 = 100 - 1 - 1) and bit 4 set
    // (95 = 100 - 4 - 1), all other bits clear.
    let mut acks = ExternalAcks::new();
    acks.ack(100);
    acks.ack(98);
    acks.ack(95);
    assert_eq!(acks.last_seq, 100);
    assert_eq!(acks.field, (1 << 1) | (1 << 4));
}

#[test]
fn ack_bitfield_shifts_forward() {
    // The same receipts arriving oldest-first give the same picture: the
    // window shifts under a more recent last_seq so each bit keeps its
    // meaning.
    let mut acks = ExternalAcks::new();
    acks.ack(95);
    acks.ack(98);
    acks.ack(100);
    assert_eq!(acks.last_seq, 100);
    assert_eq!(acks.field, (1 << 1) | (1 << 4));
}

#[test]
fn ack_ignores_older_than_window() {
    let mut acks = ExternalAcks::new();
    acks.ack(1000);
    acks.ack(900);
    assert_eq!(acks.last_seq, 1000);
    assert_eq!(acks.field, 0);
}

#[test]
fn ack_wraps_around_u16() {
    let mut acks = ExternalAcks::new();
    acks.ack(65535);
    acks.ack(0);
    assert_eq!(acks.last_seq, 0);
    assert_eq!(acks.field, 1);
}

#[test]
fn drop_classification() {
    // Sender transmits sequences 1..5; the peer's report (ack_seq = 5,
    // ack_field) has the bits for 1, 2 and 4 set but the bit for 3 clear:
    // exactly sequence 3 is reported dropped, and 1, 2, 4, 5 are removed as
    // acknowledged.
    let mut record = LocalAckRecord::new();
    for seq in 1u16..=5u16 {
        record.enqueue(seq, Packet::new(addr(), vec![seq as u8]));
    }
    // Bit i covers sequence 5 - i - 1: sequence 4 is bit 0, 2 is bit 2,
    // 1 is bit 3; sequence 3 would be bit 1, left clear.
    let field: u32 = (1 << 0) | (1 << 2) | (1 << 3);
    let dropped = record.ack(5, field);
    assert_eq!(dropped.len(), 1);
    assert_eq!(dropped[0].payload(), &[3]);
    assert!(record.is_empty());
}

#[test]
fn newer_sequences_stay_outstanding() {
    let mut record = LocalAckRecord::new();
    record.enqueue(10, Packet::new(addr(), vec![10]));
    record.enqueue(11, Packet::new(addr(), vec![11]));
    let dropped = record.ack(10, 0);
    assert!(dropped.is_empty());
    assert_eq!(record.len(), 1);
}

#[test]
fn classification_cases() {
    assert_eq!(classify(5, 0, 5), AckClassification::Acked);
    assert_eq!(classify(5, 1 << 1, 3), AckClassification::Acked);
    assert_eq!(classify(5, 0, 3), AckClassification::Dropped);
    assert_eq!(classify(5, 0, 6), AckClassification::Outstanding);
    // Older than the 32-deep window: dropped even with every bit set.
    assert_eq!(classify(100, u32::MAX, 40), AckClassification::Dropped);
    // Wraparound: 65535 is one older than 0.
    assert_eq!(classify(0, 1, 65535), AckClassification::Acked);
}
