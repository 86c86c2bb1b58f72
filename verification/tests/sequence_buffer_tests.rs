use seqnet::SequenceBuffer;

#[test]
fn insert_then_get_returns_entry() {
    let mut buffer: SequenceBuffer<u32> = SequenceBuffer::with_capacity(8);
    buffer.insert(42, 3);
    assert_eq!(buffer.get(3), Some(&42));
    assert!(buffer.contains(3));
}

#[test]
fn slot_reuse_evicts_older_sequence() {
    // Inserting at s + capacity lands on the same slot with a different tag:
    // the old sequence number is absent afterwards.
    let mut buffer: SequenceBuffer<u32> = SequenceBuffer::with_capacity(8);
    buffer.insert(7, 3);
    assert_eq!(buffer.get(3), Some(&7));
    buffer.insert(9, 3 + 8);
    assert!(buffer.get(3).is_none());
    assert_eq!(buffer.get(11), Some(&9));
}

#[test]
fn absent_sequence_is_absent_even_with_stale_data() {
    let mut buffer: SequenceBuffer<u32> = SequenceBuffer::with_capacity(4);
    buffer.insert(5, 0);
    // Slot 0 holds data tagged 0; sequence 4 maps there but is absent.
    assert!(buffer.get(4).is_none());
    assert!(!buffer.contains(4));
}

#[test]
fn remove_clears_entry() {
    let mut buffer: SequenceBuffer<u32> = SequenceBuffer::with_capacity(4);
    buffer.insert(5, 2);
    buffer.remove(2);
    assert!(buffer.get(2).is_none());
    assert!(!buffer.contains(2));
}

#[test]
fn get_mut_updates_in_place() {
    let mut buffer: SequenceBuffer<u32> = SequenceBuffer::with_capacity(4);
    buffer.insert(5, 2);
    if let Some(entry) = buffer.get_mut(2) {
        *entry = 6;
    }
    assert_eq!(buffer.get(2), Some(&6));
    assert!(buffer.get_mut(3).is_none());
}

#[test]
fn capacity_and_len_are_fixed() {
    let buffer: SequenceBuffer<u32> = SequenceBuffer::with_capacity(16);
    assert_eq!(buffer.len(), 16);
    assert_eq!(buffer.capacity(), 16);
    assert!(!buffer.is_empty());
    assert_eq!(buffer.sequence(), 0);
}
