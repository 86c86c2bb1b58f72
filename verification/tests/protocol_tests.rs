use seqnet::{Address, NetworkConfig, NetworkError, Packet, ProtocolCore};

fn addr_a() -> Address {
    Address::new(0x7F000001, 5001)
}

fn addr_b() -> Address {
    Address::new(0x7F000001, 5002)
}

/// The datagrams one packet from A to B becomes on the wire.
fn datagrams_for(core: &mut ProtocolCore, payload: Vec<u8>, now: u64) -> Vec<Vec<u8>> {
    let config = core.config;
    let (addr, data) = core
        .state
        .pre_process_packet(Packet::new(addr_b(), payload), &config, now)
        .unwrap();
    assert_eq!(addr, addr_b());
    data.parts()
}

#[test]
fn end_to_end_small_payload() {
    // Send payload [1, 2, 3] from A to B; B's receive returns a packet with
    // that exact payload and sender address A.
    let mut core_a = ProtocolCore::new(NetworkConfig::default());
    let mut core_b = ProtocolCore::new(NetworkConfig::default());
    let parts = datagrams_for(&mut core_a, vec![1, 2, 3], 0);
    assert_eq!(parts.len(), 1);
    let received = core_b.receive(&parts[0], addr_a(), 0).unwrap().unwrap();
    assert_eq!(received.payload(), &[1, 2, 3]);
    assert_eq!(received.addr(), addr_a());
}

#[test]
fn fragmentation_round_trip_in_order() {
    // A 4000-byte payload with fragment_size 1024 splits into 4 fragments
    // (3 x 1024 + 1 x 928); reassembling all 4 yields the original bytes.
    let payload: Vec<u8> = (0..4000u32).map(|i| (i % 251) as u8).collect();
    let mut core_a = ProtocolCore::new(NetworkConfig::default());
    let mut core_b = ProtocolCore::new(NetworkConfig::default());
    let parts = datagrams_for(&mut core_a, payload.clone(), 0);
    assert_eq!(parts.len(), 4);
    // Type byte + 12-byte first fragment header + 1024 bytes of payload.
    assert_eq!(parts[0].len(), 1 + 12 + 1024);
    assert_eq!(parts[1].len(), 1 + 4 + 1024);
    assert_eq!(parts[2].len(), 1 + 4 + 1024);
    assert_eq!(parts[3].len(), 1 + 4 + 928);
    for i in 0..3 {
        assert!(core_b.receive(&parts[i], addr_a(), 0).unwrap().is_none());
    }
    let received = core_b.receive(&parts[3], addr_a(), 0).unwrap().unwrap();
    assert_eq!(received.payload(), payload.as_slice());
    assert_eq!(received.addr(), addr_a());
}

#[test]
fn fragmentation_round_trip_out_of_order() {
    // Once the first fragment has opened the reassembly entry, the rest may
    // arrive in any order; the offset-based writes still produce the
    // original bytes.
    let payload: Vec<u8> = (0..4000u32).map(|i| (i % 13) as u8).collect();
    let mut core_a = ProtocolCore::new(NetworkConfig::default());
    let mut core_b = ProtocolCore::new(NetworkConfig::default());
    let parts = datagrams_for(&mut core_a, payload.clone(), 0);
    assert_eq!(parts.len(), 4);
    assert!(core_b.receive(&parts[0], addr_a(), 0).unwrap().is_none());
    assert!(core_b.receive(&parts[3], addr_a(), 0).unwrap().is_none());
    assert!(core_b.receive(&parts[2], addr_a(), 0).unwrap().is_none());
    let received = core_b.receive(&parts[1], addr_a(), 0).unwrap().unwrap();
    assert_eq!(received.payload(), payload.as_slice());
}

#[test]
fn late_fragment_for_unseen_sequence_is_rejected() {
    // A sequence not under reassembly accepts only its first fragment: a
    // later fragment arriving before fragment 0 is discarded as invalid.
    let payload: Vec<u8> = vec![7; 4000];
    let mut core_a = ProtocolCore::new(NetworkConfig::default());
    let mut core_b = ProtocolCore::new(NetworkConfig::default());
    let parts = datagrams_for(&mut core_a, payload, 0);
    let err = core_b.receive(&parts[2], addr_a(), 0).unwrap_err();
    assert_eq!(err, NetworkError::FragmentInvalid);
}

#[test]
fn duplicate_fragment_is_rejected_without_corruption() {
    // Sending a fragment twice yields FragmentInvalid and leaves the
    // in-progress buffer intact: reassembly still completes correctly.
    let payload: Vec<u8> = (0..4000u32).map(|i| (i % 7) as u8).collect();
    let mut core_a = ProtocolCore::new(NetworkConfig::default());
    let mut core_b = ProtocolCore::new(NetworkConfig::default());
    let parts = datagrams_for(&mut core_a, payload.clone(), 0);
    assert!(core_b.receive(&parts[0], addr_a(), 0).unwrap().is_none());
    assert!(core_b.receive(&parts[1], addr_a(), 0).unwrap().is_none());
    // Fragment id 0 again for the same sequence: a duplicate.
    let err = core_b.receive(&parts[0], addr_a(), 0).unwrap_err();
    assert_eq!(err, NetworkError::FragmentInvalid);
    // Fragment id 1 again: also a duplicate.
    let err = core_b.receive(&parts[1], addr_a(), 0).unwrap_err();
    assert_eq!(err, NetworkError::FragmentInvalid);
    assert!(core_b.receive(&parts[2], addr_a(), 0).unwrap().is_none());
    let received = core_b.receive(&parts[3], addr_a(), 0).unwrap().unwrap();
    assert_eq!(received.payload(), payload.as_slice());
}

#[test]
fn fragment_for_completed_sequence_is_rejected() {
    // Resending a fragment for an already-fully-received sequence finds no
    // entry (completion removed it) and a non-first fragment is invalid.
    let payload: Vec<u8> = vec![3; 2500];
    let mut core_a = ProtocolCore::new(NetworkConfig::default());
    let mut core_b = ProtocolCore::new(NetworkConfig::default());
    let parts = datagrams_for(&mut core_a, payload, 0);
    assert_eq!(parts.len(), 3);
    assert!(core_b.receive(&parts[0], addr_a(), 0).unwrap().is_none());
    assert!(core_b.receive(&parts[1], addr_a(), 0).unwrap().is_none());
    assert!(core_b.receive(&parts[2], addr_a(), 0).unwrap().is_some());
    let err = core_b.receive(&parts[2], addr_a(), 0).unwrap_err();
    assert_eq!(err, NetworkError::FragmentInvalid);
}

#[test]
fn empty_read_yields_nothing() {
    let mut core = ProtocolCore::new(NetworkConfig::default());
    let outcome = core.receive(&[], addr_a(), 0).unwrap();
    assert!(outcome.is_none());
}

#[test]
fn truncated_normal_datagram_fails_parsing() {
    let mut core = ProtocolCore::new(NetworkConfig::default());
    let err = core.receive(&[0u8, 1, 2], addr_a(), 0).unwrap_err();
    assert_eq!(err, NetworkError::HeaderParsingFailed);
}

#[test]
fn receive_acknowledges_round_trip() {
    // A sends to B, B sends back; A's reply to B carries an ack_seq naming
    // B's packet, so B can classify its send as acknowledged.
    let mut core_a = ProtocolCore::new(NetworkConfig::default());
    let mut core_b = ProtocolCore::new(NetworkConfig::default());

    // A -> B.
    let parts = datagrams_for(&mut core_a, vec![1], 0);
    assert!(core_b.receive(&parts[0], addr_a(), 0).unwrap().is_some());

    // B -> A: B's datagram acknowledges A's sequence 0.
    let config = core_b.config;
    let (_, data) = core_b
        .state
        .pre_process_packet(Packet::new(addr_a(), vec![2]), &config, 0)
        .unwrap();
    let reply = data.parts();
    // Bytes 3..5 of a normal datagram hold ack_seq, big-endian.
    assert_eq!(reply[0][0] & 1, 0);
    assert_eq!(((reply[0][3] as u16) << 8) | reply[0][4] as u16, 0);
}
