use seqnet::header::PacketHeader;
use seqnet::{Address, Connection, NetworkConfig, Packet, SocketState};

static TEST_HOST_IP: &str = "127.0.0.1";
static TEST_BAD_HOST_IP: &str = "800.0.0.1";
static TEST_PORT: &str = "20000";

#[test]
fn test_create_connection() {
    let addr = Address::parse(&format!("{}:{}", TEST_HOST_IP, TEST_PORT));
    assert!(addr.is_some());
    let _new_conn = Connection::new(addr.unwrap(), 0);
}

#[test]
fn test_invalid_addr_fails() {
    let addr = Address::parse(&format!("{}:{}", TEST_BAD_HOST_IP, TEST_PORT));
    assert!(addr.is_none());
}

fn addr_a() -> Address {
    Address::new(0x7F000001, 4001)
}

fn addr_b() -> Address {
    Address::new(0x7F000001, 4002)
}

/// The sequence number a stamped datagram carries, read back from the wire.
fn stamped_seq(part: &[u8]) -> u16 {
    assert_eq!(part[0] & 1, 0);
    ((part[1] as u16) << 8) | (part[2] as u16)
}

#[test]
fn send_sequence_counter_increments_and_wraps() {
    let mut state = SocketState::new();
    let config = NetworkConfig::default();
    for expected in 0u16..3u16 {
        let (_, data) = state
            .pre_process_packet(Packet::new(addr_a(), vec![1]), &config, 0)
            .unwrap();
        let parts = data.parts();
        assert_eq!(parts.len(), 1);
        assert_eq!(stamped_seq(&parts[0]), expected);
    }
}

#[test]
fn isolation_between_connections() {
    // Operations against connection A never mutate connection B's sequence
    // counter, ack state, or dropped-packet list.
    let mut state = SocketState::new();
    let config = NetworkConfig::default();

    // Advance B once so it has state of its own.
    let (_, data) = state
        .pre_process_packet(Packet::new(addr_b(), vec![9]), &config, 0)
        .unwrap();
    assert_eq!(stamped_seq(&data.parts()[0]), 0);

    // Hammer A: sends, receives, drains.
    for _ in 0..5 {
        state
            .pre_process_packet(Packet::new(addr_a(), vec![1]), &config, 0)
            .unwrap();
    }
    let header = PacketHeader::new(17, 4, 0b11);
    state.process_received(addr_a(), &header, 7).unwrap();
    state.dropped_packets(addr_a(), 7).unwrap();

    // B's counter continues where it left off, and B reports nothing
    // dropped.
    let dropped_b = state.dropped_packets(addr_b(), 8).unwrap();
    assert!(dropped_b.is_empty());
    let (_, data) = state
        .pre_process_packet(Packet::new(addr_b(), vec![9]), &config, 0)
        .unwrap();
    assert_eq!(stamped_seq(&data.parts()[0]), 1);
}

#[test]
fn process_received_replaces_dropped_list_and_drains_once() {
    let mut state = SocketState::new();
    let config = NetworkConfig::default();
    for _ in 0..2 {
        state
            .pre_process_packet(Packet::new(addr_a(), vec![5]), &config, 0)
            .unwrap();
    }
    // The peer acknowledges sequence 1 but not 0: 0 is inside the window
    // and unmarked, so it is classified dropped.
    let header = PacketHeader::new(0, 1, 0);
    state.process_received(addr_a(), &header, 3).unwrap();
    let dropped = state.dropped_packets(addr_a(), 3).unwrap();
    assert_eq!(dropped.len(), 1);
    assert_eq!(dropped[0].payload(), &[5]);
    // Draining empties the list.
    assert!(state.dropped_packets(addr_a(), 3).unwrap().is_empty());
}

#[test]
fn oversized_payload_is_rejected_before_any_state_change() {
    let mut state = SocketState::new();
    let config = NetworkConfig::default();
    // 17 fragments of 1024 would exceed the 16-fragment limit.
    let err = state
        .pre_process_packet(Packet::new(addr_a(), vec![0; 17 * 1024]), &config, 0)
        .unwrap_err();
    assert_eq!(err, seqnet::NetworkError::FragmentInvalid);
    // The failed send consumed no sequence number.
    let (_, data) = state
        .pre_process_packet(Packet::new(addr_a(), vec![1]), &config, 0)
        .unwrap();
    assert_eq!(stamped_seq(&data.parts()[0]), 0);
}

#[test]
fn check_for_timeouts_reports_silent_peers() {
    let mut state = SocketState::new().with_client_timeout(10);
    let header = PacketHeader::new(0, 0, 0);
    state.process_received(addr_a(), &header, 100).unwrap();
    state.process_received(addr_b(), &header, 105).unwrap();
    assert!(state.check_for_timeouts(104).is_empty());
    assert_eq!(state.check_for_timeouts(110), vec![addr_a()]);
    let both = state.check_for_timeouts(200);
    assert_eq!(both, vec![addr_a(), addr_b()]);
}
