use seqnet::ack::ExternalAcks;
use seqnet::packet::RawPacket;
use seqnet::{Address, Connection, NetworkConfig, Packet, PacketData};

fn addr() -> Address {
    Address::new(0x0A000001, 7000)
}

#[test]
fn packet_carries_addr_and_payload() {
    let packet = Packet::new(addr(), vec![9, 8, 7]);
    assert_eq!(packet.addr(), addr());
    assert_eq!(packet.payload(), &[9, 8, 7]);
    let copy = packet.clone();
    assert_eq!(copy.addr(), addr());
    assert_eq!(copy.payload(), &[9, 8, 7]);
}

#[test]
fn raw_packet_stamps_connection_ack_state() {
    let mut connection = Connection::new(addr(), 0);
    connection.their_acks.ack(41);
    connection.their_acks.ack(40);
    let packet = Packet::new(addr(), vec![1, 2]);
    let raw = RawPacket::new(5, &packet, &connection);
    assert_eq!(raw.seq, 5);
    assert_eq!(raw.ack_seq, 41);
    assert_eq!(raw.ack_field, 1);
    assert_eq!(raw.payload, vec![1, 2]);
}

#[test]
fn packet_data_collects_datagrams_in_order() {
    let mut data = PacketData::new();
    assert_eq!(data.fragment_count(), 0);
    data.add_fragment(vec![1, 2], vec![3]);
    data.add_fragment(vec![4], vec![5, 6]);
    assert_eq!(data.fragment_count(), 2);
    let parts = data.parts();
    assert_eq!(parts, vec![vec![1, 2, 3], vec![4, 5, 6]]);
}

#[test]
fn default_config_matches_stock_limits() {
    let config = NetworkConfig::default();
    assert_eq!(config.max_packet_size, 16384);
    assert_eq!(config.max_fragments, 16);
    assert_eq!(config.fragment_size, 1024);
    assert_eq!(config.fragment_reassembly_buffer_size, 64);
    assert_eq!(config.receive_buffer_max_size, 1500);
}

#[test]
fn ack_window_covers_exactly_32() {
    // 32 back is the oldest bit of the window; 33 back is lost information.
    let mut acks = ExternalAcks::new();
    acks.ack(100);
    acks.ack(68);
    assert_eq!(acks.field, 1 << 31);
    let mut acks = ExternalAcks::new();
    acks.ack(100);
    acks.ack(67);
    assert_eq!(acks.field, 0);
}

#[test]
fn fresh_connection_reports_nothing() {
    let connection = Connection::new(addr(), 3);
    assert_eq!(connection.seq_num, 0);
    assert_eq!(connection.last_heard, 3);
    assert!(!connection.their_acks.initialized);
    assert!(connection.waiting_packets.is_empty());
    assert!(connection.dropped_packets.is_empty());
}
