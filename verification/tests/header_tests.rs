use seqnet::header::{FragmentHeader, PacketHeader};
use seqnet::{Address, NetworkError};

#[test]
fn packet_header_round_trip() {
    let header = PacketHeader::new(0x1234, 0xABCD, 0xDEADBEEF);
    let bytes = header.parse();
    assert_eq!(bytes, vec![0x12, 0x34, 0xAB, 0xCD, 0xDE, 0xAD, 0xBE, 0xEF]);
    assert_eq!(header.size(), 8);
    let back = PacketHeader::read(&bytes).unwrap();
    assert_eq!(back.seq, 0x1234);
    assert_eq!(back.ack_seq, 0xABCD);
    assert_eq!(back.ack_field, 0xDEADBEEF);
}

#[test]
fn packet_header_read_fails_on_truncated_input() {
    let bytes = [0u8; 7];
    assert_eq!(
        PacketHeader::read(&bytes).unwrap_err(),
        NetworkError::HeaderParsingFailed
    );
}

#[test]
fn fragment_header_first_fragment_embeds_packet_header() {
    let packet_header = PacketHeader::new(7, 3, 0b101);
    let fragment = FragmentHeader::new(0, 4, packet_header);
    assert_eq!(fragment.size(), 12);
    let bytes = fragment.parse();
    assert_eq!(bytes.len(), 12);
    let (back, consumed) = FragmentHeader::read(&bytes).unwrap();
    assert_eq!(consumed, 12);
    assert_eq!(back.sequence, 7);
    assert_eq!(back.id, 0);
    assert_eq!(back.num_fragments, 4);
    let embedded = back.packet_header.unwrap();
    assert_eq!(embedded.seq, 7);
    assert_eq!(embedded.ack_seq, 3);
    assert_eq!(embedded.ack_field, 0b101);
}

#[test]
fn fragment_header_later_fragment_is_bare() {
    let packet_header = PacketHeader::new(7, 3, 0);
    let fragment = FragmentHeader::new(2, 4, packet_header);
    assert_eq!(fragment.size(), 4);
    let bytes = fragment.parse();
    assert_eq!(bytes, vec![0, 7, 2, 4]);
    let (back, consumed) = FragmentHeader::read(&bytes).unwrap();
    assert_eq!(consumed, 4);
    assert_eq!(back.sequence, 7);
    assert_eq!(back.id, 2);
    assert_eq!(back.num_fragments, 4);
    assert!(back.packet_header.is_none());
}

#[test]
fn fragment_header_read_fails_on_truncated_input() {
    assert_eq!(
        FragmentHeader::read(&[0u8, 1]).unwrap_err(),
        NetworkError::HeaderParsingFailed
    );
    // A first fragment announces an embedded header; 4 bytes are not enough.
    assert_eq!(
        FragmentHeader::read(&[0u8, 7, 0, 4]).unwrap_err(),
        NetworkError::HeaderParsingFailed
    );
}

#[test]
fn address_parsing_accepts_dotted_quads() {
    let addr = Address::parse("127.0.0.1:20000").unwrap();
    assert_eq!(addr.ip, 0x7F000001);
    assert_eq!(addr.port, 20000);
    let addr = Address::parse("255.255.255.255:65535").unwrap();
    assert_eq!(addr.ip, 0xFFFFFFFF);
    assert_eq!(addr.port, 65535);
}

#[test]
fn address_parsing_rejects_malformed_input() {
    assert!(Address::parse("800.0.0.1:20000").is_none());
    assert!(Address::parse("1.2.3.4").is_none());
    assert!(Address::parse("1.2.3.4:70000").is_none());
    assert!(Address::parse("1.2.3:20").is_none());
    assert!(Address::parse("1.2.3.4:20 ").is_none());
    assert!(Address::parse("").is_none());
}

#[test]
fn error_messages_name_the_failure() {
    assert_eq!(NetworkError::AddConnectionToManagerFailed.message(), "Lock poisoned");
    assert_eq!(
        NetworkError::FragmentInvalid.message(),
        "The fragment of a packet is invalid"
    );
    assert_eq!(
        NetworkError::HeaderParsingFailed.message(),
        "The parsing of the header went wrong"
    );
    assert_eq!(NetworkError::SendFailed.message(), "Something went wrong when sending");
}
