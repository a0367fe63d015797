use quic::error::QuicError;
use quic::header::LongHeader;
use quic::header::ShortHeader;
use quic::packet::PacketType;
use quic::packet::ShortPacketType;

#[test]
fn serialize_long_header() {
    let long_header = LongHeader {
        packet_type: PacketType::VersionNegotiation,
        connection_id: 2522352u64,
        packet_number: 25u32,
        version: 0x1,
    };

    let long_header_bytes = long_header.as_bytes();
    let long_header_parsed = LongHeader::from_bytes(&long_header_bytes).unwrap();

    assert_eq!(long_header, long_header_parsed);
}

#[test]
fn serialize_short_header() {
    let header = ShortHeader {
        key_phase_bit: true,
        conn_id_bit: true,
        connection_id: Some(23u64),
        packet_number: 245u64,
        packet_type: ShortPacketType::TwoBytes,
    };

    let header_bytes = header.as_bytes();
    let header_parsed = ShortHeader::from_bytes(&header_bytes).unwrap();

    assert_eq!(header, header_parsed);
}

#[test]
fn long_header_zero_version_rejected() {
    // A long header whose version field is zero must fail to decode with a
    // parse error, whatever the other fields hold.
    let header = LongHeader {
        packet_type: PacketType::ClientCleartext,
        connection_id: 77,
        packet_number: 12,
        version: 0,
    };
    let bytes = header.as_bytes();
    assert_eq!(bytes.len(), 17);
    assert!(matches!(
        LongHeader::from_bytes(&bytes),
        Err(QuicError::ParseError)
    ));

    let other = LongHeader {
        packet_type: PacketType::VersionNegotiation,
        connection_id: 0,
        packet_number: 0,
        version: 0,
    };
    assert!(matches!(
        LongHeader::from_bytes(&other.as_bytes()),
        Err(QuicError::ParseError)
    ));
}

#[test]
fn long_header_unknown_type_rejected() {
    // Low seven tag bits outside the packet-type enumeration are an error.
    let mut bytes = LongHeader {
        packet_type: PacketType::PublicReset,
        connection_id: 1,
        packet_number: 2,
        version: 3,
    }
    .as_bytes();
    bytes[0] = 0x80 | 0x15;
    assert!(matches!(
        LongHeader::from_bytes(&bytes),
        Err(QuicError::ParseError)
    ));
}

#[test]
fn short_header_without_connection_id() {
    let header = ShortHeader {
        key_phase_bit: false,
        conn_id_bit: false,
        connection_id: None,
        packet_number: 0xfefe_fefe,
        packet_type: ShortPacketType::FourBytes,
    };
    let bytes = header.as_bytes();
    assert_eq!(bytes.len(), 5);
    assert_eq!(ShortHeader::from_bytes(&bytes).unwrap(), header);
}

#[test]
fn short_header_bad_type_bits_rejected() {
    // Packet-number width selector 0 (and anything above 3) is unassigned.
    let bytes = vec![0x40u8, 1, 2, 3, 4, 5, 6, 7, 8, 9];
    assert!(matches!(
        ShortHeader::from_bytes(&bytes),
        Err(QuicError::ParseError)
    ));
}

#[test]
fn short_header_truncated_rejected() {
    // Connection-id flag set but too few bytes for the id and number.
    let bytes = vec![0x41u8, 1, 2, 3];
    assert!(matches!(
        ShortHeader::from_bytes(&bytes),
        Err(QuicError::ParseError)
    ));
}
