use quic::error::QuicError;
use quic::frames::QuicFrame;
use quic::frames::connection_close_frame::ConnectionCloseFrame;
use quic::frames::max_stream_data_frame::MaxStreamDataFrame;
use quic::frames::stream_frame::StreamFrame;
use quic::header::LongHeader;
use quic::header::QuicHeader;
use quic::packet::PacketType;
use quic::packet::QuicPacket;
use quic::packet::QuicPayload;
use quic::packet::VersionNegotiationPayload;

#[test]
fn parse_decrypted_payload_1() {
    let reason = "Terrible connection!";
    let frames = vec![
        QuicFrame::ConnectionClose(ConnectionCloseFrame {
            error_code: 29,
            reason_length: reason.len() as u16,
            reason_phrase: Some(reason.to_string()),
        }),
        QuicFrame::MaxStreamData(MaxStreamDataFrame {
            stream_id: 20099 as u32,
            max_stream_data: 290 as u64,
        }),
    ];

    let mut bytes = Vec::new();

    for frame in &frames {
        let frame_bytes = frame.as_bytes();
        bytes.extend(frame_bytes);
    }

    let parsed_frames = QuicPacket::parse_decrypted_payload(&bytes).unwrap();

    assert_eq!(&frames, &parsed_frames);
}

#[test]
fn payload_length_probe_walks_exactly() {
    // Summing per-frame wire lengths over a multi-frame payload lands
    // exactly on the payload's end, with no leftover bytes.
    let frames = vec![
        QuicFrame::MaxStreamData(MaxStreamDataFrame {
            stream_id: 5,
            max_stream_data: 10,
        }),
        QuicFrame::Stream(StreamFrame {
            fin: true,
            data_length_present: true,
            data_length: Some(3),
            stream_id: 7,
            offset: 0x1_0000,
            stream_data: vec![9, 8, 7],
        }),
        QuicFrame::ConnectionClose(ConnectionCloseFrame {
            error_code: 1,
            reason_length: 2,
            reason_phrase: Some("no".to_string()),
        }),
    ];
    let mut bytes = Vec::new();
    for frame in &frames {
        bytes.extend(frame.as_bytes());
    }
    let mut pos = 0;
    let mut walked = Vec::new();
    while pos < bytes.len() {
        let len = QuicFrame::frame_length(&bytes[pos..]).unwrap();
        assert!(pos + len <= bytes.len());
        walked.push(QuicFrame::from_bytes(&bytes[pos..pos + len]).unwrap());
        pos += len;
    }
    assert_eq!(pos, bytes.len());
    assert_eq!(walked, frames);
}

#[test]
fn frame_length_matches_encoding() {
    // The length probe of an encoded frame equals the encoding's length.
    let frames = vec![
        QuicFrame::MaxData(quic::frames::max_data_frame::MaxDataFrame { max_data: 5 }),
        QuicFrame::ResetStream(quic::frames::reset_stream_frame::ResetStreamFrame {
            error_code: 1,
            stream_id: 2,
            final_offset: 3,
        }),
        QuicFrame::Padding(quic::frames::padding_frame::PaddingFrame {}),
        QuicFrame::Ping(quic::frames::ping_frame::PingFrame {}),
        QuicFrame::ConnectionClose(ConnectionCloseFrame {
            error_code: 7,
            reason_length: 5,
            reason_phrase: Some("oops!".to_string()),
        }),
    ];
    for frame in &frames {
        let bytes = frame.as_bytes();
        assert_eq!(QuicFrame::frame_length(&bytes).unwrap(), bytes.len());
    }
}

#[test]
fn unknown_tag_decodes_as_padding() {
    // A byte matching no known frame tag decodes as padding, one byte long.
    let bytes = vec![0x1fu8, 0xaa, 0xbb];
    assert!(matches!(
        QuicFrame::from_bytes(&bytes),
        Ok(QuicFrame::Padding(_))
    ));
    assert_eq!(QuicFrame::frame_length(&bytes).unwrap(), 1);
}

#[test]
fn ack_reserved_selector_rejected() {
    // Width selector state 2 is reserved: tag 0xa8 has largest-ack selector
    // 2, tag 0xa2 has block-length selector 2.
    let bytes = vec![0xa8u8, 0, 0, 0, 0, 0, 0, 0, 0, 0];
    assert!(matches!(
        QuicFrame::from_bytes(&bytes),
        Err(QuicError::ParseError)
    ));
    let bytes2 = vec![0xa2u8, 0, 0, 0, 0, 0, 0, 0, 0, 0];
    assert!(matches!(
        QuicFrame::frame_length(&bytes2),
        Err(QuicError::ParseError)
    ));
}

#[test]
fn connection_close_invalid_utf8_rejected() {
    // tag, error code (4 bytes), reason length 2, then invalid UTF-8.
    let bytes = vec![0x02u8, 0, 0, 0, 1, 0, 2, 0xff, 0xfe];
    assert!(matches!(
        ConnectionCloseFrame::from_bytes(&bytes),
        Err(QuicError::TextEncodingError)
    ));
}

#[test]
fn connection_close_truncated_reason_rejected() {
    // Declared reason length overruns the buffer.
    let bytes = vec![0x02u8, 0, 0, 0, 1, 0, 9, b'h', b'i'];
    assert!(matches!(
        ConnectionCloseFrame::from_bytes(&bytes),
        Err(QuicError::ParseError)
    ));
}

#[test]
fn connection_close_wire_shape() {
    // Tag + 4-byte code + 2-byte length + the reason's UTF-8 bytes.
    let reason = "Bad connection!";
    let frame = ConnectionCloseFrame {
        error_code: 5423,
        reason_length: reason.len() as u16,
        reason_phrase: Some(reason.to_string()),
    };
    let bytes = frame.as_bytes();
    assert_eq!(bytes.len(), 1 + 4 + 2 + reason.len());
    assert_eq!(bytes[0], 0x02);
    assert_eq!(&bytes[7..], reason.as_bytes());
}

#[test]
fn connection_close_multibyte_reason_roundtrip() {
    // A reason with multi-byte characters survives the UTF-8 round trip;
    // the length field counts bytes, not characters.
    let reason = "ocupado: se\u{f1}al d\u{e9}bil \u{2014} \u{65e5}\u{672c}";
    let frame = ConnectionCloseFrame {
        error_code: 7,
        reason_length: reason.len() as u16,
        reason_phrase: Some(reason.to_string()),
    };
    let bytes = frame.as_bytes();
    let parsed = ConnectionCloseFrame::from_bytes(&bytes).unwrap();
    assert_eq!(parsed, frame);
    assert_eq!(parsed.reason_phrase.as_deref(), Some(reason));
}

#[test]
fn packet_too_large_rejected() {
    // A packet whose header plus payload exceeds 1232 bytes is refused,
    // never truncated.
    let packet = QuicPacket {
        header: QuicHeader::Long(LongHeader {
            packet_type: PacketType::ClientCleartext,
            connection_id: 9,
            packet_number: 1,
            version: 1,
        }),
        payload: QuicPayload::Frames(vec![QuicFrame::Stream(StreamFrame {
            fin: false,
            data_length_present: true,
            data_length: Some(1300),
            stream_id: 1,
            offset: 0,
            stream_data: vec![0u8; 1300],
        })]),
    };
    assert!(matches!(
        packet.as_bytes(),
        Err(QuicError::PacketTooLarge)
    ));
}

#[test]
fn packet_roundtrip_cleartext() {
    let frames = vec![
        QuicFrame::MaxStreamData(MaxStreamDataFrame {
            stream_id: 3,
            max_stream_data: 4444,
        }),
        QuicFrame::Ping(quic::frames::ping_frame::PingFrame {}),
    ];
    let packet = QuicPacket {
        header: QuicHeader::Long(LongHeader {
            packet_type: PacketType::NonFinalCleartext,
            connection_id: 424242,
            packet_number: 77,
            version: 2,
        }),
        payload: QuicPayload::Frames(reparse_frames(&frames)),
    };
    let bytes = packet.as_bytes().unwrap();
    let parsed = QuicPacket::from_bytes(&bytes).unwrap();
    match parsed.header {
        QuicHeader::Long(h) => {
            assert_eq!(h.connection_id, 424242);
            assert_eq!(h.packet_number, 77);
            assert_eq!(h.version, 2);
            assert_eq!(h.packet_type, PacketType::NonFinalCleartext);
        }
        _ => panic!("expected a long header"),
    }
    match parsed.payload {
        QuicPayload::Frames(fs) => assert_eq!(fs, frames),
        _ => panic!("expected a frame payload"),
    }
}

fn reparse_frames(frames: &[QuicFrame]) -> Vec<QuicFrame> {
    let mut out = Vec::new();
    for f in frames {
        let bytes = f.as_bytes();
        out.push(QuicFrame::from_bytes(&bytes).unwrap());
    }
    out
}

#[test]
fn version_negotiation_payload_roundtrip() {
    let payload = VersionNegotiationPayload {
        versions: vec![1, 2, 0xdead_beef],
    };
    let bytes = payload.as_bytes();
    assert_eq!(bytes.len(), 12);
    let parsed = VersionNegotiationPayload::from_bytes(&bytes).unwrap();
    assert_eq!(parsed.versions, vec![1, 2, 0xdead_beef]);
}

#[test]
fn packet_public_reset_rejected() {
    // Long header with a payload whose framing is undefined decodes to a
    // parse error.
    let header = LongHeader {
        packet_type: PacketType::PublicReset,
        connection_id: 1,
        packet_number: 2,
        version: 3,
    };
    let bytes = header.as_bytes();
    assert!(matches!(
        QuicPacket::from_bytes(&bytes),
        Err(QuicError::ParseError)
    ));
}

#[test]
fn packet_empty_rejected() {
    assert!(matches!(
        QuicPacket::from_bytes(&Vec::new()),
        Err(QuicError::ParseError)
    ));
}
