use quic::frames::ack_frame::AckBlock;
use quic::frames::ack_frame::AckFrame;
use quic::frames::ack_frame::AckTimestamp;
use quic::frames::blocked_frame::BlockedFrame;
use quic::frames::connection_close_frame::ConnectionCloseFrame;
use quic::frames::goaway_frame::GoAwayFrame;
use quic::frames::max_data_frame::MaxDataFrame;
use quic::frames::max_stream_data_frame::MaxStreamDataFrame;
use quic::frames::max_stream_id_frame::MaxStreamIdFrame;
use quic::frames::new_connection_id_frame::NewConnectionIdFrame;
use quic::frames::padding_frame::PaddingFrame;
use quic::frames::ping_frame::PingFrame;
use quic::frames::reset_stream_frame::ResetStreamFrame;
use quic::frames::stream_blocked_frame::StreamBlockedFrame;
use quic::frames::stream_frame::StreamFrame;
use quic::frames::stream_id_needed_frame::StreamIdNeededFrame;

#[test]
fn ack_frame_serialize() {
    let timestamps = vec![
        AckTimestamp {
            delta_la: 31,
            time_since_prev: 26,
        },
        AckTimestamp {
            delta_la: 42,
            time_since_prev: 97,
        },
    ];

    let ack_blocks = vec![
        AckBlock {
            gap: 12,
            block_len: 14,
        },
        AckBlock {
            gap: 87,
            block_len: 645,
        },
        AckBlock {
            gap: 42,
            block_len: 325,
        },
        AckBlock {
            gap: 236,
            block_len: 734,
        },
    ];

    let ack_frame = AckFrame {
        num_blocks: Some(4),
        num_ts: 2,
        largest_ack: 497,
        ack_delay: 9,
        first_ack_len: ack_blocks.len() as u64,
        ack_blocks: Some(ack_blocks),
        delta_la: Some(17),
        first_ts: Some(91),
        timestamps: Some(timestamps),
    };

    let ack_frame_bytes = ack_frame.as_bytes();

    let parsed_ack_frame = AckFrame::from_bytes(&ack_frame_bytes).unwrap();

    assert_eq!(ack_frame, parsed_ack_frame);
}

#[test]
fn blocked_frame_serialize() {
    let frame = BlockedFrame {};

    let frame_bytes = frame.as_bytes();
    let parsed_frame = BlockedFrame::from_bytes(&frame_bytes).unwrap();

    assert_eq!(frame, parsed_frame);
}

#[test]
fn connection_close_frame_serialize() {
    let reason_string = "Bad connection!";

    let frame = ConnectionCloseFrame {
        error_code: 5423,
        reason_length: reason_string.len() as u16,
        reason_phrase: Some(reason_string.to_string()),
    };

    let frame_bytes = frame.as_bytes();
    let parsed_frame = ConnectionCloseFrame::from_bytes(&frame_bytes).unwrap();

    assert_eq!(frame, parsed_frame);
}

#[test]
fn goaway_frame_serialize() {
    let frame = GoAwayFrame {
        largest_client_stream_id: 634632634,
        largest_server_stream_id: 235962,
    };

    let frame_bytes = frame.as_bytes();
    let parsed_frame = GoAwayFrame::from_bytes(&frame_bytes).unwrap();

    assert_eq!(frame, parsed_frame);
}

#[test]
fn max_data_frame_serialize() {
    let frame = MaxDataFrame { max_data: 293521 };

    let frame_bytes = frame.as_bytes();
    let parsed_frame = MaxDataFrame::from_bytes(&frame_bytes).unwrap();

    assert_eq!(frame, parsed_frame);
}

#[test]
fn serialize_max_stream_data_frame() {
    let frame = MaxStreamDataFrame {
        stream_id: 23523,
        max_stream_data: 293521,
    };

    let frame_bytes = frame.as_bytes();
    let parsed_frame = MaxStreamDataFrame::from_bytes(&frame_bytes).unwrap();

    assert_eq!(frame, parsed_frame);
}

#[test]
fn max_stream_id_frame_serialize_max_stream_id_frame() {
    let frame = MaxStreamIdFrame {
        max_stream_id: 293521,
    };

    let frame_bytes = frame.as_bytes();
    let parsed_frame = MaxStreamIdFrame::from_bytes(&frame_bytes).unwrap();

    assert_eq!(frame, parsed_frame);
}

#[test]
fn new_connection_id_frame_serialize() {
    let frame = NewConnectionIdFrame {
        sequence: 23235,
        connection_id: 544455,
        packet_number_gap: 5432,
    };

    let frame_bytes = frame.as_bytes();
    let parsed_frame = NewConnectionIdFrame::from_bytes(&frame_bytes).unwrap();

    assert_eq!(frame, parsed_frame);
}

#[test]
fn padding_frame_serialize() {
    let frame = PaddingFrame {};

    let frame_bytes = frame.as_bytes();
    let parsed_frame = PaddingFrame::from_bytes(&frame_bytes).unwrap();

    assert_eq!(frame, parsed_frame);
}

#[test]
fn ping_frame_serialize() {
    let frame = PingFrame {};

    let frame_bytes = frame.as_bytes();
    let parsed_frame = PingFrame::from_bytes(&frame_bytes).unwrap();

    assert_eq!(frame, parsed_frame);
}

#[test]
fn reset_stream_frame_serialize() {
    let frame = ResetStreamFrame {
        error_code: 4235,
        stream_id: 25232235,
        final_offset: 7563422532,
    };

    let frame_bytes = frame.as_bytes();
    let parsed_frame = ResetStreamFrame::from_bytes(&frame_bytes).unwrap();

    assert_eq!(frame, parsed_frame);
}

#[test]
fn stream_blocked_frame_serialize_max_stream_id_frame() {
    let frame = StreamBlockedFrame { stream_id: 293521 };

    let frame_bytes = frame.as_bytes();
    let parsed_frame = StreamBlockedFrame::from_bytes(&frame_bytes).unwrap();

    assert_eq!(frame, parsed_frame);
}

#[test]
fn serialize_stream_frame_1() {
    let frame = StreamFrame {
        fin: false,
        data_length_present: true,
        data_length: Some(50),
        stream_id: 259,
        offset: 340,
        stream_data: vec![10u8; 50],
    };

    let bytes = frame.as_bytes();
    let parsed_frame = StreamFrame::from_bytes(&bytes).unwrap();

    assert_eq!(parsed_frame, frame);
}

#[test]
fn serialize_stream_frame_2() {
    let frame = StreamFrame {
        fin: false,
        data_length_present: true,
        data_length: Some(1100),
        stream_id: 12590,
        offset: 780123,
        stream_data: vec![10u8; 1100],
    };

    let bytes = frame.as_bytes();
    let parsed_frame = StreamFrame::from_bytes(&bytes).unwrap();

    assert_eq!(parsed_frame, frame);
}

#[test]
fn stream_id_needed_frame_serialize() {
    let frame = StreamIdNeededFrame {};

    let frame_bytes = frame.as_bytes();
    let parsed_frame = StreamIdNeededFrame::from_bytes(&frame_bytes).unwrap();

    assert_eq!(frame, parsed_frame);
}
