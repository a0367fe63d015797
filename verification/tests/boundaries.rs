use quic::frames::ack_frame::AckBlock;
use quic::frames::ack_frame::AckFrame;
use quic::frames::blocked_frame::BlockedFrame;
use quic::frames::goaway_frame::GoAwayFrame;
use quic::frames::max_data_frame::MaxDataFrame;
use quic::frames::max_stream_data_frame::MaxStreamDataFrame;
use quic::frames::max_stream_id_frame::MaxStreamIdFrame;
use quic::frames::new_connection_id_frame::NewConnectionIdFrame;
use quic::frames::padding_frame::PaddingFrame;
use quic::frames::ping_frame::PingFrame;
use quic::frames::reset_stream_frame::ResetStreamFrame;
use quic::frames::stream_blocked_frame::StreamBlockedFrame;
use quic::frames::stream_frame::StreamFrame;
use quic::frames::stream_id_needed_frame::StreamIdNeededFrame;
use quic::util::OFSize;
use quic::util::optimal_field_size;

fn stream_roundtrip(stream_id: u32, offset: u64) {
    let frame = StreamFrame {
        fin: true,
        data_length_present: true,
        data_length: Some(4),
        stream_id,
        offset,
        stream_data: vec![0xab; 4],
    };
    let bytes = frame.as_bytes();
    let parsed = StreamFrame::from_bytes(&bytes).unwrap();
    assert_eq!(parsed, frame);
}

#[test]
fn stream_frame_width_boundaries() {
    // Stream ids and offsets on both sides of each width threshold.
    for stream_id in [0u32, 0xff, 0x100, 0xffff, 0x1_0000, 0xffff_ffff] {
        for offset in [
            0u64,
            1,
            0xffff,
            0x1_0000,
            0xffff_ffff,
            0x1_0000_0000,
            u64::MAX - 4,
        ] {
            stream_roundtrip(stream_id, offset);
        }
    }
}

fn ack_roundtrip(largest_ack: u64, first_ack_len: u64, block_len: u64) {
    let frame = AckFrame {
        num_blocks: Some(1),
        num_ts: 0,
        largest_ack,
        ack_delay: 3,
        first_ack_len,
        ack_blocks: Some(vec![AckBlock { gap: 2, block_len }]),
        delta_la: None,
        first_ts: None,
        timestamps: None,
    };
    let bytes = frame.as_bytes();
    let parsed = AckFrame::from_bytes(&bytes).unwrap();
    assert_eq!(parsed, frame);
    assert_eq!(AckFrame::frame_len(&bytes).unwrap(), bytes.len());
}

#[test]
fn ack_frame_width_boundaries() {
    // Largest-ack and block-length values on both sides of the 8- and
    // 16-bit thresholds and at the top of the representable 4-byte range
    // (the 6-byte width has no reachable selector state).
    for largest_ack in [0u64, 0xfe, 0xff, 0xfffe, 0xffff, 0xffff_fffe] {
        for block_len in [0u64, 0xfe, 0xff, 0xfffe, 0xffff, 0xffff_fffe] {
            ack_roundtrip(largest_ack, 1, block_len);
        }
    }
    // The block-length selector must also cover the first ack-block length.
    ack_roundtrip(1, 0xffff_fffe, 1);
}

#[test]
fn ack_frame_without_blocks() {
    let frame = AckFrame {
        num_blocks: None,
        num_ts: 0,
        largest_ack: 7,
        ack_delay: 0,
        first_ack_len: 70000,
        ack_blocks: None,
        delta_la: None,
        first_ts: None,
        timestamps: None,
    };
    let bytes = frame.as_bytes();
    let parsed = AckFrame::from_bytes(&bytes).unwrap();
    assert_eq!(parsed, frame);
    assert_eq!(AckFrame::frame_len(&bytes).unwrap(), bytes.len());
}

#[test]
fn optimal_field_size_thresholds() {
    assert!(matches!(optimal_field_size(0), OFSize::U8));
    assert!(matches!(optimal_field_size(0xfe), OFSize::U8));
    assert!(matches!(optimal_field_size(0xff), OFSize::U16));
    assert!(matches!(optimal_field_size(0xfffe), OFSize::U16));
    assert!(matches!(optimal_field_size(0xffff), OFSize::U32));
    assert!(matches!(optimal_field_size(0xffff_fffe), OFSize::U32));
    assert!(matches!(optimal_field_size(0xffff_ffff), OFSize::U48));
    assert!(matches!(
        optimal_field_size(0xffff_ffff_fffe),
        OFSize::U48
    ));
    assert!(matches!(
        optimal_field_size(0xffff_ffff_ffff),
        OFSize::U64
    ));
    assert!(matches!(optimal_field_size(u64::MAX), OFSize::U64));
}

#[test]
fn fixed_frame_length_probes() {
    assert_eq!(PaddingFrame {}.as_bytes().len(), PaddingFrame::frame_len().unwrap());
    assert_eq!(PingFrame {}.as_bytes().len(), PingFrame::frame_len().unwrap());
    assert_eq!(BlockedFrame {}.as_bytes().len(), BlockedFrame::frame_len().unwrap());
    assert_eq!(
        StreamIdNeededFrame {}.as_bytes().len(),
        StreamIdNeededFrame::frame_len().unwrap()
    );
    assert_eq!(
        MaxDataFrame { max_data: 1 }.as_bytes().len(),
        MaxDataFrame::frame_len().unwrap()
    );
    assert_eq!(
        MaxStreamDataFrame { stream_id: 1, max_stream_data: 2 }.as_bytes().len(),
        MaxStreamDataFrame::frame_len().unwrap()
    );
    assert_eq!(
        MaxStreamIdFrame { max_stream_id: 1 }.as_bytes().len(),
        MaxStreamIdFrame::frame_len().unwrap()
    );
    assert_eq!(
        StreamBlockedFrame { stream_id: 1 }.as_bytes().len(),
        StreamBlockedFrame::frame_len().unwrap()
    );
    assert_eq!(
        GoAwayFrame { largest_client_stream_id: 1, largest_server_stream_id: 2 }
            .as_bytes()
            .len(),
        GoAwayFrame::frame_len().unwrap()
    );
    assert_eq!(
        NewConnectionIdFrame { sequence: 1, connection_id: 2, packet_number_gap: 3 }
            .as_bytes()
            .len(),
        NewConnectionIdFrame::frame_len().unwrap()
    );
    assert_eq!(
        ResetStreamFrame { error_code: 1, stream_id: 2, final_offset: 3 }.as_bytes().len(),
        ResetStreamFrame::frame_len().unwrap()
    );
}
