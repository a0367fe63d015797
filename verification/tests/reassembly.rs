use quic::frames::stream_frame::StreamFrame;
use quic::stream::PollResult;
use quic::stream::QuicStream;
use quic::stream::StreamState;

fn data_frame(stream_id: u32, offset: u64, data: Vec<u8>) -> StreamFrame {
    StreamFrame {
        fin: false,
        data_length_present: true,
        data_length: Some(data.len() as u16),
        stream_id,
        offset,
        stream_data: data,
    }
}

#[test]
fn test_receive_frame() {
    let frame_1 = StreamFrame {
        fin: false,
        data_length_present: true,
        data_length: Some(15),
        stream_id: 1,
        offset: 0,
        stream_data: vec![1u8; 15],
    };

    let frame_2 = StreamFrame {
        fin: false,
        data_length_present: true,
        data_length: Some(25),
        stream_id: 1,
        offset: 15,
        stream_data: vec![2u8; 25],
    };

    let frame_3 = StreamFrame {
        fin: false,
        data_length_present: true,
        data_length: Some(45),
        stream_id: 1,
        offset: 40,
        stream_data: vec![3u8; 45],
    };

    let frame_4 = StreamFrame {
        fin: false,
        data_length_present: true,
        data_length: Some(20),
        stream_id: 1,
        offset: 85,
        stream_data: vec![4u8; 20],
    };

    let frame_5 = StreamFrame {
        fin: false,
        data_length_present: true,
        data_length: Some(10),
        stream_id: 1,
        offset: 105,
        stream_data: vec![5u8; 10],
    };

    let frame_6 = StreamFrame {
        fin: false,
        data_length_present: true,
        data_length: Some(15),
        stream_id: 1,
        offset: 115,
        stream_data: vec![6u8; 15],
    };

    let frame_7 = StreamFrame {
        fin: false,
        data_length_present: true,
        data_length: Some(12),
        stream_id: 1,
        offset: 130,
        stream_data: vec![7u8; 12],
    };

    let mut stream = QuicStream::new(1, 250000).unwrap();

    let r_1 = stream.on_receive_frame(&frame_1);

    assert_eq!(frame_1.stream_data, r_1.unwrap());

    let r_3 = stream.on_receive_frame(&frame_3);

    assert_eq!(r_3, None);

    let r_2 = stream.on_receive_frame(&frame_2);

    assert_eq!(
        r_2.unwrap(),
        [frame_2.stream_data.clone(), frame_3.stream_data.clone()].concat()
    );

    let r_4 = stream.on_receive_frame(&frame_4);

    assert_eq!(r_4.unwrap(), frame_4.stream_data);

    let r_5 = stream.on_receive_frame(&frame_5);

    assert_eq!(r_5.unwrap(), frame_5.stream_data);

    let r_7 = stream.on_receive_frame(&frame_7);

    assert_eq!(r_7, None);

    let r_6 = stream.on_receive_frame(&frame_6);

    assert_eq!(
        r_6.unwrap(),
        [frame_6.stream_data.clone(), frame_7.stream_data.clone()].concat()
    );

    println!("stream = {:?}", stream);
}

#[test]
fn reassembly_scenario() {
    // Frames at (0, 15 bytes), (40, 45 bytes), (15, 25 bytes), (85, 20
    // bytes), delivered in that order.
    let mut stream = QuicStream::new(9, 1_000_000).unwrap();
    let f1 = data_frame(9, 0, vec![1u8; 15]);
    let f2 = data_frame(9, 40, vec![3u8; 45]);
    let f3 = data_frame(9, 15, vec![2u8; 25]);
    let f4 = data_frame(9, 85, vec![4u8; 20]);

    assert_eq!(stream.on_receive_frame(&f1), Some(vec![1u8; 15]));
    assert_eq!(stream.on_receive_frame(&f2), None);
    assert_eq!(
        stream.on_receive_frame(&f3),
        Some([vec![2u8; 25], vec![3u8; 45]].concat())
    );
    assert_eq!(stream.on_receive_frame(&f4), Some(vec![4u8; 20]));
    assert_eq!(stream.next_offset, 105);
}

#[test]
fn gap_blocks_delivery() {
    // A frame strictly past the cursor yields None and changes neither the
    // cursor nor the delivered buffer until the gap is filled.
    let mut stream = QuicStream::new(2, 1000).unwrap();
    let late = data_frame(2, 10, vec![7u8; 5]);
    assert_eq!(stream.on_receive_frame(&late), None);
    assert_eq!(stream.next_offset, 0);
    assert!(matches!(stream.poll(), PollResult::NotReady));

    let first = data_frame(2, 0, vec![6u8; 10]);
    assert_eq!(
        stream.on_receive_frame(&first),
        Some([vec![6u8; 10], vec![7u8; 5]].concat())
    );
    assert_eq!(stream.next_offset, 15);
}

#[test]
fn duplicate_offset_last_write_wins() {
    // Two buffered frames at the same offset: the later replaces the
    // earlier, so at most one contributes to the delivered sequence.
    let mut stream = QuicStream::new(3, 1000).unwrap();
    let first_version = data_frame(3, 5, vec![0xaau8; 4]);
    let second_version = data_frame(3, 5, vec![0xbbu8; 4]);
    assert_eq!(stream.on_receive_frame(&first_version), None);
    assert_eq!(stream.on_receive_frame(&second_version), None);

    let opener = data_frame(3, 0, vec![0x11u8; 5]);
    assert_eq!(
        stream.on_receive_frame(&opener),
        Some([vec![0x11u8; 5], vec![0xbbu8; 4]].concat())
    );
}

#[test]
fn order_independence_on_permutations() {
    // Any permutation of a set of contiguous frames yields the same
    // delivered bytes and the same final cursor.
    let chunks: Vec<(u64, Vec<u8>)> = vec![
        (0, vec![1u8; 3]),
        (3, vec![2u8; 5]),
        (8, vec![3u8; 2]),
        (10, vec![4u8; 4]),
    ];
    let orders: Vec<Vec<usize>> = vec![
        vec![0, 1, 2, 3],
        vec![3, 2, 1, 0],
        vec![2, 0, 3, 1],
        vec![1, 3, 0, 2],
    ];
    let expected: Vec<u8> = [
        vec![1u8; 3],
        vec![2u8; 5],
        vec![3u8; 2],
        vec![4u8; 4],
    ]
    .concat();
    for order in &orders {
        let mut stream = QuicStream::new(4, 1000).unwrap();
        let mut delivered: Vec<u8> = Vec::new();
        for &i in order {
            let frame = data_frame(4, chunks[i].0, chunks[i].1.clone());
            if let Some(bytes) = stream.on_receive_frame(&frame) {
                delivered.extend(bytes);
            }
        }
        assert_eq!(delivered, expected);
        assert_eq!(stream.next_offset, 14);
    }
}

#[test]
fn fin_on_delivered_run_half_closes() {
    // The stream half-closes on the remote side exactly when a delivered
    // run's final frame carries the fin flag.
    let mut stream = QuicStream::new(5, 1000).unwrap();
    let mut fin_frame = data_frame(5, 3, vec![9u8; 2]);
    fin_frame.fin = true;
    assert_eq!(stream.on_receive_frame(&fin_frame), None);
    assert_eq!(stream.state, StreamState::Idle);

    let opener = data_frame(5, 0, vec![8u8; 3]);
    assert!(stream.on_receive_frame(&opener).is_some());
    assert_eq!(stream.state, StreamState::HalfClosedRemote);
}

#[test]
fn poll_hands_over_and_clears() {
    let mut stream = QuicStream::new(6, 1000).unwrap();
    assert!(matches!(stream.poll(), PollResult::NotReady));
    let frame = data_frame(6, 0, vec![42u8; 8]);
    stream.on_receive_frame(&frame);
    match stream.poll() {
        PollResult::Ready(bytes) => assert_eq!(bytes, vec![42u8; 8]),
        PollResult::NotReady => panic!("bytes were delivered"),
    }
    assert!(matches!(stream.poll(), PollResult::NotReady));
}

#[test]
fn start_send_wraps_and_advances() {
    let mut stream = QuicStream::new(7, 1000).unwrap();
    stream.start_send(vec![1, 2, 3]);
    stream.start_send(vec![4, 5]);
    assert_eq!(stream.send_offset, 5);
    assert_eq!(stream.frames_to_send.len(), 2);
    assert_eq!(stream.frames_to_send[0].offset, 0);
    assert_eq!(stream.frames_to_send[0].stream_data, vec![1, 2, 3]);
    assert_eq!(stream.frames_to_send[0].data_length, Some(3));
    assert_eq!(stream.frames_to_send[1].offset, 3);
    assert_eq!(stream.frames_to_send[1].stream_data, vec![4, 5]);
    assert!(!stream.frames_to_send[1].fin);
    assert_eq!(stream.frames_to_send[1].stream_id, 7);
}

#[test]
fn overlapping_stale_frame_is_never_trimmed() {
    // A frame that starts before the cursor but extends past it is never
    // partially consumed: its offset is stale, so it is simply dropped at
    // the next delivery.
    let mut stream = QuicStream::new(8, 1000).unwrap();
    let opener = data_frame(8, 0, vec![1u8; 10]);
    assert!(stream.on_receive_frame(&opener).is_some());
    assert_eq!(stream.next_offset, 10);

    // Starts at 5 (already delivered) and extends to 20.
    let overlapping = data_frame(8, 5, vec![2u8; 15]);
    assert_eq!(stream.on_receive_frame(&overlapping), None);
    assert_eq!(stream.next_offset, 10);

    // The true continuation at 10 delivers alone.
    let continuation = data_frame(8, 10, vec![3u8; 5]);
    assert_eq!(stream.on_receive_frame(&continuation), Some(vec![3u8; 5]));
    assert_eq!(stream.next_offset, 15);
}
