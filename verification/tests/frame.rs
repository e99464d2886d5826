use pipewire_native::frame::{FrameError, FrameLimits, Header, HEADER_LEN, WIRE_MAX_PAYLOAD};
use pipewire_native::recv::{parse_control, FrameReceiver, ReceiveStep, ReceivedFrame};
use pipewire_native::send::{FrameSender, OutboundFrame};

fn wire(object_id: u32, opcode: u8, seq: u32, payload: &[u8], n_fds: u32) -> Vec<u8> {
    let header = Header { object_id, opcode, payload_len: payload.len() as u32, seq, n_fds };
    let mut bytes = header.encode().unwrap().to_vec();
    bytes.extend_from_slice(payload);
    bytes
}

fn next_frame<F>(receiver: &mut FrameReceiver<F>) -> Option<ReceivedFrame<F>> {
    match receiver.poll() {
        Ok(ReceiveStep::Frame(frame)) => Some(frame),
        Ok(_) => None,
        Err(error) => panic!("receive failed: {:?}", error),
    }
}

fn feed(receiver: &mut FrameReceiver<&'static str>, bytes: &[u8]) {
    receiver.on_received(bytes.to_vec(), vec![]).unwrap();
}

#[test]
fn header_known_vector_and_wire_max_round_trip() {
    let header = Header {
        object_id: 0x0102_0304,
        opcode: 0xa5,
        payload_len: 0x00b6_c7d8,
        seq: 0x1122_3344,
        n_fds: 0x5566_7788,
    };
    let expected_words = [0x0102_0304_u32, 0xa5b6_c7d8, 0x1122_3344, 0x5566_7788];
    let expected: Vec<u8> = expected_words.into_iter().flat_map(u32::to_le_bytes).collect();
    assert_eq!(header.encode().unwrap().as_slice(), expected.as_slice());
    assert_eq!(Header::decode(header.encode().unwrap()), header);

    let max = Header { payload_len: WIRE_MAX_PAYLOAD as u32, ..header };
    assert_eq!(Header::decode(max.encode().unwrap()), max);
    let too_large = Header { payload_len: WIRE_MAX_PAYLOAD as u32 + 1, ..header };
    assert!(matches!(too_large.encode(), Err(FrameError::PayloadTooLarge { .. })));
}

#[test]
fn every_byte_split_produces_the_same_frame() {
    let bytes = wire(7, 3, 99, b"segmented payload", 0);
    for split in 1..bytes.len() {
        let mut receiver: FrameReceiver<&'static str> = FrameReceiver::new(FrameLimits::default());
        feed(&mut receiver, &bytes[..split]);
        assert!(matches!(receiver.poll(), Ok(ReceiveStep::Receive { .. })));
        feed(&mut receiver, &bytes[split..]);
        let frame = next_frame(&mut receiver).unwrap();
        assert_eq!(frame.header().object_id, 7);
        assert_eq!(frame.header().opcode, 3);
        assert_eq!(frame.payload(), b"segmented payload");
    }
}

#[test]
fn one_byte_at_a_time_and_coalesced_frames_are_preserved() {
    let first = wire(1, 2, 3, b"first", 0);
    let second = wire(4, 5, 6, b"second", 0);
    let mut receiver: FrameReceiver<&'static str> = FrameReceiver::new(FrameLimits::default());
    let mut delivered = None;
    for byte in &first {
        feed(&mut receiver, &[*byte]);
        if let Some(frame) = next_frame(&mut receiver) {
            delivered = Some(frame);
        }
    }
    assert_eq!(delivered.unwrap().payload(), b"first");

    let mut receiver: FrameReceiver<&'static str> = FrameReceiver::new(FrameLimits::default());
    feed(&mut receiver, &[first, second].concat());
    let frame1 = next_frame(&mut receiver).unwrap();
    let frame2 = next_frame(&mut receiver).unwrap();
    assert_eq!(frame1.payload(), b"first");
    assert_eq!(frame2.payload(), b"second");
}

#[test]
fn eof_at_each_incomplete_position_is_truncated_and_poisoned() {
    let bytes = wire(1, 1, 1, b"payload", 0);
    for end in 1..bytes.len() {
        let mut receiver: FrameReceiver<&'static str> = FrameReceiver::new(FrameLimits::default());
        feed(&mut receiver, &bytes[..end]);
        let _ = receiver.poll();
        assert!(matches!(
            receiver.on_received(vec![], vec![]),
            Err(FrameError::TruncatedFrame { .. })
        ));
        assert!(matches!(receiver.poll(), Err(FrameError::Poisoned)));
        receiver.clear();
        assert!(matches!(receiver.poll(), Err(FrameError::Poisoned)));
    }
}

#[test]
fn complete_frame_is_delivered_before_clean_eof() {
    let mut receiver: FrameReceiver<&'static str> = FrameReceiver::new(FrameLimits::default());
    feed(&mut receiver, &wire(1, 2, 3, b"last", 0));
    assert_eq!(next_frame(&mut receiver).unwrap().payload(), b"last");
    receiver.on_received(vec![], vec![]).unwrap();
    assert!(matches!(receiver.poll(), Ok(ReceiveStep::Closed)));
}

#[test]
fn fd_batches_partition_by_frame_and_take_is_indexed() {
    let limits = FrameLimits::default();
    let mut sender: FrameSender<&'static str> = FrameSender::new(limits);
    sender
        .enqueue(OutboundFrame::new(1, 1, 1, b"a".to_vec(), vec!["write1"], limits).unwrap())
        .unwrap();
    sender
        .enqueue(OutboundFrame::new(2, 2, 2, b"b".to_vec(), vec!["write2"], limits).unwrap())
        .unwrap();

    let mut receiver: FrameReceiver<&'static str> = FrameReceiver::new(limits);
    while let Ok(Some((bytes, fds))) = sender.pending() {
        let bytes = bytes.to_vec();
        let fds: Vec<&'static str> = fds.map(|v| v.clone()).unwrap_or_default();
        let sent = bytes.len();
        receiver.on_received(bytes, fds).unwrap();
        sender.on_sent(sent).unwrap();
    }
    assert!(sender.is_empty());

    let first = next_frame(&mut receiver).unwrap();
    let second = next_frame(&mut receiver).unwrap();
    let (_, _, mut first_fds) = first.into_parts();
    let (_, _, mut second_fds) = second.into_parts();
    assert_eq!(first_fds.len(), 1);
    assert_eq!(second_fds.len(), 1);
    assert!(first_fds.get(0).is_ok());
    assert_eq!(first_fds.take(0).unwrap(), "write1");
    assert!(matches!(first_fds.take(0), Err(FrameError::FdAlreadyTaken { index: 0 })));
    assert!(matches!(second_fds.get(1), Err(FrameError::InvalidFdIndex { .. })));
    assert_eq!(second_fds.take(0).unwrap(), "write2");
}

#[test]
fn missing_fds_and_limits_are_terminal() {
    let mut receiver: FrameReceiver<&'static str> = FrameReceiver::new(FrameLimits::default());
    feed(&mut receiver, &wire(1, 1, 1, b"x", 1));
    assert!(matches!(
        receiver.poll(),
        Err(FrameError::MissingFds { declared: 1, available: 0 })
    ));

    let mut receiver: FrameReceiver<&'static str> =
        FrameReceiver::new(FrameLimits { max_payload: 2, ..FrameLimits::default() });
    feed(&mut receiver, &wire(1, 1, 1, b"too long", 0));
    assert!(matches!(receiver.poll(), Err(FrameError::PayloadTooLarge { .. })));
}

#[test]
fn queue_limits_reject_atomically_and_sender_remains_usable() {
    let limits =
        FrameLimits { max_queued_bytes: HEADER_LEN + 1, max_queued_fds: 0, ..FrameLimits::default() };
    let mut sender: FrameSender<&'static str> = FrameSender::new(limits);
    let oversized = OutboundFrame::new(1, 1, 1, b"ab".to_vec(), vec![], limits).unwrap();
    assert!(matches!(sender.enqueue(oversized), Err(FrameError::SendQueueFull { .. })));
    assert!(sender.is_empty());
    let accepted = OutboundFrame::new(1, 1, 1, b"a".to_vec(), vec![], limits).unwrap();
    sender.enqueue(accepted).unwrap();
}

#[test]
fn sender_enforces_its_frame_limits_when_construction_limits_differ() {
    let construction_limits =
        FrameLimits { max_payload: 16, max_frame_fds: 2, ..FrameLimits::default() };
    let sender_limits = FrameLimits { max_payload: 1, max_frame_fds: 1, ..FrameLimits::default() };
    let mut sender: FrameSender<&'static str> = FrameSender::new(sender_limits);

    let payload = OutboundFrame::new(1, 1, 1, b"ab".to_vec(), vec![], construction_limits).unwrap();
    assert!(matches!(
        sender.enqueue(payload),
        Err(FrameError::PayloadTooLarge { declared: 2, limit: 1 })
    ));
    assert!(sender.is_empty());

    let fds =
        OutboundFrame::new(1, 1, 1, vec![], vec!["write1", "write2"], construction_limits).unwrap();
    assert!(matches!(
        sender.enqueue(fds),
        Err(FrameError::TooManyFrameFds { declared: 2, limit: 1 })
    ));
    assert!(sender.is_empty());

    sender
        .enqueue(OutboundFrame::new(1, 1, 1, b"a".to_vec(), vec![], construction_limits).unwrap())
        .unwrap();
}

#[test]
fn partial_writes_resume_and_offer_descriptors_once() {
    let limits = FrameLimits::default();
    let mut sender: FrameSender<&'static str> = FrameSender::new(limits);
    sender
        .enqueue(OutboundFrame::new(3, 4, 5, b"payload".to_vec(), vec!["fd"], limits).unwrap())
        .unwrap();
    let (bytes, fds) = sender.pending().unwrap().unwrap();
    assert_eq!(bytes.len(), HEADER_LEN + 7);
    assert_eq!(fds.unwrap().as_slice(), &["fd"]);
    sender.on_sent(3).unwrap();
    let (bytes, fds) = sender.pending().unwrap().unwrap();
    assert_eq!(bytes.len(), HEADER_LEN + 4);
    assert!(fds.is_none());
    let rest = bytes.len();
    sender.on_sent(rest).unwrap();
    assert!(sender.pending().unwrap().is_none());
}

#[test]
fn zero_byte_write_poisons_the_sender() {
    let limits = FrameLimits::default();
    let mut sender: FrameSender<&'static str> = FrameSender::new(limits);
    sender.enqueue(OutboundFrame::new(1, 1, 1, b"x".to_vec(), vec![], limits).unwrap()).unwrap();
    assert_eq!(sender.on_sent(0), Err(FrameError::WriteZero));
    assert!(matches!(sender.pending(), Err(FrameError::Poisoned)));
}

fn control(cmsg_len: u64, level: i32, kind: i32, data: &[u8]) -> Vec<u8> {
    let mut bytes = Vec::new();
    bytes.extend_from_slice(&cmsg_len.to_le_bytes());
    bytes.extend_from_slice(&level.to_le_bytes());
    bytes.extend_from_slice(&kind.to_le_bytes());
    bytes.extend_from_slice(data);
    bytes
}

#[test]
fn rejects_short_oversized_and_unaligned_rights_metadata() {
    let header_len = 16u64;
    let mut out = Vec::new();
    let short = control(header_len - 1, 0, 0, &[]);
    assert_eq!(parse_control(&short, 0, &mut out), Err(FrameError::MalformedControl));
    assert_eq!(
        parse_control(&control(header_len + 8, 0, 0, &[]), 0, &mut out),
        Err(FrameError::MalformedControl)
    );
    assert_eq!(
        parse_control(&control(header_len + 1, 1, 1, &[0]), 0, &mut out),
        Err(FrameError::MalformedControl)
    );
    assert!(out.is_empty());
}

#[test]
fn rejects_negative_rights_and_ignores_unknown_control() {
    let header_len = 16u64;
    let negative = (-1_i32).to_le_bytes();
    let mut out = Vec::new();
    assert_eq!(
        parse_control(&control(header_len + 4, 1, 1, &negative), 0, &mut out),
        Err(FrameError::MalformedControl)
    );
    assert!(out.is_empty());
    assert_eq!(parse_control(&control(header_len, 123, 456, &[]), 0, &mut out), Ok(()));
    assert!(out.is_empty());
}

#[test]
fn rights_are_collected_in_order_and_truncation_is_reported() {
    let mut data = Vec::new();
    data.extend_from_slice(&7_i32.to_le_bytes());
    data.extend_from_slice(&9_i32.to_le_bytes());
    let mut out = Vec::new();
    let buffer = control(16 + 8, 1, 1, &data);
    assert_eq!(parse_control(&buffer, 0, &mut out), Ok(()));
    assert_eq!(out, vec![7, 9]);
    let mut out = Vec::new();
    assert_eq!(parse_control(&buffer, 8, &mut out), Err(FrameError::TruncatedControl));
    assert_eq!(out, vec![7, 9]);
}

#[test]
fn polls_between_reads_deliver_the_same_frames() {
    let mut stream = wire(1, 1, 1, b"first", 1);
    stream.extend_from_slice(&wire(2, 2, 2, b"second", 1));
    let split = wire(1, 1, 1, b"first", 1).len();

    let mut at_once: FrameReceiver<&'static str> = FrameReceiver::new(FrameLimits::default());
    at_once.on_received(stream[..split].to_vec(), vec!["fd1"]).unwrap();
    at_once.on_received(stream[split..].to_vec(), vec!["fd2"]).unwrap();
    let a1 = next_frame(&mut at_once).unwrap();
    let a2 = next_frame(&mut at_once).unwrap();

    let mut interleaved: FrameReceiver<&'static str> = FrameReceiver::new(FrameLimits::default());
    interleaved.on_received(stream[..split].to_vec(), vec!["fd1"]).unwrap();
    let b1 = next_frame(&mut interleaved).unwrap();
    interleaved.on_received(stream[split..].to_vec(), vec!["fd2"]).unwrap();
    let b2 = next_frame(&mut interleaved).unwrap();

    for (a, b) in [(a1, b1), (a2, b2)] {
        let (ha, pa, mut fa) = a.into_parts();
        let (hb, pb, mut fb) = b.into_parts();
        assert_eq!(ha, hb);
        assert_eq!(pa, pb);
        assert_eq!(fa.take(0).unwrap(), fb.take(0).unwrap());
    }
    assert!(matches!(at_once.poll(), Ok(ReceiveStep::Receive { .. })));
    assert!(matches!(interleaved.poll(), Ok(ReceiveStep::Receive { .. })));
}
