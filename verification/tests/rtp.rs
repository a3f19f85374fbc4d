use run_louder::rtp::{frame_packet, parse_packet, RtpCircularBuffer, RtpSender};

fn datagram(seq: u32, payload: &[u8]) -> Vec<u8> {
    frame_packet(seq, payload)
}

#[test]
fn framing_round_trip() {
    let framed = frame_packet(0x0102_0304, &[9, 8, 7]);
    assert_eq!(framed, vec![1, 2, 3, 4, 9, 8, 7]);
    let (seq, payload) = parse_packet(&framed).unwrap();
    assert_eq!(seq, 0x0102_0304);
    assert_eq!(payload, vec![9, 8, 7]);
}

#[test]
fn framing_empty_payload() {
    let framed = frame_packet(5, &[]);
    assert_eq!(framed, vec![0, 0, 0, 5]);
    let (seq, payload) = parse_packet(&framed).unwrap();
    assert_eq!(seq, 5);
    assert!(payload.is_empty());
}

#[test]
fn framing_largest_payload() {
    let payload = vec![0xAB; 1400];
    let framed = frame_packet(u32::MAX, &payload);
    assert_eq!(framed.len(), 1404);
    let (seq, parsed) = parse_packet(&framed).unwrap();
    assert_eq!(seq, u32::MAX);
    assert_eq!(parsed, payload);
}

#[test]
fn parse_short_datagram_is_none() {
    assert!(parse_packet(&[]).is_none());
    assert!(parse_packet(&[1, 2, 3]).is_none());
}

#[test]
fn window_acceptance() {
    let mut buf = RtpCircularBuffer::new(8);
    for s in 0..8u32 {
        assert!(buf.get(s).is_some());
    }
    assert!(buf.get(8).is_none());
    assert!(buf.get(u32::MAX).is_none());

    // An arrival at least half the sequence space behind is discarded
    // without any change to the buffer.
    let accepted = buf.insert_packet(0x8000_0000, &datagram(0x8000_0000, &[1]));
    assert!(!accepted);
    assert_eq!(buf.earliest_seq(), 0);
    assert_eq!(buf.early_latest_span(), 0);
    for s in 0..8u32 {
        assert!(!buf.get(s).unwrap().is_init());
    }
}

#[test]
fn consume_always_advances() {
    let mut buf = RtpCircularBuffer::new(4);
    // Empty slot: consuming still advances the cursor by exactly one.
    assert!(buf.consume_earliest_packet().is_none());
    assert_eq!(buf.earliest_seq(), 1);
    // Occupied slot: the packet comes out and the slot is vacated.
    assert!(buf.insert_packet(1, &datagram(1, &[42])));
    let (seq, payload) = buf.consume_earliest_packet().unwrap();
    assert_eq!(seq, 1);
    assert_eq!(payload, vec![42]);
    assert_eq!(buf.earliest_seq(), 2);
    assert!(!buf.get(2).unwrap().is_init());
}

#[test]
fn span_monotonic_then_decaying() {
    let mut buf = RtpCircularBuffer::new(8);
    assert!(buf.insert_packet(3, &datagram(3, &[1])));
    assert_eq!(buf.early_latest_span(), 3);
    // A nearer packet does not lower the span.
    assert!(buf.insert_packet(1, &datagram(1, &[1])));
    assert_eq!(buf.early_latest_span(), 3);
    // A farther packet raises it.
    assert!(buf.insert_packet(5, &datagram(5, &[1])));
    assert_eq!(buf.early_latest_span(), 5);
    // Each consume lowers it by one, saturating at zero.
    for expected in [4u32, 3, 2, 1, 0, 0] {
        buf.consume_earliest_packet();
        assert_eq!(buf.early_latest_span(), expected);
    }
}

#[test]
fn out_of_order_delivery() {
    let mut buf = RtpCircularBuffer::new(8);
    assert!(buf.insert_packet(2, &datagram(2, &[102])));
    assert!(buf.peek_earliest_packet().is_none());
    assert!(buf.insert_packet(0, &datagram(0, &[100])));
    assert_eq!(buf.peek_earliest_packet().unwrap().0, 0);
    assert!(buf.insert_packet(1, &datagram(1, &[101])));
    assert_eq!(buf.peek_earliest_packet().unwrap().0, 0);
    for expect in 0..3u32 {
        let (seq, payload) = buf.consume_earliest_packet().unwrap();
        assert_eq!(seq, expect);
        assert_eq!(payload, vec![100 + expect as u8]);
    }
}

#[test]
fn loss_tolerance() {
    let mut buf = RtpCircularBuffer::new(8);
    assert!(buf.insert_packet(0, &datagram(0, &[10])));
    assert!(buf.insert_packet(2, &datagram(2, &[12])));
    let first = buf.consume_earliest_packet();
    assert_eq!(first.unwrap().0, 0);
    let second = buf.consume_earliest_packet();
    assert!(second.is_none());
    let third = buf.consume_earliest_packet();
    assert_eq!(third.unwrap().0, 2);
    assert_eq!(buf.earliest_seq(), 3);
}

#[test]
fn far_ahead_reset() {
    let mut buf = RtpCircularBuffer::new(4);
    assert!(buf.insert_packet(10, &datagram(10, &[99])));
    assert_eq!(buf.earliest_seq(), 7);
    assert!(buf.get(10).unwrap().is_init());
    for s in [7u32, 8, 9] {
        assert!(!buf.get(s).unwrap().is_init());
    }
    assert_eq!(buf.early_latest_span(), 3);
}

#[test]
fn late_duplicate_rejected() {
    let mut buf = RtpCircularBuffer::new(8);
    for _ in 0..100 {
        buf.consume_earliest_packet();
    }
    assert_eq!(buf.earliest_seq(), 100);
    let accepted = buf.insert_packet(3_000_000_000, &datagram(3_000_000_000, &[1]));
    assert!(!accepted);
    assert_eq!(buf.earliest_seq(), 100);
    assert_eq!(buf.early_latest_span(), 0);
    for s in 100..108u32 {
        assert!(!buf.get(s).unwrap().is_init());
    }
}

#[test]
fn malformed_slot_is_tolerated() {
    let mut buf = RtpCircularBuffer::new(4);
    // A datagram too short to hold a header is stored but never parses.
    assert!(buf.insert_packet(0, &[7, 7]));
    assert!(buf.get(0).unwrap().is_init());
    assert!(buf.peek_earliest_packet().is_none());
    assert!(buf.consume_earliest_packet().is_none());
    assert_eq!(buf.earliest_seq(), 1);
}

#[test]
fn sender_stamps_and_advances() {
    let mut sender = RtpSender::new();
    assert_eq!(sender.seq_num(), 0);
    let first = sender.frame_next(&[5, 6]);
    assert_eq!(first, vec![0, 0, 0, 0, 5, 6]);
    assert_eq!(sender.seq_num(), 1);
    let second = sender.frame_next(&[]);
    assert_eq!(second, vec![0, 0, 0, 1]);
    assert_eq!(sender.seq_num(), 2);
}
