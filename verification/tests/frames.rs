use run_louder::frames::{DummyWebcam, FrameCircularBuffer, FRAME_SIZE};
use run_louder::VIDEO_FRAME_DELAY;

#[test]
fn frame_buffer_push_then_pop() {
    let mut buf = FrameCircularBuffer::new();
    assert!(buf.pop_frame().is_none());

    let first = vec![7u8; FRAME_SIZE];
    let second = vec![9u8; FRAME_SIZE];
    buf.push_frame(&first);
    buf.push_frame(&second);

    assert_eq!(buf.pop_frame().unwrap(), first);
    assert_eq!(buf.pop_frame().unwrap(), second);
    assert!(buf.pop_frame().is_none());
}

#[test]
fn frame_buffer_drops_when_full() {
    let mut buf = FrameCircularBuffer::new();
    for k in 0..VIDEO_FRAME_DELAY {
        // One more push than fits: the last frame is dropped on the floor.
        buf.push_frame(&vec![k as u8; FRAME_SIZE]);
    }
    for k in 0..VIDEO_FRAME_DELAY - 1 {
        assert_eq!(buf.pop_frame().unwrap(), vec![k as u8; FRAME_SIZE]);
    }
    assert!(buf.pop_frame().is_none());
}

#[test]
fn frame_buffer_wraps_around() {
    let mut buf = FrameCircularBuffer::new();
    for round in 0..3u8 {
        for k in 0..VIDEO_FRAME_DELAY - 1 {
            buf.push_frame(&vec![round.wrapping_mul(31).wrapping_add(k as u8); FRAME_SIZE]);
        }
        for k in 0..VIDEO_FRAME_DELAY - 1 {
            let expect = vec![round.wrapping_mul(31).wrapping_add(k as u8); FRAME_SIZE];
            assert_eq!(buf.pop_frame().unwrap(), expect);
        }
    }
}

#[test]
fn dummy_webcam_pattern() {
    let mut cam = DummyWebcam::new(480, 640);
    let frame = cam.capture();
    assert_eq!(frame.len(), FRAME_SIZE);
    // First captured frame is numbered one.
    assert_eq!(frame[0], 1); // (x=0 + 1) % 255
    assert_eq!(frame[1], 2); // (y=0 + 2) % 255
    let idx = (3 * 640 + 5) * 2;
    assert_eq!(frame[idx], 6); // (x=5 + 1) % 255
    assert_eq!(frame[idx + 1], 5); // (y=3 + 2) % 255

    let second = cam.capture();
    assert_eq!(second[0], 2); // (x=0 + 2) % 255
    assert_eq!(second[1], 4); // (y=0 + 4) % 255
}
