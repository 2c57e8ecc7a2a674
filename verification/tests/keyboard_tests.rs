use my_os::keyboard::{pop_char, push_char, PushOutcome, RingBuffer, BUFFER_SIZE};

#[test]
fn bytes_come_out_in_the_order_they_went_in() {
    let mut kb = RingBuffer::new();
    assert!(kb.push(b'a'));
    assert!(kb.push(b'b'));
    assert_eq!(kb.pop(), Some(b'a'));
    assert!(kb.push(b'c'));
    assert_eq!(kb.pop(), Some(b'b'));
    assert_eq!(kb.pop(), Some(b'c'));
    assert_eq!(kb.pop(), None);
}

#[test]
fn buffer_holds_one_less_than_its_size() {
    let mut kb = RingBuffer::new();
    for i in 0..BUFFER_SIZE - 1 {
        assert!(kb.push(i as u8));
    }
    assert!(!kb.push(0xFF));
    for i in 0..BUFFER_SIZE - 1 {
        assert_eq!(kb.pop(), Some(i as u8));
    }
    assert_eq!(kb.pop(), None);
}

#[test]
fn buffer_wraps_around() {
    let mut kb = RingBuffer::new();
    for round in 0..3u32 {
        for i in 0..200u32 {
            assert!(kb.push((i + round) as u8));
        }
        for i in 0..200u32 {
            assert_eq!(kb.pop(), Some((i + round) as u8));
        }
    }
}

#[test]
fn push_char_reports_a_dropped_key() {
    let mut kb = RingBuffer::new();
    assert_eq!(push_char(&mut kb, b'x'), PushOutcome::Queued);
    for _ in 0..BUFFER_SIZE - 2 {
        assert_eq!(push_char(&mut kb, b'y'), PushOutcome::Queued);
    }
    assert_eq!(push_char(&mut kb, b'z'), PushOutcome::Dropped);
    assert_eq!(pop_char(&mut kb), Some(b'x'));
}
