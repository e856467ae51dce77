use labs::ring_buffer::{RingBuffer, BUFFER_MAX_SIZE};

#[test]
fn values_come_out_in_write_order() {
    let mut q = RingBuffer::new();
    assert!(q.is_empty());
    assert!(q.read().is_none());
    assert!(q.write(1).is_ok());
    assert!(q.write(2).is_ok());
    assert_eq!(q.len(), 2);
    assert_eq!(q.read(), Some(1));
    assert_eq!(q.read(), Some(2));
    assert!(q.read().is_none());
}

#[test]
fn the_tenth_write_reports_full_and_keeps_the_value() {
    let mut q = RingBuffer::new();
    for i in 0..BUFFER_MAX_SIZE - 1 {
        assert!(q.write(i).is_ok());
    }
    assert!(q.write(99).is_err());
    assert_eq!(q.len(), BUFFER_MAX_SIZE);
    assert_eq!(q.read(), Some(0));
}
