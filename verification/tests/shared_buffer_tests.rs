use harmony::shared_buffer::{MessageHeader, SharedBuffer, MESSAGE_HEADER_SIZE};

#[test]
fn test_buffer_write_and_read() {
    let mut buf = SharedBuffer::new(16);
    assert_eq!(buf.len(), 16);
    assert!(buf.write_at(4, &[1, 2, 3]));
    let view = buf.read_at(4, 3).unwrap();
    assert_eq!(view, &[1, 2, 3]);
    // Bytes around the written range stay zero.
    assert_eq!(buf.read_at(0, 4).unwrap(), &[0, 0, 0, 0]);
}

#[test]
fn test_buffer_rejects_out_of_range() {
    let mut buf = SharedBuffer::new(8);
    assert!(!buf.write_at(6, &[1, 2, 3]));
    assert!(buf.read_at(6, 3).is_none());
    // A rejected write changes nothing.
    assert_eq!(buf.read_at(0, 8).unwrap(), &[0u8; 8]);
}

#[test]
fn test_message_header_roundtrip() {
    let mut buf = SharedBuffer::new(64);
    let header = MessageHeader { msg_type: 7, payload_offset: 16, payload_len: 32, sequence: 9 };
    assert!(buf.write_message_header(8, header));
    let read = buf.read_message_header(8).unwrap();
    assert_eq!(read, header);
}

#[test]
fn test_message_header_bounds() {
    let mut buf = SharedBuffer::new(MESSAGE_HEADER_SIZE);
    let header = MessageHeader { msg_type: 1, payload_offset: 0, payload_len: 0, sequence: 0 };
    assert!(buf.write_message_header(0, header));
    assert!(!buf.write_message_header(1, header));
    assert!(buf.read_message_header(1).is_none());
}

#[test]
fn test_bump_allocator() {
    let mut buf = SharedBuffer::new(10);
    assert_eq!(buf.allocate(4), 0);
    assert_eq!(buf.allocate(4), 4);
    assert_eq!(buf.allocate(4), -1);
    let stats = buf.memory_stats();
    assert_eq!(stats, vec![10, 8, 2]);

    buf.reset_allocator();
    assert_eq!(buf.allocate(10), 0);
}

#[test]
fn test_message_header_exact_layout() {
    let mut buf = SharedBuffer::new(MESSAGE_HEADER_SIZE);
    let header = MessageHeader {
        msg_type: 1,
        payload_offset: 2,
        payload_len: 3,
        sequence: 0x01020304,
    };
    buf.write_message_header(0, header);
    let bytes = buf.read_at(0, MESSAGE_HEADER_SIZE).unwrap();
    assert_eq!(
        bytes,
        &[1, 0, 0, 0, 2, 0, 0, 0, 3, 0, 0, 0, 0x04, 0x03, 0x02, 0x01]
    );
}
