use harmony::node_binary_format::{NodeBinaryFormat, NodeBuffer, NODE_BINARY_SIZE};

#[test]
fn test_node_binary_size() {
    assert_eq!(std::mem::size_of::<NodeBinaryFormat>(), NODE_BINARY_SIZE);
}

#[test]
fn node_binary_format_test_serialization_roundtrip() {
    let node = NodeBinaryFormat::new(42, 7, 1024);
    let bytes = node.to_bytes();
    let deserialized = NodeBinaryFormat::from_bytes(&bytes).unwrap();

    assert_eq!(node, deserialized);
}

#[test]
fn test_write_read_roundtrip() {
    let node = NodeBinaryFormat::new(100, 200, 300);
    let mut buffer = [0u8; NODE_BINARY_SIZE];

    node.write_to(&mut buffer).unwrap();
    let deserialized = NodeBinaryFormat::from_bytes(&buffer).unwrap();

    assert_eq!(node, deserialized);
}

#[test]
fn test_insufficient_bytes() {
    let bytes = [0u8; 8]; // Too short
    assert!(NodeBinaryFormat::from_bytes(&bytes).is_err());
}

#[test]
fn test_node_buffer_operations() {
    let mut buffer = NodeBuffer::with_capacity(10);

    buffer.push(NodeBinaryFormat::new(1, 10, 0));
    buffer.push(NodeBinaryFormat::new(2, 20, 100));
    buffer.push(NodeBinaryFormat::new(3, 30, 200));

    assert_eq!(buffer.len(), 3);
    assert!(!buffer.is_empty());

    let node1 = buffer.get(0).unwrap();
    assert_eq!(node1.id, 1);
    assert_eq!(node1.node_type, 10);

    let node2 = buffer.get(1).unwrap();
    assert_eq!(node2.id, 2);
    assert_eq!(node2.node_type, 20);

    assert!(buffer.get(10).is_none());
}

#[test]
fn test_node_buffer_iterator() {
    let mut buffer = NodeBuffer::with_capacity(3);

    buffer.push(NodeBinaryFormat::new(1, 10, 0));
    buffer.push(NodeBinaryFormat::new(2, 20, 100));
    buffer.push(NodeBinaryFormat::new(3, 30, 200));

    let nodes = buffer.iter();
    assert_eq!(nodes.len(), 3);
    assert_eq!(nodes[0].id, 1);
    assert_eq!(nodes[1].id, 2);
    assert_eq!(nodes[2].id, 3);
}

#[test]
fn test_node_buffer_clear() {
    let mut buffer = NodeBuffer::with_capacity(2);

    buffer.push(NodeBinaryFormat::new(1, 10, 0));
    buffer.push(NodeBinaryFormat::new(2, 20, 100));

    assert_eq!(buffer.len(), 2);

    buffer.clear();

    assert_eq!(buffer.len(), 0);
    assert!(buffer.is_empty());
}

#[test]
fn test_node_exact_byte_layout() {
    // Little-endian u32 fields: id, type, props offset.
    let node = NodeBinaryFormat::new(1, 2, 3);
    let bytes = node.to_bytes();
    assert_eq!(bytes, vec![1, 0, 0, 0, 2, 0, 0, 0, 3, 0, 0, 0]);

    let node2 = NodeBinaryFormat::new(0x01020304, 0, 0);
    let bytes2 = node2.to_bytes();
    assert_eq!(&bytes2[0..4], &[0x04, 0x03, 0x02, 0x01]);
}

#[test]
fn test_node_buffer_bytes_concatenation() {
    let mut buffer = NodeBuffer::with_capacity(2);
    buffer.push(NodeBinaryFormat::new(1, 0, 0));
    buffer.push(NodeBinaryFormat::new(2, 0, 0));
    let bytes = buffer.as_bytes();
    assert_eq!(bytes.len(), 24);
    assert_eq!(bytes[0], 1);
    assert_eq!(bytes[12], 2);
}

#[test]
fn test_error_messages_name_the_failure() {
    assert_eq!(
        NodeBinaryFormat::from_bytes(&[0u8; 4]).unwrap_err(),
        "Insufficient bytes for NodeBinaryFormat"
    );
    let mut small = [0u8; 4];
    assert_eq!(
        NodeBinaryFormat::new(1, 2, 3).write_to(&mut small).unwrap_err(),
        "Buffer too small for NodeBinaryFormat"
    );
}
