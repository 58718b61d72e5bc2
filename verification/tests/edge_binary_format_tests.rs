use harmony::edge_binary_format::{deserialize_edges, serialize_edges, EdgeBinaryFormat, EDGE_SIZE};

#[test]
fn edge_binary_format_test_edge_creation() {
    let edge = EdgeBinaryFormat::new(1, 2, 3);
    assert_eq!(edge.source(), 1);
    assert_eq!(edge.target(), 2);
    assert_eq!(edge.edge_type(), 3);
}

#[test]
fn edge_binary_format_test_serialization_roundtrip() {
    let edge = EdgeBinaryFormat::new(42, 100, 5);
    let mut buffer = vec![0u8; EDGE_SIZE];

    edge.to_bytes(&mut buffer, 0).unwrap();
    let deserialized = EdgeBinaryFormat::from_bytes(&buffer, 0).unwrap();

    assert_eq!(edge, deserialized);
}

#[test]
fn test_connects_nodes() {
    let edge = EdgeBinaryFormat::new(1, 2, 0);
    assert!(edge.connects_nodes(1, 2));
    assert!(edge.connects_nodes(2, 1));
    assert!(!edge.connects_nodes(1, 3));
}

#[test]
fn test_self_loop() {
    let self_loop = EdgeBinaryFormat::new(5, 5, 0);
    let regular = EdgeBinaryFormat::new(5, 6, 0);

    assert!(self_loop.is_self_loop());
    assert!(!regular.is_self_loop());
}

#[test]
fn test_reverse() {
    let edge = EdgeBinaryFormat::new(1, 2, 3);
    let reversed = edge.reverse();

    assert_eq!(reversed.source(), 2);
    assert_eq!(reversed.target(), 1);
    assert_eq!(reversed.edge_type(), 3);
}

#[test]
fn test_batch_serialization() {
    let edges = vec![
        EdgeBinaryFormat::new(1, 2, 0),
        EdgeBinaryFormat::new(2, 3, 1),
        EdgeBinaryFormat::new(3, 4, 2),
    ];

    let buffer = serialize_edges(&edges);
    assert_eq!(buffer.len(), edges.len() * EDGE_SIZE);

    let deserialized = deserialize_edges(&buffer).unwrap();
    assert_eq!(edges, deserialized);
}

#[test]
fn test_buffer_bounds_checking() {
    let edge = EdgeBinaryFormat::new(1, 2, 3);
    let mut small_buffer = vec![0u8; 8]; // Too small

    assert!(edge.to_bytes(&mut small_buffer, 0).is_err());
    assert!(EdgeBinaryFormat::from_bytes(&small_buffer, 0).is_err());
}

#[test]
fn test_edge_exact_byte_layout() {
    let edge = EdgeBinaryFormat::new(1, 2, 3);
    let mut buffer = vec![0u8; EDGE_SIZE];
    let written = edge.to_bytes(&mut buffer, 0).unwrap();
    assert_eq!(written, EDGE_SIZE);
    assert_eq!(buffer, vec![1, 0, 0, 0, 2, 0, 0, 0, 3, 0, 0, 0]);
}

#[test]
fn test_deserialize_rejects_ragged_buffer() {
    let buffer = vec![0u8; 13];
    assert!(deserialize_edges(&buffer).is_err());
    assert_eq!(deserialize_edges(&[]).unwrap().len(), 0);
}

#[test]
fn test_to_bytes_at_offset_preserves_rest() {
    let edge = EdgeBinaryFormat::new(9, 8, 7);
    let mut buffer = vec![0xAAu8; 2 * EDGE_SIZE];
    edge.to_bytes(&mut buffer, EDGE_SIZE).unwrap();
    assert!(buffer[..EDGE_SIZE].iter().all(|b| *b == 0xAA));
    assert_eq!(&buffer[EDGE_SIZE..EDGE_SIZE + 4], &[9, 0, 0, 0]);
}

#[test]
fn test_edge_error_messages_name_the_failure() {
    let edge = EdgeBinaryFormat::new(1, 2, 3);
    let mut small = vec![0u8; 4];
    assert_eq!(
        edge.to_bytes(&mut small, 0).unwrap_err(),
        "Buffer too small for edge serialization"
    );
    assert_eq!(
        EdgeBinaryFormat::from_bytes(&small, 0).unwrap_err(),
        "Buffer too small for edge deserialization"
    );
    assert_eq!(
        deserialize_edges(&[0u8; 5]).unwrap_err(),
        "Buffer size must be multiple of EDGE_SIZE"
    );
}
