use harmony::props_binary_format::{PropType, PropsBinaryDecoder, PropsBinaryFormat};

#[test]
fn test_string_property() {
    let mut encoder = PropsBinaryFormat::new();
    encoder.init_header(1);
    encoder.write_string("label", "Oscillator");

    let buffer = encoder.finalize();
    let mut decoder = PropsBinaryDecoder::new(buffer).unwrap();

    let (name, prop_type, value) = decoder.read_property().unwrap();
    assert_eq!(name, "label");
    assert_eq!(prop_type, PropType::String);
    assert_eq!(PropsBinaryDecoder::read_string(&value).unwrap(), "Oscillator");
}

#[test]
fn test_encode_decode_int_and_bool_properties() {
    let mut encoder = PropsBinaryFormat::new();
    encoder.init_header(3);
    encoder.write_int32("octave", -2);
    encoder.write_uint32("channels", 4);
    encoder.write_bool("enabled", true);

    let buffer = encoder.finalize();
    let mut decoder = PropsBinaryDecoder::new(buffer).unwrap();

    assert_eq!(decoder.property_count(), 3);

    let (name, prop_type, value) = decoder.read_property().unwrap();
    assert_eq!(name, "octave");
    assert_eq!(prop_type, PropType::Int32);
    assert_eq!(PropsBinaryDecoder::read_int32(&value).unwrap(), -2);

    let (name, prop_type, value) = decoder.read_property().unwrap();
    assert_eq!(name, "channels");
    assert_eq!(prop_type, PropType::Uint32);
    assert_eq!(PropsBinaryDecoder::read_uint32(&value).unwrap(), 4);

    let (name, prop_type, value) = decoder.read_property().unwrap();
    assert_eq!(name, "enabled");
    assert_eq!(prop_type, PropType::Bool);
    assert_eq!(PropsBinaryDecoder::read_bool(&value).unwrap(), true);

    // Past the last entry the reader reports the end of the buffer.
    assert!(decoder.read_property().is_err());
}

#[test]
fn test_header_layout() {
    let mut encoder = PropsBinaryFormat::new();
    encoder.init_header(2);
    let buffer = encoder.finalize();
    // Count 2 and total size 8, both little-endian.
    assert_eq!(buffer, vec![2, 0, 0, 0, 8, 0, 0, 0]);
}

#[test]
fn test_prop_type_codes_roundtrip() {
    let types = [
        PropType::Float32,
        PropType::Float64,
        PropType::Int32,
        PropType::Uint32,
        PropType::Int16,
        PropType::Uint16,
        PropType::Int8,
        PropType::Uint8,
        PropType::Bool,
        PropType::String,
        PropType::Array,
    ];
    for (i, t) in types.iter().enumerate() {
        assert_eq!(t.code(), i as u8);
        assert_eq!(PropType::from_u8(i as u8), Some(*t));
    }
    assert_eq!(PropType::from_u8(11), None);
    assert_eq!(PropType::from_u8(255), None);
}

#[test]
fn test_prop_type_byte_sizes() {
    assert_eq!(PropType::Float32.byte_size(), 4);
    assert_eq!(PropType::Float64.byte_size(), 8);
    assert_eq!(PropType::Int32.byte_size(), 4);
    assert_eq!(PropType::Uint32.byte_size(), 4);
    assert_eq!(PropType::Int16.byte_size(), 2);
    assert_eq!(PropType::Uint16.byte_size(), 2);
    assert_eq!(PropType::Int8.byte_size(), 1);
    assert_eq!(PropType::Uint8.byte_size(), 1);
    assert_eq!(PropType::Bool.byte_size(), 1);
    assert_eq!(PropType::String.byte_size(), 0);
    assert_eq!(PropType::Array.byte_size(), 0);
}

#[test]
fn test_decoder_rejects_short_header() {
    assert!(PropsBinaryDecoder::new(vec![0u8; 7]).is_err());
    assert!(PropsBinaryDecoder::new(Vec::new()).is_err());
}

#[test]
fn test_read_property_unknown_type() {
    // Header, then an entry with an empty name and type code 200.
    let mut buffer = vec![1, 0, 0, 0, 0, 0, 0, 0];
    buffer.extend_from_slice(&[0, 0]); // name length 0
    buffer.push(200); // unknown type code
    let mut decoder = PropsBinaryDecoder::new(buffer).unwrap();
    assert_eq!(decoder.read_property().unwrap_err(), "Unknown property type");
}

#[test]
fn test_read_property_truncated_value() {
    let mut buffer = vec![1, 0, 0, 0, 0, 0, 0, 0];
    buffer.extend_from_slice(&[0, 0]); // name length 0
    buffer.push(2); // Int32
    buffer.extend_from_slice(&[4, 0, 0, 0]); // value size 4
    buffer.push(1); // but only one value byte present
    let mut decoder = PropsBinaryDecoder::new(buffer).unwrap();
    assert_eq!(decoder.read_property().unwrap_err(), "Invalid value bytes");
}

#[test]
fn test_read_property_invalid_name_utf8() {
    let mut buffer = vec![1, 0, 0, 0, 0, 0, 0, 0];
    buffer.extend_from_slice(&[1, 0]); // name length 1
    buffer.push(0xFF); // not valid UTF-8
    buffer.push(2); // Int32
    buffer.extend_from_slice(&[0, 0, 0, 0]); // value size 0
    let mut decoder = PropsBinaryDecoder::new(buffer).unwrap();
    assert_eq!(decoder.read_property().unwrap_err(), "Invalid UTF-8 in name");
}

#[test]
fn test_read_string_rejects_invalid_utf8() {
    assert!(PropsBinaryDecoder::read_string(&[0xFF, 0xFE]).is_err());
    assert_eq!(PropsBinaryDecoder::read_string(b"abc").unwrap(), "abc");
}

#[test]
fn test_read_value_size_mismatches() {
    assert!(PropsBinaryDecoder::read_int32(&[1, 2, 3]).is_err());
    assert!(PropsBinaryDecoder::read_uint32(&[1, 2, 3, 4, 5]).is_err());
    assert!(PropsBinaryDecoder::read_bool(&[]).is_err());
    assert_eq!(PropsBinaryDecoder::read_bool(&[0]).unwrap(), false);
    assert_eq!(PropsBinaryDecoder::read_bool(&[7]).unwrap(), true);
}

#[test]
fn test_from_buffer_keeps_bytes() {
    let encoder = PropsBinaryFormat::from_buffer(vec![9, 9, 9, 9, 0, 0, 0, 0]);
    assert_eq!(encoder.len(), 8);
    assert_eq!(encoder.buffer(), &[9, 9, 9, 9, 0, 0, 0, 0]);
}

#[test]
fn test_decoder_header_error_message() {
    match PropsBinaryDecoder::new(vec![0u8; 3]) {
        Ok(_) => panic!("a three-byte buffer must be rejected"),
        Err(m) => assert_eq!(m, "Buffer too small for header"),
    }
}
