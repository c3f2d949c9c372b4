use p2p_chat::chat_pb::{Message, Rpc, SubOpts};
use p2p_chat::wire::DecodeErrorKind;

fn sample_rpc() -> Rpc {
    Rpc {
        subscriptions: vec![
            SubOpts { subscribe: Some(true), topic_id: Some("chat".to_string()) },
            SubOpts { subscribe: Some(false), topic_id: None },
        ],
        publish: vec![Message {
            from_peer_id: Some(vec![0x12, 0x20, 1, 2]),
            from_name: Some("alice".to_string()),
            to_name: None,
            data: Some(b"hello".to_vec()),
            seqno: Some(vec![9; 20]),
            topic_ids: vec!["chat".to_string(), "news".to_string()],
        }],
    }
}

#[test]
fn rpc_roundtrip() {
    let rpc = sample_rpc();
    let bytes = rpc.encode_to_vec();
    assert_eq!(Rpc::decode(&bytes), Ok(rpc));
}

#[test]
fn empty_rpc_is_empty_bytes() {
    let rpc = Rpc::default();
    assert_eq!(rpc.encode_to_vec(), Vec::<u8>::new());
    assert_eq!(Rpc::decode(&[]), Ok(Rpc::default()));
}

#[test]
fn rpc_encoding_matches_prost_field_encoders() {
    let rpc = Rpc {
        subscriptions: vec![SubOpts { subscribe: Some(true), topic_id: Some("t".to_string()) }],
        publish: vec![],
    };
    // The inner SubOpts, field by field, as prost writes them.
    let mut inner = Vec::new();
    prost::encoding::bool::encode(1, &true, &mut inner);
    prost::encoding::string::encode(2, &"t".to_string(), &mut inner);
    let mut expected = Vec::new();
    prost::encoding::bytes::encode(1, &inner, &mut expected);
    assert_eq!(rpc.encode_to_vec(), expected);
}

#[test]
fn decode_skips_unknown_fields() {
    let mut bytes = Vec::new();
    // Field 9, varint; field 10, 32-bit; field 11, length-delimited; field 12, a group.
    prost::encoding::uint64::encode(9, &77, &mut bytes);
    prost::encoding::fixed32::encode(10, &5, &mut bytes);
    prost::encoding::string::encode(11, &"x".to_string(), &mut bytes);
    bytes.extend_from_slice(&[(12 << 3) | 3, 0x08, 0x01, (12 << 3) | 4]);
    bytes.extend(sample_rpc().encode_to_vec());
    assert_eq!(Rpc::decode(&bytes), Ok(sample_rpc()));
}

#[test]
fn decode_repeated_optional_field_keeps_last() {
    let mut inner = Vec::new();
    prost::encoding::string::encode(2, &"a".to_string(), &mut inner);
    prost::encoding::string::encode(2, &"b".to_string(), &mut inner);
    let mut bytes = Vec::new();
    prost::encoding::bytes::encode(1, &inner, &mut bytes);
    let rpc = Rpc::decode(&bytes).unwrap();
    assert_eq!(rpc.subscriptions[0].topic_id, Some("b".to_string()));
}

#[test]
fn decode_error_invalid_varint() {
    assert_eq!(Rpc::decode(&[0x80]), Err(DecodeErrorKind::InvalidVarint));
}

#[test]
fn decode_error_invalid_key() {
    // A key of 2^32, above 32 bits.
    assert_eq!(Rpc::decode(&[0x80, 0x80, 0x80, 0x80, 0x10]), Err(DecodeErrorKind::InvalidKey));
}

#[test]
fn decode_error_invalid_wire_type() {
    assert_eq!(Rpc::decode(&[(1 << 3) | 6]), Err(DecodeErrorKind::InvalidWireType));
    assert_eq!(Rpc::decode(&[(1 << 3) | 7]), Err(DecodeErrorKind::InvalidWireType));
}

#[test]
fn decode_error_invalid_tag() {
    assert_eq!(Rpc::decode(&[0x00, 0x00]), Err(DecodeErrorKind::InvalidTag));
}

#[test]
fn decode_error_wire_type_mismatch() {
    // Field 1 of Rpc is a message, here given as a varint.
    assert_eq!(Rpc::decode(&[(1 << 3), 0x01]), Err(DecodeErrorKind::WireTypeMismatch));
}

#[test]
fn decode_error_buffer_underflow() {
    assert_eq!(Rpc::decode(&[(1 << 3) | 2, 0x05, 0x00]), Err(DecodeErrorKind::BufferUnderflow));
    // A 64-bit value cut short.
    assert_eq!(Rpc::decode(&[(9 << 3) | 1, 0x00]), Err(DecodeErrorKind::BufferUnderflow));
}

#[test]
fn decode_error_unexpected_end_group() {
    assert_eq!(Rpc::decode(&[(9 << 3) | 4]), Err(DecodeErrorKind::UnexpectedEndGroup));
    // A group closed with another tag.
    assert_eq!(
        Rpc::decode(&[(9 << 3) | 3, (10 << 3) | 4]),
        Err(DecodeErrorKind::UnexpectedEndGroup)
    );
}

#[test]
fn decode_error_recursion_limit() {
    let mut bytes = Vec::new();
    for _ in 0..200 {
        bytes.push((9 << 3) | 3);
    }
    for _ in 0..200 {
        bytes.push((9 << 3) | 4);
    }
    assert_eq!(Rpc::decode(&bytes), Err(DecodeErrorKind::RecursionLimit));
}

#[test]
fn decode_error_invalid_utf8() {
    let mut inner = Vec::new();
    prost::encoding::bytes::encode(2, &vec![0xff, 0xfe], &mut inner);
    let mut bytes = Vec::new();
    prost::encoding::bytes::encode(1, &inner, &mut bytes);
    assert_eq!(Rpc::decode(&bytes), Err(DecodeErrorKind::InvalidUtf8));
}
