use p2p_chat::chat_pb::{Message, Rpc, SubOpts};
use p2p_chat::peer::PeerId;
use p2p_chat::protocol::{
    decode_inbound, encode_frame, packet_len, parse_frame_header, ChatDecodeError, ChatMessage,
    ChatProtocol, ChatRpc, ChatSubscription, ChatSubscriptionAction, DecodeError, FrameHeader,
    MAX_PACKET_SIZE,
};
use p2p_chat::topic::Topic;
use p2p_chat::wire::DecodeErrorKind;

fn peer_bytes(fill: u8) -> Vec<u8> {
    let mut b = vec![0x12, 0x20];
    b.extend(std::iter::repeat(fill).take(32));
    b
}

fn sample_message() -> ChatMessage {
    ChatMessage {
        source: PeerId::from_bytes(&peer_bytes(3)).unwrap(),
        source_name: "alice".to_string(),
        to_name: Some("bob".to_string()),
        data: b"hi bob".to_vec(),
        sequence_number: vec![1; 20],
        topics: vec![Topic::new("chat".to_string())],
    }
}

fn sample_rpc() -> ChatRpc {
    ChatRpc {
        messages: vec![sample_message()],
        subscriptions: vec![
            ChatSubscription {
                action: ChatSubscriptionAction::Subscribe,
                topic: Topic::new("chat".to_string()),
            },
            ChatSubscription {
                action: ChatSubscriptionAction::Unsubscribe,
                topic: Topic::new("old".to_string()),
            },
        ],
    }
}

#[test]
fn protocol_name() {
    assert_eq!(ChatProtocol::default().protocol_info(), "/chat/1.0.0");
    assert_eq!(sample_rpc().protocol_info(), "/chat/1.0.0");
}

#[test]
fn chat_rpc_bytes_decode_back() {
    let rpc = sample_rpc();
    let bytes = rpc.clone().into_bytes();
    let back = decode_inbound(&bytes).unwrap();
    assert_eq!(back, rpc);
}

#[test]
fn chat_rpc_bytes_are_the_protobuf_rpc() {
    let bytes = sample_rpc().into_bytes();
    let pb = Rpc::decode(&bytes).unwrap();
    assert_eq!(
        pb.subscriptions,
        vec![
            SubOpts { subscribe: Some(true), topic_id: Some("chat".to_string()) },
            SubOpts { subscribe: Some(false), topic_id: Some("old".to_string()) },
        ]
    );
    assert_eq!(
        pb.publish,
        vec![Message {
            from_peer_id: Some(peer_bytes(3)),
            from_name: Some("alice".to_string()),
            to_name: Some("bob".to_string()),
            data: Some(b"hi bob".to_vec()),
            seqno: Some(vec![1; 20]),
            topic_ids: vec!["chat".to_string()],
        }]
    );
}

#[test]
fn inbound_missing_fields_take_defaults() {
    // A subscription without `subscribe` is an unsubscription; one without a topic has the
    // empty topic; a message without a name has the empty name.
    let pb = Rpc {
        subscriptions: vec![SubOpts { subscribe: None, topic_id: None }],
        publish: vec![Message {
            from_peer_id: Some(peer_bytes(4)),
            from_name: None,
            to_name: None,
            data: None,
            seqno: None,
            topic_ids: vec![],
        }],
    };
    let rpc = decode_inbound(&pb.encode_to_vec()).unwrap();
    assert_eq!(rpc.subscriptions[0].action, ChatSubscriptionAction::Unsubscribe);
    assert_eq!(rpc.subscriptions[0].topic.id(), "");
    assert_eq!(rpc.messages[0].source_name, "");
    assert_eq!(rpc.messages[0].to_name, None);
    assert!(rpc.messages[0].data.is_empty());
}

#[test]
fn inbound_invalid_peer_id() {
    let pb = Rpc {
        subscriptions: vec![],
        publish: vec![Message {
            from_peer_id: Some(vec![1, 2, 3]),
            from_name: Some("mallory".to_string()),
            to_name: None,
            data: None,
            seqno: None,
            topic_ids: vec![],
        }],
    };
    assert!(matches!(decode_inbound(&pb.encode_to_vec()), Err(ChatDecodeError::InvalidPeerId)));
    // A message with no peer id at all is refused the same way.
    let pb = Rpc { subscriptions: vec![], publish: vec![Message::default()] };
    assert!(matches!(decode_inbound(&pb.encode_to_vec()), Err(ChatDecodeError::InvalidPeerId)));
}

#[test]
fn inbound_bad_protobuf() {
    match decode_inbound(&[0x80]) {
        Err(ChatDecodeError::ProtobufError(e)) => {
            assert_eq!(e, DecodeError(DecodeErrorKind::InvalidVarint))
        }
        other => panic!("unexpected {:?}", other),
    }
}

#[test]
fn frame_is_length_then_payload() {
    assert_eq!(encode_frame(&[7, 8, 9]), vec![3, 7, 8, 9]);
    let payload = vec![5u8; 300];
    let frame = encode_frame(&payload);
    assert_eq!(&frame[..2], &[0xac, 0x02]);
    assert_eq!(&frame[2..], &payload[..]);
}

#[test]
fn into_frame_frames_the_bytes() {
    let rpc = sample_rpc();
    let bytes = rpc.clone().into_bytes();
    let frame = rpc.into_frame();
    assert_eq!(frame, encode_frame(&bytes));
    match parse_frame_header(&frame) {
        FrameHeader::Complete { len, header_len } => {
            assert_eq!(len as usize, bytes.len());
            assert_eq!(&frame[header_len..], &bytes[..]);
        }
        other => panic!("unexpected {:?}", other),
    }
}

#[test]
fn frame_header_states() {
    assert_eq!(parse_frame_header(&[]), FrameHeader::Incomplete);
    assert_eq!(parse_frame_header(&[0x80]), FrameHeader::Incomplete);
    assert_eq!(parse_frame_header(&[0xac, 0x02, 0xff]), FrameHeader::Complete { len: 300, header_len: 2 });
    assert_eq!(parse_frame_header(&[0x80; 10]), FrameHeader::Invalid);
    assert_eq!(
        parse_frame_header(&[0xff, 0xff, 0xff, 0xff, 0xff, 0xff, 0xff, 0xff, 0xff, 0x02]),
        FrameHeader::Invalid
    );
}

#[test]
fn packet_length_limit() {
    assert_eq!(MAX_PACKET_SIZE, 2048);
    assert_eq!(packet_len(0), Some(0));
    assert_eq!(packet_len(2048), Some(2048));
    assert_eq!(packet_len(2049), None);
    assert_eq!(packet_len(u64::MAX), None);
}

#[test]
fn message_duplicate_is_equal() {
    let m = sample_message();
    assert_eq!(m.duplicate(), m);
}
