use p2p_chat::client::ChatConfig;
use p2p_chat::layer::{Chat, ChatAction, ChatEvent, InnerMessage, SwarmNotification};
use p2p_chat::peer::PeerId;
use p2p_chat::protocol::{ChatMessage, ChatRpc, ChatSubscription, ChatSubscriptionAction};
use p2p_chat::topic::Topic;

fn peer(fill: u8) -> PeerId {
    let mut b = vec![0x12, 0x20];
    b.extend(std::iter::repeat(fill).take(32));
    PeerId::from_bytes(&b).unwrap()
}

fn topic(name: &str) -> Topic {
    Topic::new(name.to_string())
}

fn drain(chat: &mut Chat) -> Vec<ChatAction> {
    let mut out = Vec::new();
    while let Some(a) = chat.poll() {
        out.push(a);
    }
    out
}

fn sub_rpc(t: &str, action: ChatSubscriptionAction) -> ChatRpc {
    ChatRpc { messages: vec![], subscriptions: vec![ChatSubscription { action, topic: topic(t) }] }
}

fn msg_from(source: &PeerId, name: &str, t: &str, data: &[u8], seq: u8) -> ChatMessage {
    ChatMessage {
        source: source.duplicate(),
        source_name: name.to_string(),
        to_name: None,
        data: data.to_vec(),
        sequence_number: vec![seq; 20],
        topics: vec![topic(t)],
    }
}

fn connect(chat: &mut Chat, p: &PeerId) {
    chat.on_swarm_event(SwarmNotification::ConnectionEstablished {
        peer_id: p.duplicate(),
        other_established: 0,
    });
}

#[test]
fn new_behaviour_has_nothing_to_do() {
    let mut chat = Chat::new(peer(0));
    assert!(chat.poll().is_none());
}

#[test]
fn adding_a_node_dials_it_once() {
    let mut chat = Chat::new(peer(0));
    chat.add_node_to_partial_view(peer(1));
    chat.add_node_to_partial_view(peer(1));
    assert_eq!(drain(&mut chat), vec![ChatAction::Dial { peer_id: peer(1) }]);
    assert!(chat.is_target(&peer(1)));
}

#[test]
fn add_then_remove_node() {
    let mut chat = Chat::new(peer(0));
    chat.add_node_to_partial_view(peer(1));
    chat.remove_node_from_partial_view(&peer(1));
    assert!(!chat.is_target(&peer(1)));
    // Removing a node that is not a target changes nothing.
    chat.remove_node_from_partial_view(&peer(2));
    assert!(!chat.is_target(&peer(2)));
}

#[test]
fn adding_a_connected_node_sends_our_topics() {
    let mut chat = Chat::new(peer(0));
    assert!(chat.subscribe(topic("a")));
    assert!(chat.subscribe(topic("b")));
    connect(&mut chat, &peer(1));
    drain(&mut chat);
    chat.add_node_to_partial_view(peer(1));
    assert_eq!(
        drain(&mut chat),
        vec![
            ChatAction::NotifyHandler { peer_id: peer(1), event: sub_rpc("a", ChatSubscriptionAction::Subscribe) },
            ChatAction::NotifyHandler { peer_id: peer(1), event: sub_rpc("b", ChatSubscriptionAction::Subscribe) },
            ChatAction::Dial { peer_id: peer(1) },
        ]
    );
}

#[test]
fn subscribe_announces_to_connected_peers() {
    let mut chat = Chat::new(peer(0));
    connect(&mut chat, &peer(1));
    connect(&mut chat, &peer(2));
    assert!(chat.subscribe(topic("chat")));
    assert_eq!(
        drain(&mut chat),
        vec![
            ChatAction::NotifyHandler { peer_id: peer(1), event: sub_rpc("chat", ChatSubscriptionAction::Subscribe) },
            ChatAction::NotifyHandler { peer_id: peer(2), event: sub_rpc("chat", ChatSubscriptionAction::Subscribe) },
        ]
    );
    assert!(chat.is_subscribed(&topic("chat")));
}

#[test]
fn subscribe_twice_returns_false() {
    let mut chat = Chat::new(peer(0));
    assert!(chat.subscribe(topic("chat")));
    assert!(!chat.subscribe(topic("chat")));
}

#[test]
fn unsubscribe_unknown_topic_returns_false() {
    let mut chat = Chat::new(peer(0));
    connect(&mut chat, &peer(1));
    assert!(!chat.unsubscribe(topic("chat")));
    assert!(drain(&mut chat).is_empty());
}

#[test]
fn subscribe_then_unsubscribe() {
    let mut chat = Chat::new(peer(0));
    connect(&mut chat, &peer(1));
    assert!(chat.subscribe(topic("chat")));
    assert!(chat.unsubscribe(topic("chat")));
    assert!(!chat.is_subscribed(&topic("chat")));
    assert!(!chat.unsubscribe(topic("chat")));
    assert_eq!(
        drain(&mut chat),
        vec![
            ChatAction::NotifyHandler { peer_id: peer(1), event: sub_rpc("chat", ChatSubscriptionAction::Subscribe) },
            ChatAction::NotifyHandler { peer_id: peer(1), event: sub_rpc("chat", ChatSubscriptionAction::Unsubscribe) },
        ]
    );
}

#[test]
fn first_connection_to_a_target_sends_our_topics() {
    let mut chat = Chat::new(peer(0));
    chat.subscribe(topic("chat"));
    chat.add_node_to_partial_view(peer(1));
    drain(&mut chat);
    connect(&mut chat, &peer(1));
    assert_eq!(
        drain(&mut chat),
        vec![ChatAction::NotifyHandler { peer_id: peer(1), event: sub_rpc("chat", ChatSubscriptionAction::Subscribe) }]
    );
    assert!(chat.is_connected(&peer(1)));
    // A second connection to the same peer changes nothing.
    chat.on_swarm_event(SwarmNotification::ConnectionEstablished { peer_id: peer(1), other_established: 1 });
    assert!(drain(&mut chat).is_empty());
}

#[test]
fn connection_to_a_non_target_sends_nothing() {
    let mut chat = Chat::new(peer(0));
    chat.subscribe(topic("chat"));
    connect(&mut chat, &peer(1));
    assert!(drain(&mut chat).is_empty());
    assert!(chat.is_connected(&peer(1)));
}

#[test]
fn losing_a_target_redials_it() {
    let mut chat = Chat::new(peer(0));
    chat.add_node_to_partial_view(peer(1));
    connect(&mut chat, &peer(1));
    drain(&mut chat);
    chat.on_swarm_event(SwarmNotification::ConnectionClosed { peer_id: peer(1), remaining_established: 1 });
    assert!(chat.is_connected(&peer(1)));
    assert!(drain(&mut chat).is_empty());
    chat.on_swarm_event(SwarmNotification::ConnectionClosed { peer_id: peer(1), remaining_established: 0 });
    assert!(!chat.is_connected(&peer(1)));
    assert_eq!(drain(&mut chat), vec![ChatAction::Dial { peer_id: peer(1) }]);
}

#[test]
fn losing_a_non_target_does_not_redial() {
    let mut chat = Chat::new(peer(0));
    connect(&mut chat, &peer(1));
    chat.on_swarm_event(SwarmNotification::ConnectionClosed { peer_id: peer(1), remaining_established: 0 });
    assert!(!chat.is_connected(&peer(1)));
    assert!(drain(&mut chat).is_empty());
    chat.on_swarm_event(SwarmNotification::Other);
    assert!(drain(&mut chat).is_empty());
}

/// A behaviour subscribed to "chat", connected to targets 1 and 2, both subscribed to "chat",
/// and to target 3, subscribed to nothing.
fn network() -> Chat {
    let mut chat = Chat::new(peer(0));
    chat.subscribe(topic("chat"));
    for p in 1..4 {
        chat.add_node_to_partial_view(peer(p));
        connect(&mut chat, &peer(p));
    }
    chat.on_connection_handler_event(peer(1), InnerMessage::Rx(sub_rpc("chat", ChatSubscriptionAction::Subscribe)));
    chat.on_connection_handler_event(peer(2), InnerMessage::Rx(sub_rpc("chat", ChatSubscriptionAction::Subscribe)));
    drain(&mut chat);
    chat
}

#[test]
fn remote_subscription_is_reported() {
    let mut chat = Chat::new(peer(0));
    connect(&mut chat, &peer(1));
    chat.on_connection_handler_event(peer(1), InnerMessage::Rx(sub_rpc("chat", ChatSubscriptionAction::Subscribe)));
    chat.on_connection_handler_event(peer(1), InnerMessage::Rx(sub_rpc("chat", ChatSubscriptionAction::Unsubscribe)));
    assert_eq!(
        drain(&mut chat),
        vec![
            ChatAction::GenerateEvent(ChatEvent::Subscribed { peer_id: peer(1), topic: topic("chat") }),
            ChatAction::GenerateEvent(ChatEvent::Unsubscribed { peer_id: peer(1), topic: topic("chat") }),
        ]
    );
}

#[test]
fn sent_event_changes_nothing() {
    let mut chat = network();
    chat.on_connection_handler_event(peer(1), InnerMessage::Sent);
    assert!(drain(&mut chat).is_empty());
}

#[test]
fn publish_sends_to_subscribed_targets() {
    let mut chat = network();
    chat.publish("alice", None, topic("chat"), b"hello".to_vec());
    let actions = drain(&mut chat);
    assert_eq!(actions.len(), 2);
    let mut seq = None;
    for (a, p) in actions.iter().zip([peer(1), peer(2)]) {
        match a {
            ChatAction::NotifyHandler { peer_id, event } => {
                assert_eq!(peer_id, &p);
                assert!(event.subscriptions.is_empty());
                assert_eq!(event.messages.len(), 1);
                let m = &event.messages[0];
                assert_eq!(m.source, peer(0));
                assert_eq!(m.source_name, "alice");
                assert_eq!(m.to_name, None);
                assert_eq!(m.data, b"hello".to_vec());
                assert_eq!(m.sequence_number.len(), 20);
                assert_eq!(m.topics, vec![topic("chat")]);
                if let Some(s) = &seq {
                    assert_eq!(s, &m.sequence_number);
                }
                seq = Some(m.sequence_number.clone());
            }
            other => panic!("unexpected {:?}", other),
        }
    }
}

#[test]
fn publish_on_unsubscribed_topic_does_nothing() {
    let mut chat = network();
    chat.publish("alice", None, topic("other"), b"hello".to_vec());
    chat.publish_many("alice", Some("bob"), vec![topic("x"), topic("y")], b"hello".to_vec());
    assert!(drain(&mut chat).is_empty());
}

#[test]
fn publish_any_sends_without_our_subscription() {
    let mut chat = Chat::new(peer(0));
    chat.add_node_to_partial_view(peer(1));
    connect(&mut chat, &peer(1));
    chat.on_connection_handler_event(peer(1), InnerMessage::Rx(sub_rpc("news", ChatSubscriptionAction::Subscribe)));
    drain(&mut chat);
    chat.publish_any("alice", Some("bob"), topic("news"), b"x".to_vec());
    let actions = drain(&mut chat);
    assert_eq!(actions.len(), 1);
    match &actions[0] {
        ChatAction::NotifyHandler { peer_id, event } => {
            assert_eq!(peer_id, &peer(1));
            assert_eq!(event.messages[0].to_name, Some("bob".to_string()));
        }
        other => panic!("unexpected {:?}", other),
    }
}

#[test]
fn publish_many_any_matches_any_topic() {
    let mut chat = network();
    chat.publish_many_any("alice", None, vec![topic("nope"), topic("chat")], b"x".to_vec());
    assert_eq!(drain(&mut chat).len(), 2);
}

#[test]
fn publish_to_non_target_is_not_sent() {
    let mut chat = network();
    chat.remove_node_from_partial_view(&peer(2));
    chat.publish("alice", None, topic("chat"), b"x".to_vec());
    let actions = drain(&mut chat);
    assert_eq!(actions.len(), 1);
    assert!(matches!(&actions[0], ChatAction::NotifyHandler { peer_id, .. } if peer_id == &peer(1)));
}

#[test]
fn local_messages_reported_when_configured() {
    let mut chat = Chat::from_config(ChatConfig { local_peer_id: peer(0), subscribe_local_messages: true });
    chat.subscribe(topic("chat"));
    chat.publish("alice", None, topic("chat"), b"me".to_vec());
    let actions = drain(&mut chat);
    assert_eq!(actions.len(), 1);
    match &actions[0] {
        ChatAction::GenerateEvent(ChatEvent::Message(m)) => {
            assert_eq!(m.data, b"me".to_vec());
            assert_eq!(m.source, peer(0));
        }
        other => panic!("unexpected {:?}", other),
    }
}

#[test]
fn received_message_is_reported_and_forwarded_but_not_echoed() {
    let mut chat = network();
    let m = msg_from(&peer(9), "carol", "chat", b"hey", 1);
    chat.on_connection_handler_event(
        peer(1),
        InnerMessage::Rx(ChatRpc { messages: vec![m.duplicate()], subscriptions: vec![] }),
    );
    assert_eq!(
        drain(&mut chat),
        vec![
            ChatAction::GenerateEvent(ChatEvent::Message(m.duplicate())),
            ChatAction::NotifyHandler {
                peer_id: peer(2),
                event: ChatRpc { messages: vec![m], subscriptions: vec![] },
            },
        ]
    );
}

#[test]
fn received_duplicate_is_dropped() {
    let mut chat = network();
    let m = msg_from(&peer(9), "carol", "chat", b"hey", 1);
    let rpc = ChatRpc { messages: vec![m.duplicate()], subscriptions: vec![] };
    chat.on_connection_handler_event(peer(1), InnerMessage::Rx(rpc.clone()));
    assert_eq!(drain(&mut chat).len(), 2);
    chat.on_connection_handler_event(peer(2), InnerMessage::Rx(rpc));
    assert!(drain(&mut chat).is_empty());
}

#[test]
fn messages_for_one_peer_share_one_rpc() {
    let mut chat = network();
    let a = msg_from(&peer(9), "carol", "chat", b"a", 1);
    let b = msg_from(&peer(9), "carol", "chat", b"b", 2);
    let c = msg_from(&peer(9), "carol", "other", b"c", 3);
    chat.handle_rpc(
        &peer(1),
        ChatRpc { messages: vec![a.duplicate(), b.duplicate(), c], subscriptions: vec![] },
        &vec![true, true, true],
    );
    assert_eq!(
        drain(&mut chat),
        vec![
            ChatAction::GenerateEvent(ChatEvent::Message(a.duplicate())),
            ChatAction::GenerateEvent(ChatEvent::Message(b.duplicate())),
            ChatAction::NotifyHandler {
                peer_id: peer(2),
                event: ChatRpc { messages: vec![a, b], subscriptions: vec![] },
            },
        ]
    );
}

#[test]
fn seen_messages_are_skipped_by_handle_rpc() {
    let mut chat = network();
    let a = msg_from(&peer(9), "carol", "chat", b"a", 1);
    chat.handle_rpc(
        &peer(1),
        ChatRpc {
            messages: vec![a],
            subscriptions: vec![ChatSubscription { action: ChatSubscriptionAction::Subscribe, topic: topic("x") }],
        },
        &vec![false],
    );
    assert_eq!(
        drain(&mut chat),
        vec![ChatAction::GenerateEvent(ChatEvent::Subscribed { peer_id: peer(1), topic: topic("x") })]
    );
}

#[test]
fn subscription_in_same_rpc_routes_its_messages() {
    // Peer 3 sends a subscription and a message in one RPC: the subscription is recorded
    // before the message is passed on, and the message is not sent back to peer 3.
    let mut chat = network();
    let m = msg_from(&peer(9), "carol", "chat", b"m", 7);
    chat.on_connection_handler_event(
        peer(3),
        InnerMessage::Rx(ChatRpc {
            messages: vec![m.duplicate()],
            subscriptions: vec![ChatSubscription { action: ChatSubscriptionAction::Subscribe, topic: topic("chat") }],
        }),
    );
    let actions = drain(&mut chat);
    assert_eq!(actions.len(), 4);
    assert_eq!(actions[0], ChatAction::GenerateEvent(ChatEvent::Subscribed { peer_id: peer(3), topic: topic("chat") }));
    assert_eq!(actions[1], ChatAction::GenerateEvent(ChatEvent::Message(m.duplicate())));
    assert_eq!(
        actions[2],
        ChatAction::NotifyHandler { peer_id: peer(1), event: ChatRpc { messages: vec![m.duplicate()], subscriptions: vec![] } }
    );
    assert_eq!(
        actions[3],
        ChatAction::NotifyHandler { peer_id: peer(2), event: ChatRpc { messages: vec![m], subscriptions: vec![] } }
    );
}

#[test]
fn inner_message_from_conversions() {
    let rpc = ChatRpc { messages: vec![], subscriptions: vec![] };
    assert!(matches!(InnerMessage::from(rpc), InnerMessage::Rx(_)));
    assert!(matches!(InnerMessage::from(()), InnerMessage::Sent));
}

#[test]
fn published_message_is_recorded_and_dropped_when_it_comes_back() {
    let mut chat = network();
    let recorded = chat.publish_with_sequence_number(
        "alice",
        None,
        vec![topic("chat")],
        b"mine".to_vec(),
        vec![4; 20],
        true,
    );
    assert!(matches!(recorded, Some(Ok(()))));
    assert_eq!(drain(&mut chat).len(), 2);
    let echo = ChatMessage {
        source: peer(0),
        source_name: "alice".to_string(),
        to_name: None,
        data: b"mine".to_vec(),
        sequence_number: vec![4; 20],
        topics: vec![topic("chat")],
    };
    chat.on_connection_handler_event(
        peer(1),
        InnerMessage::Rx(ChatRpc { messages: vec![echo], subscriptions: vec![] }),
    );
    assert!(drain(&mut chat).is_empty());
}

#[test]
fn message_off_our_topics_is_not_recorded() {
    let mut chat = network();
    let recorded = chat.publish_with_sequence_number(
        "alice",
        None,
        vec![topic("other")],
        b"x".to_vec(),
        vec![5; 20],
        false,
    );
    assert!(recorded.is_none());
}

#[test]
fn repeated_message_in_one_rpc_is_dispatched_once() {
    let mut chat = network();
    let m = msg_from(&peer(9), "carol", "chat", b"twice", 8);
    chat.on_connection_handler_event(
        peer(1),
        InnerMessage::Rx(ChatRpc { messages: vec![m.duplicate(), m.duplicate()], subscriptions: vec![] }),
    );
    assert_eq!(
        drain(&mut chat),
        vec![
            ChatAction::GenerateEvent(ChatEvent::Message(m.duplicate())),
            ChatAction::NotifyHandler { peer_id: peer(2), event: ChatRpc { messages: vec![m], subscriptions: vec![] } },
        ]
    );
}
