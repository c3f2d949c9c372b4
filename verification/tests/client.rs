use p2p_chat::client::{
    chat_topic, chat_topic_name, dial_address, display_line, floodsub_plan, format_line,
    listen_address, listen_multiaddr, parse_input_line, public_topic_name, ChatConfig,
    FloodsubSend,
};
use p2p_chat::peer::PeerId;
use p2p_chat::protocol::ChatMessage;

fn peer(fill: u8) -> PeerId {
    let mut b = vec![0x12, 0x20];
    b.extend(std::iter::repeat(fill).take(32));
    PeerId::from_bytes(&b).unwrap()
}

#[test]
fn config_defaults() {
    let c = ChatConfig::new(peer(1));
    assert_eq!(c.local_peer_id, peer(1));
    assert!(!c.subscribe_local_messages);
}

#[test]
fn plain_line_goes_to_all() {
    assert_eq!(parse_input_line("hello world"), (None, "hello world"));
    assert_eq!(parse_input_line(""), (None, ""));
    assert_eq!(parse_input_line(" @bob hi"), (None, " @bob hi"));
}

#[test]
fn addressed_line() {
    assert_eq!(parse_input_line("@bob hi there"), (Some("bob"), "hi there"));
    assert_eq!(parse_input_line("@@bob hi"), (Some("bob"), "hi"));
    assert_eq!(parse_input_line("@bob"), (Some("bob"), ""));
    assert_eq!(parse_input_line("@bob "), (Some("bob"), ""));
    assert_eq!(parse_input_line("@ hi"), (Some(""), "hi"));
    assert_eq!(parse_input_line("@b@b x"), (Some("b@b"), "x"));
}

#[test]
fn addressed_line_with_unicode() {
    assert_eq!(parse_input_line("@émile ça va ?"), (Some("émile"), "ça va ?"));
    assert_eq!(parse_input_line("@日本 こんにちは"), (Some("日本"), "こんにちは"));
}

#[test]
fn parse_agrees_with_std_split() {
    for line in ["@a b c", "@@x", "plain", "@", "@ ", "@é", "@x  y"] {
        let expected = if line.starts_with('@') {
            let mut parts = line.splitn(2, ' ');
            let to = parts.next().unwrap().trim_start_matches('@');
            (Some(to), parts.next().unwrap_or(""))
        } else {
            (None, line)
        };
        assert_eq!(parse_input_line(line), expected, "line {:?}", line);
    }
}

fn message(to_name: Option<&str>, data: &[u8]) -> ChatMessage {
    ChatMessage {
        source: peer(1),
        source_name: "alice".to_string(),
        to_name: to_name.map(|s| s.to_string()),
        data: data.to_vec(),
        sequence_number: vec![0; 20],
        topics: vec![],
    }
}

#[test]
fn display_to_all() {
    assert_eq!(display_line(&message(None, b"hi")), "alice -> all: hi");
}

#[test]
fn display_to_one() {
    assert_eq!(display_line(&message(Some("bob"), "ça".as_bytes())), "alice -> bob: ça");
}

#[test]
fn display_replaces_invalid_utf8() {
    assert_eq!(display_line(&message(None, &[b'a', 0xff, b'b'])), "alice -> all: a\u{FFFD}b");
}

#[test]
fn floodsub_topics() {
    assert_eq!(chat_topic_name("bob"), "chat_bob");
    assert_eq!(public_topic_name(), "chat_public");
}

#[test]
fn floodsub_line_plans() {
    match floodsub_plan("@@bob hi there") {
        FloodsubSend::Private { topic, msg } => {
            assert_eq!(topic, "chat_bob");
            assert_eq!(msg, "hi there");
        }
        other => panic!("unexpected {:?}", other),
    }
    assert!(matches!(floodsub_plan("@bob"), FloodsubSend::Nothing));
    assert!(matches!(floodsub_plan("hello"), FloodsubSend::Public { msg: "hello" }));
    assert!(matches!(floodsub_plan(""), FloodsubSend::Public { msg: "" }));
}

#[test]
fn client_topic_and_address() {
    assert_eq!(chat_topic().id(), "chat");
    assert_eq!(listen_address(None), "/ip4/0.0.0.0/tcp/0");
    assert_eq!(listen_address(Some("/ip4/127.0.0.1/tcp/4000")), "/ip4/127.0.0.1/tcp/4000");
}

#[test]
fn format_line_builds_the_line() {
    assert_eq!(format_line("alice", None, "hi"), "alice -> all: hi");
    assert_eq!(format_line("alice", Some("bob"), ""), "alice -> bob: ");
}

#[test]
fn addresses_parse() {
    let a = dial_address("/ip4/127.0.0.1/tcp/4000").unwrap();
    assert_eq!(a.to_string(), "/ip4/127.0.0.1/tcp/4000");
    assert!(dial_address("ip4/127.0.0.1").is_err());
    assert!(dial_address("/nope/1").is_err());
    assert_eq!(listen_multiaddr(None).unwrap().to_string(), "/ip4/0.0.0.0/tcp/0");
    assert_eq!(
        listen_multiaddr(Some("/ip4/127.0.0.1/tcp/5000")).unwrap().to_string(),
        "/ip4/127.0.0.1/tcp/5000"
    );
    assert!(listen_multiaddr(Some("tcp")).is_err());
}
