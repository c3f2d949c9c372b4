use p2p_chat::topic::Topic;
use std::str::FromStr;

#[test]
fn topic_id_is_its_name() {
    let t = Topic::new("chat".to_string());
    assert_eq!(t.id(), "chat");
}

#[test]
fn topic_into_string() {
    let t = Topic::new("news".to_string());
    assert_eq!(String::from(t.duplicate()), "news");
    assert_eq!(t.into_string(), "news");
}

#[test]
fn topic_from_str() {
    let t = Topic::from_str("abc").unwrap();
    assert_eq!(t.id(), "abc");
    let u: Topic = "abc".parse().unwrap();
    assert!(t == u);
}

#[test]
fn topic_equality() {
    let a = Topic::new("a".to_string());
    let b = Topic::new("b".to_string());
    assert!(a.same(&a.duplicate()));
    assert!(!a.same(&b));
    assert!(a != b);
    assert!(a == a.clone());
}
