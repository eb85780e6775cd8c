use nkv::errors::NotifierError;
use nkv::notifier::{message_line, ClientRegistry, StateBuf};
use nkv::request_msg::Message;

#[test]
fn pop_returns_the_last_stored_value() {
    let mut b: StateBuf<u32> = StateBuf::new();
    b.store(1);
    b.store(2);
    assert_eq!(b.pop(), Some(2));
    assert_eq!(b.pop(), None);
    b.store(3);
    assert_eq!(b.pop(), Some(3));
}

#[test]
fn pop_alternates_between_slots() {
    let mut b: StateBuf<&str> = StateBuf::new();
    assert_eq!(b.pop(), None);
    b.store("x");
    assert_eq!(b.pop(), Some("x"));
    assert_eq!(b.pop(), None);
}

#[test]
fn registry_holds_each_id_once() {
    let mut r: ClientRegistry<u8> = ClientRegistry::new();
    r.insert("a".to_string(), 1);
    r.insert("b".to_string(), 2);
    r.insert("a".to_string(), 3);
    let mut ids = r.ids();
    ids.sort();
    assert_eq!(ids, vec!["a".to_string(), "b".to_string()]);
    assert!(r.contains("a"));
    assert_eq!(r.take("a"), Some(3));
    assert_eq!(r.take("a"), None);
    assert!(!r.contains("a"));
    let all = r.drain();
    assert_eq!(all, vec![("b".to_string(), 2)]);
    assert!(r.ids().is_empty());
}

#[test]
fn message_line_frames_the_text() {
    assert_eq!(message_line(&Message::Hello), "HELLO\n");
    assert_eq!(message_line(&Message::Close { key: "k".to_string() }), "CLOSE k\n");
    assert_eq!(message_line(&Message::Update { key: "k".to_string(), value: vec![1, 2, 3] }), "UPDATE k AQID\n");
}

#[test]
fn notifier_error_messages() {
    assert_eq!(NotifierError::SubscriptionNotFound.message(), "Subscription not found");
    let e = std::io::Error::new(std::io::ErrorKind::Other, "pipe");
    assert_eq!(NotifierError::FailedToWriteMessage(e).message(), "Failed to Write Message: pipe");
    let e = std::io::Error::new(std::io::ErrorKind::Other, "pipe");
    assert_eq!(NotifierError::FailedToFlushMessage(e).message(), "Failed to Flush Message: pipe");
    let e = std::io::Error::new(std::io::ErrorKind::Other, "pipe");
    assert_eq!(NotifierError::IoError(e).message(), "IoError: pipe");
}

#[test]
fn pop_after_any_sequence_gives_the_latest_value_since_the_last_pop() {
    let mut b: StateBuf<u32> = StateBuf::new();
    assert_eq!(b.pop(), None);
    b.store(1);
    b.store(2);
    assert_eq!(b.pop(), Some(2));
    assert_eq!(b.pop(), None);
    b.store(3);
    b.store(4);
    b.store(5);
    assert_eq!(b.pop(), Some(5));
    b.store(6);
    assert_eq!(b.pop(), Some(6));
    assert_eq!(b.pop(), None);
}
