use nkv::errors::SerializingError;
use nkv::request_msg::{BaseMessage, BaseResp, PutMessage, ServerRequest, ServerResponse};
use nkv::{read_reply, request_line, subscription_request, ClientAction, NkvClient, NkvClientError};

fn is_request_id(s: &str) -> bool {
    let prefix = "rust-nkv-client-";
    if !s.starts_with(prefix) || s.len() != prefix.len() + 36 {
        return false;
    }
    let u: Vec<char> = s[prefix.len()..].chars().collect();
    u[14] == '4'
        && "89ab".contains(u[19])
        && u.iter().enumerate().all(|(i, c)| {
            if i == 8 || i == 13 || i == 18 || i == 23 {
                *c == '-'
            } else {
                c.is_ascii_digit() || ('a'..='f').contains(c)
            }
        })
}

#[test]
fn new_client_has_a_fresh_id_and_no_subscriptions() {
    let a = NkvClient::new("/tmp/nkv.sock");
    let b = NkvClient::new("/tmp/nkv.sock");
    assert_eq!(a.addr(), "/tmp/nkv.sock");
    assert!(is_request_id(a.client_uuid()));
    assert_ne!(a.client_uuid(), b.client_uuid());
    match a.unsubscribe_action("k".to_string()) {
        ClientAction::Answer(ServerResponse::Base(r)) => {
            assert_eq!(r.id, "0");
            assert!(!r.status);
        },
        _ => panic!("expected a local answer"),
    }
}

#[test]
fn requests_carry_a_fresh_id_and_the_client_id() {
    let c = NkvClient::new("sock");
    match c.get_request("key1".to_string()) {
        ServerRequest::Get(b) => {
            assert!(is_request_id(&b.id));
            assert_ne!(b.id, c.client_uuid());
            assert_eq!(b.client_uuid, c.client_uuid());
            assert_eq!(b.key, "key1");
        },
        _ => panic!("expected GET"),
    }
    match c.put_request("key1".to_string(), vec![1, 2]) {
        ServerRequest::Put(PutMessage { base, value }) => {
            assert!(is_request_id(&base.id));
            assert_eq!(base.client_uuid, c.client_uuid());
            assert_eq!(value, vec![1, 2]);
        },
        _ => panic!("expected PUT"),
    }
    match c.delete_request("key1".to_string()) {
        ServerRequest::Delete(b) => assert_eq!(b.key, "key1"),
        _ => panic!("expected DEL"),
    }
}

#[test]
fn a_key_is_subscribed_once_and_unsubscribed_under_its_request_id() {
    let mut c = NkvClient::new("sock");
    let (request, reply) = c.record_subscription("k".to_string());
    let sub_id = match request {
        Some(ServerRequest::Subscribe(b)) => {
            assert_eq!(b.key, "k");
            assert_eq!(b.client_uuid, c.client_uuid());
            assert!(is_request_id(&b.id));
            b.id
        },
        _ => panic!("expected a SUB request"),
    };
    match reply {
        ServerResponse::Base(r) => {
            assert_eq!(r.id, c.client_uuid());
            assert!(r.status);
        },
        _ => panic!("expected a base reply"),
    }
    match c.unsubscribe_action("k".to_string()) {
        ClientAction::Send(ServerRequest::Unsubscribe(b)) => {
            assert_eq!(b.key, "k");
            assert_eq!(b.client_uuid, c.client_uuid());
            assert_eq!(b.id, sub_id);
        },
        _ => panic!("expected an UNSUB request"),
    };
    let (again, reply) = c.record_subscription("k".to_string());
    assert!(again.is_none());
    match reply {
        ServerResponse::Base(r) => {
            assert_eq!(r.id, sub_id);
            assert!(!r.status);
        },
        _ => panic!("expected a base reply"),
    }
}

#[test]
fn subscription_request_carries_its_fields() {
    let r = subscription_request("R", "K", "C");
    assert_eq!(r, ServerRequest::Subscribe(BaseMessage { id: "R".to_string(), key: "K".to_string(), client_uuid: "C".to_string() }));
    assert_eq!(request_line(&r), "SUB R C K\n");
}

#[test]
fn request_line_ends_the_text_with_a_newline() {
    let r = ServerRequest::Put(PutMessage {
        base: BaseMessage { id: "1".to_string(), key: "k".to_string(), client_uuid: "c".to_string() },
        value: vec![1, 2, 3],
    });
    assert_eq!(request_line(&r), "PUT 1 c k AQID\n");
}

#[test]
fn read_reply_drops_the_line_end() {
    match read_reply("abc OK\n") {
        Ok(ServerResponse::Base(b)) => {
            assert_eq!(b.id, "abc");
            assert!(b.status);
        },
        _ => panic!("expected a base reply"),
    }
    match read_reply("abc FAILED \r\n") {
        Ok(r) => assert_eq!(r, ServerResponse::Base(BaseResp { id: "x".to_string(), status: false })),
        Err(_) => panic!("expected a reply"),
    }
    match read_reply("abc OK AQID\n") {
        Ok(ServerResponse::Data(d)) => assert_eq!(d.data, vec![vec![1u8, 2, 3]]),
        _ => panic!("expected a data reply"),
    }
    match read_reply("abc OK AQID BAU= Bg==\n") {
        Ok(ServerResponse::Data(d)) => {
            assert_eq!(d.base.id, "abc");
            assert_eq!(d.data, vec![vec![1u8, 2, 3], vec![4, 5], vec![6]]);
        },
        _ => panic!("expected a data reply with three values"),
    }
    assert!(matches!(read_reply("\n"), Err(SerializingError::UnknownCommand)));
}

#[test]
fn client_error_message() {
    assert_eq!(NkvClientError::SubscriptionNotFound("k".to_string()).message(), "Subscription not found k");
}
