use nkv::errors::NotifyKeyValueError;
use nkv::request_msg::{BaseMessage, DataResp, BaseResp, ServerRequest, ServerResponse};
use nkv::srv::{base_reply, outcome, read_request, reply_line, succeeded, NkvGetResp};

#[test]
fn a_read_that_finds_values_succeeds() {
    let resp = NkvGetResp::from_entries(vec![("key1".to_string(), vec![1, 2, 3, 4, 5])]);
    assert!(matches!(resp.err(), NotifyKeyValueError::NoError));
    assert_eq!(resp.value(), &vec![("key1".to_string(), vec![1u8, 2, 3, 4, 5])]);
    match resp.into_reply("r1".to_string()) {
        ServerResponse::Data(d) => {
            assert_eq!(d.base.id, "r1");
            assert!(d.base.status);
            assert_eq!(d.data, vec![vec![1u8, 2, 3, 4, 5]]);
        },
        _ => panic!("expected a data reply"),
    }
}

#[test]
fn a_read_that_finds_nothing_is_not_found() {
    let resp = NkvGetResp::from_entries(Vec::new());
    assert!(matches!(resp.err(), NotifyKeyValueError::NotFound));
    assert!(resp.value().is_empty());
    let reply = resp.into_reply("r2".to_string());
    assert_eq!(reply_line(&reply), "r2 FAILED\n");
}

#[test]
fn outcomes_map_to_statuses() {
    assert!(matches!(outcome(Ok(())), NotifyKeyValueError::NoError));
    assert!(matches!(outcome(Err(NotifyKeyValueError::NotFound)), NotifyKeyValueError::NotFound));
    assert!(succeeded(&NotifyKeyValueError::NoError));
    assert!(!succeeded(&NotifyKeyValueError::NotFound));
    match base_reply("7".to_string(), &NotifyKeyValueError::NoError) {
        ServerResponse::Base(b) => {
            assert_eq!(b.id, "7");
            assert!(b.status);
        },
        _ => panic!("expected a base reply"),
    }
    let io = std::io::Error::new(std::io::ErrorKind::Other, "x");
    match base_reply("8".to_string(), &NotifyKeyValueError::IoError(io)) {
        ServerResponse::Base(b) => assert!(!b.status),
        _ => panic!("expected a base reply"),
    }
}

#[test]
fn request_lines_are_read_without_their_line_end() {
    match read_request("GET 1 c key1\n") {
        Some(Ok(r)) => assert_eq!(
            r,
            ServerRequest::Get(BaseMessage { id: "1".to_string(), key: "key1".to_string(), client_uuid: "c".to_string() })
        ),
        _ => panic!("expected a request"),
    }
    assert!(read_request("PUT 1 c key1 !!!\n").is_none());
    assert!(matches!(read_request("NOPE 1 c k\n"), Some(Err(_))));
}

#[test]
fn reply_line_frames_the_text() {
    let reply = ServerResponse::Data(DataResp {
        base: BaseResp { id: "5".to_string(), status: true },
        data: vec![vec![1, 2, 3]],
    });
    assert_eq!(reply_line(&reply), "5 OK AQID\n");
    assert_eq!(reply_line(&ServerResponse::Base(BaseResp { id: "6".to_string(), status: true })), "6 OK\n");
}

#[test]
fn a_reply_with_several_values_reads_back() {
    let reply = ServerResponse::Data(DataResp {
        base: BaseResp { id: "9".to_string(), status: true },
        data: vec![vec![1, 2, 3], vec![4, 5], vec![6]],
    });
    let line = reply_line(&reply);
    assert_eq!(line, "9 OK AQID BAU= Bg==\n");
    match nkv::read_reply(&line) {
        Ok(ServerResponse::Data(d)) => {
            assert_eq!(d.base.id, "9");
            assert_eq!(d.data, vec![vec![1u8, 2, 3], vec![4, 5], vec![6]]);
        },
        _ => panic!("expected a data reply"),
    }
}

struct NoDisk;

impl nkv::traits::StorageEngine for NoDisk {
    fn put(&mut self, _key: &str, _data: Vec<u8>) -> std::io::Result<()> {
        Ok(())
    }

    fn get(&self, _key: &str) -> Vec<(String, Vec<u8>)> {
        Vec::new()
    }

    fn delete(&self, _key: &str) -> std::io::Result<()> {
        Ok(())
    }
}

#[test]
fn a_subscription_opens_the_store_only_where_no_notifier_listens() {
    let mut store = nkv::nkv::NkvStorage::new(NoDisk);
    let mut listening: nkv::notifier::ClientRegistry<u8> = nkv::notifier::ClientRegistry::new();
    let first = nkv::srv::route_subscription(&mut store, &listening, "k", "u1".to_string());
    assert!(matches!(first, Some(Ok(_))));
    listening.insert("k".to_string(), 0);
    let second = nkv::srv::route_subscription(&mut store, &listening, "k", "u2".to_string());
    assert!(second.is_none());
    assert_eq!(store.get("k"), vec![Vec::<u8>::new()]);
}

#[test]
fn a_repeated_subscription_is_refused_by_the_store() {
    let mut store = nkv::nkv::NkvStorage::new(NoDisk);
    let listening: nkv::notifier::ClientRegistry<u8> = nkv::notifier::ClientRegistry::new();
    let _first = nkv::srv::route_subscription(&mut store, &listening, "k", "u1".to_string());
    let again = nkv::srv::route_subscription(&mut store, &listening, "k", "u1".to_string());
    assert!(matches!(again, Some(Err(NotifyKeyValueError::NotificationError(_)))));
}

#[test]
fn a_read_of_a_stored_key_answers_with_the_key_and_its_value() {
    let mut store = nkv::nkv::NkvStorage::new(NoDisk);
    store.put("key1", vec![1, 2, 3, 4, 5]).unwrap();
    let resp = NkvGetResp::from_entries(store.get_entries("key1"));
    assert!(matches!(resp.err(), NotifyKeyValueError::NoError));
    assert_eq!(resp.value(), &vec![("key1".to_string(), vec![1u8, 2, 3, 4, 5])]);
}

#[test]
fn a_wildcard_read_answers_with_each_key_below_the_prefix() {
    let mut store = nkv::nkv::NkvStorage::new(NoDisk);
    store.put("a.b", vec![1]).unwrap();
    store.put("a.c.d", vec![2]).unwrap();
    store.put("x", vec![3]).unwrap();
    let mut got = store.get_entries("a.*");
    got.sort();
    assert_eq!(got, vec![("a.b".to_string(), vec![1u8]), ("a.c.d".to_string(), vec![2u8])]);
    assert!(store.get_entries("missing").is_empty());
}
