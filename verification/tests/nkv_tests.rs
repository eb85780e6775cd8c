use std::cell::RefCell;
use std::rc::Rc;

use nkv::errors::NotifyKeyValueError;
use nkv::nkv::{Message, NkvStorage, Notification, NotificationError};
use nkv::traits::StorageEngine;

/// An engine that keeps values in memory, shared with the test through
/// `saved`, and can be told to refuse new writes.
struct MemStorage {
    saved: Rc<RefCell<Vec<(String, Vec<u8>)>>>,
    refuse: bool,
}

impl MemStorage {
    fn new() -> (Self, Rc<RefCell<Vec<(String, Vec<u8>)>>>) {
        let saved = Rc::new(RefCell::new(Vec::new()));
        (MemStorage { saved: Rc::clone(&saved), refuse: false }, saved)
    }
}

impl StorageEngine for MemStorage {
    fn put(&mut self, key: &str, data: Vec<u8>) -> std::io::Result<()> {
        if self.refuse {
            return Err(std::io::Error::new(std::io::ErrorKind::Other, "disk full"));
        }
        let mut saved = self.saved.borrow_mut();
        saved.retain(|(k, _)| k != key);
        saved.push((key.to_string(), data));
        Ok(())
    }

    fn get(&self, key: &str) -> Vec<(String, Vec<u8>)> {
        self.saved.borrow().iter().filter(|(k, _)| k == key).cloned().collect()
    }

    fn delete(&self, key: &str) -> std::io::Result<()> {
        self.saved.borrow_mut().retain(|(k, _)| k != key);
        Ok(())
    }
}

fn store() -> NkvStorage<MemStorage> {
    NkvStorage::new(MemStorage::new().0)
}

#[test]
fn test_put_and_get() {
    let mut nkv = store();
    let data: Vec<u8> = vec![1, 2, 3, 4, 5];
    nkv.put("key1", data.clone()).unwrap();

    let result = nkv.get("key1");
    assert_eq!(result, vec![data]);
}

#[test]
fn test_get_nonexistent_key() {
    let nkv = store();
    let result = nkv.get("nonexistent_key");
    assert_eq!(result, Vec::<Vec<u8>>::new());
}

#[test]
fn test_delete() {
    let mut nkv = store();
    let data: Vec<u8> = vec![1, 2, 3, 4, 5];
    nkv.put("key1", data.clone()).unwrap();

    nkv.delete("key1").unwrap();
    let result = nkv.get("key1");
    assert_eq!(result, Vec::<Vec<u8>>::new());
}

#[test]
fn test_update_value() {
    let mut nkv = store();
    let data: Vec<u8> = vec![1, 2, 3, 4, 5];
    nkv.put("key1", data).unwrap();

    let new_data: Vec<u8> = vec![5, 6, 7, 8, 9];
    nkv.put("key1", new_data.clone()).unwrap();

    let result = nkv.get("key1");
    assert_eq!(result, vec![new_data]);
}

#[test]
fn test_load_nkv() {
    let data1: Vec<u8> = vec![1, 2, 3, 4, 5];
    let data2: Vec<u8> = vec![5, 6, 7, 8, 9];
    let data3: Vec<u8> = vec![10, 11, 12, 13, 14];

    let (engine, saved) = MemStorage::new();
    {
        let mut nkv = NkvStorage::new(engine);
        nkv.put("key1", data1.clone()).unwrap();
        nkv.put("key2", data2.clone()).unwrap();
        nkv.put("key3", data3.clone()).unwrap();
    }

    let (engine, _) = MemStorage::new();
    let nkv = NkvStorage::load(engine, saved.borrow().clone());

    assert_eq!(nkv.get("key1"), vec![data1]);
    assert_eq!(nkv.get("key2"), vec![data2]);
    assert_eq!(nkv.get("key3"), vec![data3]);
}

#[test]
fn test_subsribe() {
    let mut nkv = store();
    nkv.put("key1", vec![1, 2, 3, 4, 5]).unwrap();

    let mut rx = nkv.subscribe("key1", "uuid1".to_string()).unwrap();
    match rx.try_recv() {
        Ok(msg) => assert_eq!(msg, Message::Hello),
        Err(_) => panic!("Should recieve msg"),
    }

    let new_data: Vec<u8> = vec![5, 6, 7, 8, 9];
    nkv.put("key1", new_data.clone()).unwrap();

    match rx.try_recv() {
        Ok(msg) => assert_eq!(msg, Message::Update { key: "key1".to_string(), value: new_data.clone() }),
        Err(_) => panic!("Should recieve msg"),
    }

    assert_eq!(nkv.get("key1"), vec![new_data]);
}

#[test]
fn test_unsubsribe() {
    let mut nkv = store();
    nkv.put("key1", vec![1, 2, 3, 4, 5]).unwrap();

    let mut rx = nkv.subscribe("key1", "uuid1".to_string()).unwrap();
    match rx.try_recv() {
        Ok(msg) => assert_eq!(msg, Message::Hello),
        Err(_) => panic!("Should recieve msg"),
    }
    nkv.unsubscribe("key1", "uuid1".to_string()).unwrap();

    match rx.try_recv() {
        Ok(msg) => assert_eq!(msg, Message::Close { key: "key1".to_string() }),
        Err(_) => panic!("Should recieve msg"),
    }
}

#[test]
fn test_notification() {
    let mut n = Notification::new();

    let mut rx = n.subscribe("uuid1".to_string()).unwrap();
    match rx.try_recv() {
        Ok(msg) => assert_eq!(msg, Message::Hello),
        Err(_) => panic!("Should recieve msg"),
    }

    n.send_hello().unwrap();
    match rx.try_recv() {
        Ok(msg) => assert_eq!(msg, Message::Hello),
        Err(_) => panic!("Should recieve msg"),
    }

    let data: Vec<u8> = vec![1, 2, 3, 4, 5];
    n.send_update("key1".to_string(), data.clone()).unwrap();
    match rx.try_recv() {
        Ok(msg) => assert_eq!(msg, Message::Update { key: "key1".to_string(), value: data.clone() }),
        Err(_) => panic!("Should recieve msg"),
    }

    n.send_close("key1".to_string()).unwrap();
    match rx.try_recv() {
        Ok(msg) => assert_eq!(msg, Message::Close { key: "key1".to_string() }),
        Err(_) => panic!("Should recieve msg"),
    }
}

#[test]
fn put_persists_each_new_key_through_the_engine() {
    let (engine, saved) = MemStorage::new();
    let mut nkv = NkvStorage::new(engine);
    nkv.put("a.b", vec![7]).unwrap();
    nkv.put("a.b", vec![8]).unwrap();
    assert_eq!(*saved.borrow(), vec![("a.b".to_string(), vec![8u8])]);
}

#[test]
fn refused_write_of_a_new_key_leaves_the_store_unchanged() {
    let (mut engine, _) = MemStorage::new();
    engine.refuse = true;
    let mut nkv = NkvStorage::new(engine);
    let r = nkv.put("key1", vec![1]);
    assert!(matches!(r, Err(NotifyKeyValueError::IoError(_))));
    assert_eq!(nkv.get("key1"), Vec::<Vec<u8>>::new());
    assert!(matches!(nkv.unsubscribe("key1", "u".to_string()), Err(NotifyKeyValueError::NotFound)));
}

#[test]
fn wildcard_get_returns_every_value_below_the_prefix() {
    let mut nkv = store();
    nkv.put("service.a.key1", vec![1]).unwrap();
    nkv.put("service.a.key2", vec![2]).unwrap();
    nkv.put("service.b.key1", vec![3]).unwrap();
    let mut vals = nkv.get("service.a.*");
    vals.sort();
    assert_eq!(vals, vec![vec![1u8], vec![2u8]]);
    assert_eq!(nkv.get("service.*").len(), 3);
    assert_eq!(nkv.get("service.a"), Vec::<Vec<u8>>::new());
}

#[test]
fn key_with_wildcard_is_not_stored() {
    let mut nkv = store();
    nkv.put("a.*", vec![1]).unwrap();
    assert_eq!(nkv.get("a.*"), Vec::<Vec<u8>>::new());
}

#[test]
fn subscribers_of_a_parent_key_hear_about_changes_below_it() {
    let mut nkv = store();
    nkv.put("service", vec![0]).unwrap();
    let mut rx = nkv.subscribe("service", "watcher".to_string()).unwrap();
    assert_eq!(rx.try_recv().unwrap(), Message::Hello);

    nkv.put("service.a.key1", vec![4, 2]).unwrap();
    assert_eq!(rx.try_recv().unwrap(), Message::Update { key: "service.a.key1".to_string(), value: vec![4, 2] });

    nkv.delete("service.a.key1").unwrap();
    assert_eq!(rx.try_recv().unwrap(), Message::Close { key: "service.a.key1".to_string() });
}

#[test]
fn watchers_of_lists_held_keys_above_outermost_first() {
    let mut nkv = store();
    nkv.put("a", vec![1]).unwrap();
    nkv.put("a.b.c", vec![2]).unwrap();
    nkv.put("a.b", vec![3]).unwrap();
    assert_eq!(nkv.watchers_of("a.b.c.d"), vec!["a".to_string(), "a.b".to_string(), "a.b.c".to_string()]);
    assert_eq!(nkv.watchers_of("a.x.y"), vec!["a".to_string()]);
    assert_eq!(nkv.watchers_of("a"), Vec::<String>::new());
}

#[test]
fn delete_closes_every_subscription_of_the_key() {
    let mut nkv = store();
    nkv.put("key1", vec![1]).unwrap();
    let mut rx1 = nkv.subscribe("key1", "u1".to_string()).unwrap();
    let mut rx2 = nkv.subscribe("key1", "u2".to_string()).unwrap();
    assert_eq!(rx1.try_recv().unwrap(), Message::Hello);
    assert_eq!(rx2.try_recv().unwrap(), Message::Hello);
    nkv.delete("key1").unwrap();
    assert_eq!(rx1.try_recv().unwrap(), Message::Close { key: "key1".to_string() });
    assert_eq!(rx2.try_recv().unwrap(), Message::Close { key: "key1".to_string() });
    assert!(matches!(nkv.unsubscribe("key1", "u1".to_string()), Err(NotifyKeyValueError::NotFound)));
}

#[test]
fn subscribing_to_a_missing_key_creates_it_empty() {
    let mut nkv = store();
    let mut rx = nkv.subscribe("new.key", "u1".to_string()).unwrap();
    assert_eq!(rx.try_recv().unwrap(), Message::Hello);
    assert_eq!(nkv.get("new.key"), vec![Vec::<u8>::new()]);
}

#[test]
fn subscribing_twice_with_one_uuid_is_refused() {
    let mut nkv = store();
    nkv.put("key1", vec![1]).unwrap();
    let _rx = nkv.subscribe("key1", "u1".to_string()).unwrap();
    match nkv.subscribe("key1", "u1".to_string()) {
        Err(NotifyKeyValueError::NotificationError(NotificationError::AlreadySubscribed(u))) => assert_eq!(u, "u1"),
        _ => panic!("expected AlreadySubscribed"),
    }
}

#[test]
fn unsubscribe_from_a_missing_key_is_not_found() {
    let mut nkv = store();
    assert!(matches!(nkv.unsubscribe("nothing", "u".to_string()), Err(NotifyKeyValueError::NotFound)));
}

#[test]
fn send_to_a_dropped_receiver_is_a_send_error() {
    let mut n = Notification::new();
    let rx = n.subscribe("uuid1".to_string()).unwrap();
    drop(rx);
    match n.send_hello() {
        Err(NotificationError::SendError(w)) => assert_eq!(w, "Failed to send message"),
        _ => panic!("expected SendError"),
    }
}

#[test]
fn unsubscribe_all_closes_and_forgets_every_subscriber() {
    let mut n = Notification::new();
    let mut rx = n.subscribe("uuid1".to_string()).unwrap();
    assert_eq!(rx.try_recv().unwrap(), Message::Hello);
    n.unsubscribe_all("k").unwrap();
    assert_eq!(rx.try_recv().unwrap(), Message::Close { key: "k".to_string() });
    let mut rx2 = n.subscribe("uuid1".to_string()).unwrap();
    assert_eq!(rx2.try_recv().unwrap(), Message::Hello);
}

#[test]
fn error_messages_read_as_documented() {
    assert_eq!(NotificationError::AlreadySubscribed("u".to_string()).message(), "Already subscribed u");
    assert_eq!(NotificationError::SendError("x".to_string()).message(), "Failed to send x");
    assert_eq!(NotifyKeyValueError::NotFound.message(), "Not Found");
    assert_eq!(NotifyKeyValueError::NoError.message(), "No Error");
    assert_eq!(
        NotifyKeyValueError::NotificationError(NotificationError::SendError("y".to_string())).message(),
        "Notification error Failed to send y"
    );
    let io = std::io::Error::new(std::io::ErrorKind::Other, "boom");
    assert_eq!(NotifyKeyValueError::IoError(io).message(), "IO error boom");
}

#[test]
fn keyspace_notifications_follow_the_documented_table() {
    let mut nkv = store();
    for k in ["a1", "a1.b1", "a1.b1.c1", "a2", "a3", "a3.b2", "a3.b3"] {
        nkv.put(k, vec![0]).unwrap();
    }
    let keys = ["a1", "a1.b1", "a1.b1.c1", "a2", "a3", "a3.b2", "a3.b3"];
    let mut rxs: Vec<_> = keys
        .iter()
        .map(|k| {
            let mut rx = nkv.subscribe(k, format!("sub-{}", k)).unwrap();
            assert_eq!(rx.try_recv().unwrap(), Message::Hello);
            rx
        })
        .collect();
    let heard = |rxs: &mut Vec<tokio::sync::mpsc::UnboundedReceiver<Message>>| -> Vec<&'static str> {
        let mut out = Vec::new();
        for (i, rx) in rxs.iter_mut().enumerate() {
            while rx.try_recv().is_ok() {
                out.push(keys[i]);
            }
        }
        out
    };

    // create a1.b1.c2: a1 and b1 hear it
    nkv.put("a1.b1.c2", vec![1]).unwrap();
    assert_eq!(heard(&mut rxs), vec!["a1", "a1.b1"]);
    let mut c2 = nkv.subscribe("a1.b1.c2", "sub-c2".to_string()).unwrap();
    assert_eq!(c2.try_recv().unwrap(), Message::Hello);

    // modify a1.b1.c2: a1 and b1 hear it (and c2's own subscriber)
    nkv.put("a1.b1.c2", vec![2]).unwrap();
    assert_eq!(heard(&mut rxs), vec!["a1", "a1.b1"]);
    assert_eq!(c2.try_recv().unwrap(), Message::Update { key: "a1.b1.c2".to_string(), value: vec![2] });

    // delete a1.b1: a1, b1, c1 and c2 hear it
    nkv.delete("a1.b1").unwrap();
    assert_eq!(heard(&mut rxs), vec!["a1", "a1.b1", "a1.b1.c1"]);
    assert_eq!(c2.try_recv().unwrap(), Message::Close { key: "a1.b1".to_string() });
    assert_eq!(nkv.get("a1.b1.c1"), vec![vec![0u8]]);

    // modify a3.b3: a3 hears it (and b3's own subscriber)
    nkv.put("a3.b3", vec![3]).unwrap();
    assert_eq!(heard(&mut rxs), vec!["a3", "a3.b3"]);
}

#[test]
fn load_keeps_the_last_entry_of_a_key_and_skips_wildcards() {
    let (engine, _) = MemStorage::new();
    let nkv = NkvStorage::load(
        engine,
        vec![("a".to_string(), vec![1]), ("b.*".to_string(), vec![2]), ("a".to_string(), vec![3])],
    );
    assert_eq!(nkv.get("a"), vec![vec![3u8]]);
    assert_eq!(nkv.get("b.*"), Vec::<Vec<u8>>::new());
}

#[test]
fn values_survive_a_restart_after_puts_deletes_and_subscriptions() {
    let (engine, saved) = MemStorage::new();
    {
        let mut nkv = NkvStorage::new(engine);
        nkv.put("a", vec![1]).unwrap();
        nkv.put("b.c", vec![2, 3]).unwrap();
        nkv.put("a", vec![4]).unwrap();
        let _rx = nkv.subscribe("fresh", "u1".to_string()).unwrap();
        nkv.put("gone", vec![9]).unwrap();
        nkv.delete("gone").unwrap();
    }
    let (engine, _) = MemStorage::new();
    let nkv = NkvStorage::load(engine, saved.borrow().clone());
    assert_eq!(nkv.get("a"), vec![vec![4]]);
    assert_eq!(nkv.get("b.c"), vec![vec![2, 3]]);
    assert_eq!(nkv.get("fresh"), vec![Vec::<u8>::new()]);
    assert_eq!(nkv.get("gone"), Vec::<Vec<u8>>::new());
}

#[test]
fn every_own_subscriber_hears_each_update_once() {
    let mut nkv = store();
    nkv.put("k", vec![0]).unwrap();
    let mut rx1 = nkv.subscribe("k", "u1".to_string()).unwrap();
    let mut rx2 = nkv.subscribe("k", "u2".to_string()).unwrap();
    assert_eq!(rx1.try_recv().unwrap(), Message::Hello);
    assert_eq!(rx2.try_recv().unwrap(), Message::Hello);
    nkv.put("k", vec![7]).unwrap();
    let update = Message::Update { key: "k".to_string(), value: vec![7] };
    assert_eq!(rx1.try_recv().unwrap(), update);
    assert!(rx1.try_recv().is_err());
    assert_eq!(rx2.try_recv().unwrap(), update);
    assert!(rx2.try_recv().is_err());
}

#[test]
fn a_closed_own_subscriber_does_not_fail_the_write() {
    let mut nkv = store();
    nkv.put("k", vec![0]).unwrap();
    let rx1 = nkv.subscribe("k", "u1".to_string()).unwrap();
    drop(rx1);
    assert!(nkv.put("k", vec![5]).is_ok());
    assert_eq!(nkv.get("k"), vec![vec![5]]);
}
