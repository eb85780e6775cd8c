//! A notify key-value store: values kept under `.`-separated keys, a line
//! protocol to read and write them, and subscriptions that hear about every
//! change below a key. This crate holds the store, the protocol and the
//! client's bookkeeping; sockets and tasks live with the programs around it.
pub mod command;
pub mod errors;
pub mod flag_parser;
pub mod nkv;
pub mod notification;
pub mod notifier;
pub mod persist_value;
pub mod persistence;
pub mod request_msg;
pub mod srv;
pub mod text;
pub mod traits;
pub mod trie;

use vstd::prelude::*;
use crate::errors::{SerializingError, SerializingErrorView};
use crate::request_msg::{
    parse_response, request_text, BaseMessage, BaseResp, BaseRespView, BaseView, Message, PutMessage,
    RequestView, ResponseView, ServerRequest, ServerResponse,
};
use crate::text::{trim_end, trim_end_len};

verus! {

/// Why a client call failed.
#[derive(Debug)]
pub enum NkvClientError {
    SubscriptionNotFound(String),
}

impl NkvClientError {
    /// The message text: `Subscription not found <key>`.
    pub fn message(&self) -> (s: String)
        ensures
            match self {
                NkvClientError::SubscriptionNotFound(k) => s@ == "Subscription not found "@ + k@,
            },
    {
        match self {
            NkvClientError::SubscriptionNotFound(k) => {
                let mut s = "Subscription not found ".to_owned();
                s.append(k.as_str());
                s
            },
        }
    }
}

/// What a subscriber does with each update it hears.
pub trait Subscription {
    fn handle_update(self, msg: Message);
}

pub open spec fn is_lower_hex(c: char) -> bool {
    ('0' <= c && c <= '9') || ('a' <= c && c <= 'f')
}

/// The hyphenated lower-case form of a random (version 4) UUID: 36
/// characters, `-` at positions 8, 13, 18 and 23 and a hexadecimal digit
/// everywhere else, the version digit `4` at position 14 and one of `8`,
/// `9`, `a`, `b` at position 19.
pub open spec fn uuid_shaped(s: Seq<char>) -> bool {
    &&& s.len() == 36
    &&& forall|i: int|
        0 <= i < 36 ==> if i == 8 || i == 13 || i == 18 || i == 23 {
            #[trigger] s[i] == '-'
        } else {
            is_lower_hex(s[i])
        }
    &&& s[14] == '4'
    &&& (s[19] == '8' || s[19] == '9' || s[19] == 'a' || s[19] == 'b')
}

pub open spec fn request_id_prefix() -> Seq<char> {
    seq!['r', 'u', 's', 't', '-', 'n', 'k', 'v', '-', 'c', 'l', 'i', 'e', 'n', 't', '-']
}

/// The ids the client makes for itself and for its requests:
/// `rust-nkv-client-` followed by a UUID.
pub open spec fn is_request_id(s: Seq<char>) -> bool {
    &&& s.len() == request_id_prefix().len() + 36
    &&& s.take(request_id_prefix().len() as int) == request_id_prefix()
    &&& uuid_shaped(s.skip(request_id_prefix().len() as int))
}

/// `Uuid::new_v4`, written out with `to_string`: a random version 4 UUID
/// in its hyphenated lower-case form. Which UUID comes out is chance; only
/// its shape is stated.
#[verifier::external_body]
fn random_uuid() -> (s: String)
    ensures
        uuid_shaped(s@),
{
    uuid::Uuid::new_v4().to_string()
}

/// A fresh id: `rust-nkv-client-` and a random UUID.
fn fresh_id() -> (s: String)
    ensures
        is_request_id(s@),
{
    let mut s = "rust-nkv-client-".to_owned();
    let u = random_uuid();
    s.append(u.as_str());
    proof {
        reveal_strlit("rust-nkv-client-");
        assert("rust-nkv-client-"@ =~= request_id_prefix());
        assert(s@.take(16) =~= request_id_prefix());
        assert(s@.skip(16) =~= u@);
    }
    s
}

/// The id the client answers with itself when a request never left it.
pub open spec fn local_id() -> Seq<char> {
    seq!['0']
}

/// What the client does with a call: send a request to the server, or
/// answer at once without one.
#[derive(Debug)]
pub enum ClientAction {
    Send(ServerRequest),
    Answer(ServerResponse),
}

pub open spec fn has_key(s: Seq<(String, String)>, k: Seq<char>) -> bool {
    exists|i: int| 0 <= i < s.len() && (#[trigger] s[i]).0@ == k
}

pub open spec fn key_index(s: Seq<(String, String)>, k: Seq<char>) -> int {
    choose|i: int| 0 <= i < s.len() && (#[trigger] s[i]).0@ == k
}

/// The pairs of `s` as a map from key to id.
pub open spec fn pairs_map(s: Seq<(String, String)>) -> Map<Seq<char>, Seq<char>> {
    Map::new(|k: Seq<char>| has_key(s, k), |k: Seq<char>| s[key_index(s, k)].1@)
}

pub open spec fn pair_keys_distinct(s: Seq<(String, String)>) -> bool {
    forall|a: int, b: int|
        0 <= a < s.len() && 0 <= b < s.len() && a != b ==> (#[trigger] s[a]).0@ != (#[trigger] s[b]).0@
}

proof fn lemma_key_index(s: Seq<(String, String)>, i: int)
    requires
        pair_keys_distinct(s),
        0 <= i < s.len(),
    ensures
        has_key(s, s[i].0@),
        key_index(s, s[i].0@) == i,
{
    assert(has_key(s, s[i].0@));
}

/// A pair for a new key adds that key to the map.
proof fn lemma_pairs_map_push(s: Seq<(String, String)>, p: (String, String))
    requires
        pair_keys_distinct(s),
        !has_key(s, p.0@),
    ensures
        pair_keys_distinct(s.push(p)),
        pairs_map(s.push(p)) == pairs_map(s).insert(p.0@, p.1@),
{
    let t = s.push(p);
    assert forall|a: int, b: int| 0 <= a < t.len() && 0 <= b < t.len() && a != b implies (#[trigger] t[a]).0@
        != (#[trigger] t[b]).0@ by {
        if a < s.len() && b < s.len() {
            assert(t[a] == s[a] && t[b] == s[b]);
        } else if a < s.len() {
            assert(t[a] == s[a]);
        } else {
            assert(t[b] == s[b]);
        }
    }
    lemma_key_index(t, s.len() as int);
    assert forall|k: Seq<char>| has_key(t, k) == (has_key(s, k) || k == p.0@) by {
        if has_key(s, k) {
            let j = choose|j: int| 0 <= j < s.len() && (#[trigger] s[j]).0@ == k;
            assert(t[j] == s[j]);
        }
        if has_key(t, k) && k != p.0@ {
            let j = choose|j: int| 0 <= j < t.len() && (#[trigger] t[j]).0@ == k;
            assert(t[j] == s[j]);
        }
    }
    assert forall|k: Seq<char>| has_key(t, k) implies pairs_map(t)[k] == pairs_map(s).insert(p.0@, p.1@)[k] by {
        if k != p.0@ {
            let j = key_index(s, k);
            lemma_key_index(s, j);
            assert(t[j] == s[j]);
            lemma_key_index(t, j);
        }
    }
    assert(pairs_map(t) =~= pairs_map(s).insert(p.0@, p.1@));
}

/// A client of the store's server: where the server listens, the client's
/// own id, and the request id of each key it has subscribed to (the server
/// tells subscriptions apart by it).
pub struct NkvClient {
    addr: String,
    client_uuid: String,
    subscriptions: Vec<(String, String)>,
}

impl NkvClient {
    #[verifier::type_invariant]
    closed spec fn inv(self) -> bool {
        pair_keys_distinct(self.subscriptions@)
    }

    pub closed spec fn address(self) -> Seq<char> {
        self.addr@
    }

    pub closed spec fn client_id(self) -> Seq<char> {
        self.client_uuid@
    }

    /// The request id of each subscribed key.
    pub closed spec fn subscriptions(self) -> Map<Seq<char>, Seq<char>> {
        pairs_map(self.subscriptions@)
    }

    /// A client of the server at `addr`, with a fresh id and no
    /// subscriptions.
    pub fn new(addr: &str) -> (c: Self)
        ensures
            c.address() == addr@,
            is_request_id(c.client_id()),
            c.subscriptions() == Map::<Seq<char>, Seq<char>>::empty(),
    {
        let c = NkvClient { addr: addr.to_owned(), client_uuid: fresh_id(), subscriptions: Vec::new() };
        assert(c.subscriptions() =~= Map::<Seq<char>, Seq<char>>::empty());
        c
    }

    pub fn addr(&self) -> (a: &str)
        ensures
            a@ == self.address(),
    {
        self.addr.as_str()
    }

    pub fn client_uuid(&self) -> (u: &str)
        ensures
            u@ == self.client_id(),
    {
        self.client_uuid.as_str()
    }

    /// The position of `key` among the subscriptions.
    fn find_subscription(&self, key: &String) -> (r: Option<usize>)
        ensures
            match r {
                Some(i) => i < self.subscriptions@.len() && self.subscriptions@[i as int].0@ == key@
                    && self.subscriptions().contains_key(key@) && self.subscriptions()[key@]
                    == self.subscriptions@[i as int].1@,
                None => !self.subscriptions().contains_key(key@),
            },
    {
        proof {
            use_type_invariant(self);
        }
        let mut i: usize = 0;
        while i < self.subscriptions.len()
            invariant
                i <= self.subscriptions@.len(),
                pair_keys_distinct(self.subscriptions@),
                forall|j: int| 0 <= j < i ==> (#[trigger] self.subscriptions@[j]).0@ != key@,
            decreases self.subscriptions@.len() - i,
        {
            if self.subscriptions[i].0 == *key {
                proof {
                    lemma_key_index(self.subscriptions@, i as int);
                }
                return Some(i);
            }
            i = i + 1;
        }
        None
    }

    /// The fields of a new request about `key`: a fresh id and this
    /// client's id.
    fn base_for(&self, key: String) -> (b: BaseMessage)
        ensures
            is_request_id(b.id@),
            b.client_uuid@ == self.client_id(),
            b.key@ == key@,
    {
        BaseMessage { id: fresh_id(), client_uuid: self.client_uuid.clone(), key }
    }

    /// The request that reads `key`.
    pub fn get_request(&self, key: String) -> (r: ServerRequest)
        ensures
            r@ matches RequestView::Get(b) && is_request_id(b.id) && b.client_uuid == self.client_id()
                && b.key == key@,
    {
        ServerRequest::Get(self.base_for(key))
    }

    /// The request that stores `val` under `key`.
    pub fn put_request(&self, key: String, val: Vec<u8>) -> (r: ServerRequest)
        ensures
            r@ matches RequestView::Put(b, v) && is_request_id(b.id) && b.client_uuid == self.client_id()
                && b.key == key@ && v == val@,
    {
        ServerRequest::Put(PutMessage { base: self.base_for(key), value: val })
    }

    /// The request that deletes `key`.
    pub fn delete_request(&self, key: String) -> (r: ServerRequest)
        ensures
            r@ matches RequestView::Delete(b) && is_request_id(b.id) && b.client_uuid == self.client_id()
                && b.key == key@,
    {
        ServerRequest::Delete(self.base_for(key))
    }

    /// Unsubscribing from `key`: a subscribed key is unsubscribed under the
    /// request id it was subscribed with; any other key is answered at once
    /// with a failure under the local id `0`. The subscription itself stays
    /// recorded.
    pub fn unsubscribe_action(&self, key: String) -> (r: ClientAction)
        ensures
            self.subscriptions().contains_key(key@) ==> (r matches ClientAction::Send(req) && req@
                == RequestView::Unsubscribe(
                (BaseView { id: self.subscriptions()[key@], key: key@, client_uuid: self.client_id() }),
            )),
            !self.subscriptions().contains_key(key@) ==> (r matches ClientAction::Answer(resp) && resp@
                == ResponseView::Base((BaseRespView { id: local_id(), status: false }))),
    {
        match self.find_subscription(&key) {
            Some(i) => {
                let id = self.subscriptions[i].1.clone();
                ClientAction::Send(
                    ServerRequest::Unsubscribe(
                        BaseMessage { id, client_uuid: self.client_uuid.clone(), key },
                    ),
                )
            },
            None => {
                let id = "0".to_owned();
                proof {
                    reveal_strlit("0");
                }
                assert(id@ =~= local_id());
                ClientAction::Answer(ServerResponse::Base(BaseResp { id, status: false }))
            },
        }
    }

    /// Subscribing to `key`, which a client does once: an already
    /// subscribed key is answered with a failure under its request id, no
    /// request is made and nothing changes; otherwise a fresh request id is
    /// recorded for `key` and returned with the `SUB` request that carries
    /// it (the caller sends it and listens; a later `UNSUB` carries the same
    /// id), and the answer is a success under this client's id.
    pub fn record_subscription(&mut self, key: String) -> (r: (Option<ServerRequest>, ServerResponse))
        ensures
            final(self).address() == old(self).address(),
            final(self).client_id() == old(self).client_id(),
            old(self).subscriptions().contains_key(key@) ==> {
                &&& r.0 is None
                &&& final(self).subscriptions() == old(self).subscriptions()
                &&& r.1@ == ResponseView::Base(
                    (BaseRespView { id: old(self).subscriptions()[key@], status: false }),
                )
            },
            !old(self).subscriptions().contains_key(key@) ==> {
                &&& r.0 matches Some(req) && req@ matches RequestView::Subscribe(b) && is_request_id(b.id)
                    && b.key == key@ && b.client_uuid == old(self).client_id()
                    && final(self).subscriptions() == old(self).subscriptions().insert(key@, b.id)
                &&& r.1@ == ResponseView::Base((BaseRespView { id: old(self).client_id(), status: true }))
            },
    {
        proof {
            use_type_invariant(&*self);
        }
        match self.find_subscription(&key) {
            Some(i) => {
                let id = self.subscriptions[i].1.clone();
                (None, ServerResponse::Base(BaseResp { id, status: false }))
            },
            None => {
                let id = fresh_id();
                let req = subscription_request(id.as_str(), key.as_str(), self.client_uuid.as_str());
                proof {
                    lemma_pairs_map_push(self.subscriptions@, (key, id));
                }
                let mut subs: Vec<(String, String)> = Vec::new();
                std::mem::swap(&mut subs, &mut self.subscriptions);
                subs.push((key, id));
                self.subscriptions = subs;
                (Some(req), ServerResponse::Base(BaseResp { id: self.client_uuid.clone(), status: true }))
            },
        }
    }
}

/// The request that subscribes client `client_uuid` to `key` under request
/// id `id`.
pub fn subscription_request(id: &str, key: &str, client_uuid: &str) -> (r: ServerRequest)
    ensures
        r@ == RequestView::Subscribe((BaseView { id: id@, key: key@, client_uuid: client_uuid@ })),
{
    ServerRequest::Subscribe(
        BaseMessage { id: id.to_owned(), key: key.to_owned(), client_uuid: client_uuid.to_owned() },
    )
}

/// A request as the line sent to the server.
pub fn request_line(req: &ServerRequest) -> (s: String)
    requires
        req matches ServerRequest::Put(m) ==> 4 * ((m.value@.len() + 2) / 3) <= usize::MAX,
    ensures
        s@ == request_text(req@) + seq!['\n'],
{
    let mut s = req.to_string();
    s.append("\n");
    proof {
        reveal_strlit("\n");
    }
    s
}

/// Reads the server's reply line, trailing whitespace (the line end)
/// dropped first.
pub fn read_reply(line: &str) -> (r: Result<ServerResponse, SerializingError>)
    ensures
        match parse_response(line@.take(trim_end_len(line@) as int)) {
            Ok(v) => r matches Ok(x) && x@ == v,
            Err(e) => r matches Err(err) && err@ == e,
        },
{
    let t = trim_end(line);
    ServerResponse::from_str(t.as_str())
}

} // verus!
