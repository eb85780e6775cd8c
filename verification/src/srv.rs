//! The server's decisions between the protocol and the store: which store
//! outcome counts as success, what a read is answered with, and how request
//! and reply lines are read and framed. Sockets and tasks run outside this
//! library.
use vstd::prelude::*;
use crate::errors::{NotifyKeyValueError, SerializingError};
use crate::request_msg::{
    byte_lists_view, parse_request, request_payload_readable, response_text, BaseResp,
    BaseRespView, DataResp, ResponseView, ServerRequest, ServerResponse,
};
use crate::text::{trim_end, trim_end_len};
use crate::nkv::{Message, NkvStorage, NotificationError};
use crate::notifier::ClientRegistry;
use crate::traits::StorageEngine;
use tokio::sync::mpsc::UnboundedReceiver;

verus! {

/// The store's answer to a read: whether anything was found, and each
/// value found under its key.
#[derive(Debug)]
pub struct NkvGetResp {
    err: NotifyKeyValueError,
    value: Vec<(String, Vec<u8>)>,
}

/// Whether a store outcome is a success.
pub open spec fn is_success(err: NotifyKeyValueError) -> bool {
    err is NoError
}

/// Pairs of key and value as text and bytes.
pub open spec fn entries_view(v: Seq<(String, Vec<u8>)>) -> Seq<(Seq<char>, Seq<u8>)> {
    v.map_values(|e: (String, Vec<u8>)| (e.0@, e.1@))
}

impl NkvGetResp {
    pub closed spec fn error(self) -> NotifyKeyValueError {
        self.err
    }

    /// The values found, each with its key.
    pub closed spec fn entries(self) -> Seq<(Seq<char>, Seq<u8>)> {
        entries_view(self.value@)
    }

    /// The values found.
    pub open spec fn values(self) -> Seq<Seq<u8>> {
        self.entries().map_values(|e: (Seq<char>, Seq<u8>)| e.1)
    }

    /// The answer to a read that found `value` (pairs of key and value, see
    /// `NkvStorage::get_entries`): found when there is at least one, else
    /// `NotFound` with none.
    pub fn from_entries(value: Vec<(String, Vec<u8>)>) -> (r: Self)
        ensures
            value@.len() > 0 ==> r.error() is NoError && r.entries() == entries_view(value@),
            value@.len() == 0 ==> r.error() is NotFound && r.entries().len() == 0,
    {
        if value.len() > 0 {
            NkvGetResp { err: NotifyKeyValueError::NoError, value }
        } else {
            NkvGetResp { err: NotifyKeyValueError::NotFound, value: Vec::new() }
        }
    }

    pub fn err(&self) -> (e: &NotifyKeyValueError)
        ensures
            *e == self.error(),
    {
        &self.err
    }

    /// The values found, each with its key.
    pub fn value(&self) -> (v: &Vec<(String, Vec<u8>)>)
        ensures
            entries_view(v@) == self.entries(),
    {
        &self.value
    }

    /// The reply to read request `id`: the values found, in order, with a
    /// success status exactly when the read found something.
    pub fn into_reply(self, id: String) -> (r: ServerResponse)
        ensures
            r@ == ResponseView::Data(
                (BaseRespView { id: id@, status: is_success(self.error()) }),
                self.values(),
            ),
    {
        let status = succeeded(&self.err);
        let ghost vs = self.values();
        let mut data: Vec<Vec<u8>> = Vec::new();
        let mut i: usize = 0;
        while i < self.value.len()
            invariant
                i <= self.value@.len(),
                vs == entries_view(self.value@).map_values(|e: (Seq<char>, Seq<u8>)| e.1),
                byte_lists_view(data@) == vs.take(i as int),
            decreases self.value@.len() - i,
        {
            let ghost before = byte_lists_view(data@);
            let v = self.value[i].1.clone();
            proof {
                assert(v@ =~= self.value@[i as int].1@);
                assert(vs[i as int] == self.value@[i as int].1@);
            }
            data.push(v);
            assert(byte_lists_view(data@) =~= before.push(v@));
            assert(vs.take(i + 1) =~= vs.take(i as int).push(vs[i as int]));
            i = i + 1;
        }
        assert(vs.take(self.value@.len() as int) =~= vs);
        ServerResponse::Data(DataResp { base: BaseResp { id, status }, data })
    }
}

/// Whether a store outcome is a success.
pub fn succeeded(err: &NotifyKeyValueError) -> (b: bool)
    ensures
        b == is_success(*err),
{
    match err {
        NotifyKeyValueError::NoError => true,
        _ => false,
    }
}

/// The outcome a store call reports: `NoError` for success, else its
/// error.
pub fn outcome(r: Result<(), NotifyKeyValueError>) -> (e: NotifyKeyValueError)
    ensures
        match r {
            Ok(()) => e is NoError,
            Err(x) => e == x,
        },
{
    match r {
        Ok(()) => NotifyKeyValueError::NoError,
        Err(x) => x,
    }
}

/// The reply to request `id` whose store call ended in `err`: its status is
/// whether that was a success.
pub fn base_reply(id: String, err: &NotifyKeyValueError) -> (r: ServerResponse)
    ensures
        r@ == ResponseView::Base((BaseRespView { id: id@, status: is_success(*err) })),
{
    ServerResponse::Base(BaseResp { id, status: succeeded(err) })
}

/// Reads a request line, trailing whitespace (the line end) dropped first;
/// `None` where a `PUT` value is not valid base64.
pub fn read_request(line: &str) -> (r: Option<Result<ServerRequest, SerializingError>>)
    ensures
        ({
            let t = line@.take(trim_end_len(line@) as int);
            &&& r is None <==> !request_payload_readable(t)
            &&& r matches Some(res) ==> match parse_request(t) {
                Ok(v) => res matches Ok(req) && req@ == v,
                Err(e) => res matches Err(err) && err@ == e,
            }
        }),
{
    let t = trim_end(line);
    ServerRequest::try_from_str(t.as_str())
}

/// The server's decision on a subscription to `key` by `uuid`, with
/// `listening` holding, by key, the notifiers already forwarding a key's
/// updates to sockets: a key with a notifier needs nothing of the store
/// (`None`; the caller adds the client to that notifier); otherwise the
/// store subscribes `uuid` and its answer is returned, a channel for a new
/// notifier or the store's error.
pub fn route_subscription<S: StorageEngine, W>(
    store: &mut NkvStorage<S>,
    listening: &ClientRegistry<W>,
    key: &str,
    uuid: String,
) -> (r: Option<Result<UnboundedReceiver<Message>, NotifyKeyValueError>>)
    requires
        old(store).wf(),
    ensures
        final(store).wf(),
        r is None <==> listening.clients().contains_key(key@),
        r is None ==> final(store).data() == old(store).data() && final(store).subscribers() == old(
            store,
        ).subscribers() && final(store).handed() == old(store).handed() && final(store).engine_calls() == old(
            store,
        ).engine_calls(),
        r matches Some(Ok(_)) && !key@.contains('*') ==> final(store).subscribers().contains_key(key@)
            && final(store).subscribers()[key@].last() == uuid@,
        r matches Some(Err(NotifyKeyValueError::NotificationError(NotificationError::AlreadySubscribed(u))))
            ==> u@ == uuid@ && old(store).subscribers().contains_key(key@) && old(store).subscribers()[key@].contains(uuid@),
{
    if listening.contains(key) {
        None
    } else {
        Some(store.subscribe(key, uuid))
    }
}

/// A reply as the line written back to the client.
pub fn reply_line(reply: &ServerResponse) -> (s: String)
    requires
        reply matches ServerResponse::Data(d) ==> forall|i: int|
            0 <= i < d.data@.len() ==> 4 * ((#[trigger] d.data@[i]@.len() + 2) / 3) <= usize::MAX,
    ensures
        s@ == response_text(reply@) + seq!['\n'],
{
    let mut s = reply.to_string();
    s.append("\n");
    proof {
        reveal_strlit("\n");
    }
    s
}

} // verus!
