//! The subscribers of one key and the channels they listen on: every
//! message a subscriber is sent goes on its own channel, and each send is
//! recorded with the subscriber and the channel it went on.
use vstd::prelude::*;
use tokio::sync::mpsc::{UnboundedReceiver, UnboundedSender};
use tokio::sync::mpsc::error::SendError;
use crate::request_msg::{Message, MessageView};

verus! {

#[verifier::external_type_specification]
#[verifier::external_body]
#[verifier::reject_recursive_types(T)]
pub struct ExUnboundedSender<T>(UnboundedSender<T>);

#[verifier::external_type_specification]
#[verifier::external_body]
#[verifier::reject_recursive_types(T)]
pub struct ExUnboundedReceiver<T>(UnboundedReceiver<T>);

#[verifier::external_type_specification]
#[verifier::external_body]
#[verifier::reject_recursive_types(T)]
pub struct ExSendError<T>(SendError<T>);

/// `tokio::sync::mpsc::unbounded_channel`: a fresh channel's two ends.
#[verifier::external_body]
fn open_channel() -> (UnboundedSender<Message>, UnboundedReceiver<Message>) {
    tokio::sync::mpsc::unbounded_channel::<Message>()
}

/// `UnboundedSender::send`. Whether it succeeds depends on whether the
/// receiving end is still open, which nothing here can see, so no outcome
/// is promised.
#[verifier::external_body]
fn deliver(tx: &UnboundedSender<Message>, msg: Message) -> Result<(), SendError<Message>> {
    tx.send(msg)
}

#[derive(Debug)]
pub enum NotificationError {
    AlreadySubscribed(String),
    SendError(String),
}

impl NotificationError {
    /// The message text: `Already subscribed <uuid>` or `Failed to send
    /// <what>`.
    pub fn message(&self) -> (s: String)
        ensures
            match self {
                NotificationError::AlreadySubscribed(u) => s@ == "Already subscribed "@ + u@,
                NotificationError::SendError(w) => s@ == "Failed to send "@ + w@,
            },
    {
        match self {
            NotificationError::AlreadySubscribed(u) => {
                let mut s = "Already subscribed ".to_owned();
                s.append(u.as_str());
                s
            },
            NotificationError::SendError(w) => {
                let mut s = "Failed to send ".to_owned();
                s.append(w.as_str());
                s
            },
        }
    }
}

/// The error reported when a subscriber's channel is closed.
fn send_failure() -> (e: NotificationError)
    ensures
        e matches NotificationError::SendError(w) && w@ == "Failed to send message"@,
{
    NotificationError::SendError("Failed to send message".to_owned())
}

/// A broadcast either reaches every subscriber or stops at the first one
/// whose channel is closed, reporting `Failed to send message`.
pub open spec fn delivery_outcome(r: Result<(), NotificationError>) -> bool {
    r is Ok || (r matches Err(NotificationError::SendError(w)) && w@ == "Failed to send message"@)
}

/// The subscribers of one key, by uuid, each with the channel it listens on,
/// and a record of every message sent, with the subscriber and the channel
/// it was sent on.
pub struct Notification {
    subscriptions: Vec<(String, UnboundedSender<Message>)>,
    sent: Ghost<Seq<(Seq<char>, UnboundedSender<Message>, MessageView)>>,
}

pub open spec fn distinct_seqs(s: Seq<Seq<char>>) -> bool {
    forall|a: int, b: int| 0 <= a < s.len() && 0 <= b < s.len() && a != b ==> #[trigger] s[a] != #[trigger] s[b]
}

/// `list` without `u`, for lists holding each uuid at most once.
pub open spec fn drop_uuid(list: Seq<Seq<char>>, u: Seq<char>) -> Seq<Seq<char>> {
    if list.contains(u) {
        list.remove(choose|i: int| 0 <= i < list.len() && list[i] == u)
    } else {
        list
    }
}

/// The position of `u` in `list`, for a list that holds it once.
pub open spec fn position_of(list: Seq<Seq<char>>, u: Seq<char>) -> int {
    choose|i: int| 0 <= i < list.len() && list[i] == u
}

/// `m` addressed to each of `uuids`, in order.
pub open spec fn to_each(uuids: Seq<Seq<char>>, m: MessageView) -> Seq<(Seq<char>, MessageView)> {
    uuids.map_values(|u: Seq<char>| (u, m))
}

/// `m` sent to each subscriber of `subs` on its own channel, in order.
pub open spec fn on_each(
    subs: Seq<(Seq<char>, UnboundedSender<Message>)>,
    m: MessageView,
) -> Seq<(Seq<char>, UnboundedSender<Message>, MessageView)> {
    subs.map_values(|e: (Seq<char>, UnboundedSender<Message>)| (e.0, e.1, m))
}

/// What a broadcast of `m` to `uuids` hands out: with success, `m` to
/// every uuid in order; with a closed channel, `m` to the uuids up to and
/// including the first one whose channel is closed.
pub open spec fn broadcast_log(
    uuids: Seq<Seq<char>>,
    m: MessageView,
    ok: bool,
    log: Seq<(Seq<char>, MessageView)>,
) -> bool {
    if ok {
        log == to_each(uuids, m)
    } else {
        exists|k: int| 0 < k <= uuids.len() && log == to_each(#[trigger] uuids.take(k), m)
    }
}

/// What a broadcast of `m` to `subs` sends, channel by channel: with
/// success, `m` on every subscriber's channel in order; with a closed
/// channel, on the channels up to and including the first closed one.
pub open spec fn sent_in_order(
    subs: Seq<(Seq<char>, UnboundedSender<Message>)>,
    m: MessageView,
    ok: bool,
    log: Seq<(Seq<char>, UnboundedSender<Message>, MessageView)>,
) -> bool {
    if ok {
        log == on_each(subs, m)
    } else {
        exists|k: int| 0 < k <= subs.len() && log == on_each(#[trigger] subs.take(k), m)
    }
}

/// The uuids of a list of subscribers.
pub open spec fn uuids_of(subs: Seq<(Seq<char>, UnboundedSender<Message>)>) -> Seq<Seq<char>> {
    subs.map_values(|e: (Seq<char>, UnboundedSender<Message>)| e.0)
}

/// A record of sends, read as what was handed to whom.
pub open spec fn as_handed(
    log: Seq<(Seq<char>, UnboundedSender<Message>, MessageView)>,
) -> Seq<(Seq<char>, MessageView)> {
    log.map_values(|e: (Seq<char>, UnboundedSender<Message>, MessageView)| (e.0, e.2))
}

/// Sends on each channel of a prefix of `subs`, read as what was handed to
/// whom, are the handings to that prefix of their uuids.
proof fn lemma_on_each_handed(
    start: Seq<(Seq<char>, UnboundedSender<Message>, MessageView)>,
    subs: Seq<(Seq<char>, UnboundedSender<Message>)>,
    k: int,
    m: MessageView,
)
    requires
        0 <= k <= subs.len(),
    ensures
        as_handed(start + on_each(subs.take(k), m)) == as_handed(start) + to_each(uuids_of(subs).take(k), m),
{
    assert(as_handed(start + on_each(subs.take(k), m)) =~= as_handed(start) + to_each(uuids_of(subs).take(k), m));
}

/// Both records of a broadcast agree: where the sends follow
/// `sent_in_order`, what was handed follows `broadcast_log`.
proof fn lemma_sent_in_order_handed(
    subs: Seq<(Seq<char>, UnboundedSender<Message>)>,
    m: MessageView,
    ok: bool,
    log: Seq<(Seq<char>, UnboundedSender<Message>, MessageView)>,
)
    requires
        sent_in_order(subs, m, ok, log),
    ensures
        broadcast_log(uuids_of(subs), m, ok, as_handed(log)),
{
    let e = Seq::<(Seq<char>, UnboundedSender<Message>, MessageView)>::empty();
    if ok {
        assert(subs.take(subs.len() as int) =~= subs);
        lemma_on_each_handed(e, subs, subs.len() as int, m);
        assert(e + log =~= log);
        assert(uuids_of(subs).take(subs.len() as int) =~= uuids_of(subs));
        assert(as_handed(e) =~= Seq::<(Seq<char>, MessageView)>::empty());
        assert(as_handed(log) =~= to_each(uuids_of(subs), m));
    } else {
        let k = choose|k: int| 0 < k <= subs.len() && log == on_each(#[trigger] subs.take(k), m);
        lemma_on_each_handed(e, subs, k, m);
        assert(e + log =~= log);
        assert(as_handed(e) =~= Seq::<(Seq<char>, MessageView)>::empty());
        assert(as_handed(log) =~= to_each(uuids_of(subs).take(k), m));
    }
}

/// Sends `msg` on `tx`, the channel of subscriber `uuid`, and records the
/// send with the subscriber and the channel it went on.
fn hand_to(
    sent: &mut Ghost<Seq<(Seq<char>, UnboundedSender<Message>, MessageView)>>,
    uuid: &String,
    tx: &UnboundedSender<Message>,
    msg: Message,
) -> (r: Result<(), SendError<Message>>)
    ensures
        final(sent)@ == old(sent)@.push((uuid@, *tx, msg@)),
{
    let ghost m = msg@;
    let r = deliver(tx, msg);
    *sent = Ghost(sent@.push((uuid@, *tx, m)));
    r
}

/// A copy of `m`.
fn copy_message(m: &Message) -> (r: Message)
    ensures
        r@ == m@,
{
    match m {
        Message::Hello => Message::Hello,
        Message::Update { key, value } => Message::Update { key: key.clone(), value: copy_bytes(value) },
        Message::Close { key } => Message::Close { key: key.clone() },
        Message::NotFound => Message::NotFound,
    }
}

impl Notification {
    #[verifier::type_invariant]
    closed spec fn inv(self) -> bool {
        distinct_seqs(self.uuids())
    }

    /// The uuids of the subscribers, in the order they subscribed.
    pub closed spec fn uuids(self) -> Seq<Seq<char>> {
        self.subscriptions@.map_values(|e: (String, UnboundedSender<Message>)| e.0@)
    }

    /// Each subscriber's uuid with the channel it listens on, in the order
    /// they subscribed.
    pub closed spec fn entries(self) -> Seq<(Seq<char>, UnboundedSender<Message>)> {
        self.subscriptions@.map_values(|e: (String, UnboundedSender<Message>)| (e.0@, e.1))
    }

    /// Every message sent so far, oldest first, with the uuid of the
    /// subscriber and the channel it was sent on.
    pub closed spec fn sent(self) -> Seq<(Seq<char>, UnboundedSender<Message>, MessageView)> {
        self.sent@
    }

    /// Every message handed to a subscriber's channel so far, oldest first,
    /// with the uuid of the subscriber it was handed to (the sends, without
    /// their channels).
    pub closed spec fn handed(self) -> Seq<(Seq<char>, MessageView)> {
        as_handed(self.sent@)
    }

    /// What was handed to whom is the sends without their channels.
    pub proof fn lemma_handed_is_sent(self)
        ensures
            self.handed() == as_handed(self.sent()),
    {
    }

    /// The uuids are those of the entries.
    pub proof fn lemma_uuids_of_entries(self)
        ensures
            self.uuids() == uuids_of(self.entries()),
            self.uuids().len() == self.entries().len(),
    {
        assert(self.uuids() =~= uuids_of(self.entries()));
    }

    pub fn new() -> (n: Self)
        ensures
            n.uuids() == Seq::<Seq<char>>::empty(),
            n.handed() == Seq::<(Seq<char>, MessageView)>::empty(),
            n.entries() == Seq::<(Seq<char>, UnboundedSender<Message>)>::empty(),
            n.sent() == Seq::<(Seq<char>, UnboundedSender<Message>, MessageView)>::empty(),
    {
        let n = Notification { subscriptions: Vec::new(), sent: Ghost(Seq::empty()) };
        assert(n.uuids() =~= Seq::<Seq<char>>::empty());
        assert(n.entries() =~= Seq::<(Seq<char>, UnboundedSender<Message>)>::empty());
        assert(n.handed() =~= Seq::<(Seq<char>, MessageView)>::empty());
        n
    }

    /// Every subscriber's uuids are distinct.
    pub fn uuids_are_distinct(&self)
        ensures
            distinct_seqs(self.uuids()),
    {
        proof {
            use_type_invariant(self);
        }
    }

    fn find(&self, uuid: &String) -> (r: Option<usize>)
        ensures
            match r {
                Some(i) => i < self.uuids().len() && self.uuids()[i as int] == uuid@,
                None => !self.uuids().contains(uuid@),
            },
    {
        let mut i: usize = 0;
        while i < self.subscriptions.len()
            invariant
                i <= self.subscriptions@.len(),
                forall|j: int| 0 <= j < i ==> self.uuids()[j] != uuid@,
            decreases self.subscriptions@.len() - i,
        {
            if self.subscriptions[i].0 == *uuid {
                return Some(i);
            }
            i = i + 1;
        }
        proof {
            if self.uuids().contains(uuid@) {
                let j = choose|j: int| 0 <= j < self.uuids().len() && self.uuids()[j] == uuid@;
                assert(self.uuids()[j] != uuid@);
            }
        }
        None
    }

    /// Adds the subscriber `uuid` with a new channel and sends `Hello` on
    /// it. A uuid already subscribed is refused, and then no subscriber and
    /// no channel changes and nothing is sent.
    pub fn subscribe(&mut self, uuid: String) -> (r: Result<UnboundedReceiver<Message>, NotificationError>)
        ensures
            old(self).uuids().contains(uuid@) ==> (r matches Err(NotificationError::AlreadySubscribed(u))
                && u@ == uuid@) && final(self).uuids() == old(self).uuids() && final(self).handed() == old(self).handed(),
            !old(self).uuids().contains(uuid@) ==> final(self).uuids() == old(self).uuids().push(uuid@)
                && final(self).handed() == old(self).handed().push((uuid@, MessageView::Hello))
                && (r is Ok || (r matches Err(NotificationError::SendError(w)) && w@ == "Failed to send message"@)),
            old(self).uuids().contains(uuid@) ==> final(self).entries() == old(self).entries() && final(self).sent()
                == old(self).sent(),
            !old(self).uuids().contains(uuid@) ==> {
                &&& final(self).entries().len() == old(self).entries().len() + 1
                &&& final(self).entries().drop_last() == old(self).entries()
                &&& final(self).entries().last().0 == uuid@
                &&& final(self).sent() == old(self).sent().push(
                    (uuid@, final(self).entries().last().1, MessageView::Hello),
                )
            },
    {
        proof {
            use_type_invariant(&*self);
        }
        if self.find(&uuid).is_some() {
            return Err(NotificationError::AlreadySubscribed(uuid));
        }
        let (tx, rx) = open_channel();
        let ghost before = self.uuids();
        let ghost before_entries = self.entries();
        let ghost u = uuid@;
        let mut subs: Vec<(String, UnboundedSender<Message>)> = Vec::new();
        std::mem::swap(&mut subs, &mut self.subscriptions);
        subs.push((uuid, tx));
        proof {
            let after = subs@.map_values(|e: (String, UnboundedSender<Message>)| e.0@);
            assert(after =~= before.push(u));
            assert(distinct_seqs(after)) by {
                assert forall|a: int, b: int| 0 <= a < after.len() && 0 <= b < after.len() && a != b implies #[trigger] after[a] != #[trigger] after[b] by {
                    if a < before.len() && b < before.len() {
                    } else if a < before.len() {
                        assert(before[a] != u);
                    } else {
                        assert(before[b] != u);
                    }
                }
            }
        }
        self.subscriptions = subs;
        proof {
            assert(self.entries().drop_last() =~= before_entries);
        }
        let last = self.subscriptions.len() - 1;
        let mut log = Ghost(self.sent@);
        let sent = hand_to(&mut log, &self.subscriptions[last].0, &self.subscriptions[last].1, Message::Hello);
        self.sent = log;
        proof {
            assert(self.handed() =~= old(self).handed().push((u, MessageView::Hello)));
        }
        match sent {
            Ok(()) => Ok(rx),
            Err(_) => Err(send_failure()),
        }
    }

    /// Removes the subscriber `uuid` and sends `Close` for `key` on its own
    /// channel, and on no other. A uuid not subscribed changes nothing.
    pub fn unsubscribe(&mut self, key: String, uuid: &str) -> (r: Result<(), NotificationError>)
        ensures
            final(self).uuids() == drop_uuid(old(self).uuids(), uuid@),
            !old(self).uuids().contains(uuid@) ==> r is Ok && final(self).handed() == old(self).handed(),
            old(self).uuids().contains(uuid@) ==> final(self).handed() == old(self).handed().push(
                (uuid@, MessageView::Close(key@)),
            ),
            delivery_outcome(r),
            !old(self).uuids().contains(uuid@) ==> final(self).entries() == old(self).entries() && final(self).sent()
                == old(self).sent(),
            old(self).uuids().contains(uuid@) ==> {
                let i = position_of(old(self).uuids(), uuid@);
                &&& final(self).entries() == old(self).entries().remove(i)
                &&& final(self).sent() == old(self).sent().push(
                    (uuid@, old(self).entries()[i].1, MessageView::Close(key@)),
                )
            },
    {
        proof {
            use_type_invariant(&*self);
        }
        let name = uuid.to_owned();
        match self.find(&name) {
            Some(i) => {
                let ghost before = self.uuids();
                let ghost before_entries = self.entries();
                let mut subs: Vec<(String, UnboundedSender<Message>)> = Vec::new();
                std::mem::swap(&mut subs, &mut self.subscriptions);
                let (left, tx) = subs.remove(i);
                proof {
                    let after = subs@.map_values(|e: (String, UnboundedSender<Message>)| e.0@);
                    assert(before.contains(uuid@));
                    let c = choose|j: int| 0 <= j < before.len() && before[j] == uuid@;
                    assert(c == i);
                    assert(position_of(before, uuid@) == i);
                    assert(after =~= before.remove(i as int));
                    assert(distinct_seqs(after)) by {
                        assert forall|a: int, b: int| 0 <= a < after.len() && 0 <= b < after.len() && a != b implies #[trigger] after[a] != #[trigger] after[b] by {
                            let a2 = if a < i { a } else { a + 1 };
                            let b2 = if b < i { b } else { b + 1 };
                            assert(after[a] == before[a2]);
                            assert(after[b] == before[b2]);
                        }
                    }
                    assert(subs@.map_values(|e: (String, UnboundedSender<Message>)| (e.0@, e.1))
                        =~= before_entries.remove(i as int));
                    assert(before_entries[i as int] == (left@, tx));
                }
                self.subscriptions = subs;
                let mut log = Ghost(self.sent@);
        let sent = hand_to(&mut log, &left, &tx, Message::Close { key });
        self.sent = log;
                proof {
                    assert(self.handed() =~= old(self).handed().push((uuid@, MessageView::Close(key@))));
                }
                match sent {
                    Ok(()) => Ok(()),
                    Err(_) => Err(send_failure()),
                }
            },
            None => Ok(()),
        }
    }

    /// Removes every subscriber, sending each `Close` for `key` on its own
    /// channel (see `sent_in_order`: the sending stops at the first closed
    /// channel).
    pub fn unsubscribe_all(&mut self, key: &str) -> (r: Result<(), NotificationError>)
        ensures
            final(self).uuids() == Seq::<Seq<char>>::empty(),
            delivery_outcome(r),
            old(self).uuids().len() == 0 ==> r is Ok,
            exists|log: Seq<(Seq<char>, MessageView)>|
                broadcast_log(old(self).uuids(), MessageView::Close(key@), r is Ok, log) && final(self).handed()
                    == old(self).handed() + log,
            final(self).entries() == Seq::<(Seq<char>, UnboundedSender<Message>)>::empty(),
            exists|log: Seq<(Seq<char>, UnboundedSender<Message>, MessageView)>|
                sent_in_order(old(self).entries(), MessageView::Close(key@), r is Ok, log) && final(self).sent()
                    == old(self).sent() + log,
    {
        let ghost es = self.entries();
        let ghost m = MessageView::Close(key@);
        let ghost start = self.sent@;
        proof {
            self.lemma_uuids_of_entries();
        }
        let mut subs: Vec<(String, UnboundedSender<Message>)> = Vec::new();
        std::mem::swap(&mut subs, &mut self.subscriptions);
        assert(self.uuids() =~= Seq::<Seq<char>>::empty());
        assert(self.entries() =~= Seq::<(Seq<char>, UnboundedSender<Message>)>::empty());
        let mut i: usize = 0;
        assert(start + on_each(es.take(0), m) =~= start);
        while i < subs.len()
            invariant
                i <= subs@.len(),
                subs@.len() == es.len(),
                es == subs@.map_values(|e: (String, UnboundedSender<Message>)| (e.0@, e.1)),
                es == old(self).entries(),
                m == MessageView::Close(key@),
                old(self).uuids() == uuids_of(es),
                start == old(self).sent(),
                self.uuids() == Seq::<Seq<char>>::empty(),
                self.entries() == Seq::<(Seq<char>, UnboundedSender<Message>)>::empty(),
                self.sent@ == start + on_each(es.take(i as int), m),
            decreases subs@.len() - i,
        {
            let msg = Message::Close { key: key.to_owned() };
            proof {
                assert(es[i as int] == (subs@[i as int].0@, subs@[i as int].1));
                assert(on_each(es.take(i + 1), m) =~= on_each(es.take(i as int), m).push((es[i as int].0, es[i as int].1, m)));
            }
            let mut log = Ghost(self.sent@);
        let sent = hand_to(&mut log, &subs[i].0, &subs[i].1, msg);
        self.sent = log;
            match sent {
                Ok(()) => {},
                Err(_) => {
                    assert(sent_in_order(es, m, false, on_each(es.take(i + 1), m)));
                    proof {
                        lemma_sent_in_order_handed(es, m, false, on_each(es.take(i + 1), m));
                        assert(as_handed(start + on_each(es.take(i + 1), m)) =~= as_handed(start) + as_handed(
                            on_each(es.take(i + 1), m),
                        ));
                        assert(self.handed() == old(self).handed() + as_handed(on_each(es.take(i + 1), m)));
                        assert(broadcast_log(old(self).uuids(), m, false, as_handed(on_each(es.take(i + 1), m))));
                    }
                    return Err(send_failure());
                },
            }
            i = i + 1;
        }
        assert(es.take(es.len() as int) =~= es);
        assert(sent_in_order(es, m, true, on_each(es, m)));
        proof {
            lemma_sent_in_order_handed(es, m, true, on_each(es, m));
            assert(as_handed(start + on_each(es, m)) =~= as_handed(start) + as_handed(on_each(es, m)));
            assert(self.handed() == old(self).handed() + as_handed(on_each(es, m)));
            assert(broadcast_log(old(self).uuids(), m, true, as_handed(on_each(es, m))));
        }
        Ok(())
    }

    /// Sends `msg` on every subscriber's channel in order, stopping at the
    /// first closed one (see `sent_in_order` and `broadcast_log`).
    pub(crate) fn broadcast(&mut self, msg: &Message) -> (r: Result<(), NotificationError>)
        ensures
            final(self).uuids() == old(self).uuids(),
            delivery_outcome(r),
            old(self).uuids().len() == 0 ==> r is Ok,
            exists|log: Seq<(Seq<char>, MessageView)>|
                broadcast_log(old(self).uuids(), msg@, r is Ok, log) && final(self).handed() == old(self).handed()
                    + log,
            final(self).entries() == old(self).entries(),
            exists|log: Seq<(Seq<char>, UnboundedSender<Message>, MessageView)>|
                sent_in_order(old(self).entries(), msg@, r is Ok, log) && final(self).sent() == old(self).sent() + log,
    {
        proof {
            use_type_invariant(&*self);
            self.lemma_uuids_of_entries();
        }
        let ghost es = self.entries();
        let ghost start = self.sent@;
        let mut i: usize = 0;
        assert(start + on_each(es.take(0), msg@) =~= start);
        while i < self.subscriptions.len()
            invariant
                i <= self.subscriptions@.len(),
                es == self.entries(),
                es == old(self).entries(),
                self.uuids() == old(self).uuids(),
                old(self).uuids() == uuids_of(es),
                start == old(self).sent(),
                distinct_seqs(self.uuids()),
                self.sent@ == start + on_each(es.take(i as int), msg@),
            decreases self.subscriptions@.len() - i,
        {
            let m = copy_message(msg);
            proof {
                assert(es[i as int] == (self.subscriptions@[i as int].0@, self.subscriptions@[i as int].1));
                assert(on_each(es.take(i + 1), msg@) =~= on_each(es.take(i as int), msg@).push(
                    (es[i as int].0, es[i as int].1, msg@),
                ));
            }
            let mut log = Ghost(self.sent@);
        let sent = hand_to(&mut log, &self.subscriptions[i].0, &self.subscriptions[i].1, m);
        self.sent = log;
            match sent {
                Ok(()) => {},
                Err(_) => {
                    assert(sent_in_order(es, msg@, false, on_each(es.take(i + 1), msg@)));
                    proof {
                        lemma_sent_in_order_handed(es, msg@, false, on_each(es.take(i + 1), msg@));
                        assert(as_handed(start + on_each(es.take(i + 1), msg@)) =~= as_handed(start) + as_handed(
                            on_each(es.take(i + 1), msg@),
                        ));
                        assert(self.handed() == old(self).handed() + as_handed(on_each(es.take(i + 1), msg@)));
                        assert(broadcast_log(old(self).uuids(), msg@, false, as_handed(on_each(es.take(i + 1), msg@))));
                    }
                    return Err(send_failure());
                },
            }
            i = i + 1;
        }
        assert(es.take(es.len() as int) =~= es);
        assert(sent_in_order(es, msg@, true, on_each(es, msg@)));
        proof {
            lemma_sent_in_order_handed(es, msg@, true, on_each(es, msg@));
            assert(as_handed(start + on_each(es, msg@)) =~= as_handed(start) + as_handed(on_each(es, msg@)));
            assert(self.handed() == old(self).handed() + as_handed(on_each(es, msg@)));
            assert(broadcast_log(old(self).uuids(), msg@, true, as_handed(on_each(es, msg@))));
        }
        Ok(())
    }

    /// Sends `Hello` on every subscriber's channel (see `sent_in_order`).
    pub fn send_hello(&mut self) -> (r: Result<(), NotificationError>)
        ensures
            final(self).uuids() == old(self).uuids(),
            delivery_outcome(r),
            old(self).uuids().len() == 0 ==> r is Ok,
            exists|log: Seq<(Seq<char>, MessageView)>|
                broadcast_log(old(self).uuids(), MessageView::Hello, r is Ok, log) && final(self).handed()
                    == old(self).handed() + log,
            final(self).entries() == old(self).entries(),
            exists|log: Seq<(Seq<char>, UnboundedSender<Message>, MessageView)>|
                sent_in_order(old(self).entries(), MessageView::Hello, r is Ok, log) && final(self).sent()
                    == old(self).sent() + log,
    {
        self.broadcast(&Message::Hello)
    }

    /// Sends the new `value` of `key` on every subscriber's channel (see
    /// `sent_in_order`).
    pub fn send_update(&mut self, key: String, value: Vec<u8>) -> (r: Result<(), NotificationError>)
        ensures
            final(self).uuids() == old(self).uuids(),
            delivery_outcome(r),
            old(self).uuids().len() == 0 ==> r is Ok,
            exists|log: Seq<(Seq<char>, MessageView)>|
                broadcast_log(old(self).uuids(), MessageView::Update(key@, value@), r is Ok, log) && final(self).handed() == old(self).handed() + log,
            final(self).entries() == old(self).entries(),
            exists|log: Seq<(Seq<char>, UnboundedSender<Message>, MessageView)>|
                sent_in_order(old(self).entries(), MessageView::Update(key@, value@), r is Ok, log)
                    && final(self).sent() == old(self).sent() + log,
    {
        self.broadcast(&Message::Update { key, value })
    }

    /// Sends `Close` for `key` on every subscriber's channel; they stay
    /// subscribed (see `sent_in_order`).
    pub fn send_close(&mut self, key: String) -> (r: Result<(), NotificationError>)
        ensures
            final(self).uuids() == old(self).uuids(),
            delivery_outcome(r),
            old(self).uuids().len() == 0 ==> r is Ok,
            exists|log: Seq<(Seq<char>, MessageView)>|
                broadcast_log(old(self).uuids(), MessageView::Close(key@), r is Ok, log) && final(self).handed()
                    == old(self).handed() + log,
            final(self).entries() == old(self).entries(),
            exists|log: Seq<(Seq<char>, UnboundedSender<Message>, MessageView)>|
                sent_in_order(old(self).entries(), MessageView::Close(key@), r is Ok, log) && final(self).sent()
                    == old(self).sent() + log,
    {
        self.broadcast(&Message::Close { key })
    }
}

/// Law: unsubscribing `u` sends exactly one message, `Close` for `key`, and
/// sends it on the channel `u` subscribed with; every subscriber that stays
/// keeps its own channel and is sent nothing (`before` and `after` are a
/// `Notification` around a call of `unsubscribe` that found `u`).
pub proof fn law_unsubscribe_closes_only_the_leaver(
    before: Notification,
    after: Notification,
    key: Seq<char>,
    u: Seq<char>,
)
    requires
        distinct_seqs(before.uuids()),
        before.uuids().contains(u),
        after.entries() == before.entries().remove(position_of(before.uuids(), u)),
        after.sent() == before.sent().push(
            (u, before.entries()[position_of(before.uuids(), u)].1, MessageView::Close(key)),
        ),
    ensures
        exists|c: UnboundedSender<Message>|
            before.entries().contains((u, c)) && after.sent().skip(before.sent().len() as int) == seq![
                (u, c, MessageView::Close(key)),
            ],
        forall|j: int|
            0 <= j < after.entries().len() ==> before.entries().contains(#[trigger] after.entries()[j])
                && after.entries()[j].0 != u,
{
    before.lemma_uuids_of_entries();
    let i = position_of(before.uuids(), u);
    let es = before.entries();
    assert(0 <= i < es.len() && es[i].0 == u);
    let c = es[i].1;
    assert(es[i] == (u, c));
    assert(after.sent().skip(before.sent().len() as int) =~= seq![(u, c, MessageView::Close(key))]);
    assert(es.contains((u, c)));
    assert(before.entries().contains((u, c)) && after.sent().skip(before.sent().len() as int) == seq![
        (u, c, MessageView::Close(key)),
    ]);
    assert forall|j: int| 0 <= j < after.entries().len() implies before.entries().contains(
        #[trigger] after.entries()[j],
    ) && after.entries()[j].0 != u by {
        let j2 = if j < i { j } else { j + 1 };
        assert(after.entries()[j] == es[j2]);
        assert(before.uuids()[j2] == es[j2].0);
        assert(before.uuids()[i] == u);
    }
}

/// Law: a refused subscription changes no subscriber's channel, so every
/// subscriber still gets later messages on the channel it was given: after
/// `subscribe` refuses `u` (`before` to `middle`), a broadcast of `m` that
/// succeeds (`middle` to `after`) sends `m` on every channel that was there
/// before, in order.
pub proof fn law_refused_subscribe_keeps_channels(
    before: Notification,
    middle: Notification,
    after: Notification,
    m: MessageView,
    log: Seq<(Seq<char>, UnboundedSender<Message>, MessageView)>,
)
    requires
        middle.entries() == before.entries(),
        middle.sent() == before.sent(),
        sent_in_order(middle.entries(), m, true, log),
        after.sent() == middle.sent() + log,
    ensures
        after.sent() == before.sent() + on_each(before.entries(), m),
        forall|j: int|
            0 <= j < before.entries().len() ==> after.sent().contains(
                (before.entries()[j].0, before.entries()[j].1, m),
            ),
{
    assert forall|j: int| 0 <= j < before.entries().len() implies after.sent().contains(
        (before.entries()[j].0, before.entries()[j].1, m),
    ) by {
        let k = before.sent().len() + j;
        assert(after.sent()[k] == on_each(before.entries(), m)[j]);
    }
}

/// A copy of `v`.
pub(crate) fn copy_bytes(v: &Vec<u8>) -> (r: Vec<u8>)
    ensures
        r@ == v@,
{
    let r = v.clone();
    assert(r@ =~= v@);
    r
}

} // verus!
