//! The latest-value buffer between a subscription's channel and the
//! sockets of its clients.
use vstd::prelude::*;
use crate::errors::SerializingError;
use crate::request_msg::{message_payload_readable, message_text, parse_message, Message};
use crate::text::{trim_end, trim_end_len};

verus! {

/// Two slots and a cursor: `store` fills the slot under the cursor
/// (replacing what it held), `pop` empties that slot and moves the cursor to
/// the other one. While one value is being sent out, a newer one can be
/// stored without waiting, and a reader never gets an older value than the
/// last stored one.
#[derive(Debug)]
pub struct StateBuf<T> {
    buf: [Option<T>; 2],
    idx: usize,
}

impl<T> StateBuf<T> {
    #[verifier::type_invariant]
    closed spec fn inv(self) -> bool {
        self.idx < 2
    }

    /// The two slots.
    pub closed spec fn slots(self) -> Seq<Option<T>> {
        self.buf@
    }

    /// The slot `store` and `pop` use next.
    pub closed spec fn cursor(self) -> int {
        self.idx as int
    }

    /// The cursor is always 0 or 1 and there are two slots.
    pub fn cursor_in_range(&self)
        ensures
            0 <= self.cursor() < 2,
            self.slots().len() == 2,
    {
        proof {
            use_type_invariant(self);
        }
    }

    pub fn new() -> (b: Self)
        ensures
            b.slots() == seq![None::<T>, None::<T>],
            b.cursor() == 0,
            after_ops(Seq::<BufOp<T>>::empty()) == (b.slots(), b.cursor()),
    {
        let b = StateBuf { buf: [None, None], idx: 0 };
        assert(b.slots() =~= seq![None::<T>, None::<T>]);
        b
    }

    /// Puts `el` in the slot under the cursor.
    pub fn store(&mut self, el: T)
        ensures
            final(self).slots() == old(self).slots().update(old(self).cursor(), Some(el)),
            final(self).cursor() == old(self).cursor(),
            forall|ops: Seq<BufOp<T>>| after_ops(ops) == (old(self).slots(), old(self).cursor()) ==> #[trigger] after_ops(
                ops.push(BufOp::Store(el)),
            ) == (final(self).slots(), final(self).cursor()),
    {
        proof {
            use_type_invariant(&*self);
        }
        let mut slots: [Option<T>; 2] = [None, None];
        std::mem::swap(&mut slots, &mut self.buf);
        let ghost g = el;
        slots.set(self.idx, Some(el));
        self.buf = slots;
        proof {
            assert forall|ops: Seq<BufOp<T>>| after_ops(ops) == (old(self).slots(), old(self).cursor()) implies #[trigger] after_ops(
                ops.push(BufOp::Store(g)),
            ) == (self.slots(), self.cursor()) by {
                assert(ops.push(BufOp::Store(g)).drop_last() =~= ops);
            }
        }
    }

    /// Takes the value under the cursor, leaving that slot empty, and moves
    /// the cursor to the other slot.
    pub fn pop(&mut self) -> (r: Option<T>)
        ensures
            r == old(self).slots()[old(self).cursor()],
            final(self).slots() == old(self).slots().update(old(self).cursor(), None),
            final(self).cursor() == 1 - old(self).cursor(),
            forall|ops: Seq<BufOp<T>>| after_ops(ops) == (old(self).slots(), old(self).cursor()) ==> #[trigger] after_ops(
                ops.push(BufOp::Pop),
            ) == (final(self).slots(), final(self).cursor()),
    {
        proof {
            use_type_invariant(&*self);
        }
        let mut slots: [Option<T>; 2] = [None, None];
        std::mem::swap(&mut slots, &mut self.buf);
        let mut el: Option<T> = None;
        let i = self.idx;
        std::mem::swap(&mut el, &mut slots[i]);
        self.buf = slots;
        if self.idx == 0 {
            self.idx = 1;
        } else {
            self.idx = 0;
        }
        proof {
            assert forall|ops: Seq<BufOp<T>>| after_ops(ops) == (old(self).slots(), old(self).cursor()) implies #[trigger] after_ops(
                ops.push(BufOp::Pop),
            ) == (self.slots(), self.cursor()) by {
                assert(ops.push(BufOp::<T>::Pop).drop_last() =~= ops);
            }
        }
        el
    }
}

/// Law: of two values stored one after the other, the next `pop` returns
/// the later one: `b1` is `b0` after storing `x`, `b2` is `b1` after storing
/// `y`.
pub proof fn law_pop_returns_last_store<T>(b0: StateBuf<T>, b1: StateBuf<T>, b2: StateBuf<T>, x: T, y: T)
    requires
        0 <= b0.cursor() < b0.slots().len(),
        b1.slots() == b0.slots().update(b0.cursor(), Some(x)),
        b1.cursor() == b0.cursor(),
        b2.slots() == b1.slots().update(b1.cursor(), Some(y)),
        b2.cursor() == b1.cursor(),
    ensures
        b2.slots()[b2.cursor()] == Some(y),
{
}

/// Law: a `pop` empties the slot it read and moves to the other one, so a
/// value stored next is what the following `pop` returns, and the emptied
/// slot stays empty: `b1` is `b0` after a `pop`, `b2` is `b1` after storing
/// `x`.
pub proof fn law_pop_alternates<T>(b0: StateBuf<T>, b1: StateBuf<T>, b2: StateBuf<T>, x: T)
    requires
        0 <= b0.cursor() < 2,
        b0.slots().len() == 2,
        b1.slots() == b0.slots().update(b0.cursor(), None),
        b1.cursor() == 1 - b0.cursor(),
        b2.slots() == b1.slots().update(b1.cursor(), Some(x)),
        b2.cursor() == b1.cursor(),
    ensures
        b2.slots()[b2.cursor()] == Some(x),
        b2.slots()[b0.cursor()] is None,
        b2.cursor() != b0.cursor(),
{
}

/// A call on a `StateBuf`.
pub ghost enum BufOp<T> {
    Store(T),
    Pop,
}

/// The slots and cursor of a `StateBuf` after `ops`, starting from `new`:
/// each step is what the contract of `store` or `pop` says it does.
pub open spec fn after_ops<T>(ops: Seq<BufOp<T>>) -> (Seq<Option<T>>, int)
    decreases ops.len(),
{
    if ops.len() == 0 {
        (seq![None::<T>, None::<T>], 0)
    } else {
        let (slots, c) = after_ops(ops.drop_last());
        match ops.last() {
            BufOp::Store(x) => (slots.update(c, Some(x)), c),
            BufOp::Pop => (slots.update(c, None), 1 - c),
        }
    }
}

/// The value stored last since the latest `pop` (or since `new`), if any.
pub open spec fn pending<T>(ops: Seq<BufOp<T>>) -> Option<T>
    decreases ops.len(),
{
    if ops.len() == 0 {
        None
    } else {
        match ops.last() {
            BufOp::Store(x) => Some(x),
            BufOp::Pop => None,
        }
    }
}

/// Law: whatever calls a `StateBuf` has seen since `new`, the cursor is 0
/// or 1, the slot away from the cursor is empty, and the slot under the
/// cursor holds the value stored last since the latest `pop`; so the next
/// `pop` returns exactly that value (or `None` when nothing was stored
/// since), never an older one.
pub proof fn law_state_buf_latest<T>(ops: Seq<BufOp<T>>)
    ensures
        0 <= after_ops(ops).1 < 2,
        after_ops(ops).0.len() == 2,
        after_ops(ops).0[1 - after_ops(ops).1] is None,
        after_ops(ops).0[after_ops(ops).1] == pending(ops),
    decreases ops.len(),
{
    if ops.len() > 0 {
        law_state_buf_latest(ops.drop_last());
    }
}

/// A message as the line written to a subscriber's socket.
pub fn message_line(msg: &Message) -> (s: String)
    requires
        msg matches Message::Update { value, .. } ==> 4 * ((value@.len() + 2) / 3) <= usize::MAX,
    ensures
        s@ == message_text(msg@) + seq!['\n'],
{
    let mut s = msg.to_string();
    s.append("\n");
    proof {
        reveal_strlit("\n");
    }
    s
}

/// Reads a message line, trailing whitespace (the line end) dropped
/// first; `None` where an `UPDATE` value is not valid base64.
pub fn read_message(line: &str) -> (r: Option<Result<Message, SerializingError>>)
    ensures
        ({
            let t = line@.take(trim_end_len(line@) as int);
            &&& r is None <==> !message_payload_readable(t)
            &&& r matches Some(res) ==> match parse_message(t) {
                Ok(v) => res matches Ok(m) && m@ == v,
                Err(e) => res matches Err(err) && err@ == e,
            }
        }),
{
    let t = trim_end(line);
    Message::try_from_str(t.as_str())
}

/// The entries of `s` as a map from id to value.
pub open spec fn entry_map<W>(s: Seq<(String, W)>) -> Map<Seq<char>, W> {
    Map::new(
        |k: Seq<char>| exists|i: int| 0 <= i < s.len() && (#[trigger] s[i]).0@ == k,
        |k: Seq<char>| s[choose|i: int| 0 <= i < s.len() && (#[trigger] s[i]).0@ == k].1,
    )
}

pub open spec fn ids_distinct<W>(s: Seq<(String, W)>) -> bool {
    forall|a: int, b: int|
        0 <= a < s.len() && 0 <= b < s.len() && a != b ==> (#[trigger] s[a]).0@ != (#[trigger] s[b]).0@
}

/// In a list of distinct ids, entry `i` is what the map holds for its id.
proof fn lemma_entry_at<W>(s: Seq<(String, W)>, i: int)
    requires
        ids_distinct(s),
        0 <= i < s.len(),
    ensures
        entry_map(s).contains_key(s[i].0@),
        entry_map(s)[s[i].0@] == s[i].1,
{
    let e = s[i];
    assert(e.0@ == s[i].0@);
    assert(exists|j: int| 0 <= j < s.len() && (#[trigger] s[j]).0@ == s[i].0@);
}

/// Removing entry `i` removes its id from the map.
proof fn lemma_entry_remove<W>(s: Seq<(String, W)>, i: int)
    requires
        ids_distinct(s),
        0 <= i < s.len(),
    ensures
        ids_distinct(s.remove(i)),
        entry_map(s.remove(i)) == entry_map(s).remove(s[i].0@),
{
    let t = s.remove(i);
    assert forall|a: int, b: int| 0 <= a < t.len() && 0 <= b < t.len() && a != b implies (#[trigger] t[a]).0@
        != (#[trigger] t[b]).0@ by {
        let a2 = if a < i { a } else { a + 1 };
        let b2 = if b < i { b } else { b + 1 };
        assert(t[a] == s[a2] && t[b] == s[b2]);
    }
    assert forall|k: Seq<char>| #[trigger] entry_map(t).contains_key(k) == entry_map(s).remove(s[i].0@).contains_key(k) by {
        if entry_map(t).contains_key(k) {
            let j = choose|j: int| 0 <= j < t.len() && (#[trigger] t[j]).0@ == k;
            let j2 = if j < i { j } else { j + 1 };
            assert(t[j] == s[j2]);
            assert(exists|j: int| 0 <= j < s.len() && (#[trigger] s[j]).0@ == k);
        }
        if entry_map(s).remove(s[i].0@).contains_key(k) {
            let j = choose|j: int| 0 <= j < s.len() && (#[trigger] s[j]).0@ == k;
            assert(j != i);
            let j2 = if j < i { j } else { j - 1 };
            assert(t[j2] == s[j]);
            assert(exists|j: int| 0 <= j < t.len() && (#[trigger] t[j]).0@ == k);
        }
    }
    assert forall|k: Seq<char>| #[trigger] entry_map(t).contains_key(k) implies entry_map(t)[k] == entry_map(s)[k] by {
        let j = choose|j: int| 0 <= j < t.len() && (#[trigger] t[j]).0@ == k;
        let j2 = if j < i { j } else { j + 1 };
        assert(t[j] == s[j2]);
        lemma_entry_at(t, j);
        lemma_entry_at(s, j2);
    }
    assert(entry_map(t) =~= entry_map(s).remove(s[i].0@));
}

/// An entry for a new id adds that id to the map.
proof fn lemma_entry_push<W>(s: Seq<(String, W)>, e: (String, W))
    requires
        ids_distinct(s),
        !entry_map(s).contains_key(e.0@),
    ensures
        ids_distinct(s.push(e)),
        entry_map(s.push(e)) == entry_map(s).insert(e.0@, e.1),
{
    let t = s.push(e);
    assert forall|a: int, b: int| 0 <= a < t.len() && 0 <= b < t.len() && a != b implies (#[trigger] t[a]).0@
        != (#[trigger] t[b]).0@ by {
        if a < s.len() {
            assert(t[a] == s[a]);
            if a < s.len() && b == s.len() {
                assert(exists|j: int| 0 <= j < s.len() && (#[trigger] s[j]).0@ == s[a].0@);
            }
        }
        if b < s.len() {
            assert(t[b] == s[b]);
            if a == s.len() {
                assert(exists|j: int| 0 <= j < s.len() && (#[trigger] s[j]).0@ == s[b].0@);
            }
        }
    }
    lemma_entry_at(t, s.len() as int);
    assert forall|k: Seq<char>| #[trigger] entry_map(t).contains_key(k) == entry_map(s).insert(e.0@, e.1).contains_key(k) by {
        if entry_map(t).contains_key(k) && k != e.0@ {
            let j = choose|j: int| 0 <= j < t.len() && (#[trigger] t[j]).0@ == k;
            assert(t[j] == s[j]);
            assert(exists|j: int| 0 <= j < s.len() && (#[trigger] s[j]).0@ == k);
        }
        if entry_map(s).contains_key(k) {
            let j = choose|j: int| 0 <= j < s.len() && (#[trigger] s[j]).0@ == k;
            assert(t[j] == s[j]);
            assert(exists|j: int| 0 <= j < t.len() && (#[trigger] t[j]).0@ == k);
        }
    }
    assert forall|k: Seq<char>| #[trigger] entry_map(t).contains_key(k) implies entry_map(t)[k] == entry_map(s).insert(e.0@, e.1)[k] by {
        if k != e.0@ {
            let j = choose|j: int| 0 <= j < s.len() && (#[trigger] s[j]).0@ == k;
            assert(t[j] == s[j]);
            lemma_entry_at(s, j);
            lemma_entry_at(t, j);
        }
    }
    assert(entry_map(t) =~= entry_map(s).insert(e.0@, e.1));
}

/// The clients of one subscription, each under its id with the writer it
/// is reached through. An id is held at most once.
#[derive(Debug)]
pub struct ClientRegistry<W> {
    clients: Vec<(String, W)>,
}

impl<W> ClientRegistry<W> {
    #[verifier::type_invariant]
    closed spec fn inv(self) -> bool {
        ids_distinct(self.clients@)
    }

    /// The writer of each client, by id.
    pub closed spec fn clients(self) -> Map<Seq<char>, W> {
        entry_map(self.clients@)
    }

    pub fn new() -> (r: Self)
        ensures
            r.clients() == Map::<Seq<char>, W>::empty(),
    {
        let r = ClientRegistry { clients: Vec::new() };
        assert(r.clients() =~= Map::<Seq<char>, W>::empty());
        r
    }

    /// The position of `uuid`, if it is held.
    fn find(&self, uuid: &str) -> (r: Option<usize>)
        ensures
            match r {
                Some(i) => i < self.clients@.len() && self.clients@[i as int].0@ == uuid@,
                None => !self.clients().contains_key(uuid@),
            },
    {
        let name = uuid.to_owned();
        let mut i: usize = 0;
        while i < self.clients.len()
            invariant
                name@ == uuid@,
                i <= self.clients@.len(),
                forall|j: int| 0 <= j < i ==> (#[trigger] self.clients@[j]).0@ != uuid@,
            decreases self.clients@.len() - i,
        {
            if self.clients[i].0 == name {
                return Some(i);
            }
            i = i + 1;
        }
        None
    }

    /// Whether `uuid` is held.
    pub fn contains(&self, uuid: &str) -> (b: bool)
        ensures
            b == self.clients().contains_key(uuid@),
    {
        proof {
            use_type_invariant(self);
        }
        match self.find(uuid) {
            Some(i) => {
                proof {
                    lemma_entry_at(self.clients@, i as int);
                }
                true
            },
            None => false,
        }
    }

    /// Takes the writer of `uuid` out, if it is held.
    pub fn take(&mut self, uuid: &str) -> (r: Option<W>)
        ensures
            old(self).clients().contains_key(uuid@) ==> r == Some(old(self).clients()[uuid@]),
            !old(self).clients().contains_key(uuid@) ==> r is None,
            final(self).clients() == old(self).clients().remove(uuid@),
    {
        proof {
            use_type_invariant(&*self);
        }
        match self.find(uuid) {
            Some(i) => {
                proof {
                    lemma_entry_at(self.clients@, i as int);
                    lemma_entry_remove(self.clients@, i as int);
                }
                let mut all: Vec<(String, W)> = Vec::new();
                std::mem::swap(&mut all, &mut self.clients);
                let (_, w) = all.remove(i);
                self.clients = all;
                Some(w)
            },
            None => {
                assert(self.clients() =~= old(self).clients().remove(uuid@));
                None
            },
        }
    }

    /// Holds `w` under `uuid`, in place of any writer held there before.
    pub fn insert(&mut self, uuid: String, w: W)
        ensures
            final(self).clients() == old(self).clients().insert(uuid@, w),
    {
        let _ = self.take(uuid.as_str());
        proof {
            use_type_invariant(&*self);
            lemma_entry_push(self.clients@, (uuid, w));
        }
        let mut all: Vec<(String, W)> = Vec::new();
        std::mem::swap(&mut all, &mut self.clients);
        all.push((uuid, w));
        self.clients = all;
        assert(self.clients() =~= old(self).clients().insert(uuid@, w));
    }

    /// The ids held, each once.
    pub fn ids(&self) -> (r: Vec<String>)
        ensures
            forall|a: int, b: int|
                0 <= a < r@.len() && 0 <= b < r@.len() && a != b ==> (#[trigger] r@[a])@ != (#[trigger] r@[b])@,
            forall|i: int| 0 <= i < r@.len() ==> self.clients().contains_key(#[trigger] r@[i]@),
            forall|k: Seq<char>| #[trigger] self.clients().contains_key(k) ==> exists|i: int|
                0 <= i < r@.len() && r@[i]@ == k,
    {
        proof {
            use_type_invariant(self);
        }
        let mut r: Vec<String> = Vec::new();
        let mut i: usize = 0;
        while i < self.clients.len()
            invariant
                i <= self.clients@.len(),
                ids_distinct(self.clients@),
                r@.len() == i,
                forall|j: int| 0 <= j < i ==> (#[trigger] r@[j])@ == self.clients@[j].0@,
            decreases self.clients@.len() - i,
        {
            r.push(self.clients[i].0.clone());
            i = i + 1;
        }
        assert forall|a: int, b: int| 0 <= a < r@.len() && 0 <= b < r@.len() && a != b implies (#[trigger] r@[a])@
            != (#[trigger] r@[b])@ by {
            assert(r@[a]@ == self.clients@[a].0@ && r@[b]@ == self.clients@[b].0@);
        }
        assert forall|j: int| 0 <= j < r@.len() implies self.clients().contains_key(#[trigger] r@[j]@) by {
            lemma_entry_at(self.clients@, j);
        }
        assert forall|k: Seq<char>| #[trigger] self.clients().contains_key(k) implies exists|i: int|
            0 <= i < r@.len() && r@[i]@ == k by {
            let j = choose|j: int| 0 <= j < self.clients@.len() && (#[trigger] self.clients@[j]).0@ == k;
            assert(r@[j]@ == k);
        }
        r
    }

    /// Takes every client out, leaving none.
    pub fn drain(&mut self) -> (r: Vec<(String, W)>)
        ensures
            final(self).clients() == Map::<Seq<char>, W>::empty(),
            entry_map(r@) == old(self).clients(),
            ids_distinct(r@),
    {
        proof {
            use_type_invariant(&*self);
        }
        let mut all: Vec<(String, W)> = Vec::new();
        std::mem::swap(&mut all, &mut self.clients);
        assert(self.clients() =~= Map::<Seq<char>, W>::empty());
        all
    }
}

} // verus!
