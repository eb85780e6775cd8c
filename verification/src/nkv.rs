//! The notifying key-value store: values live in a keyspace trie, and each
//! stored key has a set of subscribers that hear about changes to it and to
//! the keys below it.
use vstd::prelude::*;
use tokio::sync::mpsc::{UnboundedReceiver, UnboundedSender};
use tokio::sync::mpsc::error::SendError;
use crate::errors::NotifyKeyValueError;
use crate::traits::StorageEngine;
use crate::trie::{
    get_answer, enumerates_under, enumerates_with, items_answer, key_path, law_get_after_insert, law_get_after_remove,
    KeyPath, Trie,
};
use crate::text::{chars_of, split_char, split_spec, join_spec, lemma_split_pieces, lemma_split_join, lemma_split_injective};

pub use crate::request_msg::Message;
pub use crate::notification::{Notification, NotificationError};
use crate::notification::{
    as_handed, broadcast_log, copy_bytes, delivery_outcome, distinct_seqs, drop_uuid, on_each, position_of,
    sent_in_order, to_each, uuids_of,
};
use crate::request_msg::MessageView;
use crate::persistence::{EngineCall, engine_holds, by_path, listed, lemma_by_path_insert, lemma_by_path_remove, lemma_restored_listed};

verus! {

/// What `get_answer` says of a map holds, value by value, of any image of
/// it.
pub proof fn lemma_get_answer_map<A, B>(m: Map<KeyPath, A>, key: Seq<char>, vals: Seq<A>, f: spec_fn(A) -> B)
    requires
        get_answer(m, key, vals),
    ensures
        get_answer(m.map_values(f), key, vals.map_values(f)),
{
    let parts = key_path(key);
    let fm = m.map_values(f);
    let fv = vals.map_values(f);
    if crate::trie::star_index(parts) >= 0 || key.contains('*') {
        let q = if crate::trie::star_index(parts) >= 0 { parts.take(crate::trie::star_index(parts)) } else { parts };
        let ks = choose|ks: Seq<KeyPath>| #[trigger] enumerates_with(m, q, vals, ks);
        assert forall|k: int| 0 <= k < ks.len() implies {
            &&& #[trigger] fm.contains_key(ks[k])
            &&& crate::trie::has_prefix(ks[k], q)
            &&& fm[ks[k]] == fv[k]
        } by {
            assert(m.contains_key(ks[k]));
        }
        assert forall|p: KeyPath| #[trigger] fm.contains_key(p) && crate::trie::has_prefix(p, q) implies exists|k: int|
            0 <= k < ks.len() && ks[k] == p by {
            assert(m.contains_key(p));
        }
        assert(enumerates_with(fm, q, fv, ks));
    } else {
        if m.contains_key(parts) {
            assert(fv =~= seq![fm[parts]]);
        } else {
            assert(fv =~= Seq::<B>::empty());
        }
    }
}

/// A keyed answer to a read stays one when every value is mapped by `f`.
pub proof fn lemma_items_answer_map<A, B>(
    m: Map<KeyPath, A>,
    key: Seq<char>,
    items: Seq<(Seq<char>, A)>,
    f: spec_fn(A) -> B,
)
    requires
        items_answer(m, key, items),
    ensures
        items_answer(m.map_values(f), key, items.map_values(|e: (Seq<char>, A)| (e.0, f(e.1)))),
{
    let parts = key_path(key);
    let fm = m.map_values(f);
    let fi = items.map_values(|e: (Seq<char>, A)| (e.0, f(e.1)));
    let vals = items.map_values(|e: (Seq<char>, A)| e.1);
    let fv = fi.map_values(|e: (Seq<char>, B)| e.1);
    assert(fv =~= vals.map_values(f));
    if crate::trie::star_index(parts) >= 0 || key.contains('*') {
        let q = if crate::trie::star_index(parts) >= 0 { parts.take(crate::trie::star_index(parts)) } else { parts };
        let ks = choose|ks: Seq<KeyPath>|
            #[trigger] enumerates_with(m, q, vals, ks) && forall|i: int|
                0 <= i < ks.len() ==> #[trigger] items[i].0 == crate::trie::iter_key(ks[i]);
        assert forall|k: int| 0 <= k < ks.len() implies {
            &&& #[trigger] fm.contains_key(ks[k])
            &&& crate::trie::has_prefix(ks[k], q)
            &&& fm[ks[k]] == fv[k]
        } by {
            assert(m.contains_key(ks[k]));
        }
        assert forall|p: KeyPath| #[trigger] fm.contains_key(p) && crate::trie::has_prefix(p, q) implies exists|k: int|
            0 <= k < ks.len() && ks[k] == p by {
            assert(m.contains_key(p));
        }
        assert forall|i: int| 0 <= i < ks.len() implies #[trigger] fi[i].0 == crate::trie::iter_key(ks[i]) by {
            assert(items[i].0 == crate::trie::iter_key(ks[i]));
        }
        assert(enumerates_with(fm, q, fv, ks));
        assert(crate::trie::keyed_under(fm, q, fi));
    } else {
        if m.contains_key(parts) {
            assert(fi =~= seq![(key, fm[parts])]);
        } else {
            assert(fi =~= Seq::<(Seq<char>, B)>::empty());
        }
    }
}

/// The prefixes of `parts` of lengths 1 to `n` that `m` holds, shortest
/// first.
pub open spec fn held_prefixes<V>(m: Map<KeyPath, V>, parts: KeyPath, n: int) -> Seq<KeyPath>
    decreases n,
{
    if n <= 0 {
        Seq::<KeyPath>::empty()
    } else {
        let r = held_prefixes(m, parts, n - 1);
        if m.contains_key(parts.take(n)) {
            r.push(parts.take(n))
        } else {
            r
        }
    }
}

/// The keys strictly above `key` in the keyspace that hold a value, from
/// the outermost down: their subscribers hear about changes to `key`.
pub open spec fn watcher_paths<V>(m: Map<KeyPath, V>, key: Seq<char>) -> Seq<KeyPath> {
    held_prefixes(m, key_path(key), key_path(key).len() - 1)
}

/// The keys of `watcher_paths`, written out with `.`.
pub open spec fn watcher_keys<V>(m: Map<KeyPath, V>, key: Seq<char>) -> Seq<Seq<char>> {
    watcher_paths(m, key).map_values(|p: KeyPath| join_spec(p, '.'))
}

/// Every prefix `held_prefixes` lists is a prefix of `parts` no longer
/// than `n`.
proof fn lemma_held_prefixes<V>(m: Map<KeyPath, V>, parts: KeyPath, n: int)
    requires
        n <= parts.len(),
    ensures
        forall|i: int| 0 <= i < held_prefixes(m, parts, n).len() ==> {
            let p = #[trigger] held_prefixes(m, parts, n)[i];
            &&& p.len() <= n
            &&& p == parts.take(p.len() as int)
        },
    decreases n,
{
    if n > 0 {
        lemma_held_prefixes(m, parts, n - 1);
        let r = held_prefixes(m, parts, n - 1);
        if m.contains_key(parts.take(n)) {
            assert forall|i: int| 0 <= i < r.push(parts.take(n)).len() implies {
                let p = #[trigger] r.push(parts.take(n))[i];
                &&& p.len() <= n
                &&& p == parts.take(p.len() as int)
            } by {
                if i < r.len() {
                    assert(r.push(parts.take(n))[i] == r[i]);
                }
            }
        }
    }
}

/// The prefixes `held_prefixes` lists grow strictly longer and are never
/// empty.
proof fn lemma_held_prefixes_grow<V>(m: Map<KeyPath, V>, parts: KeyPath, n: int)
    requires
        n <= parts.len(),
    ensures
        forall|a: int, b: int|
            0 <= a < b < held_prefixes(m, parts, n).len() ==> (#[trigger] held_prefixes(m, parts, n)[a]).len()
                < (#[trigger] held_prefixes(m, parts, n)[b]).len(),
        forall|a: int| 0 <= a < held_prefixes(m, parts, n).len() ==> (#[trigger] held_prefixes(m, parts, n)[a]).len() >= 1,
    decreases n,
{
    if n > 0 {
        lemma_held_prefixes_grow(m, parts, n - 1);
        lemma_held_prefixes(m, parts, n - 1);
        let r = held_prefixes(m, parts, n - 1);
        if m.contains_key(parts.take(n)) {
            let t = r.push(parts.take(n));
            assert forall|a: int, b: int| 0 <= a < b < t.len() implies (#[trigger] t[a]).len() < (#[trigger] t[b]).len() by {
                assert(t[a] == r[a]);
                if b < r.len() {
                    assert(t[b] == r[b]);
                } else {
                    assert(r[a].len() <= n - 1);
                }
            }
            assert forall|a: int| 0 <= a < t.len() implies (#[trigger] t[a]).len() >= 1 by {
                if a < r.len() {
                    assert(t[a] == r[a]);
                }
            }
        }
    }
}

/// Law: the keys above a written key that are told about it are listed
/// once each.
pub proof fn law_watcher_keys_distinct<V>(m: Map<KeyPath, V>, key: Seq<char>)
    ensures
        distinct_seqs(watcher_keys(m, key)),
{
    let parts = key_path(key);
    crate::text::lemma_split_spec_nonempty(key, '.');
    crate::text::lemma_split_pieces(key, '.');
    let n = parts.len() - 1;
    lemma_held_prefixes(m, parts, n);
    lemma_held_prefixes_grow(m, parts, n);
    let ps = watcher_paths(m, key);
    let ks = watcher_keys(m, key);
    assert forall|a: int, b: int| 0 <= a < ks.len() && 0 <= b < ks.len() && a != b implies #[trigger] ks[a]
        != #[trigger] ks[b] by {
        let pa = ps[a];
        let pb = ps[b];
        assert(pa.len() != pb.len()) by {
            if a < b {
                assert(pa.len() < pb.len());
            } else {
                assert(pb.len() < pa.len());
            }
        }
        assert forall|i: int| 0 <= i < pa.len() implies !(#[trigger] pa[i]).contains('.') by {
            assert(pa == parts.take(pa.len() as int));
            assert(pa[i] == parts[i]);
        }
        assert forall|i: int| 0 <= i < pb.len() implies !(#[trigger] pb[i]).contains('.') by {
            assert(pb == parts.take(pb.len() as int));
            assert(pb[i] == parts[i]);
        }
        crate::text::lemma_split_join(pa, '.');
        crate::text::lemma_split_join(pb, '.');
    }
}

/// No key strictly above `key` that holds a value has a subscriber, so
/// a change to `key` has no one above it to tell.
pub open spec fn watchers_silent(
    subs: Map<Seq<char>, Seq<Seq<char>>>,
    data: Map<KeyPath, Seq<u8>>,
    key: Seq<char>,
) -> bool {
    forall|k: Seq<char>|
        #[trigger] subs.contains_key(k) && watcher_paths(data, key).contains(key_path(k)) ==> subs[k].len() == 0
}

/// A record of messages handed to the subscribers of key `k`, each tagged
/// with `k`.
pub open spec fn tag(
    k: Seq<char>,
    log: Seq<(Seq<char>, MessageView)>,
) -> Seq<(Seq<char>, Seq<char>, MessageView)> {
    log.map_values(|e: (Seq<char>, MessageView)| (k, e.0, e.1))
}

/// `m` handed to every subscriber of each of `keys`, key by key in order
/// and each key's subscribers in the order they subscribed; a key without
/// subscribers adds nothing.
pub open spec fn notices(
    subs: Map<Seq<char>, Seq<Seq<char>>>,
    keys: Seq<Seq<char>>,
    m: MessageView,
) -> Seq<(Seq<char>, Seq<char>, MessageView)>
    decreases keys.len(),
{
    if keys.len() == 0 {
        Seq::empty()
    } else {
        notices(subs, keys.drop_last(), m) + if subs.contains_key(keys.last()) {
            tag(keys.last(), to_each(subs[keys.last()], m))
        } else {
            Seq::empty()
        }
    }
}

/// Where every listed key is without subscribers, nothing is handed out.
proof fn lemma_notices_empty(subs: Map<Seq<char>, Seq<Seq<char>>>, keys: Seq<Seq<char>>, m: MessageView)
    requires
        forall|i: int| 0 <= i < keys.len() && subs.contains_key(#[trigger] keys[i]) ==> subs[keys[i]].len() == 0,
    ensures
        notices(subs, keys, m).len() == 0,
    decreases keys.len(),
{
    if keys.len() > 0 {
        let d = keys.drop_last();
        assert forall|i: int| 0 <= i < d.len() && subs.contains_key(#[trigger] d[i]) implies subs[d[i]].len() == 0 by {
            assert(d[i] == keys[i]);
        }
        lemma_notices_empty(subs, d, m);
        assert(keys.last() == keys[keys.len() - 1]);
    }
}

/// A prefix of the keys hands out no more than all of them.
proof fn lemma_notices_prefix_len(subs: Map<Seq<char>, Seq<Seq<char>>>, keys: Seq<Seq<char>>, n: int, m: MessageView)
    requires
        0 <= n <= keys.len(),
    ensures
        notices(subs, keys.take(n), m).len() <= notices(subs, keys, m).len(),
    decreases keys.len(),
{
    if n < keys.len() {
        let d = keys.drop_last();
        assert(d.take(n) =~= keys.take(n));
        lemma_notices_prefix_len(subs, d, n, m);
    } else {
        assert(keys.take(n) =~= keys);
    }
}

/// Handing `m` to the own subscribers `own` of `key` reached the first
/// `n` of them: either all of them with nothing missed, or up to the one
/// whose channel was found closed, which is recorded as missed.
pub open spec fn own_handing(
    own: Seq<Seq<char>>,
    key: Seq<char>,
    m: MessageView,
    n: int,
    missed_before: Seq<(Seq<char>, Seq<char>, MessageView)>,
    missed_after: Seq<(Seq<char>, Seq<char>, MessageView)>,
) -> bool {
    (n == own.len() && missed_after == missed_before) || (0 < n <= own.len() && missed_after == missed_before.push(
        (key, own[n - 1], m),
    ))
}

/// The subscribers of `key`, none where it has no entry.
pub open spec fn own_subscribers(subs: Map<Seq<char>, Seq<Seq<char>>>, key: Seq<char>) -> Seq<Seq<char>> {
    if subs.contains_key(key) {
        subs[key]
    } else {
        Seq::empty()
    }
}

/// A new entry for a key that is not listed changes nothing handed out.
proof fn lemma_notices_insert_other(
    subs: Map<Seq<char>, Seq<Seq<char>>>,
    keys: Seq<Seq<char>>,
    k: Seq<char>,
    v: Seq<Seq<char>>,
    m: MessageView,
)
    requires
        forall|i: int| 0 <= i < keys.len() ==> #[trigger] keys[i] != k,
    ensures
        notices(subs.insert(k, v), keys, m) == notices(subs, keys, m),
    decreases keys.len(),
{
    if keys.len() > 0 {
        let d = keys.drop_last();
        assert forall|i: int| 0 <= i < d.len() implies #[trigger] d[i] != k by {
            assert(d[i] == keys[i]);
        }
        lemma_notices_insert_other(subs, d, k, v, m);
        assert(keys.last() == keys[keys.len() - 1]);
    }
}

/// The keys of the first entries of `ns` that lie strictly below `key`, in
/// order.
pub open spec fn names_below(ns: Seq<(String, Notification)>, key: Seq<char>) -> Seq<Seq<char>>
    decreases ns.len(),
{
    if ns.len() == 0 {
        Seq::empty()
    } else {
        let rest = names_below(ns.drop_last(), key);
        if strictly_below(ns.last().0@, key) {
            rest.push(ns.last().0@)
        } else {
            rest
        }
    }
}

/// `names_below` looks only at the entries' keys.
proof fn lemma_names_below_same(ns: Seq<(String, Notification)>, ms: Seq<(String, Notification)>, key: Seq<char>)
    requires
        ns.len() == ms.len(),
        forall|q: int| 0 <= q < ns.len() ==> (#[trigger] ms[q]).0 == ns[q].0,
    ensures
        names_below(ns, key) == names_below(ms, key),
    decreases ns.len(),
{
    if ns.len() > 0 {
        let (d, e) = (ns.drop_last(), ms.drop_last());
        assert forall|q: int| 0 <= q < d.len() implies (#[trigger] e[q]).0 == d[q].0 by {
            assert(e[q] == ms[q] && d[q] == ns[q]);
        }
        lemma_names_below_same(d, e, key);
        assert(ms.last().0 == ns.last().0) by {
            assert(ms[ms.len() - 1].0 == ns[ns.len() - 1].0);
        }
    }
}

/// Every key `names_below` lists is an entry's key lying strictly below,
/// and every entry's key lying strictly below is listed.
proof fn lemma_names_below(ns: Seq<(String, Notification)>, key: Seq<char>)
    ensures
        forall|i: int| 0 <= i < names_below(ns, key).len() ==> strictly_below(#[trigger] names_below(ns, key)[i], key)
            && has_notifier(ns, names_below(ns, key)[i]),
        forall|k: Seq<char>| #[trigger] has_notifier(ns, k) && strictly_below(k, key) ==> names_below(ns, key).contains(k),
    decreases ns.len(),
{
    if ns.len() > 0 {
        let d = ns.drop_last();
        lemma_names_below(d, key);
        let rest = names_below(d, key);
        assert forall|k: Seq<char>| #[trigger] has_notifier(ns, k) && strictly_below(k, key) implies names_below(ns, key).contains(k) by {
            let j = choose|j: int| 0 <= j < ns.len() && (#[trigger] ns[j]).0@ == k;
            if j < d.len() {
                assert(d[j] == ns[j]);
                assert(has_notifier(d, k));
                let t = choose|t: int| 0 <= t < rest.len() && rest[t] == k;
                assert(names_below(ns, key)[t] == rest[t]);
            } else {
                assert(ns.last() == ns[j]);
                assert(names_below(ns, key)[rest.len() as int] == k);
            }
        }
        assert forall|i: int| 0 <= i < names_below(ns, key).len() implies strictly_below(#[trigger] names_below(ns, key)[i], key)
            && has_notifier(ns, names_below(ns, key)[i]) by {
            if i < rest.len() {
                assert(names_below(ns, key)[i] == rest[i]);
                let j = choose|j: int| 0 <= j < d.len() && (#[trigger] d[j]).0@ == rest[i];
                assert(ns[j] == d[j]);
            } else {
                assert(ns[ns.len() - 1] == ns.last());
            }
        }
    }
}

/// `name` lies strictly below `key` in the keyspace: it is `key`, a `.`,
/// and more.
pub open spec fn strictly_below(name: Seq<char>, key: Seq<char>) -> bool {
    &&& name.len() > key.len()
    &&& name.take(key.len() as int) == key
    &&& name[key.len() as int] == '.'
}

/// Law: `name` lies strictly below `key` exactly when its path of segments
/// (the text split at `.`) extends the path of `key` by at least one more
/// segment. A key whose text merely starts with the text of `key`, such as
/// `sensor2` for `sensor`, is not below it.
pub proof fn law_below_is_a_longer_path(name: Seq<char>, key: Seq<char>)
    ensures
        strictly_below(name, key) <==> key_path(key).len() < key_path(name).len() && crate::trie::has_prefix(
            key_path(name),
            key_path(key),
        ),
{
    let p = key_path(name);
    let q = key_path(key);
    crate::text::lemma_split_spec_nonempty(name, '.');
    crate::text::lemma_split_spec_nonempty(key, '.');
    if strictly_below(name, key) {
        let rest = name.skip(key.len() as int + 1);
        assert(name =~= key + seq!['.'] + rest);
        crate::text::lemma_split_concat(key, rest, '.');
        crate::text::lemma_split_spec_nonempty(rest, '.');
        assert(p.take(q.len() as int) =~= q);
    }
    if q.len() < p.len() && crate::trie::has_prefix(p, q) {
        let r = p.skip(q.len() as int);
        assert(p =~= q + r);
        crate::text::lemma_join_concat(q, r, '.');
        crate::text::lemma_join_split(name, '.');
        crate::text::lemma_join_split(key, '.');
        let tail = join_spec(r, '.');
        assert(name == key + seq!['.'] + tail);
        assert(name.take(key.len() as int) =~= key);
        assert(name[key.len() as int] == '.');
    }
}

/// No key strictly below `key` has a subscriber.
pub open spec fn children_silent(subs: Map<Seq<char>, Seq<Seq<char>>>, key: Seq<char>) -> bool {
    forall|k: Seq<char>| #[trigger] subs.contains_key(k) && strictly_below(k, key) ==> subs[k].len() == 0
}

/// Whether `name` lies strictly below `key` (see `strictly_below`).
fn is_below(name: &str, key: &str) -> (b: bool)
    ensures
        b == strictly_below(name@, key@),
{
    let n = chars_of(name);
    let k = chars_of(key);
    if n.len() <= k.len() {
        return false;
    }
    let mut i: usize = 0;
    while i < k.len()
        invariant
            n@ == name@,
            k@ == key@,
            k@.len() < n@.len(),
            i <= k@.len(),
            forall|j: int| 0 <= j < i ==> n@[j] == k@[j],
        decreases k@.len() - i,
    {
        if n[i] != k[i] {
            assert(name@.take(key@.len() as int)[i as int] != key@[i as int]);
            return false;
        }
        i = i + 1;
    }
    assert(name@.take(key@.len() as int) =~= key@);
    n[k.len()] == '.'
}

pub open spec fn has_notifier(ns: Seq<(String, Notification)>, k: Seq<char>) -> bool {
    exists|i: int| 0 <= i < ns.len() && (#[trigger] ns[i]).0@ == k
}

pub open spec fn notifier_index(ns: Seq<(String, Notification)>, k: Seq<char>) -> int {
    choose|i: int| 0 <= i < ns.len() && (#[trigger] ns[i]).0@ == k
}

/// Each key's subscribers, by key.
pub open spec fn subscriber_map(ns: Seq<(String, Notification)>) -> Map<Seq<char>, Seq<Seq<char>>> {
    Map::new(|k: Seq<char>| has_notifier(ns, k), |k: Seq<char>| ns[notifier_index(ns, k)].1.uuids())
}

/// Each key's subscribers with their channels, by key.
pub open spec fn channel_map(ns: Seq<(String, Notification)>) -> Map<
    Seq<char>,
    Seq<(Seq<char>, UnboundedSender<Message>)>,
> {
    Map::new(|k: Seq<char>| has_notifier(ns, k), |k: Seq<char>| ns[notifier_index(ns, k)].1.entries())
}

/// `s` with `x` added holds `k` when `s` does or `k` is `x`.
proof fn lemma_contains_push<A>(s: Seq<A>, x: A, k: A)
    ensures
        s.push(x).contains(k) <==> s.contains(k) || k == x,
{
    let t = s.push(x);
    if s.contains(k) {
        let q = choose|q: int| 0 <= q < s.len() && s[q] == k;
        assert(t[q] == k);
    }
    if k == x {
        assert(t[s.len() as int] == x);
    }
    if t.contains(k) {
        let q = choose|q: int| 0 <= q < t.len() && t[q] == k;
        if q < s.len() {
            assert(s[q] == k);
        }
    }
}

/// Each key's record of sends to its subscribers, by key.
pub open spec fn log_map(ns: Seq<(String, Notification)>) -> Map<
    Seq<char>,
    Seq<(Seq<char>, UnboundedSender<Message>, MessageView)>,
> {
    Map::new(|k: Seq<char>| has_notifier(ns, k), |k: Seq<char>| ns[notifier_index(ns, k)].1.sent())
}

/// From `before` to `after`, `m` was sent once more on the channel of every
/// subscriber of each of `keys` that `chans` lists, and nothing else was
/// sent to the subscribers of any key `chans` lists.
pub open spec fn told(
    before: Map<Seq<char>, Seq<(Seq<char>, UnboundedSender<Message>, MessageView)>>,
    after: Map<Seq<char>, Seq<(Seq<char>, UnboundedSender<Message>, MessageView)>>,
    chans: Map<Seq<char>, Seq<(Seq<char>, UnboundedSender<Message>)>>,
    keys: Seq<Seq<char>>,
    m: MessageView,
) -> bool {
    forall|k: Seq<char>|
        #[trigger] chans.contains_key(k) ==> before.contains_key(k) && after.contains_key(k) && after[k] == before[k]
            + if keys.contains(k) {
            on_each(chans[k], m)
        } else {
            Seq::empty()
        }
}

/// From `before` to `after`, a write of `key` sent `m` on the channels of
/// the first `n` own subscribers of `key`, then on the channel of every
/// subscriber of each of `keys`, and nothing else to the subscribers of any
/// key `chans` lists.
pub open spec fn write_told(
    before: Map<Seq<char>, Seq<(Seq<char>, UnboundedSender<Message>, MessageView)>>,
    after: Map<Seq<char>, Seq<(Seq<char>, UnboundedSender<Message>, MessageView)>>,
    chans: Map<Seq<char>, Seq<(Seq<char>, UnboundedSender<Message>)>>,
    key: Seq<char>,
    keys: Seq<Seq<char>>,
    m: MessageView,
    n: int,
) -> bool {
    forall|k: Seq<char>|
        #[trigger] chans.contains_key(k) ==> before.contains_key(k) && after.contains_key(k) && after[k] == before[k]
            + if k == key {
            on_each(own_channels(chans, key).take(n), m)
        } else if keys.contains(k) {
            on_each(chans[k], m)
        } else {
            Seq::empty()
        }
}

/// Replacing entry `i` replaces its channels in the map.
proof fn lemma_channel_map_update(ns: Seq<(String, Notification)>, i: int, n: Notification)
    requires
        keys_distinct(ns),
        0 <= i < ns.len(),
    ensures
        channel_map(ns.update(i, (ns[i].0, n))) == channel_map(ns).insert(ns[i].0@, n.entries()),
{
    let ms = ns.update(i, (ns[i].0, n));
    lemma_subscriber_map_update(ns, i, n);
    assert forall|k: Seq<char>| has_notifier(ms, k) == has_notifier(ns, k) by {
        if has_notifier(ms, k) {
            let j = choose|j: int| 0 <= j < ms.len() && (#[trigger] ms[j]).0@ == k;
            assert(ns[j].0@ == k);
        }
        if has_notifier(ns, k) {
            let j = choose|j: int| 0 <= j < ns.len() && (#[trigger] ns[j]).0@ == k;
            assert(ms[j].0@ == k);
        }
    }
    lemma_notifier_index(ns, i);
    assert forall|k: Seq<char>| has_notifier(ms, k) implies channel_map(ms)[k] == channel_map(ns).insert(
        ns[i].0@,
        n.entries(),
    )[k] by {
        let j = notifier_index(ns, k);
        lemma_notifier_index(ns, j);
        assert(ms[j].0@ == k);
        lemma_notifier_index(ms, j);
    }
    assert(channel_map(ms) =~= channel_map(ns).insert(ns[i].0@, n.entries()));
}

/// Replacing entry `i` replaces its record of sends in the map.
proof fn lemma_log_map_update(ns: Seq<(String, Notification)>, i: int, n: Notification)
    requires
        keys_distinct(ns),
        0 <= i < ns.len(),
    ensures
        log_map(ns.update(i, (ns[i].0, n))) == log_map(ns).insert(ns[i].0@, n.sent()),
{
    let ms = ns.update(i, (ns[i].0, n));
    lemma_subscriber_map_update(ns, i, n);
    assert forall|k: Seq<char>| has_notifier(ms, k) == has_notifier(ns, k) by {
        if has_notifier(ms, k) {
            let j = choose|j: int| 0 <= j < ms.len() && (#[trigger] ms[j]).0@ == k;
            assert(ns[j].0@ == k);
        }
        if has_notifier(ns, k) {
            let j = choose|j: int| 0 <= j < ns.len() && (#[trigger] ns[j]).0@ == k;
            assert(ms[j].0@ == k);
        }
    }
    lemma_notifier_index(ns, i);
    assert forall|k: Seq<char>| has_notifier(ms, k) implies log_map(ms)[k] == log_map(ns).insert(ns[i].0@, n.sent())[k] by {
        let j = notifier_index(ns, k);
        lemma_notifier_index(ns, j);
        assert(ms[j].0@ == k);
        lemma_notifier_index(ms, j);
    }
    assert(log_map(ms) =~= log_map(ns).insert(ns[i].0@, n.sent()));
}

/// A new entry for a new key adds its record of sends to the map.
proof fn lemma_log_map_push(ns: Seq<(String, Notification)>, key: String, n: Notification)
    requires
        keys_distinct(ns),
        !has_notifier(ns, key@),
    ensures
        log_map(ns.push((key, n))) == log_map(ns).insert(key@, n.sent()),
{
    let ms = ns.push((key, n));
    lemma_subscriber_map_push(ns, key, n);
    lemma_notifier_index(ms, ns.len() as int);
    assert forall|k: Seq<char>| has_notifier(ms, k) == (has_notifier(ns, k) || k == key@) by {
        if has_notifier(ns, k) {
            let j = choose|j: int| 0 <= j < ns.len() && (#[trigger] ns[j]).0@ == k;
            assert(ms[j] == ns[j]);
        }
        if has_notifier(ms, k) && k != key@ {
            let j = choose|j: int| 0 <= j < ms.len() && (#[trigger] ms[j]).0@ == k;
            assert(ms[j] == ns[j]);
        }
    }
    assert forall|k: Seq<char>| has_notifier(ms, k) implies log_map(ms)[k] == log_map(ns).insert(key@, n.sent())[k] by {
        if k != key@ {
            let j = notifier_index(ns, k);
            lemma_notifier_index(ns, j);
            assert(ms[j] == ns[j]);
            lemma_notifier_index(ms, j);
        }
    }
    assert(log_map(ms) =~= log_map(ns).insert(key@, n.sent()));
}

/// Sends to the subscribers of key `k`, each tagged with `k`.
pub open spec fn tag_sends(
    k: Seq<char>,
    log: Seq<(Seq<char>, UnboundedSender<Message>, MessageView)>,
) -> Seq<(Seq<char>, Seq<char>, UnboundedSender<Message>, MessageView)> {
    log.map_values(|e: (Seq<char>, UnboundedSender<Message>, MessageView)| (k, e.0, e.1, e.2))
}

/// `m` sent on the channel of every subscriber of each of `keys`, key by
/// key in order and each key's subscribers in the order they subscribed.
pub open spec fn channel_notices(
    chans: Map<Seq<char>, Seq<(Seq<char>, UnboundedSender<Message>)>>,
    keys: Seq<Seq<char>>,
    m: MessageView,
) -> Seq<(Seq<char>, Seq<char>, UnboundedSender<Message>, MessageView)>
    decreases keys.len(),
{
    if keys.len() == 0 {
        Seq::empty()
    } else {
        channel_notices(chans, keys.drop_last(), m) + if chans.contains_key(keys.last()) {
            tag_sends(keys.last(), on_each(chans[keys.last()], m))
        } else {
            Seq::empty()
        }
    }
}

/// Replacing entry `i` with a notification of the same subscribers and
/// channels leaves every key's channels as they were.
proof fn lemma_channel_map_same(ns: Seq<(String, Notification)>, i: int, n: Notification)
    requires
        keys_distinct(ns),
        0 <= i < ns.len(),
        n.entries() == ns[i].1.entries(),
    ensures
        channel_map(ns.update(i, (ns[i].0, n))) == channel_map(ns),
{
    let ms = ns.update(i, (ns[i].0, n));
    assert forall|k: Seq<char>| has_notifier(ms, k) == has_notifier(ns, k) by {
        if has_notifier(ms, k) {
            let j = choose|j: int| 0 <= j < ms.len() && (#[trigger] ms[j]).0@ == k;
            assert(ns[j].0@ == k);
        }
        if has_notifier(ns, k) {
            let j = choose|j: int| 0 <= j < ns.len() && (#[trigger] ns[j]).0@ == k;
            assert(ms[j].0@ == k);
        }
    }
    assert forall|a: int, b: int| 0 <= a < ms.len() && 0 <= b < ms.len() && a != b implies (#[trigger] ms[a]).0@ != (#[trigger] ms[b]).0@ by {
        assert(ms[a].0 == ns[a].0 && ms[b].0 == ns[b].0);
    }
    assert forall|k: Seq<char>| has_notifier(ms, k) implies channel_map(ms)[k] == channel_map(ns)[k] by {
        let j = notifier_index(ns, k);
        lemma_notifier_index(ns, j);
        assert(ms[j].0@ == k);
        lemma_notifier_index(ms, j);
    }
    assert(channel_map(ms) =~= channel_map(ns));
}

pub open spec fn keys_distinct(ns: Seq<(String, Notification)>) -> bool {
    forall|a: int, b: int| 0 <= a < ns.len() && 0 <= b < ns.len() && a != b ==> (#[trigger] ns[a]).0@ != (#[trigger] ns[b]).0@
}

proof fn lemma_notifier_index(ns: Seq<(String, Notification)>, i: int)
    requires
        keys_distinct(ns),
        0 <= i < ns.len(),
    ensures
        has_notifier(ns, ns[i].0@),
        notifier_index(ns, ns[i].0@) == i,
{
    assert(has_notifier(ns, ns[i].0@));
}

/// Replacing the subscribers of entry `i` replaces them in the map.
proof fn lemma_subscriber_map_update(ns: Seq<(String, Notification)>, i: int, n: Notification)
    requires
        keys_distinct(ns),
        0 <= i < ns.len(),
    ensures
        keys_distinct(ns.update(i, (ns[i].0, n))),
        subscriber_map(ns.update(i, (ns[i].0, n))) == subscriber_map(ns).insert(ns[i].0@, n.uuids()),
{
    let ms = ns.update(i, (ns[i].0, n));
    assert forall|a: int, b: int| 0 <= a < ms.len() && 0 <= b < ms.len() && a != b implies (#[trigger] ms[a]).0@ != (#[trigger] ms[b]).0@ by {
        assert(ms[a].0 == ns[a].0 && ms[b].0 == ns[b].0);
    }
    assert forall|k: Seq<char>| has_notifier(ms, k) == has_notifier(ns, k) by {
        if has_notifier(ms, k) {
            let j = choose|j: int| 0 <= j < ms.len() && (#[trigger] ms[j]).0@ == k;
            assert(ns[j].0@ == k);
        }
        if has_notifier(ns, k) {
            let j = choose|j: int| 0 <= j < ns.len() && (#[trigger] ns[j]).0@ == k;
            assert(ms[j].0@ == k);
        }
    }
    assert forall|k: Seq<char>| has_notifier(ms, k) implies subscriber_map(ms)[k] == subscriber_map(ns).insert(ns[i].0@, n.uuids())[k] by {
        let j = notifier_index(ns, k);
        lemma_notifier_index(ns, j);
        assert(ms[j].0@ == k);
        lemma_notifier_index(ms, j);
    }
    assert(subscriber_map(ms) =~= subscriber_map(ns).insert(ns[i].0@, n.uuids()));
}

/// A new entry for a new key adds that key to the map.
proof fn lemma_subscriber_map_push(ns: Seq<(String, Notification)>, key: String, n: Notification)
    requires
        keys_distinct(ns),
        !has_notifier(ns, key@),
    ensures
        keys_distinct(ns.push((key, n))),
        subscriber_map(ns.push((key, n))) == subscriber_map(ns).insert(key@, n.uuids()),
{
    let ms = ns.push((key, n));
    assert forall|a: int, b: int| 0 <= a < ms.len() && 0 <= b < ms.len() && a != b implies (#[trigger] ms[a]).0@ != (#[trigger] ms[b]).0@ by {
        if a < ns.len() && b < ns.len() {
            assert(ms[a] == ns[a] && ms[b] == ns[b]);
        } else if a < ns.len() {
            assert(ms[a] == ns[a]);
        } else {
            assert(ms[b] == ns[b]);
        }
    }
    lemma_notifier_index(ms, ns.len() as int);
    assert forall|k: Seq<char>| has_notifier(ms, k) == (has_notifier(ns, k) || k == key@) by {
        if has_notifier(ns, k) {
            let j = choose|j: int| 0 <= j < ns.len() && (#[trigger] ns[j]).0@ == k;
            assert(ms[j] == ns[j]);
        }
        if has_notifier(ms, k) && k != key@ {
            let j = choose|j: int| 0 <= j < ms.len() && (#[trigger] ms[j]).0@ == k;
            assert(ms[j] == ns[j]);
        }
    }
    assert forall|k: Seq<char>| has_notifier(ms, k) implies subscriber_map(ms)[k] == subscriber_map(ns).insert(key@, n.uuids())[k] by {
        if k != key@ {
            let j = notifier_index(ns, k);
            lemma_notifier_index(ns, j);
            assert(ms[j] == ns[j]);
            lemma_notifier_index(ms, j);
        }
    }
    assert(subscriber_map(ms) =~= subscriber_map(ns).insert(key@, n.uuids()));
}

/// A new entry for a new key adds that key's channels to the map.
proof fn lemma_channel_map_push(ns: Seq<(String, Notification)>, key: String, n: Notification)
    requires
        keys_distinct(ns),
        !has_notifier(ns, key@),
    ensures
        channel_map(ns.push((key, n))) == channel_map(ns).insert(key@, n.entries()),
{
    let ms = ns.push((key, n));
    lemma_subscriber_map_push(ns, key, n);
    lemma_notifier_index(ms, ns.len() as int);
    assert forall|k: Seq<char>| has_notifier(ms, k) == (has_notifier(ns, k) || k == key@) by {
        if has_notifier(ns, k) {
            let j = choose|j: int| 0 <= j < ns.len() && (#[trigger] ns[j]).0@ == k;
            assert(ms[j] == ns[j]);
        }
        if has_notifier(ms, k) && k != key@ {
            let j = choose|j: int| 0 <= j < ms.len() && (#[trigger] ms[j]).0@ == k;
            assert(ms[j] == ns[j]);
        }
    }
    assert forall|k: Seq<char>| has_notifier(ms, k) implies channel_map(ms)[k] == channel_map(ns).insert(key@, n.entries())[k] by {
        if k != key@ {
            let j = notifier_index(ns, k);
            lemma_notifier_index(ns, j);
            assert(ms[j] == ns[j]);
            lemma_notifier_index(ms, j);
        }
    }
    assert(channel_map(ms) =~= channel_map(ns).insert(key@, n.entries()));
}

/// A new entry for a key that is not listed changes nothing sent.
proof fn lemma_channel_notices_insert_other(
    chans: Map<Seq<char>, Seq<(Seq<char>, UnboundedSender<Message>)>>,
    keys: Seq<Seq<char>>,
    k: Seq<char>,
    v: Seq<(Seq<char>, UnboundedSender<Message>)>,
    m: MessageView,
)
    requires
        forall|i: int| 0 <= i < keys.len() ==> #[trigger] keys[i] != k,
    ensures
        channel_notices(chans.insert(k, v), keys, m) == channel_notices(chans, keys, m),
    decreases keys.len(),
{
    if keys.len() > 0 {
        let d = keys.drop_last();
        assert forall|i: int| 0 <= i < d.len() implies #[trigger] d[i] != k by {
            assert(d[i] == keys[i]);
        }
        lemma_channel_notices_insert_other(chans, d, k, v, m);
        assert(keys.last() == keys[keys.len() - 1]);
    }
}

/// The subscribers of `key` with their channels, none where it has no
/// entry.
pub open spec fn own_channels(
    chans: Map<Seq<char>, Seq<(Seq<char>, UnboundedSender<Message>)>>,
    key: Seq<char>,
) -> Seq<(Seq<char>, UnboundedSender<Message>)> {
    if chans.contains_key(key) {
        chans[key]
    } else {
        Seq::empty()
    }
}

/// The sends of a broadcast that handed `m` to the first `n` subscribers
/// went on exactly those subscribers' channels.
proof fn lemma_sends_follow_handing(
    before: Notification,
    after: Notification,
    m: MessageView,
    ok: bool,
    blog: Seq<(Seq<char>, MessageView)>,
    slog: Seq<(Seq<char>, UnboundedSender<Message>, MessageView)>,
    n: int,
)
    requires
        after.handed() == before.handed() + blog,
        after.sent() == before.sent() + slog,
        sent_in_order(before.entries(), m, ok, slog),
        0 <= n <= before.uuids().len(),
        blog == to_each(before.uuids().take(n), m),
    ensures
        slog == on_each(before.entries().take(n), m),
{
    before.lemma_uuids_of_entries();
    before.lemma_handed_is_sent();
    after.lemma_handed_is_sent();
    let es = before.entries();
    assert(as_handed(before.sent() + slog) =~= as_handed(before.sent()) + as_handed(slog));
    assert(blog =~= (before.handed() + blog).skip(before.handed().len() as int));
    assert(as_handed(slog) =~= (as_handed(before.sent()) + as_handed(slog)).skip(before.handed().len() as int));
    assert(blog == as_handed(slog));
    let k = if ok {
        es.len() as int
    } else {
        choose|k: int| 0 < k <= es.len() && slog == on_each(#[trigger] es.take(k), m)
    };
    assert(es.take(es.len() as int) =~= es);
    assert(slog == on_each(es.take(k), m));
    assert(as_handed(slog).len() == k);
    assert(blog.len() == n);
}

/// Dropping entry `i` drops its key from the map.
proof fn lemma_subscriber_map_remove(ns: Seq<(String, Notification)>, i: int)
    requires
        keys_distinct(ns),
        0 <= i < ns.len(),
    ensures
        keys_distinct(ns.remove(i)),
        subscriber_map(ns.remove(i)) == subscriber_map(ns).remove(ns[i].0@),
{
    let ms = ns.remove(i);
    assert forall|a: int, b: int| 0 <= a < ms.len() && 0 <= b < ms.len() && a != b implies (#[trigger] ms[a]).0@ != (#[trigger] ms[b]).0@ by {
        let a2 = if a < i { a } else { a + 1 };
        let b2 = if b < i { b } else { b + 1 };
        assert(ms[a] == ns[a2] && ms[b] == ns[b2]);
    }
    assert forall|k: Seq<char>| has_notifier(ms, k) == (has_notifier(ns, k) && k != ns[i].0@) by {
        if has_notifier(ms, k) {
            let j = choose|j: int| 0 <= j < ms.len() && (#[trigger] ms[j]).0@ == k;
            let j2 = if j < i { j } else { j + 1 };
            assert(ms[j] == ns[j2]);
        }
        if has_notifier(ns, k) && k != ns[i].0@ {
            let j = choose|j: int| 0 <= j < ns.len() && (#[trigger] ns[j]).0@ == k;
            assert(j != i);
            let j2 = if j < i { j } else { j - 1 };
            assert(ms[j2] == ns[j]);
        }
    }
    assert forall|k: Seq<char>| has_notifier(ms, k) implies subscriber_map(ms)[k] == subscriber_map(ns)[k] by {
        let j = notifier_index(ns, k);
        lemma_notifier_index(ns, j);
        assert(j != i);
        let j2 = if j < i { j } else { j - 1 };
        assert(ms[j2] == ns[j]);
        lemma_notifier_index(ms, j2);
    }
    assert(subscriber_map(ms) =~= subscriber_map(ns).remove(ns[i].0@));
}

/// Dropping entry `i` drops its key's record of sends from the map.
proof fn lemma_log_map_remove(ns: Seq<(String, Notification)>, i: int)
    requires
        keys_distinct(ns),
        0 <= i < ns.len(),
    ensures
        log_map(ns.remove(i)) == log_map(ns).remove(ns[i].0@),
        channel_map(ns.remove(i)) == channel_map(ns).remove(ns[i].0@),
{
    let ms = ns.remove(i);
    lemma_subscriber_map_remove(ns, i);
    assert forall|k: Seq<char>| has_notifier(ms, k) == (has_notifier(ns, k) && k != ns[i].0@) by {
        if has_notifier(ms, k) {
            let j = choose|j: int| 0 <= j < ms.len() && (#[trigger] ms[j]).0@ == k;
            let j2 = if j < i { j } else { j + 1 };
            assert(ms[j] == ns[j2]);
        }
        if has_notifier(ns, k) && k != ns[i].0@ {
            let j = choose|j: int| 0 <= j < ns.len() && (#[trigger] ns[j]).0@ == k;
            assert(j != i);
            let j2 = if j < i { j } else { j - 1 };
            assert(ms[j2] == ns[j]);
        }
    }
    assert forall|k: Seq<char>| has_notifier(ms, k) implies log_map(ms)[k] == log_map(ns)[k] && channel_map(ms)[k]
        == channel_map(ns)[k] by {
        let j = notifier_index(ns, k);
        lemma_notifier_index(ns, j);
        assert(j != i);
        let j2 = if j < i { j } else { j - 1 };
        assert(ms[j2] == ns[j]);
        lemma_notifier_index(ms, j2);
    }
    assert(log_map(ms) =~= log_map(ns).remove(ns[i].0@));
    assert(channel_map(ms) =~= channel_map(ns).remove(ns[i].0@));
}

/// Two entry lists with the same keys and the same subscribers and
/// channels, position by position, give the same channels by key.
proof fn lemma_channel_map_same_entries(ns: Seq<(String, Notification)>, ms: Seq<(String, Notification)>)
    requires
        keys_distinct(ns),
        ns.len() == ms.len(),
        forall|q: int| 0 <= q < ns.len() ==> (#[trigger] ms[q]).0 == ns[q].0 && ms[q].1.entries() == ns[q].1.entries(),
    ensures
        channel_map(ms) == channel_map(ns),
{
    assert forall|a: int, b: int| 0 <= a < ms.len() && 0 <= b < ms.len() && a != b implies (#[trigger] ms[a]).0@ != (#[trigger] ms[b]).0@ by {
        assert(ms[a].0 == ns[a].0 && ms[b].0 == ns[b].0);
    }
    assert forall|k: Seq<char>| has_notifier(ms, k) == has_notifier(ns, k) by {
        if has_notifier(ms, k) {
            let j = choose|j: int| 0 <= j < ms.len() && (#[trigger] ms[j]).0@ == k;
            assert(ns[j].0@ == k);
        }
        if has_notifier(ns, k) {
            let j = choose|j: int| 0 <= j < ns.len() && (#[trigger] ns[j]).0@ == k;
            assert(ms[j].0@ == k);
        }
    }
    assert forall|k: Seq<char>| has_notifier(ms, k) implies channel_map(ms)[k] == channel_map(ns)[k] by {
        let a = notifier_index(ns, k);
        lemma_notifier_index(ns, a);
        assert(ms[a].0@ == k);
        lemma_notifier_index(ms, a);
    }
    assert(channel_map(ms) =~= channel_map(ns));
}

/// Every name `names_below` lists is the key of one of the entries.
proof fn lemma_names_below_names(ns: Seq<(String, Notification)>, key: Seq<char>)
    ensures
        forall|i: int|
            0 <= i < names_below(ns, key).len() ==> exists|q: int|
                0 <= q < ns.len() && (#[trigger] ns[q]).0@ == #[trigger] names_below(ns, key)[i],
    decreases ns.len(),
{
    if ns.len() > 0 {
        let d = ns.drop_last();
        lemma_names_below_names(d, key);
        let nb = names_below(ns, key);
        let nd = names_below(d, key);
        assert forall|i: int| 0 <= i < nb.len() implies exists|q: int|
            0 <= q < ns.len() && (#[trigger] ns[q]).0@ == #[trigger] nb[i] by {
            if i < nd.len() {
                assert(nb[i] == nd[i]);
                let q = choose|q: int| 0 <= q < d.len() && (#[trigger] d[q]).0@ == nd[i];
                assert(ns[q] == d[q]);
            } else {
                assert(nb[i] == ns.last().0@);
                assert(ns[ns.len() - 1] == ns.last());
            }
        }
    }
}

/// The store: values by key, each stored key's subscribers, and the engine
/// that keeps values across restarts.
pub struct NkvStorage<S> {
    state: Trie<Vec<u8>>,
    notifiers: Vec<(String, Notification)>,
    storage: S,
    handed: Ghost<Seq<(Seq<char>, Seq<char>, MessageView)>>,
    sent: Ghost<Seq<(Seq<char>, Seq<char>, UnboundedSender<Message>, MessageView)>>,
    calls: Ghost<Seq<EngineCall>>,
    engine_start: Ghost<Map<Seq<char>, Seq<u8>>>,
    missed: Ghost<Seq<(Seq<char>, Seq<char>, MessageView)>>,
}

impl<S: StorageEngine> NkvStorage<S> {
    /// The stored values, by key path.
    pub closed spec fn data(self) -> Map<KeyPath, Seq<u8>> {
        self.state@.map_values(|v: Vec<u8>| v@)
    }

    /// Every message handed to a subscriber's channel so far, oldest first,
    /// as (key subscribed to, subscriber uuid, message).
    pub closed spec fn handed(self) -> Seq<(Seq<char>, Seq<char>, MessageView)> {
        self.handed@
    }

    /// Every message sent to a subscriber so far, oldest first, as (key
    /// subscribed to, subscriber uuid, channel it was sent on, message):
    /// the sends each key's `Notification` records, in the order made.
    pub closed spec fn sent(self) -> Seq<(Seq<char>, Seq<char>, UnboundedSender<Message>, MessageView)> {
        self.sent@
    }

    /// Each stored key's record of every message sent to its subscribers,
    /// with the subscriber and the channel it went on (kept by the key's
    /// `Notification`).
    pub closed spec fn sends(self) -> Map<Seq<char>, Seq<(Seq<char>, UnboundedSender<Message>, MessageView)>> {
        log_map(self.notifiers@)
    }

    /// The subscribers of each stored key with the channel each listens on.
    pub closed spec fn channels(self) -> Map<Seq<char>, Seq<(Seq<char>, UnboundedSender<Message>)>> {
        channel_map(self.notifiers@)
    }

    /// Every message whose channel was found closed without the failure
    /// being reported (an `Update` to a written key's own subscribers), as
    /// (key subscribed to, subscriber uuid, message), oldest first.
    pub closed spec fn missed(self) -> Seq<(Seq<char>, Seq<char>, MessageView)> {
        self.missed@
    }

    /// Every call made on the storage engine so far, oldest first.
    pub closed spec fn engine_calls(self) -> Seq<EngineCall> {
        self.calls@
    }

    /// What the engine held, by key, when the store was made over it.
    pub closed spec fn engine_held_at_start(self) -> Map<Seq<char>, Seq<u8>> {
        self.engine_start@
    }

    /// The stored values are those the engine holds, had every call on it
    /// done what it was asked (see `engine_holds` and `by_path`).
    pub open spec fn engine_agrees(self) -> bool {
        self.data() == by_path(engine_holds(self.engine_held_at_start(), self.engine_calls()))
    }

    /// The keys strictly below `key` that hold a value, in the order they
    /// were first stored.
    pub closed spec fn keys_below(self, key: Seq<char>) -> Seq<Seq<char>> {
        names_below(self.notifiers@, key)
    }

    /// `keys_below` lists exactly the keys with an entry of subscribers that
    /// lie strictly below `key`.
    pub proof fn lemma_keys_below(self, key: Seq<char>)
        requires
            self.wf(),
        ensures
            forall|i: int| 0 <= i < self.keys_below(key).len() ==> strictly_below(#[trigger] self.keys_below(key)[i], key)
                && self.subscribers().contains_key(self.keys_below(key)[i]),
            forall|k: Seq<char>| #[trigger] self.subscribers().contains_key(k) && strictly_below(k, key) ==> self.keys_below(
                key,
            ).contains(k),
    {
        lemma_names_below(self.notifiers@, key);
    }

    /// The subscribers of each stored key, by key.
    pub closed spec fn subscribers(self) -> Map<Seq<char>, Seq<Seq<char>>> {
        subscriber_map(self.notifiers@)
    }

    /// Every stored key has exactly one entry of subscribers, under the
    /// key's own text, and no other entry exists.
    pub closed spec fn wf(self) -> bool {
        &&& keys_distinct(self.notifiers@)
        &&& forall|i: int| 0 <= i < self.notifiers@.len() ==> {
            &&& !(#[trigger] self.notifiers@[i]).0@.contains('*')
            &&& self.state@.contains_key(key_path(self.notifiers@[i].0@))
        }
        &&& forall|p: KeyPath| #[trigger] self.state@.contains_key(p) ==> exists|i: int|
            0 <= i < self.notifiers@.len() && key_path((#[trigger] self.notifiers@[i]).0@) == p
    }

    /// With the store well formed, a key has subscribers exactly when it
    /// holds a value.
    pub proof fn lemma_keys_agree(self, key: Seq<char>)
        requires
            self.wf(),
        ensures
            self.subscribers().contains_key(key) <==> self.data().contains_key(key_path(key)),
    {
        if self.data().contains_key(key_path(key)) {
            assert(self.state@.contains_key(key_path(key)));
            let i = choose|i: int| 0 <= i < self.notifiers@.len() && key_path((#[trigger] self.notifiers@[i]).0@) == key_path(key);
            lemma_split_injective(self.notifiers@[i].0@, key, '.');
            assert(has_notifier(self.notifiers@, key));
        }
        if self.subscribers().contains_key(key) {
            let i = choose|i: int| 0 <= i < self.notifiers@.len() && (#[trigger] self.notifiers@[i]).0@ == key;
            assert(self.state@.contains_key(key_path(self.notifiers@[i].0@)));
        }
    }

    /// An empty store over `storage`.
    pub fn new(storage: S) -> (n: Self)
        ensures
            n.wf(),
            n.data() == Map::<KeyPath, Seq<u8>>::empty(),
            n.subscribers() == Map::<Seq<char>, Seq<Seq<char>>>::empty(),
            n.handed() == Seq::<(Seq<char>, Seq<char>, MessageView)>::empty(),
            n.engine_calls() == Seq::<EngineCall>::empty(),
            n.engine_held_at_start() == Map::<Seq<char>, Seq<u8>>::empty(),
            n.engine_agrees(),
            n.missed() == Seq::<(Seq<char>, Seq<char>, MessageView)>::empty(),
    {
        let n = NkvStorage {
            state: Trie::new(),
            notifiers: Vec::new(),
            storage,
            handed: Ghost(Seq::empty()),
            sent: Ghost(Seq::empty()),
            calls: Ghost(Seq::empty()),
            engine_start: Ghost(Map::empty()),
            missed: Ghost(Seq::empty()),
        };
        assert(n.data() =~= Map::<KeyPath, Seq<u8>>::empty());
        assert(by_path(Map::<Seq<char>, Seq<u8>>::empty()) =~= Map::<KeyPath, Seq<u8>>::empty());
        assert(n.subscribers() =~= Map::<Seq<char>, Seq<Seq<char>>>::empty());
        n
    }

    /// Asks the engine to keep `value` under `key`, and records the call.
    fn engine_put(&mut self, key: &str, value: Vec<u8>) -> (r: std::io::Result<()>)
        ensures
            final(self).calls@ == old(self).calls@.push(EngineCall::Put(key@, value@, r is Ok)),
            final(self).state == old(self).state,
            final(self).notifiers == old(self).notifiers,
            final(self).handed == old(self).handed,
            final(self).engine_start == old(self).engine_start,
            final(self).missed == old(self).missed,
            final(self).sent == old(self).sent,
    {
        let ghost v = value@;
        let r = self.storage.put(key, value);
        self.calls = Ghost(self.calls@.push(EngineCall::Put(key@, v, r is Ok)));
        r
    }

    /// Asks the engine to forget `key`, and records the call.
    fn engine_delete(&mut self, key: &str) -> (r: std::io::Result<()>)
        ensures
            final(self).calls@ == old(self).calls@.push(EngineCall::Delete(key@, r is Ok)),
            final(self).state == old(self).state,
            final(self).notifiers == old(self).notifiers,
            final(self).handed == old(self).handed,
            final(self).engine_start == old(self).engine_start,
            final(self).missed == old(self).missed,
            final(self).sent == old(self).sent,
    {
        let r = self.storage.delete(key);
        self.calls = Ghost(self.calls@.push(EngineCall::Delete(key@, r is Ok)));
        r
    }

    fn find_notifier(&self, key: &str) -> (r: Option<usize>)
        ensures
            match r {
                Some(i) => i < self.notifiers@.len() && self.notifiers@[i as int].0@ == key@,
                None => !has_notifier(self.notifiers@, key@),
            },
    {
        let name = key.to_owned();
        let mut i: usize = 0;
        while i < self.notifiers.len()
            invariant
                name@ == key@,
                i <= self.notifiers@.len(),
                forall|j: int| 0 <= j < i ==> (#[trigger] self.notifiers@[j]).0@ != key@,
            decreases self.notifiers@.len() - i,
        {
            if self.notifiers[i].0 == name {
                return Some(i);
            }
            i = i + 1;
        }
        None
    }

    /// The keys strictly above `key` that hold a value, outermost first
    /// (see `watcher_paths`): their subscribers are told when `key` is
    /// written or deleted.
    pub fn watchers_of(&self, key: &str) -> (r: Vec<String>)
        ensures
            r@.len() == watcher_paths(self.data(), key@).len(),
            forall|i: int| 0 <= i < r@.len() ==> key_path(#[trigger] r@[i]@) == watcher_paths(self.data(), key@)[i],
            r@.map_values(|s: String| s@) == watcher_keys(self.data(), key@),
    {
        let parts = split_char(key, '.');
        let ghost pv = key_path(key@);
        proof {
            crate::text::lemma_split_spec_nonempty(key@, '.');
            lemma_split_pieces(key@, '.');
        }
        let n = parts.len();
        assert(parts@[0]@ == pv[0]);
        let mut prefix = parts[0].clone();
        let mut out: Vec<String> = Vec::new();
        let mut k: usize = 1;
        assert(pv.take(1) =~= seq![pv[0]]);
        assert(out@.map_values(|s: String| s@) =~= held_prefixes(self.data(), pv, 0).map_values(
            |p: KeyPath| join_spec(p, '.'),
        ));
        while k < n
            invariant
                pv == key_path(key@),
                parts@.map_values(|s: String| s@) == pv,
                n == pv.len(),
                1 <= k <= n,
                forall|i: int| 0 <= i < pv.len() ==> !(#[trigger] pv[i]).contains('.'),
                prefix@ == join_spec(pv.take(k as int), '.'),
                out@.len() == held_prefixes(self.data(), pv, k - 1).len(),
                forall|i: int| 0 <= i < out@.len() ==> key_path(#[trigger] out@[i]@) == held_prefixes(self.data(), pv, k - 1)[i],
                out@.map_values(|s: String| s@) == held_prefixes(self.data(), pv, k - 1).map_values(
                    |p: KeyPath| join_spec(p, '.'),
                ),
            decreases n - k,
        {
            let ghost before = held_prefixes(self.data(), pv, k - 1);
            let found = self.state.lookup_parts(&parts, k);
            proof {
                let t = pv.take(k as int);
                assert forall|i: int| 0 <= i < t.len() implies !(#[trigger] t[i]).contains('.') by {
                    assert(t[i] == pv[i]);
                }
                lemma_split_join(t, '.');
                assert(held_prefixes(self.data(), pv, k as int) == if self.data().contains_key(t) { before.push(t) } else { before });
            }
            let ghost out_before = out@;
            if found.is_some() {
                out.push(prefix.clone());
                proof {
                    let t = pv.take(k as int);
                    assert(out@.map_values(|s: String| s@) =~= out_before.map_values(|s: String| s@).push(prefix@));
                    assert(before.push(t).map_values(|p: KeyPath| join_spec(p, '.')) =~= before.map_values(
                        |p: KeyPath| join_spec(p, '.'),
                    ).push(join_spec(t, '.')));
                }
            }
            proof {
                let t = pv.take(k as int);
                assert(t.len() >= 1);
                assert(pv.take(k + 1).drop_last() =~= t);
                assert(pv.take(k + 1).last() == pv[k as int]);
                assert(join_spec(pv.take(k + 1), '.') == join_spec(t, '.') + seq!['.'] + pv[k as int]);
                assert(parts@[k as int]@ == pv[k as int]);
                reveal_strlit(".");
            }
            prefix.append(".");
            prefix.append(parts[k].as_str());
            k = k + 1;
        }
        out
    }

    /// Hands `msg` to the subscribers of every key in `watchers`, in order
    /// (see `notices`), stopping at the first closed channel.
    #[verifier::spinoff_prover]
    fn tell_watchers(&mut self, watchers: &Vec<String>, msg: &Message) -> (r: Result<(), NotifyKeyValueError>)
        requires
            old(self).wf(),
            distinct_seqs(watchers@.map_values(|w: String| w@)),
        ensures
            final(self).wf(),
            final(self).calls == old(self).calls,
            final(self).engine_start == old(self).engine_start,
            final(self).missed == old(self).missed,
            final(self).data() == old(self).data(),
            final(self).subscribers() == old(self).subscribers(),
            final(self).notifiers@.len() == old(self).notifiers@.len(),
            forall|j: int| 0 <= j < old(self).notifiers@.len() ==> (#[trigger] final(self).notifiers@[j]).0 == old(
                self).notifiers@[j].0 && final(self).notifiers@[j].1.uuids() == old(self).notifiers@[j].1.uuids()
                && final(self).notifiers@[j].1.entries() == old(self).notifiers@[j].1.entries(),
            r is Ok ==> final(self).sent@ == old(self).sent@ + channel_notices(
                channel_map(old(self).notifiers@),
                watchers@.map_values(|w: String| w@),
                msg@,
            ),
            r is Err ==> exists|extra: Seq<(Seq<char>, Seq<char>, UnboundedSender<Message>, MessageView)>|
                final(self).sent@ == old(self).sent@ + extra,
            r is Ok ==> told(
                log_map(old(self).notifiers@),
                log_map(final(self).notifiers@),
                channel_map(old(self).notifiers@),
                watchers@.map_values(|w: String| w@),
                msg@,
            ),
            r is Ok || reported_send_failure(r),
            notices(old(self).subscribers(), watchers@.map_values(|w: String| w@), msg@).len() == 0 ==> r is Ok,
            r is Ok ==> final(self).handed() == old(self).handed() + notices(
                old(self).subscribers(),
                watchers@.map_values(|w: String| w@),
                msg@,
            ),
            r is Err ==> exists|extra: Seq<(Seq<char>, Seq<char>, MessageView)>| final(self).handed() == old(self).handed() + extra,
    {
        let ghost subs = self.subscribers();
        let ghost ws = watchers@.map_values(|w: String| w@);
        let ghost m = msg@;
        let ghost ns0 = self.notifiers@;
        let ghost start = self.handed@;
        let ghost sstart = self.sent@;
        let ghost chans = channel_map(self.notifiers@);
        let mut i: usize = 0;
        assert(ws.take(0) =~= Seq::<Seq<char>>::empty());
        while i < watchers.len()
            invariant
                self.calls == old(self).calls,
                self.engine_start == old(self).engine_start,
                self.missed == old(self).missed,
                i <= watchers@.len(),
                ws == watchers@.map_values(|w: String| w@),
                m == msg@,
                start == old(self).handed(),
                subs == old(self).subscribers(),
                ns0 == old(self).notifiers@,
                self.wf(),
                self.subscribers() == subs,
                self.data() == old(self).data(),
                self.notifiers@.len() == ns0.len(),
                forall|j: int| 0 <= j < ns0.len() ==> (#[trigger] self.notifiers@[j]).0 == ns0[j].0
                    && self.notifiers@[j].1.uuids() == ns0[j].1.uuids() && self.notifiers@[j].1.entries()
                    == ns0[j].1.entries(),
                sstart == old(self).sent@,
                chans == channel_map(ns0),
                keys_distinct(ns0),
                self.sent@ == sstart + channel_notices(chans, ws.take(i as int), m),
                distinct_seqs(ws),
                told(log_map(ns0), log_map(self.notifiers@), chans, ws.take(i as int), m),
                self.handed@ == start + notices(subs, ws.take(i as int), m),
                notices(subs, ws, m).len() == 0 ==> notices(subs, ws.take(i as int), m).len() == 0,
            decreases watchers@.len() - i,
        {
            let ghost w = ws[i as int];
            proof {
                assert(ws.take(i + 1).drop_last() =~= ws.take(i as int));
                assert(ws.take(i + 1).last() == w);
                assert(watchers@[i as int]@ == w);
            }
            match self.find_notifier(watchers[i].as_str()) {
                Some(j) => {
                    let ghost prev = self.notifiers@;
                    proof {
                        lemma_notifier_index(prev, j as int);
                        assert(subs.contains_key(w) && subs[w] == prev[j as int].1.uuids());
                    }
                    let res = self.notifiers[j].1.broadcast(msg);
                    let ghost n1 = self.notifiers@[j as int].1;
                    let ghost blog = choose|log: Seq<(Seq<char>, MessageView)>|
                        broadcast_log(prev[j as int].1.uuids(), m, res is Ok, log) && n1.handed()
                            == prev[j as int].1.handed() + log;
                    let ghost slog = choose|log: Seq<(Seq<char>, UnboundedSender<Message>, MessageView)>|
                        sent_in_order(prev[j as int].1.entries(), m, res is Ok, log) && n1.sent()
                            == prev[j as int].1.sent() + log;
                    proof {
                        assert(n1.sent().skip(prev[j as int].1.sent().len() as int) =~= slog);
                        assert(ns0[j as int].0 == prev[j as int].0);
                        lemma_notifier_index(ns0, j as int);
                        assert(chans.contains_key(w) && chans[w] == prev[j as int].1.entries());
                        lemma_subscriber_map_update(prev, j as int, n1);
                        assert(self.notifiers@ =~= prev.update(j as int, (prev[j as int].0, n1)));
                        assert(subscriber_map(prev).insert(prev[j as int].0@, n1.uuids()) =~= subscriber_map(prev));
                        assert forall|p: KeyPath| #[trigger] self.state@.contains_key(p) implies exists|q: int|
                            0 <= q < self.notifiers@.len() && key_path((#[trigger] self.notifiers@[q]).0@) == p by {
                            let q = choose|q: int| 0 <= q < prev.len() && key_path((#[trigger] prev[q]).0@) == p;
                            assert(self.notifiers@[q].0 == prev[q].0);
                        }
                    }
                    self.handed = Ghost(self.handed@ + tag(w, blog));
                    self.sent = Ghost(self.sent@ + tag_sends(w, n1.sent().skip(prev[j as int].1.sent().len() as int)));
                    match res {
                        Ok(()) => {
                            proof {
                                lemma_log_map_update(prev, j as int, n1);
                                assert(!ws.take(i as int).contains(w)) by {
                                    if ws.take(i as int).contains(w) {
                                        let q = choose|q: int| 0 <= q < i && ws.take(i as int)[q] == w;
                                        assert(ws[q] == ws[i as int]);
                                    }
                                }
                                assert forall|k: Seq<char>| #[trigger] chans.contains_key(k) implies log_map(ns0).contains_key(k)
                                    && log_map(self.notifiers@).contains_key(k) && log_map(self.notifiers@)[k] == log_map(ns0)[k]
                                    + if ws.take(i + 1).contains(k) {
                                    on_each(chans[k], m)
                                } else {
                                    Seq::empty()
                                } by {
                                    lemma_contains_push(ws.take(i as int), w, k);
                                    assert(ws.take(i + 1) =~= ws.take(i as int).push(w));
                                    if k == w {
                                        assert(prev[j as int].1.sent() == log_map(prev)[w]);
                                        assert(log_map(prev)[w] == log_map(ns0)[w] + Seq::<(Seq<char>, UnboundedSender<Message>, MessageView)>::empty());
                                        assert(log_map(ns0)[w] + Seq::<(Seq<char>, UnboundedSender<Message>, MessageView)>::empty() =~= log_map(ns0)[w]);
                                    }
                                }
                                assert(channel_notices(chans, ws.take(i + 1), m) == channel_notices(chans, ws.take(i as int), m)
                                    + tag_sends(w, on_each(chans[w], m)));
                                assert(self.sent@ =~= sstart + channel_notices(chans, ws.take(i + 1), m));
                                assert(notices(subs, ws.take(i + 1), m) == notices(subs, ws.take(i as int), m) + tag(
                                    w,
                                    to_each(subs[w], m),
                                ));
                                assert(self.handed@ =~= start + notices(subs, ws.take(i + 1), m));
                            }
                        },
                        Err(e) => {
                            proof {
                                assert(prev[j as int].1.uuids().len() > 0);
                                assert(notices(subs, ws.take(i + 1), m) == notices(subs, ws.take(i as int), m) + tag(
                                    w,
                                    to_each(subs[w], m),
                                ));
                                if notices(subs, ws, m).len() == 0 {
                                    assert(notices(subs, ws.take(i + 1), m).len() == 0) by {
                                        lemma_notices_prefix_len(subs, ws, i + 1, m);
                                    }
                                    assert(tag(w, to_each(subs[w], m)).len() > 0);
                                }
                                assert(self.handed@ =~= start + (notices(subs, ws.take(i as int), m) + tag(w, blog)));
                                assert(self.sent@ =~= sstart + (channel_notices(chans, ws.take(i as int), m) + tag_sends(
                                    w,
                                    slog,
                                )));
                            }
                            return Err(NotifyKeyValueError::NotificationError(e));
                        },
                    }
                },
                None => {
                    proof {
                        assert(!subs.contains_key(w));
                        assert(notices(subs, ws.take(i + 1), m) =~= notices(subs, ws.take(i as int), m));
                        assert(!chans.contains_key(w));
                        assert forall|k: Seq<char>| #[trigger] chans.contains_key(k) implies ws.take(i + 1).contains(k)
                            == ws.take(i as int).contains(k) by {
                            lemma_contains_push(ws.take(i as int), w, k);
                            assert(ws.take(i + 1) =~= ws.take(i as int).push(w));
                        }
                        assert(channel_notices(chans, ws.take(i + 1), m) =~= channel_notices(chans, ws.take(i as int), m));
                    }
                },
            }
            proof {
                if notices(subs, ws, m).len() == 0 {
                    lemma_notices_prefix_len(subs, ws, i + 1, m);
                }
            }
            i = i + 1;
        }
        assert(ws.take(ws.len() as int) =~= ws);
        Ok(())
    }

    /// Hands `msg` to the subscribers of every key strictly below `key`, in
    /// the order the keys were first stored (see `names_below`), stopping at
    /// the first closed channel.
    #[verifier::spinoff_prover]
    fn tell_below(&mut self, key: &str, msg: &Message) -> (r: Result<(), NotifyKeyValueError>)
        requires
            old(self).wf(),
        ensures
            final(self).wf(),
            final(self).calls == old(self).calls,
            final(self).engine_start == old(self).engine_start,
            final(self).missed == old(self).missed,
            final(self).data() == old(self).data(),
            final(self).subscribers() == old(self).subscribers(),
            final(self).notifiers@.len() == old(self).notifiers@.len(),
            forall|j: int| 0 <= j < old(self).notifiers@.len() ==> (#[trigger] final(self).notifiers@[j]).0 == old(
                self).notifiers@[j].0 && final(self).notifiers@[j].1.uuids() == old(self).notifiers@[j].1.uuids()
                && final(self).notifiers@[j].1.entries() == old(self).notifiers@[j].1.entries(),
            r is Ok ==> told(
                log_map(old(self).notifiers@),
                log_map(final(self).notifiers@),
                channel_map(old(self).notifiers@),
                names_below(old(self).notifiers@, key@),
                msg@,
            ),
            r is Ok || reported_send_failure(r),
            children_silent(old(self).subscribers(), key@) ==> r is Ok,
            r is Ok ==> final(self).handed() == old(self).handed() + notices(
                old(self).subscribers(),
                names_below(old(self).notifiers@, key@),
                msg@,
            ),
            r is Err ==> exists|extra: Seq<(Seq<char>, Seq<char>, MessageView)>| final(self).handed() == old(self).handed() + extra,
    {
        let ghost subs = self.subscribers();
        let ghost m = msg@;
        let ghost ns0 = self.notifiers@;
        let ghost start = self.handed@;
        let mut j: usize = 0;
        assert(ns0.take(0) =~= Seq::<(String, Notification)>::empty());
        while j < self.notifiers.len()
            invariant
                self.calls == old(self).calls,
                self.engine_start == old(self).engine_start,
                self.missed == old(self).missed,
                j <= self.notifiers@.len(),
                m == msg@,
                start == old(self).handed(),
                subs == old(self).subscribers(),
                ns0 == old(self).notifiers@,
                self.wf(),
                self.subscribers() == subs,
                self.data() == old(self).data(),
                self.notifiers@.len() == ns0.len(),
                forall|q: int| 0 <= q < ns0.len() ==> (#[trigger] self.notifiers@[q]).0 == ns0[q].0
                    && self.notifiers@[q].1.uuids() == ns0[q].1.uuids() && self.notifiers@[q].1.entries()
                    == ns0[q].1.entries(),
                told(log_map(ns0), log_map(self.notifiers@), channel_map(ns0), names_below(ns0.take(j as int), key@), m),
                self.handed@ == start + notices(subs, names_below(ns0.take(j as int), key@), m),
                subs == subscriber_map(ns0),
                keys_distinct(ns0),
            decreases self.notifiers@.len() - j,
        {
            let ghost name = ns0[j as int].0@;
            proof {
                assert(ns0.take(j + 1).drop_last() =~= ns0.take(j as int));
                assert(ns0.take(j + 1).last() == ns0[j as int]);
                lemma_notifier_index(ns0, j as int);
                assert(subs.contains_key(name) && subs[name] == ns0[j as int].1.uuids());
                assert(self.notifiers@[j as int].0@ == name);
            }
            if is_below(self.notifiers[j].0.as_str(), key) {
                let ghost prev = self.notifiers@;
                let res = self.notifiers[j].1.broadcast(msg);
                let ghost n1 = self.notifiers@[j as int].1;
                let ghost blog = choose|log: Seq<(Seq<char>, MessageView)>|
                    broadcast_log(prev[j as int].1.uuids(), m, res is Ok, log) && n1.handed()
                        == prev[j as int].1.handed() + log;
                let ghost slog = choose|log: Seq<(Seq<char>, UnboundedSender<Message>, MessageView)>|
                    sent_in_order(prev[j as int].1.entries(), m, res is Ok, log) && n1.sent()
                        == prev[j as int].1.sent() + log;
                proof {
                    lemma_subscriber_map_update(prev, j as int, n1);
                    assert(self.notifiers@ =~= prev.update(j as int, (prev[j as int].0, n1)));
                    assert(subscriber_map(prev).insert(prev[j as int].0@, n1.uuids()) =~= subscriber_map(prev));
                    assert forall|p: KeyPath| #[trigger] self.state@.contains_key(p) implies exists|q: int|
                        0 <= q < self.notifiers@.len() && key_path((#[trigger] self.notifiers@[q]).0@) == p by {
                        let q = choose|q: int| 0 <= q < prev.len() && key_path((#[trigger] prev[q]).0@) == p;
                        assert(self.notifiers@[q].0 == prev[q].0);
                    }
                    assert(names_below(ns0.take(j + 1), key@) == names_below(ns0.take(j as int), key@).push(name));
                    let nb = names_below(ns0.take(j + 1), key@);
                    assert(nb.drop_last() =~= names_below(ns0.take(j as int), key@));
                }
                self.handed = Ghost(self.handed@ + tag(name, blog));
                self.sent = Ghost(self.sent@ + tag_sends(name, n1.sent().skip(prev[j as int].1.sent().len() as int)));
                match res {
                    Ok(()) => {
                        proof {
                            let chans = channel_map(ns0);
                            let nbj = names_below(ns0.take(j as int), key@);
                            lemma_log_map_update(prev, j as int, n1);
                            lemma_notifier_index(prev, j as int);
                            assert(!nbj.contains(name)) by {
                                if nbj.contains(name) {
                                    lemma_names_below_names(ns0.take(j as int), key@);
                                    let x = choose|x: int| 0 <= x < nbj.len() && nbj[x] == name;
                                    let q = choose|q: int| 0 <= q < ns0.take(j as int).len() && (#[trigger] ns0.take(j as int)[q]).0@ == nbj[x];
                                    assert(ns0[q].0@ == ns0[j as int].0@);
                                }
                            }
                            assert forall|k: Seq<char>| #[trigger] chans.contains_key(k) implies log_map(ns0).contains_key(k)
                                && log_map(self.notifiers@).contains_key(k) && log_map(self.notifiers@)[k] == log_map(ns0)[k]
                                + if names_below(ns0.take(j + 1), key@).contains(k) {
                                on_each(chans[k], m)
                            } else {
                                Seq::empty()
                            } by {
                                lemma_contains_push(nbj, name, k);
                                if k == name {
                                    assert(chans[name] == ns0[j as int].1.entries());
                                    assert(prev[j as int].1.sent() == log_map(prev)[name]);
                                    assert(log_map(prev)[name] == log_map(ns0)[name] + Seq::<(Seq<char>, UnboundedSender<Message>, MessageView)>::empty());
                                    assert(log_map(ns0)[name] + Seq::<(Seq<char>, UnboundedSender<Message>, MessageView)>::empty() =~= log_map(ns0)[name]);
                                }
                            }
                            assert(self.handed@ =~= start + notices(subs, names_below(ns0.take(j + 1), key@), m));
                        }
                    },
                    Err(e) => {
                        proof {
                            assert(ns0[j as int].1.uuids().len() > 0);
                            assert(!children_silent(subs, key@));
                            assert(self.handed@ =~= start + (notices(subs, names_below(ns0.take(j as int), key@), m)
                                + tag(name, blog)));
                        }
                        return Err(NotifyKeyValueError::NotificationError(e));
                    },
                }
            } else {
                proof {
                    assert(names_below(ns0.take(j + 1), key@) == names_below(ns0.take(j as int), key@));
                }
            }
            j = j + 1;
        }
        assert(ns0.take(ns0.len() as int) =~= ns0);
        Ok(())
    }

    /// Stores `value` under `key` and hands `Update` of `key` with `value`
    /// to the subscribers of `key` (when it already held a value; a closed
    /// channel there only ends that handing and is recorded in `missed`, see
    /// `own_handing`) and then to those of every key above it that holds a
    /// value, outermost first (see `watcher_keys` and `notices`). The engine
    /// is asked to keep `value` under `key` in every case (see
    /// `engine_calls`). A new key gets an empty list of subscribers; a key
    /// holding `*` is persisted but not stored. When the engine fails to
    /// keep a new key, nothing else changes and its error is returned; its
    /// failure on a key already held is passed over.
    #[verifier::spinoff_prover]
    pub fn put(&mut self, key: &str, value: Vec<u8>) -> (r: Result<(), NotifyKeyValueError>)
        requires
            old(self).wf(),
        ensures
            final(self).wf(),
            r is Ok || reported_send_failure(r) || r matches Err(NotifyKeyValueError::IoError(_)),
            watchers_silent(old(self).subscribers(), old(self).data(), key@) ==> (r is Ok || r matches Err(
                NotifyKeyValueError::IoError(_),
            )),
            r matches Err(NotifyKeyValueError::IoError(_)) ==> !old(self).data().contains_key(key_path(key@))
                && final(self).data() == old(self).data() && final(self).subscribers() == old(self).subscribers()
                && final(self).handed() == old(self).handed(),
            !(r matches Err(NotifyKeyValueError::IoError(_))) ==> {
                &&& final(self).data() == if key@.contains('*') {
                    old(self).data()
                } else {
                    old(self).data().insert(key_path(key@), value@)
                }
                &&& final(self).subscribers() == if key@.contains('*') || old(self).subscribers().contains_key(key@) {
                    old(self).subscribers()
                } else {
                    old(self).subscribers().insert(key@, Seq::<Seq<char>>::empty())
                }
            },
            r is Ok ==> exists|n: int|
                0 <= n <= own_subscribers(old(self).subscribers(), key@).len() && final(self).handed() == old(self).handed()
                    + tag(key@, to_each(#[trigger] own_subscribers(old(self).subscribers(), key@).take(n), MessageView::Update(key@, value@)))
                    + notices(
                    old(self).subscribers(),
                    watcher_keys(old(self).data(), key@),
                    MessageView::Update(key@, value@),
                ) && own_handing(
                    own_subscribers(old(self).subscribers(), key@),
                    key@,
                    MessageView::Update(key@, value@),
                    n,
                    old(self).missed(),
                    final(self).missed(),
                ),
            r is Ok ==> exists|n: int|
                0 <= n <= own_channels(old(self).channels(), key@).len() && final(self).sent() == old(self).sent()
                    + tag_sends(key@, on_each(#[trigger] own_channels(old(self).channels(), key@).take(n), MessageView::Update(key@, value@)))
                    + channel_notices(
                    old(self).channels(),
                    watcher_keys(old(self).data(), key@),
                    MessageView::Update(key@, value@),
                ) && own_handing(
                    own_subscribers(old(self).subscribers(), key@),
                    key@,
                    MessageView::Update(key@, value@),
                    n,
                    old(self).missed(),
                    final(self).missed(),
                ),
            r is Ok ==> exists|n: int|
                0 <= n <= own_channels(old(self).channels(), key@).len() && #[trigger] write_told(
                    old(self).sends(),
                    final(self).sends(),
                    old(self).channels(),
                    key@,
                    watcher_keys(old(self).data(), key@),
                    MessageView::Update(key@, value@),
                    n,
                ) && own_handing(
                    own_subscribers(old(self).subscribers(), key@),
                    key@,
                    MessageView::Update(key@, value@),
                    n,
                    old(self).missed(),
                    final(self).missed(),
                ),
            r matches Err(NotifyKeyValueError::IoError(_)) ==> final(self).missed() == old(self).missed(),
            r is Err ==> exists|extra: Seq<(Seq<char>, Seq<char>, MessageView)>| final(self).handed() == old(self).handed() + extra,
            exists|ok: bool|
                final(self).engine_calls() == #[trigger] old(self).engine_calls().push(EngineCall::Put(key@, value@, ok))
                    && (!old(self).subscribers().contains_key(key@) ==> (ok <==> !(r matches Err(
                    NotifyKeyValueError::IoError(_),
                )))),
            final(self).engine_held_at_start() == old(self).engine_held_at_start(),
            old(self).engine_agrees() && final(self).engine_calls().last().succeeded() ==> final(self).engine_agrees(),
    {
        let ghost ok: bool;
        proof {
            old(self).lemma_keys_agree(key@);
        }
        let watchers = self.watchers_of(key);
        let ghost ws = watchers@.map_values(|w: String| w@);
        let ghost um = MessageView::Update(key@, value@);
        let ghost own = own_subscribers(old(self).subscribers(), key@);
        let msg = Message::Update { key: key.to_owned(), value: copy_bytes(&value) };
        let ghost own_log: Seq<(Seq<char>, Seq<char>, MessageView)>;
        let ghost own_ch = own_channels(old(self).channels(), key@);
        let ghost own_sent: Seq<(Seq<char>, Seq<char>, UnboundedSender<Message>, MessageView)>;
        let ghost own_n: int;
        proof {
            let kp = key_path(key@);
            crate::text::lemma_split_spec_nonempty(key@, '.');
            lemma_held_prefixes(old(self).data(), kp, kp.len() - 1);
            assert forall|i: int| 0 <= i < ws.len() implies #[trigger] ws[i] != key@ by {
                assert(ws[i] == watchers@[i]@);
                assert(key_path(ws[i]) == watcher_paths(old(self).data(), key@)[i]);
            }
        }
        match self.find_notifier(key) {
            Some(i) => {
                let stored = self.engine_put(key, copy_bytes(&value));
                proof {
                    ok = stored is Ok;
                }
                let ghost before = self.state@;
                let _ = self.state.insert(key, copy_bytes(&value));
                let ghost prev = self.notifiers@;
                proof {
                    lemma_notifier_index(prev, i as int);
                }
                let res = self.notifiers[i].1.broadcast(&msg);
                let ghost n1 = self.notifiers@[i as int].1;
                let ghost blog = choose|log: Seq<(Seq<char>, MessageView)>|
                    broadcast_log(prev[i as int].1.uuids(), um, res is Ok, log) && n1.handed()
                        == prev[i as int].1.handed() + log;
                let ghost slog = choose|log: Seq<(Seq<char>, UnboundedSender<Message>, MessageView)>|
                    sent_in_order(prev[i as int].1.entries(), um, res is Ok, log) && n1.sent()
                        == prev[i as int].1.sent() + log;
                proof {
                    assert(own == prev[i as int].1.uuids());
                    if res is Ok {
                        own_n = own.len() as int;
                        assert(own.take(own_n) =~= own);
                    } else {
                        own_n = choose|k: int| 0 < k <= own.len() && blog == to_each(#[trigger] own.take(k), um);
                    }
                    own_log = tag(key@, blog);
                    assert(own_log == tag(key@, to_each(own.take(own_n), um)));
                    assert(own_n > 0 || res is Ok);
                    assert(own_ch == prev[i as int].1.entries());
                    prev[i as int].1.lemma_uuids_of_entries();
                    lemma_sends_follow_handing(prev[i as int].1, n1, um, res is Ok, blog, slog, own_n);
                    own_sent = tag_sends(key@, on_each(own_ch.take(own_n), um));
                    assert(n1.sent().skip(prev[i as int].1.sent().len() as int) =~= slog);
                    lemma_channel_map_same(prev, i as int, n1);
                    lemma_log_map_update(prev, i as int, n1);
                    assert(log_map(prev)[key@] == prev[i as int].1.sent());
                    assert forall|k: Seq<char>| #[trigger] old(self).channels().contains_key(k) implies log_map(
                        prev.update(i as int, (prev[i as int].0, n1)),
                    ).contains_key(k) && log_map(prev.update(i as int, (prev[i as int].0, n1)))[k] == log_map(prev)[k]
                        + if k == key@ {
                        on_each(own_ch.take(own_n), um)
                    } else {
                        Seq::empty()
                    } by {
                        if k != key@ {
                            assert(log_map(prev)[k] + Seq::<(Seq<char>, UnboundedSender<Message>, MessageView)>::empty() =~= log_map(prev)[k]);
                        }
                    }
                    lemma_subscriber_map_update(prev, i as int, n1);
                    assert(self.notifiers@ =~= prev.update(i as int, (prev[i as int].0, n1)));
                    assert(subscriber_map(prev).insert(prev[i as int].0@, n1.uuids()) =~= subscriber_map(prev));
                    assert(!key@.contains('*'));
                    assert(self.data() =~= old(self).data().insert(key_path(key@), value@));
                    assert forall|p: KeyPath| #[trigger] self.state@.contains_key(p) implies exists|j: int|
                        0 <= j < self.notifiers@.len() && key_path((#[trigger] self.notifiers@[j]).0@) == p by {
                        if p != key_path(key@) {
                            assert(before.contains_key(p));
                            let q = choose|q: int| 0 <= q < prev.len() && key_path((#[trigger] prev[q]).0@) == p;
                            assert(self.notifiers@[q].0 == prev[q].0);
                        } else {
                            assert(key_path(self.notifiers@[i as int].0@) == p);
                        }
                    }
                    assert forall|j: int| 0 <= j < self.notifiers@.len() implies {
                        &&& !(#[trigger] self.notifiers@[j]).0@.contains('*')
                        &&& self.state@.contains_key(key_path(self.notifiers@[j].0@))
                    } by {
                        assert(self.notifiers@[j].0 == prev[j].0);
                    }
                }
                self.handed = Ghost(self.handed@ + tag(key@, blog));
                self.sent = Ghost(self.sent@ + tag_sends(key@, n1.sent().skip(prev[i as int].1.sent().len() as int)));
                self.missed = Ghost(
                    if res is Ok {
                        self.missed@
                    } else {
                        self.missed@.push((key@, own[own_n - 1], um))
                    },
                );
            },
            None => {
                proof {
                    assert(own =~= Seq::<Seq<char>>::empty());
                    own_n = 0;
                    own_log = Seq::empty();
                    own_sent = Seq::empty();
                    assert(!old(self).channels().contains_key(key@));
                    assert(tag_sends(key@, on_each(own_ch.take(0), um)) =~= own_sent);
                    assert(tag(key@, to_each(own.take(0), um)) =~= own_log);
                }
                let stored = self.engine_put(key, copy_bytes(&value));
                proof {
                    ok = stored is Ok;
                }
                match stored {
                    Ok(()) => {},
                    Err(e) => {
                        assert(self.handed@ =~= old(self).handed() + Seq::<(Seq<char>, Seq<char>, MessageView)>::empty());
                        assert(self.calls@ == old(self).engine_calls().push(EngineCall::Put(key@, value@, false)));
                        return Err(NotifyKeyValueError::IoError(e));
                    },
                }
                let ghost before = self.state@;
                match self.state.insert(key, copy_bytes(&value)) {
                    None => {
                        let ghost ns = self.notifiers@;
                        let fresh = Notification::new();
                        let name = key.to_owned();
                        proof {
                            lemma_subscriber_map_push(ns, name, fresh);
                        }
                        proof {
                            lemma_channel_map_push(ns, name, fresh);
                            lemma_channel_notices_insert_other(channel_map(ns), ws, key@, fresh.entries(), um);
                        }
                        proof {
                            lemma_log_map_push(ns, name, fresh);
                        }
                        self.notifiers.push((name, fresh));
                        proof {
                            assert(self.data() =~= old(self).data().insert(key_path(key@), value@));
                            assert forall|j: int| 0 <= j < self.notifiers@.len() implies {
                                &&& !(#[trigger] self.notifiers@[j]).0@.contains('*')
                                &&& self.state@.contains_key(key_path(self.notifiers@[j].0@))
                            } by {
                                if j < ns.len() {
                                    assert(self.notifiers@[j] == ns[j]);
                                }
                            }
                            assert forall|p: KeyPath| #[trigger] self.state@.contains_key(p) implies exists|j: int|
                                0 <= j < self.notifiers@.len() && key_path((#[trigger] self.notifiers@[j]).0@) == p by {
                                if p != key_path(key@) {
                                    assert(before.contains_key(p));
                                    let j = choose|j: int| 0 <= j < ns.len() && key_path((#[trigger] ns[j]).0@) == p;
                                    assert(self.notifiers@[j] == ns[j]);
                                } else {
                                    assert(key_path(self.notifiers@[ns.len() as int].0@) == p);
                                }
                            }
                            lemma_notices_insert_other(old(self).subscribers(), ws, key@, Seq::<Seq<char>>::empty(), um);
                        }
                    },
                    Some(_) => {
                        assert(self.data() =~= old(self).data());
                    },
                }
            },
        }
        let ghost mid = self.handed@;
        let ghost smid = self.sent@;
        let ghost lmid = log_map(self.notifiers@);
        let ghost cmid = channel_map(self.notifiers@);
        proof {
            assert forall|k: Seq<char>| #[trigger] old(self).channels().contains_key(k) implies lmid.contains_key(k)
                && cmid.contains_key(k) && cmid[k] == old(self).channels()[k] && lmid[k] == old(self).sends()[k]
                + if k == key@ {
                on_each(own_ch.take(own_n), um)
            } else {
                Seq::empty()
            } by {
                if k != key@ {
                    assert(old(self).sends()[k] + Seq::<(Seq<char>, UnboundedSender<Message>, MessageView)>::empty()
                        =~= old(self).sends()[k]);
                }
            }
            assert(smid == old(self).sent() + own_sent);
            assert(channel_notices(channel_map(self.notifiers@), ws, um) == channel_notices(old(self).channels(), ws, um));
            assert(mid == old(self).handed() + own_log);
            assert(notices(self.subscribers(), ws, um) == notices(old(self).subscribers(), ws, um));
            assert(msg@ == um);
            if watchers_silent(old(self).subscribers(), old(self).data(), key@) {
                let wp = watcher_paths(old(self).data(), key@);
                assert forall|i: int| 0 <= i < ws.len() && old(self).subscribers().contains_key(#[trigger] ws[i])
                    implies old(self).subscribers()[ws[i]].len() == 0 by {
                    assert(ws[i] == watchers@[i]@);
                    assert(key_path(ws[i]) == wp[i]);
                    assert(wp.contains(key_path(ws[i])));
                }
                lemma_notices_empty(old(self).subscribers(), ws, um);
            }
        }
        let ghost calls_mid = self.calls@;
        proof {
            law_watcher_keys_distinct(old(self).data(), key@);
        }
        let r = self.tell_watchers(&watchers, &msg);
        proof {
            assert(self.calls@ == calls_mid);
            let held = engine_holds(old(self).engine_held_at_start(), old(self).engine_calls());
            assert(self.calls@.drop_last() =~= old(self).engine_calls());
            if old(self).engine_agrees() && ok {
                lemma_by_path_insert(held, key@, value@);
            }
            if r is Ok {
                assert(ws == watcher_keys(old(self).data(), key@));
                assert forall|k: Seq<char>| #[trigger] old(self).channels().contains_key(k) implies old(self).sends().contains_key(k)
                    && self.sends().contains_key(k) && self.sends()[k] == old(self).sends()[k] + if k == key@ {
                    on_each(own_channels(old(self).channels(), key@).take(own_n), um)
                } else if ws.contains(k) {
                    on_each(old(self).channels()[k], um)
                } else {
                    Seq::empty()
                } by {
                    assert(cmid.contains_key(k));
                    if k == key@ {
                        assert(!ws.contains(key@)) by {
                            if ws.contains(key@) {
                                let q = choose|q: int| 0 <= q < ws.len() && ws[q] == key@;
                                assert(ws[q] != key@);
                            }
                        }
                        assert(lmid[k] + Seq::<(Seq<char>, UnboundedSender<Message>, MessageView)>::empty() =~= lmid[k]);
                    } else {
                        assert(lmid[k] == old(self).sends()[k] + Seq::<(Seq<char>, UnboundedSender<Message>, MessageView)>::empty());
                        assert(old(self).sends()[k] + Seq::<(Seq<char>, UnboundedSender<Message>, MessageView)>::empty() =~= old(self).sends()[k]);
                    }
                }
                assert(write_told(
                    old(self).sends(),
                    self.sends(),
                    old(self).channels(),
                    key@,
                    watcher_keys(old(self).data(), key@),
                    um,
                    own_n,
                ));
                assert(self.sent@ =~= old(self).sent() + tag_sends(key@, on_each(own_ch.take(own_n), um)) + channel_notices(
                    old(self).channels(),
                    watcher_keys(old(self).data(), key@),
                    um,
                ));
                assert(self.handed@ =~= old(self).handed() + tag(key@, to_each(own.take(own_n), um)) + notices(
                    old(self).subscribers(),
                    watcher_keys(old(self).data(), key@),
                    um,
                ));
            } else {
                let extra = choose|extra: Seq<(Seq<char>, Seq<char>, MessageView)>| self.handed@ == mid + extra;
                assert(self.handed@ =~= old(self).handed() + (own_log + extra));
            }
        }
        r
    }

    /// A store over `storage` holding what the engine kept before a
    /// restart: each of `entries` brought back in order (see `restore`; a
    /// later entry for a key replaces an earlier one, a key holding `*` is
    /// skipped), with no subscribers and nothing handed out.
    pub fn load(storage: S, entries: Vec<(String, Vec<u8>)>) -> (n: Self)
        ensures
            n.wf(),
            n.data() == restored(Map::<KeyPath, Seq<u8>>::empty(), entries@.map_values(
                |e: (String, Vec<u8>)| (e.0@, e.1@),
            )),
            forall|k: Seq<char>| #[trigger] n.subscribers().contains_key(k) ==> n.subscribers()[k].len() == 0,
            n.handed() == Seq::<(Seq<char>, Seq<char>, MessageView)>::empty(),
            n.engine_calls() == Seq::<EngineCall>::empty(),
            n.engine_held_at_start() == listed(entries@.map_values(|e: (String, Vec<u8>)| (e.0@, e.1@))),
            n.engine_agrees(),
            n.missed() == Seq::<(Seq<char>, Seq<char>, MessageView)>::empty(),
    {
        let ghost ev = entries@.map_values(|e: (String, Vec<u8>)| (e.0@, e.1@));
        let total = entries.len();
        let mut n = NkvStorage {
            state: Trie::new(),
            notifiers: Vec::new(),
            storage,
            handed: Ghost(Seq::empty()),
            sent: Ghost(Seq::empty()),
            calls: Ghost(Seq::empty()),
            engine_start: Ghost(listed(ev)),
            missed: Ghost(Seq::empty()),
        };
        assert(n.data() =~= Map::<KeyPath, Seq<u8>>::empty());
        assert(n.subscribers() =~= Map::<Seq<char>, Seq<Seq<char>>>::empty());
        let mut entries = entries;
        let mut rev: Vec<(String, Vec<u8>)> = Vec::new();
        while entries.len() > 0
            invariant
                entries@.map_values(|e: (String, Vec<u8>)| (e.0@, e.1@)) + rev@.reverse().map_values(
                    |e: (String, Vec<u8>)| (e.0@, e.1@),
                ) == ev,
            decreases entries@.len(),
        {
            let ghost before_e = entries@;
            let ghost before_r = rev@;
            let e = entries.pop().unwrap();
            rev.push(e);
            proof {
                assert(before_e =~= entries@.push(rev@.last()));
                assert(rev@.reverse() =~= seq![rev@.last()] + before_r.reverse());
                assert(entries@.map_values(|e: (String, Vec<u8>)| (e.0@, e.1@)) + rev@.reverse().map_values(
                    |e: (String, Vec<u8>)| (e.0@, e.1@),
                ) =~= before_e.map_values(|e: (String, Vec<u8>)| (e.0@, e.1@)) + before_r.reverse().map_values(
                    |e: (String, Vec<u8>)| (e.0@, e.1@),
                ));
            }
        }
        assert(rev@.reverse().map_values(|e: (String, Vec<u8>)| (e.0@, e.1@)) =~= ev);
        let mut i: usize = 0;
        assert(ev.take(0) =~= Seq::<(Seq<char>, Seq<u8>)>::empty());
        while rev.len() > 0
            invariant
                n.wf(),
                i + rev@.len() == ev.len(),
                ev.len() == total,
                rev@.reverse().map_values(|e: (String, Vec<u8>)| (e.0@, e.1@)) == ev.skip(i as int),
                n.data() == restored(Map::<KeyPath, Seq<u8>>::empty(), ev.take(i as int)),
                forall|k: Seq<char>| #[trigger] n.subscribers().contains_key(k) ==> n.subscribers()[k].len() == 0,
                n.handed() == Seq::<(Seq<char>, Seq<char>, MessageView)>::empty(),
                n.engine_calls() == Seq::<EngineCall>::empty(),
                n.engine_held_at_start() == listed(ev),
                n.missed() == Seq::<(Seq<char>, Seq<char>, MessageView)>::empty(),
            decreases rev@.len(),
        {
            let ghost before_r = rev@;
            let (k, v) = rev.pop().unwrap();
            proof {
                assert(before_r =~= rev@.push((k, v)));
                assert(before_r.reverse() =~= seq![(k, v)] + rev@.reverse());
                assert(before_r.reverse().map_values(|e: (String, Vec<u8>)| (e.0@, e.1@)) =~= seq![(k@, v@)]
                    + rev@.reverse().map_values(|e: (String, Vec<u8>)| (e.0@, e.1@)));
                assert(ev.skip(i as int)[0] == (k@, v@));
                assert(ev[i as int] == (k@, v@));
                assert(ev.take(i + 1).drop_last() =~= ev.take(i as int));
                assert(ev.take(i + 1).last() == ev[i as int]);
                let x = rev@.reverse().map_values(|e: (String, Vec<u8>)| (e.0@, e.1@));
                assert((seq![(k@, v@)] + x).drop_first() =~= x);
                assert(ev.skip(i as int).drop_first() =~= ev.skip(i + 1));
                assert(x =~= ev.skip(i + 1));
            }
            n.restore(k.as_str(), v);
            i = i + 1;
        }
        assert(ev.take(ev.len() as int) =~= ev);
        proof {
            lemma_restored_listed(ev);
        }
        n
    }

    /// Stores `value` under `key` without telling anyone or persisting it:
    /// for bringing back what the engine kept before a restart.
    pub fn restore(&mut self, key: &str, value: Vec<u8>)
        requires
            old(self).wf(),
        ensures
            final(self).wf(),
            final(self).data() == if key@.contains('*') {
                old(self).data()
            } else {
                old(self).data().insert(key_path(key@), value@)
            },
            final(self).subscribers() == if key@.contains('*') || old(self).subscribers().contains_key(key@) {
                old(self).subscribers()
            } else {
                old(self).subscribers().insert(key@, Seq::<Seq<char>>::empty())
            },
            final(self).handed() == old(self).handed(),
            final(self).engine_calls() == old(self).engine_calls(),
            final(self).engine_held_at_start() == old(self).engine_held_at_start(),
            final(self).missed() == old(self).missed(),
    {
        proof {
            old(self).lemma_keys_agree(key@);
        }
        let found = self.find_notifier(key);
        let ghost before = self.state@;
        match self.state.insert(key, value) {
            None => {
                proof {
                    assert(self.data() =~= old(self).data().insert(key_path(key@), value@));
                }
                if found.is_none() {
                    let ghost ns = self.notifiers@;
                    let fresh = Notification::new();
                    let name = key.to_owned();
                    proof {
                        lemma_subscriber_map_push(ns, name, fresh);
                    }
                    self.notifiers.push((name, fresh));
                    proof {
                        assert forall|j: int| 0 <= j < self.notifiers@.len() implies {
                            &&& !(#[trigger] self.notifiers@[j]).0@.contains('*')
                            &&& self.state@.contains_key(key_path(self.notifiers@[j].0@))
                        } by {
                            if j < ns.len() {
                                assert(self.notifiers@[j] == ns[j]);
                            }
                        }
                        assert forall|p: KeyPath| #[trigger] self.state@.contains_key(p) implies exists|j: int|
                            0 <= j < self.notifiers@.len() && key_path((#[trigger] self.notifiers@[j]).0@) == p by {
                            if p != key_path(key@) {
                                assert(before.contains_key(p));
                                let j = choose|j: int| 0 <= j < ns.len() && key_path((#[trigger] ns[j]).0@) == p;
                                assert(self.notifiers@[j] == ns[j]);
                            } else {
                                assert(key_path(self.notifiers@[ns.len() as int].0@) == p);
                            }
                        }
                    }
                } else {
                    proof {
                        let i = found->0;
                        assert forall|p: KeyPath| #[trigger] self.state@.contains_key(p) implies exists|j: int|
                            0 <= j < self.notifiers@.len() && key_path((#[trigger] self.notifiers@[j]).0@) == p by {
                            if p != key_path(key@) {
                                assert(before.contains_key(p));
                                assert(old(self).state@.contains_key(p));
                                let j = choose|j: int| 0 <= j < old(self).notifiers@.len() && key_path((#[trigger] old(self).notifiers@[j]).0@) == p;
                                assert(self.notifiers@[j] == old(self).notifiers@[j]);
                            } else {
                                assert(key_path(self.notifiers@[i as int].0@) == p);
                            }
                        }
                    }
                }
            },
            Some(_) => {
                assert(self.data() =~= old(self).data());
            },
        }
    }

    /// The values matching `key` (see `get_answer`: with a `*` segment,
    /// every value below the segments before it).
    pub fn get(&self, key: &str) -> (r: Vec<Vec<u8>>)
        ensures
            get_answer(self.data(), key@, r@.map_values(|v: Vec<u8>| v@)),
    {
        let found = self.state.get(key);
        let ghost vals = found@.map_values(|x: &Vec<u8>| *x);
        let mut out: Vec<Vec<u8>> = Vec::new();
        let mut i: usize = 0;
        while i < found.len()
            invariant
                i <= found@.len(),
                vals == found@.map_values(|x: &Vec<u8>| *x),
                out@.map_values(|v: Vec<u8>| v@) == vals.take(i as int).map_values(|v: Vec<u8>| v@),
            decreases found@.len() - i,
        {
            let ghost before = out@.map_values(|v: Vec<u8>| v@);
            let c = copy_bytes(found[i]);
            assert(vals[i as int] == *found@[i as int]);
            assert(c@ == vals[i as int]@);
            out.push(c);
            assert(out@.map_values(|v: Vec<u8>| v@) =~= before.push(c@));
            assert(vals.take(i + 1) =~= vals.take(i as int).push(vals[i as int]));
            assert(vals.take(i + 1).map_values(|v: Vec<u8>| v@) =~= vals.take(i as int).map_values(|v: Vec<u8>| v@).push(vals[i as int]@));
            assert(out@.map_values(|v: Vec<u8>| v@) =~= vals.take(i + 1).map_values(|v: Vec<u8>| v@));
            i = i + 1;
        }
        proof {
            assert(vals.take(found@.len() as int) =~= vals);
            lemma_get_answer_map(self.state@, key@, vals, |v: Vec<u8>| v@);
        }
        out
    }

    /// The values matching `key`, each with its key text (see
    /// `items_answer`): what `get` reads, with the keys kept.
    pub fn get_entries(&self, key: &str) -> (r: Vec<(String, Vec<u8>)>)
        ensures
            items_answer(self.data(), key@, r@.map_values(|e: (String, Vec<u8>)| (e.0@, e.1@))),
    {
        let found = self.state.get_items(key);
        let ghost items = found@.map_values(|e: (String, &Vec<u8>)| (e.0@, *e.1));
        let mut out: Vec<(String, Vec<u8>)> = Vec::new();
        let mut i: usize = 0;
        while i < found.len()
            invariant
                i <= found@.len(),
                items == found@.map_values(|e: (String, &Vec<u8>)| (e.0@, *e.1)),
                out@.map_values(|e: (String, Vec<u8>)| (e.0@, e.1@)) == items.take(i as int).map_values(
                    |e: (Seq<char>, Vec<u8>)| (e.0, e.1@),
                ),
            decreases found@.len() - i,
        {
            let ghost before = out@.map_values(|e: (String, Vec<u8>)| (e.0@, e.1@));
            let k = found[i].0.clone();
            let c = copy_bytes(found[i].1);
            assert(items[i as int] == (found@[i as int].0@, *found@[i as int].1));
            out.push((k, c));
            assert(out@.map_values(|e: (String, Vec<u8>)| (e.0@, e.1@)) =~= before.push((k@, c@)));
            assert(items.take(i + 1) =~= items.take(i as int).push(items[i as int]));
            assert(items.take(i + 1).map_values(|e: (Seq<char>, Vec<u8>)| (e.0, e.1@)) =~= items.take(
                i as int,
            ).map_values(|e: (Seq<char>, Vec<u8>)| (e.0, e.1@)).push((items[i as int].0, items[i as int].1@)));
            i = i + 1;
        }
        proof {
            assert(items.take(found@.len() as int) =~= items);
            lemma_items_answer_map(self.state@, key@, items, |v: Vec<u8>| v@);
            assert(items.map_values(|e: (Seq<char>, Vec<u8>)| (e.0, (|v: Vec<u8>| v@)(e.1))) =~= items.map_values(
                |e: (Seq<char>, Vec<u8>)| (e.0, e.1@),
            ));
        }
        out
    }

    /// Deletes `key`: hands `Close` of `key` to the subscribers of every key
    /// above it that holds a value (outermost first), then to those of every
    /// key below it (see `keys_below`), then to its own subscribers, whom it
    /// drops; has the engine forget it; and drops it. The keys below keep
    /// their values. A key that holds no value is simply absent afterwards
    /// and nothing is handed out. A failure on the way stops the deletion
    /// with the key still stored (its subscriptions may already be closed).
    pub fn delete(&mut self, key: &str) -> (r: Result<(), NotifyKeyValueError>)
        requires
            old(self).wf(),
        ensures
            final(self).wf(),
            r is Ok ==> final(self).data() == old(self).data().remove(key_path(key@))
                && final(self).subscribers() == old(self).subscribers().remove(key@),
            watchers_silent(old(self).subscribers(), old(self).data(), key@) && children_silent(
                old(self).subscribers(),
                key@,
            ) && (old(self).subscribers().contains_key(key@) ==> old(self).subscribers()[key@].len() == 0) ==> (r is Ok
                || r matches Err(
                NotifyKeyValueError::IoError(_),
            )),
            r is Err ==> {
                &&& (reported_send_failure(r) || (r matches Err(NotifyKeyValueError::IoError(_))))
                &&& old(self).subscribers().contains_key(key@)
                &&& final(self).data() == old(self).data()
                &&& final(self).subscribers() == old(self).subscribers()
                    || final(self).subscribers() == old(self).subscribers().insert(key@, Seq::<Seq<char>>::empty())
            },
            !old(self).subscribers().contains_key(key@) ==> r is Ok && final(self).handed() == old(self).handed(),
            r is Ok && old(self).subscribers().contains_key(key@) ==> final(self).handed() == old(self).handed()
                + notices(old(self).subscribers(), watcher_keys(old(self).data(), key@), MessageView::Close(key@))
                + notices(old(self).subscribers(), old(self).keys_below(key@), MessageView::Close(key@)) + tag(
                key@,
                to_each(old(self).subscribers()[key@], MessageView::Close(key@)),
            ),
            r is Err ==> exists|extra: Seq<(Seq<char>, Seq<char>, MessageView)>| final(self).handed() == old(self).handed() + extra,
            old(self).subscribers().contains_key(key@) && (r is Ok || r matches Err(NotifyKeyValueError::IoError(_)))
                ==> final(self).engine_calls() == old(self).engine_calls().push(EngineCall::Delete(key@, r is Ok)),
            !old(self).subscribers().contains_key(key@) || reported_send_failure(r) ==> final(self).engine_calls()
                == old(self).engine_calls(),
            final(self).engine_held_at_start() == old(self).engine_held_at_start(),
            old(self).engine_agrees() ==> final(self).engine_agrees(),
            final(self).missed() == old(self).missed(),
            r is Ok && old(self).subscribers().contains_key(key@) ==> forall|k: Seq<char>|
                #[trigger] old(self).channels().contains_key(k) && k != key@ ==> old(self).sends().contains_key(k)
                    && final(self).sends().contains_key(k) && final(self).sends()[k] == old(self).sends()[k] + (if watcher_keys(
                    old(self).data(),
                    key@,
                ).contains(k) {
                    on_each(old(self).channels()[k], MessageView::Close(key@))
                } else {
                    Seq::empty()
                }) + (if old(self).keys_below(key@).contains(k) {
                    on_each(old(self).channels()[k], MessageView::Close(key@))
                } else {
                    Seq::empty()
                }),
    {
        proof {
            old(self).lemma_keys_agree(key@);
        }
        let watchers = self.watchers_of(key);
        let ghost ws = watchers@.map_values(|w: String| w@);
        let ghost cm = MessageView::Close(key@);
        let ghost subs0 = old(self).subscribers();
        match self.find_notifier(key) {
            Some(i) => {
                let close = Message::Close { key: key.to_owned() };
                proof {
                    let wp = watcher_paths(old(self).data(), key@);
                    lemma_notifier_index(self.notifiers@, i as int);
                    if watchers_silent(old(self).subscribers(), old(self).data(), key@) {
                        assert forall|a: int| 0 <= a < ws.len() && subs0.contains_key(#[trigger] ws[a])
                            implies subs0[ws[a]].len() == 0 by {
                            assert(ws[a] == watchers@[a]@);
                            assert(key_path(ws[a]) == wp[a]);
                            assert(wp.contains(key_path(ws[a])));
                        }
                        lemma_notices_empty(subs0, ws, cm);
                    }
                }
                proof {
                    law_watcher_keys_distinct(old(self).data(), key@);
                }
                match self.tell_watchers(&watchers, &close) {
                    Ok(()) => {},
                    Err(e) => {
                        return Err(e);
                    },
                }
                let ghost h1 = self.handed@;
                let ghost nsb = self.notifiers@;
                proof {
                    lemma_channel_map_same_entries(old(self).notifiers@, nsb);
                    assert forall|q: int| 0 <= q < nsb.len() implies #[trigger] nsb[q].0 == old(self).notifiers@[q].0 by {}
                    lemma_names_below_same(old(self).notifiers@, nsb, key@);
                }
                match self.tell_below(key, &close) {
                    Ok(()) => {},
                    Err(e) => {
                        proof {
                            let extra = choose|extra: Seq<(Seq<char>, Seq<char>, MessageView)>| self.handed@ == h1 + extra;
                            let e1 = choose|extra: Seq<(Seq<char>, Seq<char>, MessageView)>| h1 == old(self).handed() + extra;
                            assert(h1 == old(self).handed() + notices(subs0, ws, cm));
                            assert(self.handed@ =~= old(self).handed() + (notices(subs0, ws, cm) + extra));
                        }
                        return Err(e);
                    },
                }
                let ghost h2 = self.handed@;
                let ghost ns0 = self.notifiers@;
                proof {
                    assert(ns0[i as int].0@ == key@);
                    assert(ns0[i as int].1.uuids() == old(self).notifiers@[i as int].1.uuids());
                    lemma_notifier_index(old(self).notifiers@, i as int);
                    assert(subs0[key@] == ns0[i as int].1.uuids());
                }
                let res = self.notifiers[i].1.unsubscribe_all(key);
                let ghost n1 = self.notifiers@[i as int].1;
                let ghost ulog = choose|log: Seq<(Seq<char>, MessageView)>|
                    broadcast_log(ns0[i as int].1.uuids(), cm, res is Ok, log) && n1.handed()
                        == ns0[i as int].1.handed() + log;
                proof {
                    lemma_subscriber_map_update(ns0, i as int, n1);
                    assert(self.notifiers@ =~= ns0.update(i as int, (ns0[i as int].0, n1)));
                }
                self.handed = Ghost(self.handed@ + tag(key@, ulog));
                self.sent = Ghost(self.sent@ + tag_sends(key@, n1.sent().skip(ns0[i as int].1.sent().len() as int)));
                match res {
                    Ok(()) => {},
                    Err(e) => {
                        proof {
                            assert forall|p: KeyPath| #[trigger] self.state@.contains_key(p) implies exists|j: int|
                                0 <= j < self.notifiers@.len() && key_path((#[trigger] self.notifiers@[j]).0@) == p by {
                                let j = choose|j: int| 0 <= j < ns0.len() && key_path((#[trigger] ns0[j]).0@) == p;
                                assert(self.notifiers@[j].0 == ns0[j].0);
                            }
                            assert forall|j: int| 0 <= j < self.notifiers@.len() implies {
                                &&& !(#[trigger] self.notifiers@[j]).0@.contains('*')
                                &&& self.state@.contains_key(key_path(self.notifiers@[j].0@))
                            } by {
                                assert(self.notifiers@[j].0 == ns0[j].0);
                            }
                            let extra = choose|extra: Seq<(Seq<char>, Seq<char>, MessageView)>| h2 == h1 + extra;
                            assert(h1 == old(self).handed() + notices(subs0, ws, cm));
                            assert(self.handed@ =~= old(self).handed() + (notices(subs0, ws, cm) + extra + tag(key@, ulog)));
                            assert(subs0[key@].len() > 0);
                        }
                        return Err(NotifyKeyValueError::NotificationError(e));
                    },
                }
                proof {
                    assert(h1 == old(self).handed() + notices(subs0, ws, cm));
                    assert(h2 == h1 + notices(subs0, old(self).keys_below(key@), cm));
                    assert(ulog == to_each(subs0[key@], cm));
                    assert(self.handed@ =~= old(self).handed() + notices(subs0, ws, cm) + notices(
                        subs0,
                        old(self).keys_below(key@),
                        cm,
                    ) + tag(key@, to_each(subs0[key@], cm)));
                }
                match self.engine_delete(key) {
                    Ok(()) => {},
                    Err(e) => {
                        proof {
                            assert forall|p: KeyPath| #[trigger] self.state@.contains_key(p) implies exists|j: int|
                                0 <= j < self.notifiers@.len() && key_path((#[trigger] self.notifiers@[j]).0@) == p by {
                                let j = choose|j: int| 0 <= j < ns0.len() && key_path((#[trigger] ns0[j]).0@) == p;
                                assert(self.notifiers@[j].0 == ns0[j].0);
                            }
                            assert forall|j: int| 0 <= j < self.notifiers@.len() implies {
                                &&& !(#[trigger] self.notifiers@[j]).0@.contains('*')
                                &&& self.state@.contains_key(key_path(self.notifiers@[j].0@))
                            } by {
                                assert(self.notifiers@[j].0 == ns0[j].0);
                            }
                            assert(self.handed@ =~= old(self).handed() + (notices(subs0, ws, cm) + notices(
                                subs0,
                                old(self).keys_below(key@),
                                cm,
                            ) + tag(key@, to_each(subs0[key@], cm))));
                            assert(self.calls@.drop_last() =~= old(self).engine_calls());
                        }
                        return Err(NotifyKeyValueError::IoError(e));
                    },
                }
                let ghost ns1 = self.notifiers@;
                proof {
                    lemma_subscriber_map_remove(ns1, i as int);
                    lemma_log_map_remove(ns1, i as int);
                    lemma_log_map_update(ns0, i as int, n1);
                    assert(ns1 =~= ns0.update(i as int, (ns0[i as int].0, n1)));
                }
                let _ = self.notifiers.remove(i);
                proof {
                    let c0 = old(self).channels();
                    let l0 = old(self).sends();
                    let l1 = log_map(nsb);
                    let l2 = log_map(ns0);
                    assert(names_below(nsb, key@) == old(self).keys_below(key@));
                    assert forall|k: Seq<char>| #[trigger] c0.contains_key(k) && k != key@ implies l0.contains_key(k)
                        && self.sends().contains_key(k) && self.sends()[k] == l0[k] + (if ws.contains(k) {
                        on_each(c0[k], cm)
                    } else {
                        Seq::empty()
                    }) + (if old(self).keys_below(key@).contains(k) {
                        on_each(c0[k], cm)
                    } else {
                        Seq::empty()
                    }) by {
                        assert(log_map(self.notifiers@)[k] == l2[k]);
                        assert(l2[k] == l1[k] + if names_below(nsb, key@).contains(k) {
                            on_each(c0[k], cm)
                        } else {
                            Seq::empty()
                        });
                    }
                }
                let ghost before = self.state@;
                self.state.remove(key);
                proof {
                    assert(self.data() =~= old(self).data().remove(key_path(key@)));
                    assert(self.subscribers() =~= old(self).subscribers().remove(key@));
                    assert(self.calls@.drop_last() =~= old(self).engine_calls());
                    if old(self).engine_agrees() {
                        lemma_by_path_remove(
                            engine_holds(old(self).engine_held_at_start(), old(self).engine_calls()),
                            key@,
                        );
                        assert(!key@.contains('*'));
                    }
                    assert forall|j: int| 0 <= j < self.notifiers@.len() implies {
                        &&& !(#[trigger] self.notifiers@[j]).0@.contains('*')
                        &&& self.state@.contains_key(key_path(self.notifiers@[j].0@))
                    } by {
                        let j2 = if j < i { j } else { j + 1 };
                        assert(self.notifiers@[j] == ns1[j2]);
                        assert(ns1[j2].0 == old(self).notifiers@[j2].0);
                        assert(ns1[j2].0@ != key@);
                        if key_path(ns1[j2].0@) == key_path(key@) {
                            lemma_split_injective(ns1[j2].0@, key@, '.');
                        }
                    }
                    assert forall|p: KeyPath| #[trigger] self.state@.contains_key(p) implies exists|j: int|
                        0 <= j < self.notifiers@.len() && key_path((#[trigger] self.notifiers@[j]).0@) == p by {
                        assert(before.contains_key(p));
                        assert(p != key_path(key@));
                        assert(ns1[i as int].0@ == key@);
                        assert(old(self).state@.contains_key(p));
                        let j = choose|j: int| 0 <= j < old(self).notifiers@.len() && key_path((#[trigger] old(self).notifiers@[j]).0@) == p;
                        assert(ns1[j].0 == old(self).notifiers@[j].0);
                        assert(j != i);
                        let j2 = if j < i { j } else { j - 1 };
                        assert(self.notifiers@[j2] == ns1[j]);
                    }
                }
            },
            None => {
                let ghost before = self.state@;
                self.state.remove(key);
                proof {
                    assert(!old(self).data().contains_key(key_path(key@)));
                    assert(self.data() =~= old(self).data().remove(key_path(key@)));
                    assert(self.data() =~= old(self).data());
                    assert(self.subscribers() =~= old(self).subscribers().remove(key@));
                    assert forall|j: int| 0 <= j < self.notifiers@.len() implies {
                        &&& !(#[trigger] self.notifiers@[j]).0@.contains('*')
                        &&& self.state@.contains_key(key_path(self.notifiers@[j].0@))
                    } by {
                        assert(before.contains_key(key_path(self.notifiers@[j].0@)));
                    }
                    assert forall|p: KeyPath| #[trigger] self.state@.contains_key(p) implies exists|j: int|
                        0 <= j < self.notifiers@.len() && key_path((#[trigger] self.notifiers@[j]).0@) == p by {
                        assert(before.contains_key(p));
                    }
                }
            },
        }
        Ok(())
    }

    /// Subscribes `uuid` to `key`. A key without a value is first created
    /// with an empty value (persisted through the engine; a key holding `*`
    /// is not stored). A uuid already subscribed to the key is refused.
    pub fn subscribe(&mut self, key: &str, uuid: String) -> (r: Result<UnboundedReceiver<Message>, NotifyKeyValueError>)
        requires
            old(self).wf(),
        ensures
            final(self).wf(),
            old(self).subscribers().contains_key(key@) ==> {
                &&& final(self).data() == old(self).data()
                &&& old(self).subscribers()[key@].contains(uuid@) ==> (r matches Err(
                    NotifyKeyValueError::NotificationError(NotificationError::AlreadySubscribed(u)),
                ) && u@ == uuid@) && final(self).subscribers() == old(self).subscribers()
                &&& !old(self).subscribers()[key@].contains(uuid@) ==> final(self).subscribers()
                    == old(self).subscribers().insert(key@, old(self).subscribers()[key@].push(uuid@))
                    && (r is Ok || (r matches Err(NotifyKeyValueError::NotificationError(NotificationError::SendError(_)))))
            },
            !old(self).subscribers().contains_key(key@) ==> {
                &&& (r is Ok || (r matches Err(NotifyKeyValueError::IoError(_)))
                    || (r matches Err(NotifyKeyValueError::NotificationError(NotificationError::SendError(_)))))
                &&& (r is Ok && !key@.contains('*')) ==> final(self).data() == old(self).data().insert(
                    key_path(key@),
                    Seq::<u8>::empty(),
                ) && final(self).subscribers() == old(self).subscribers().insert(key@, seq![uuid@])
                &&& (r is Err || key@.contains('*')) ==> final(self).data() == old(self).data()
                    && final(self).subscribers() == old(self).subscribers()
            },
            old(self).subscribers().contains_key(key@) && old(self).subscribers()[key@].contains(uuid@)
                ==> final(self).handed() == old(self).handed(),
            r matches Err(NotifyKeyValueError::IoError(_)) ==> final(self).handed() == old(self).handed(),
            !(old(self).subscribers().contains_key(key@) && old(self).subscribers()[key@].contains(uuid@))
                && !(r matches Err(NotifyKeyValueError::IoError(_))) ==> final(self).handed() == old(self).handed().push(
                (key@, uuid@, MessageView::Hello),
            ),
            old(self).subscribers().contains_key(key@) ==> final(self).engine_calls() == old(self).engine_calls(),
            !old(self).subscribers().contains_key(key@) ==> final(self).engine_calls() == old(self).engine_calls().push(
                EngineCall::Put(key@, Seq::<u8>::empty(), !(r matches Err(NotifyKeyValueError::IoError(_)))),
            ),
            final(self).engine_held_at_start() == old(self).engine_held_at_start(),
            old(self).engine_agrees() && (old(self).subscribers().contains_key(key@) || !(r matches Err(
                NotifyKeyValueError::NotificationError(_),
            ))) ==> final(self).engine_agrees(),
            final(self).missed() == old(self).missed(),
            old(self).subscribers().contains_key(key@) && old(self).subscribers()[key@].contains(uuid@)
                ==> final(self).channels() == old(self).channels() && final(self).sends() == old(self).sends(),
            old(self).subscribers().contains_key(key@) && !old(self).subscribers()[key@].contains(uuid@) ==> exists|
                c: UnboundedSender<Message>,
            |
                final(self).channels() == old(self).channels().insert(key@, #[trigger] old(self).channels()[key@].push((uuid@, c)))
                    && final(self).sends() == old(self).sends().insert(
                    key@,
                    old(self).sends()[key@].push((uuid@, c, MessageView::Hello)),
                ),
            !old(self).subscribers().contains_key(key@) && r is Ok && !key@.contains('*') ==> exists|
                c: UnboundedSender<Message>,
            |
                final(self).channels() == old(self).channels().insert(key@, #[trigger] seq![(uuid@, c)])
                    && final(self).sends() == old(self).sends().insert(key@, seq![(uuid@, c, MessageView::Hello)]),
            !old(self).subscribers().contains_key(key@) && (r is Err || key@.contains('*')) ==> final(self).channels()
                == old(self).channels() && final(self).sends() == old(self).sends(),
    {
        let ghost u = uuid@;
        proof {
            old(self).lemma_keys_agree(key@);
        }
        match self.find_notifier(key) {
            Some(i) => {
                let ghost ns0 = self.notifiers@;
                proof {
                    lemma_notifier_index(ns0, i as int);
                }
                let res = self.notifiers[i].1.subscribe(uuid);
                self.sent = Ghost(
                    self.sent@ + tag_sends(
                        key@,
                        self.notifiers@[i as int].1.sent().skip(ns0[i as int].1.sent().len() as int),
                    ),
                );
                self.handed = Ghost(
                    if old(self).subscribers()[key@].contains(u) {
                        self.handed@
                    } else {
                        self.handed@.push((key@, u, MessageView::Hello))
                    },
                );
                proof {
                    let n1 = self.notifiers@[i as int].1;
                    lemma_subscriber_map_update(ns0, i as int, n1);
                    lemma_channel_map_update(ns0, i as int, n1);
                    lemma_log_map_update(ns0, i as int, n1);
                    assert(self.notifiers@ =~= ns0.update(i as int, (ns0[i as int].0, n1)));
                    if old(self).subscribers()[key@].contains(uuid@) {
                        assert(channel_map(ns0).insert(key@, ns0[i as int].1.entries()) =~= channel_map(ns0));
                        assert(log_map(ns0).insert(key@, ns0[i as int].1.sent()) =~= log_map(ns0));
                    } else {
                        let c = n1.entries().last().1;
                        assert(n1.entries() =~= ns0[i as int].1.entries().push((uuid@, c)));
                        assert(channel_map(ns0)[key@] == ns0[i as int].1.entries());
                        assert(log_map(ns0)[key@] == ns0[i as int].1.sent());
                        assert(self.channels() == old(self).channels().insert(key@, old(self).channels()[key@].push((uuid@, c))));
                    }
                    assert forall|p: KeyPath| #[trigger] self.state@.contains_key(p) implies exists|j: int|
                        0 <= j < self.notifiers@.len() && key_path((#[trigger] self.notifiers@[j]).0@) == p by {
                        let j = choose|j: int| 0 <= j < ns0.len() && key_path((#[trigger] ns0[j]).0@) == p;
                        assert(self.notifiers@[j].0 == ns0[j].0);
                    }
                    if old(self).subscribers()[key@].contains(uuid@) {
                        assert(self.subscribers() =~= old(self).subscribers());
                    }
                }
                match res {
                    Ok(rx) => Ok(rx),
                    Err(e) => Err(NotifyKeyValueError::NotificationError(e)),
                }
            },
            None => {
                let nothing: Vec<u8> = Vec::new();
                assert(nothing@ =~= Seq::<u8>::empty());
                match self.engine_put(key, nothing) {
                    Ok(()) => {},
                    Err(e) => {
                        assert(self.calls@.drop_last() =~= old(self).engine_calls());
                        return Err(NotifyKeyValueError::IoError(e));
                    },
                }
                let mut fresh = Notification::new();
                let sub = fresh.subscribe(uuid);
                self.handed = Ghost(self.handed@.push((key@, u, MessageView::Hello)));
                self.sent = Ghost(self.sent@ + tag_sends(key@, fresh.sent()));
                let rx = match sub {
                    Ok(rx) => rx,
                    Err(e) => {
                        return Err(NotifyKeyValueError::NotificationError(e));
                    },
                };
                let ghost before = self.state@;
                let empty: Vec<u8> = Vec::new();
                assert(empty@ =~= Seq::<u8>::empty());
                match self.state.insert(key, empty) {
                    None => {
                        let ghost ns = self.notifiers@;
                        let name = key.to_owned();
                        proof {
                            lemma_subscriber_map_push(ns, name, fresh);
                            lemma_channel_map_push(ns, name, fresh);
                            lemma_log_map_push(ns, name, fresh);
                            assert(fresh.uuids() =~= seq![uuid@]);
                            let c = fresh.entries().last().1;
                            assert(fresh.entries() =~= seq![(uuid@, c)]);
                            assert(fresh.sent() =~= seq![(uuid@, c, MessageView::Hello)]);
                        }
                        self.notifiers.push((name, fresh));
                        proof {
                            assert(self.data() =~= old(self).data().insert(key_path(key@), Seq::<u8>::empty()));
                            assert forall|j: int| 0 <= j < self.notifiers@.len() implies {
                                &&& !(#[trigger] self.notifiers@[j]).0@.contains('*')
                                &&& self.state@.contains_key(key_path(self.notifiers@[j].0@))
                            } by {
                                if j < ns.len() {
                                    assert(self.notifiers@[j] == ns[j]);
                                }
                            }
                            assert forall|p: KeyPath| #[trigger] self.state@.contains_key(p) implies exists|j: int|
                                0 <= j < self.notifiers@.len() && key_path((#[trigger] self.notifiers@[j]).0@) == p by {
                                if p != key_path(key@) {
                                    assert(before.contains_key(p));
                                    let j = choose|j: int| 0 <= j < ns.len() && key_path((#[trigger] ns[j]).0@) == p;
                                    assert(self.notifiers@[j] == ns[j]);
                                } else {
                                    assert(key_path(self.notifiers@[ns.len() as int].0@) == p);
                                }
                            }
                        }
                    },
                    Some(_) => {
                        assert(self.data() =~= old(self).data());
                    },
                }
                proof {
                    assert(self.calls@.drop_last() =~= old(self).engine_calls());
                    if old(self).engine_agrees() {
                        lemma_by_path_insert(
                            engine_holds(old(self).engine_held_at_start(), old(self).engine_calls()),
                            key@,
                            Seq::<u8>::empty(),
                        );
                    }
                }
                Ok(rx)
            },
        }
    }

    /// Removes the subscriber `uuid` from `key`, telling it the key is
    /// closed. A key without a value is reported as not found.
    pub fn unsubscribe(&mut self, key: &str, uuid: String) -> (r: Result<(), NotifyKeyValueError>)
        requires
            old(self).wf(),
        ensures
            final(self).wf(),
            final(self).data() == old(self).data(),
            !old(self).subscribers().contains_key(key@) ==> (r matches Err(NotifyKeyValueError::NotFound))
                && final(self).subscribers() == old(self).subscribers(),
            old(self).subscribers().contains_key(key@) ==> final(self).subscribers() == old(self).subscribers().insert(key@, drop_uuid(old(self).subscribers()[key@], uuid@))
                && (r is Ok || reported_send_failure(r)),
            old(self).subscribers().contains_key(key@) && !old(self).subscribers()[key@].contains(uuid@) ==> r is Ok,
            old(self).subscribers().contains_key(key@) && old(self).subscribers()[key@].contains(uuid@)
                ==> final(self).handed() == old(self).handed().push((key@, uuid@, MessageView::Close(key@))),
            !(old(self).subscribers().contains_key(key@) && old(self).subscribers()[key@].contains(uuid@))
                ==> final(self).handed() == old(self).handed(),
            final(self).engine_calls() == old(self).engine_calls(),
            final(self).engine_held_at_start() == old(self).engine_held_at_start(),
            final(self).missed() == old(self).missed(),
            old(self).subscribers().contains_key(key@) && old(self).subscribers()[key@].contains(uuid@) ==> {
                let p = position_of(old(self).subscribers()[key@], uuid@);
                &&& final(self).channels() == old(self).channels().insert(key@, old(self).channels()[key@].remove(p))
                &&& final(self).sends() == old(self).sends().insert(
                    key@,
                    old(self).sends()[key@].push((uuid@, old(self).channels()[key@][p].1, MessageView::Close(key@))),
                )
            },
            !(old(self).subscribers().contains_key(key@) && old(self).subscribers()[key@].contains(uuid@))
                ==> final(self).channels() == old(self).channels() && final(self).sends() == old(self).sends(),
    {
        match self.find_notifier(key) {
            Some(i) => {
                let ghost ns0 = self.notifiers@;
                proof {
                    lemma_notifier_index(ns0, i as int);
                }
                let res = self.notifiers[i].1.unsubscribe(key.to_owned(), uuid.as_str());
                self.sent = Ghost(
                    self.sent@ + tag_sends(
                        key@,
                        self.notifiers@[i as int].1.sent().skip(ns0[i as int].1.sent().len() as int),
                    ),
                );
                self.handed = Ghost(
                    if old(self).subscribers()[key@].contains(uuid@) {
                        self.handed@.push((key@, uuid@, MessageView::Close(key@)))
                    } else {
                        self.handed@
                    },
                );
                proof {
                    lemma_subscriber_map_update(ns0, i as int, self.notifiers@[i as int].1);
                    lemma_channel_map_update(ns0, i as int, self.notifiers@[i as int].1);
                    lemma_log_map_update(ns0, i as int, self.notifiers@[i as int].1);
                    assert(self.notifiers@ =~= ns0.update(i as int, (ns0[i as int].0, self.notifiers@[i as int].1)));
                    if !old(self).subscribers()[key@].contains(uuid@) {
                        assert(channel_map(ns0).insert(key@, ns0[i as int].1.entries()) =~= channel_map(ns0));
                        assert(log_map(ns0).insert(key@, ns0[i as int].1.sent()) =~= log_map(ns0));
                    }
                    assert forall|p: KeyPath| #[trigger] self.state@.contains_key(p) implies exists|j: int|
                        0 <= j < self.notifiers@.len() && key_path((#[trigger] self.notifiers@[j]).0@) == p by {
                        let j = choose|j: int| 0 <= j < ns0.len() && key_path((#[trigger] ns0[j]).0@) == p;
                        assert(self.notifiers@[j].0 == ns0[j].0);
                    }
                }
                match res {
                    Ok(()) => Ok(()),
                    Err(e) => Err(NotifyKeyValueError::NotificationError(e)),
                }
            },
            None => Err(NotifyKeyValueError::NotFound),
        }
    }
}

/// Law: unsubscribing a uuid right after subscribing it gives back the
/// subscribers there were before.
pub proof fn law_unsubscribe_undoes_subscribe(uuids: Seq<Seq<char>>, u: Seq<char>)
    requires
        !uuids.contains(u),
    ensures
        drop_uuid(uuids.push(u), u) == uuids,
{
    let l = uuids.push(u);
    assert(l[uuids.len() as int] == u);
    assert(l.contains(u));
    let i = choose|i: int| 0 <= i < l.len() && l[i] == u;
    if i < uuids.len() {
        assert(uuids[i] == l[i]);
        assert(uuids.contains(u));
    }
    assert(l.remove(i) =~= uuids);
}

/// Law: once `put` has stored `value` under a key without `*`, `get` of
/// that key gives exactly `value`.
pub proof fn law_get_after_put<S: StorageEngine>(
    before: NkvStorage<S>,
    after: NkvStorage<S>,
    key: Seq<char>,
    value: Seq<u8>,
    vals: Seq<Seq<u8>>,
)
    requires
        !key.contains('*'),
        after.data() == before.data().insert(key_path(key), value),
        get_answer(after.data(), key, vals),
    ensures
        vals == seq![value],
{
    law_get_after_insert(before.data(), key, value, vals);
}

/// Law: once `delete` of a key without `*` has succeeded, `get` of that key
/// gives nothing.
pub proof fn law_get_after_delete<S: StorageEngine>(
    before: NkvStorage<S>,
    after: NkvStorage<S>,
    key: Seq<char>,
    vals: Seq<Seq<u8>>,
)
    requires
        !key.contains('*'),
        after.data() == before.data().remove(key_path(key)),
        get_answer(after.data(), key, vals),
    ensures
        vals == Seq::<Seq<u8>>::empty(),
{
    law_get_after_remove(before.data(), key, vals);
}

/// Law: a subscriber of any listed key hears the message: when `put`
/// succeeds, every subscriber of every key above the written key that holds
/// a value is handed the `Update` (with `keys` its `watcher_keys`), and
/// when `delete` succeeds, every subscriber of the keys above and below the
/// deleted key is handed the `Close` (with `keys` its `watcher_keys` or
/// `keys_below`).
pub proof fn law_subscribers_hear(
    subs: Map<Seq<char>, Seq<Seq<char>>>,
    keys: Seq<Seq<char>>,
    m: MessageView,
    k: Seq<char>,
    u: Seq<char>,
)
    requires
        keys.contains(k),
        subs.contains_key(k),
        subs[k].contains(u),
    ensures
        notices(subs, keys, m).contains((k, u, m)),
    decreases keys.len(),
{
    let d = keys.drop_last();
    if keys.last() == k {
        let t = tag(k, to_each(subs[k], m));
        let j = choose|j: int| 0 <= j < subs[k].len() && subs[k][j] == u;
        assert(t[j] == (k, u, m));
        let all = notices(subs, keys, m);
        let pre = notices(subs, d, m);
        assert(all[pre.len() + j] == t[j]);
    } else {
        let i = choose|i: int| 0 <= i < keys.len() && keys[i] == k;
        assert(i < d.len()) by {
            if i == keys.len() - 1 {
                assert(keys[i] == keys.last());
            }
        }
        assert(d[i] == k);
        law_subscribers_hear(subs, d, m, k, u);
        let pre = notices(subs, d, m);
        let all = notices(subs, keys, m);
        let q = choose|q: int| 0 <= q < pre.len() && pre[q] == (k, u, m);
        assert(all[q] == pre[q]);
    }
}

/// Every send listed for `keys` is tagged with one of `keys`.
proof fn lemma_channel_notices_keys(
    chans: Map<Seq<char>, Seq<(Seq<char>, UnboundedSender<Message>)>>,
    keys: Seq<Seq<char>>,
    m: MessageView,
)
    ensures
        forall|i: int|
            0 <= i < channel_notices(chans, keys, m).len() ==> keys.contains(
                (#[trigger] channel_notices(chans, keys, m)[i]).0,
            ),
    decreases keys.len(),
{
    if keys.len() > 0 {
        let d = keys.drop_last();
        lemma_channel_notices_keys(chans, d, m);
        let pre = channel_notices(chans, d, m);
        let all = channel_notices(chans, keys, m);
        assert forall|i: int| 0 <= i < all.len() implies keys.contains((#[trigger] all[i]).0) by {
            if i < pre.len() {
                assert(all[i] == pre[i]);
                let j = choose|j: int| 0 <= j < d.len() && d[j] == pre[i].0;
                assert(keys[j] == d[j]);
            } else {
                assert(all[i].0 == keys.last());
                assert(keys[keys.len() - 1] == keys.last());
            }
        }
    }
}

/// Law: every subscriber of every listed key is sent `m` on its own
/// channel, and, with the keys listed once each and each key's uuids
/// distinct, exactly once (with `keys` the `watcher_keys` of a written key,
/// this is what a successful `put` sends to the keys above it, see
/// `law_watcher_keys_distinct`).
pub proof fn law_watchers_hear_on_their_channels(
    chans: Map<Seq<char>, Seq<(Seq<char>, UnboundedSender<Message>)>>,
    keys: Seq<Seq<char>>,
    m: MessageView,
    k: Seq<char>,
    u: Seq<char>,
    c: UnboundedSender<Message>,
)
    requires
        keys.contains(k),
        chans.contains_key(k),
        chans[k].contains((u, c)),
    ensures
        channel_notices(chans, keys, m).contains((k, u, c, m)),
        distinct_seqs(keys) && distinct_seqs(uuids_of(chans[k])) ==> forall|a: int, b: int|
            0 <= a < channel_notices(chans, keys, m).len() && 0 <= b < channel_notices(chans, keys, m).len()
                && (#[trigger] channel_notices(chans, keys, m)[a]).0 == k && channel_notices(chans, keys, m)[a].1 == u
                && (#[trigger] channel_notices(chans, keys, m)[b]).0 == k && channel_notices(chans, keys, m)[b].1 == u
                ==> a == b,
    decreases keys.len(),
{
    let d = keys.drop_last();
    let pre = channel_notices(chans, d, m);
    let all = channel_notices(chans, keys, m);
    let blk = tag_sends(keys.last(), on_each(chans[keys.last()], m));
    if keys.last() == k {
        let j = choose|j: int| 0 <= j < chans[k].len() && chans[k][j] == (u, c);
        assert(all[pre.len() + j] == blk[j]);
        assert(blk[j] == (k, u, c, m));
    } else {
        let i = choose|i: int| 0 <= i < keys.len() && keys[i] == k;
        assert(i < d.len()) by {
            if i == keys.len() - 1 {
                assert(keys[i] == keys.last());
            }
        }
        assert(d[i] == k);
        law_watchers_hear_on_their_channels(chans, d, m, k, u, c);
        let q = choose|q: int| 0 <= q < pre.len() && pre[q] == (k, u, c, m);
        assert(all[q] == pre[q]);
    }
    if distinct_seqs(keys) && distinct_seqs(uuids_of(chans[k])) {
        lemma_sends_to_once(chans, keys, m, k, u);
    }
}

/// Sends to `u` under key `k` sit at one position at most, with the keys
/// listed once each and each key's uuids distinct.
proof fn lemma_sends_to_once(
    chans: Map<Seq<char>, Seq<(Seq<char>, UnboundedSender<Message>)>>,
    keys: Seq<Seq<char>>,
    m: MessageView,
    k: Seq<char>,
    u: Seq<char>,
)
    requires
        distinct_seqs(keys),
        chans.contains_key(k) ==> distinct_seqs(uuids_of(chans[k])),
    ensures
        forall|a: int, b: int|
            0 <= a < channel_notices(chans, keys, m).len() && 0 <= b < channel_notices(chans, keys, m).len()
                && (#[trigger] channel_notices(chans, keys, m)[a]).0 == k && channel_notices(chans, keys, m)[a].1 == u
                && (#[trigger] channel_notices(chans, keys, m)[b]).0 == k && channel_notices(chans, keys, m)[b].1 == u
                ==> a == b,
    decreases keys.len(),
{
    if keys.len() > 0 {
        let d = keys.drop_last();
        let pre = channel_notices(chans, d, m);
        let all = channel_notices(chans, keys, m);
        let blk = tag_sends(keys.last(), on_each(chans[keys.last()], m));
        lemma_channel_notices_keys(chans, d, m);
        assert(distinct_seqs(d)) by {
            assert forall|a: int, b: int| 0 <= a < d.len() && 0 <= b < d.len() && a != b implies #[trigger] d[a]
                != #[trigger] d[b] by {
                assert(d[a] == keys[a] && d[b] == keys[b]);
            }
        }
        assert(!d.contains(keys.last())) by {
            if d.contains(keys.last()) {
                let j = choose|j: int| 0 <= j < d.len() && d[j] == keys.last();
                assert(keys[j] == keys[keys.len() - 1]);
            }
        }
        lemma_sends_to_once(chans, d, m, k, u);
        assert forall|a: int, b: int|
            0 <= a < all.len() && 0 <= b < all.len() && (#[trigger] all[a]).0 == k && all[a].1 == u
                && (#[trigger] all[b]).0 == k && all[b].1 == u implies a == b by {
            if a < pre.len() && b < pre.len() {
                assert(all[a] == pre[a] && all[b] == pre[b]);
            } else if a >= pre.len() && b >= pre.len() {
                let x = a - pre.len();
                let y = b - pre.len();
                assert(all[a] == blk[x] && all[b] == blk[y]);
                assert(keys.last() == k);
                assert(uuids_of(chans[k])[x] == u && uuids_of(chans[k])[y] == u);
            } else if a < pre.len() {
                assert(all[a] == pre[a]);
                assert(d.contains(pre[a].0));
                assert(all[b] == blk[b - pre.len()]);
            } else {
                assert(all[b] == pre[b]);
                assert(d.contains(pre[b].0));
                assert(all[a] == blk[a - pre.len()]);
            }
        }
    }
}

/// Law: a successful write (see `put`'s `write_told`) sends the `Update`
/// to every subscriber of every held key above the written key on that
/// subscriber's own channel, exactly once, and sends nothing to the
/// subscribers of a key that is neither the written key nor above it.
pub proof fn law_write_reaches_watchers_once(
    before: Map<Seq<char>, Seq<(Seq<char>, UnboundedSender<Message>, MessageView)>>,
    after: Map<Seq<char>, Seq<(Seq<char>, UnboundedSender<Message>, MessageView)>>,
    chans: Map<Seq<char>, Seq<(Seq<char>, UnboundedSender<Message>)>>,
    key: Seq<char>,
    keys: Seq<Seq<char>>,
    m: MessageView,
    n: int,
    w: Seq<char>,
    u: Seq<char>,
    c: UnboundedSender<Message>,
)
    requires
        write_told(before, after, chans, key, keys, m, n),
        chans.contains_key(w),
        w != key,
    ensures
        keys.contains(w) && chans[w].contains((u, c)) ==> after[w].skip(before[w].len() as int).contains((u, c, m)),
        keys.contains(w) && distinct_seqs(uuids_of(chans[w])) ==> forall|a: int, b: int|
            0 <= a < after[w].len() - before[w].len() && 0 <= b < after[w].len() - before[w].len()
                && (#[trigger] after[w].skip(before[w].len() as int)[a]).0 == u
                && (#[trigger] after[w].skip(before[w].len() as int)[b]).0 == u ==> a == b,
        !keys.contains(w) ==> after[w] == before[w],
{
    assert(chans.contains_key(w));
    let new = after[w].skip(before[w].len() as int);
    if keys.contains(w) {
        assert(new =~= on_each(chans[w], m));
        if chans[w].contains((u, c)) {
            let j = choose|j: int| 0 <= j < chans[w].len() && chans[w][j] == (u, c);
            assert(new[j] == (u, c, m));
        }
        if distinct_seqs(uuids_of(chans[w])) {
            assert forall|a: int, b: int|
                0 <= a < new.len() && 0 <= b < new.len() && (#[trigger] new[a]).0 == u && (#[trigger] new[b]).0 == u
                    implies a == b by {
                assert(uuids_of(chans[w])[a] == new[a].0);
                assert(uuids_of(chans[w])[b] == new[b].0);
            }
        }
    } else {
        assert(after[w] =~= before[w]);
    }
}

/// Law: when a write succeeds and no send was missed on the way, every own
/// subscriber of the written key is handed the `Update`, and only once
/// (the shape of `put`'s record, see `own_handing`).
pub proof fn law_own_subscribers_hear(
    own: Seq<Seq<char>>,
    key: Seq<char>,
    m: MessageView,
    n: int,
    missed: Seq<(Seq<char>, Seq<char>, MessageView)>,
    u: Seq<char>,
)
    requires
        0 <= n <= own.len(),
        own_handing(own, key, m, n, missed, missed),
        distinct_seqs(own),
        own.contains(u),
    ensures
        tag(key, to_each(own.take(n), m)).contains((key, u, m)),
        forall|i: int, j: int|
            0 <= i < n && 0 <= j < n && (#[trigger] tag(key, to_each(own.take(n), m))[i]).1 == u && (
            #[trigger] tag(key, to_each(own.take(n), m))[j]).1 == u ==> i == j,
{
    assert(n == own.len()) by {
        if n != own.len() {
            assert(missed.push((key, own[n - 1], m)).len() == missed.len() + 1);
        }
    }
    assert(own.take(n) =~= own);
    let t = tag(key, to_each(own, m));
    let j = choose|j: int| 0 <= j < own.len() && own[j] == u;
    assert(t[j] == (key, u, m));
    assert forall|a: int, b: int| 0 <= a < n && 0 <= b < n && t[a].1 == u && t[b].1 == u implies a == b by {
        assert(own[a] == t[a].1);
        assert(own[b] == t[b].1);
    }
}

/// The stored values after bringing back `entries` in order into `data`:
/// each entry stored under its key path, a key holding `*` skipped.
pub open spec fn restored(data: Map<KeyPath, Seq<u8>>, entries: Seq<(Seq<char>, Seq<u8>)>) -> Map<KeyPath, Seq<u8>>
    decreases entries.len(),
{
    if entries.len() == 0 {
        data
    } else {
        let e = entries.last();
        let d = restored(data, entries.drop_last());
        if e.0.contains('*') {
            d
        } else {
            d.insert(key_path(e.0), e.1)
        }
    }
}

/// A send failure reported by the store.
pub open spec fn reported_send_failure(r: Result<(), NotifyKeyValueError>) -> bool {
    r matches Err(NotifyKeyValueError::NotificationError(e)) && delivery_outcome(Err(e))
}

} // verus!
