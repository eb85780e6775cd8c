//! What the store asks of its storage engine, and what an engine that does
//! as it is asked hands back after a restart.
use vstd::prelude::*;
use crate::trie::{KeyPath, key_path};
use crate::text::lemma_split_injective;
use crate::nkv::{restored, NkvStorage};
use crate::traits::StorageEngine;

verus! {

/// One call the store made on its storage engine, with whether the engine
/// reported success.
pub ghost enum EngineCall {
    /// `put` of a value under a key.
    Put(Seq<char>, Seq<u8>, bool),
    /// `delete` of a key.
    Delete(Seq<char>, bool),
}

impl EngineCall {
    pub open spec fn succeeded(self) -> bool {
        match self {
            EngineCall::Put(_, _, ok) => ok,
            EngineCall::Delete(_, ok) => ok,
        }
    }
}

/// What an engine holds, by key text, after starting with `base` and
/// carrying out each successful call in `calls`: a put keeps its value, a
/// delete forgets the key, a failed call changes nothing.
pub open spec fn engine_holds(base: Map<Seq<char>, Seq<u8>>, calls: Seq<EngineCall>) -> Map<Seq<char>, Seq<u8>>
    decreases calls.len(),
{
    if calls.len() == 0 {
        base
    } else {
        let before = engine_holds(base, calls.drop_last());
        match calls.last() {
            EngineCall::Put(k, v, true) => before.insert(k, v),
            EngineCall::Delete(k, true) => before.remove(k),
            _ => before,
        }
    }
}

/// The values of `m` under the key paths of its keys, keys holding `*`
/// left out.
pub open spec fn by_path(m: Map<Seq<char>, Seq<u8>>) -> Map<KeyPath, Seq<u8>> {
    Map::new(
        |p: KeyPath| exists|k: Seq<char>| #[trigger] m.contains_key(k) && !k.contains('*') && key_path(k) == p,
        |p: KeyPath| m[choose|k: Seq<char>| #[trigger] m.contains_key(k) && !k.contains('*') && key_path(k) == p],
    )
}

/// The entries an engine hands back, as a map: a later entry for a key
/// replaces an earlier one.
pub open spec fn listed(entries: Seq<(Seq<char>, Seq<u8>)>) -> Map<Seq<char>, Seq<u8>>
    decreases entries.len(),
{
    if entries.len() == 0 {
        Map::empty()
    } else {
        listed(entries.drop_last()).insert(entries.last().0, entries.last().1)
    }
}

/// Keeping a value under a key changes its key path alone (a key holding
/// `*` changes nothing).
pub proof fn lemma_by_path_insert(m: Map<Seq<char>, Seq<u8>>, k: Seq<char>, v: Seq<u8>)
    ensures
        by_path(m.insert(k, v)) == if k.contains('*') {
            by_path(m)
        } else {
            by_path(m).insert(key_path(k), v)
        },
{
    let n = m.insert(k, v);
    if k.contains('*') {
        assert forall|p: KeyPath| by_path(n).contains_key(p) implies by_path(m).contains_key(p) && by_path(n)[p]
            == by_path(m)[p] by {
            let j = choose|j: Seq<char>| #[trigger] n.contains_key(j) && !j.contains('*') && key_path(j) == p;
            assert(m.contains_key(j));
            let j2 = choose|j2: Seq<char>| #[trigger] m.contains_key(j2) && !j2.contains('*') && key_path(j2) == p;
            lemma_split_injective(j, j2, '.');
        }
        assert forall|p: KeyPath| by_path(m).contains_key(p) implies by_path(n).contains_key(p) by {
            let j = choose|j: Seq<char>| #[trigger] m.contains_key(j) && !j.contains('*') && key_path(j) == p;
            assert(n.contains_key(j));
        }
        assert(by_path(n) =~= by_path(m));
    } else {
        let t = by_path(m).insert(key_path(k), v);
        assert(n.contains_key(k));
        assert forall|p: KeyPath| by_path(n).contains_key(p) implies t.contains_key(p) && by_path(n)[p] == t[p] by {
            let j = choose|j: Seq<char>| #[trigger] n.contains_key(j) && !j.contains('*') && key_path(j) == p;
            if j == k {
                assert(by_path(n)[p] == v);
            } else {
                assert(m.contains_key(j));
                if p == key_path(k) {
                    lemma_split_injective(j, k, '.');
                }
                let j2 = choose|j2: Seq<char>| #[trigger] m.contains_key(j2) && !j2.contains('*') && key_path(j2) == p;
                lemma_split_injective(j, j2, '.');
            }
        }
        assert forall|p: KeyPath| t.contains_key(p) implies by_path(n).contains_key(p) by {
            if p != key_path(k) {
                let j = choose|j: Seq<char>| #[trigger] m.contains_key(j) && !j.contains('*') && key_path(j) == p;
                assert(n.contains_key(j));
            }
        }
        assert(by_path(n) =~= t);
    }
}

/// Forgetting a key removes its key path alone (a key holding `*` changes
/// nothing).
pub proof fn lemma_by_path_remove(m: Map<Seq<char>, Seq<u8>>, k: Seq<char>)
    ensures
        by_path(m.remove(k)) == if k.contains('*') {
            by_path(m)
        } else {
            by_path(m).remove(key_path(k))
        },
{
    let n = m.remove(k);
    if k.contains('*') {
        assert forall|p: KeyPath| by_path(n).contains_key(p) implies by_path(m).contains_key(p) && by_path(n)[p]
            == by_path(m)[p] by {
            let j = choose|j: Seq<char>| #[trigger] n.contains_key(j) && !j.contains('*') && key_path(j) == p;
            assert(m.contains_key(j));
            let j2 = choose|j2: Seq<char>| #[trigger] m.contains_key(j2) && !j2.contains('*') && key_path(j2) == p;
            lemma_split_injective(j, j2, '.');
        }
        assert forall|p: KeyPath| by_path(m).contains_key(p) implies by_path(n).contains_key(p) by {
            let j = choose|j: Seq<char>| #[trigger] m.contains_key(j) && !j.contains('*') && key_path(j) == p;
            assert(n.contains_key(j));
        }
        assert(by_path(n) =~= by_path(m));
    } else {
        let t = by_path(m).remove(key_path(k));
        assert forall|p: KeyPath| #[trigger] by_path(n).dom().contains(p) <==> t.dom().contains(p) by {
            if t.dom().contains(p) {
                assert(by_path(m).dom().contains(p));
                let j = choose|j: Seq<char>| #[trigger] m.contains_key(j) && !j.contains('*') && key_path(j) == p;
                assert(j != k);
                assert(n.contains_key(j));
            }
            if by_path(n).dom().contains(p) {
                let j = choose|j: Seq<char>| #[trigger] n.contains_key(j) && !j.contains('*') && key_path(j) == p;
                assert(m.contains_key(j));
                if p == key_path(k) {
                    lemma_split_injective(j, k, '.');
                }
                assert(by_path(m).dom().contains(p));
            }
        }
        assert(by_path(n).dom() =~= t.dom());
        assert forall|p: KeyPath| #[trigger] by_path(n).dom().contains(p) implies by_path(n)[p] == t[p] by {
            let j = choose|j: Seq<char>| #[trigger] n.contains_key(j) && !j.contains('*') && key_path(j) == p;
            assert(m.contains_key(j));
            let j2 = choose|j2: Seq<char>| #[trigger] m.contains_key(j2) && !j2.contains('*') && key_path(j2) == p;
            lemma_split_injective(j, j2, '.');
        }
        assert(by_path(n) =~= t);
    }
}

/// Bringing back `entries` stores what they list, under key paths.
pub proof fn lemma_restored_listed(entries: Seq<(Seq<char>, Seq<u8>)>)
    ensures
        restored(Map::<KeyPath, Seq<u8>>::empty(), entries) == by_path(listed(entries)),
    decreases entries.len(),
{
    if entries.len() == 0 {
        assert(by_path(Map::<Seq<char>, Seq<u8>>::empty()) =~= Map::<KeyPath, Seq<u8>>::empty());
    } else {
        lemma_restored_listed(entries.drop_last());
        lemma_by_path_insert(listed(entries.drop_last()), entries.last().0, entries.last().1);
    }
}

/// Law: what a store held survives a restart. Where the store's values
/// are those its engine holds (see `NkvStorage::engine_agrees`, which every
/// operation keeps while the engine's calls succeed) and the engine, after
/// a restart, hands back each key it holds with its value, the store
/// brought back from those entries (see `NkvStorage::load`) holds exactly
/// the values the store held before.
pub proof fn law_restart_gives_back<S: StorageEngine>(store: NkvStorage<S>, entries: Seq<(Seq<char>, Seq<u8>)>)
    requires
        store.engine_agrees(),
        listed(entries) == engine_holds(store.engine_held_at_start(), store.engine_calls()),
    ensures
        restored(Map::<KeyPath, Seq<u8>>::empty(), entries) == store.data(),
{
    lemma_restored_listed(entries);
}

} // verus!
