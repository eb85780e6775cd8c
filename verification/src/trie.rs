//! A keyspace trie: keys are `.`-separated paths, each node may hold a value.
use vstd::prelude::*;
use crate::text::{
    split_spec, split_char, contains_char, is_single_char, lemma_split_pieces, join_spec, lemma_join_split,
    lemma_split_spec_nonempty,
};

verus! {

broadcast use vstd::seq::group_seq_axioms;

/// A key as the sequence of its `.`-separated segments.
pub type KeyPath = Seq<Seq<char>>;

/// The segments of a key.
pub open spec fn key_path(key: Seq<char>) -> KeyPath {
    split_spec(key, '.')
}

/// A segment that a stored key may have: no separator and no wildcard.
pub open spec fn plain_segment(seg: Seq<char>) -> bool {
    !seg.contains('.') && !seg.contains('*')
}

pub open spec fn plain_path(p: KeyPath) -> bool {
    &&& p.len() > 0
    &&& forall|i: int| 0 <= i < p.len() ==> #[trigger] plain_segment(p[i])
}

#[derive(Debug)]
pub enum TrieError {
    KeyContainsWildcard,
}

impl TrieError {
    /// The message text: `Key contains wildcard`.
    pub fn message(&self) -> (s: String)
        ensures
            s@ == "Key contains wildcard"@,
    {
        "Key contains wildcard".to_owned()
    }
}

/// A node of the trie. `children` holds each child under its segment name;
/// well-formed nodes (see `wf`) have pairwise distinct child names.
#[derive(Debug)]
pub struct TrieNode<T> {
    pub children: Vec<(String, TrieNode<T>)>,
    pub value: Option<T>,
}

impl<T> TrieNode<T> {
    /// Whether some child of `cs` is named `name`.
    pub open spec fn has_child(cs: Seq<(String, TrieNode<T>)>, name: Seq<char>) -> bool {
        exists|j: int| 0 <= j < cs.len() && (#[trigger] cs[j]).0@ == name
    }

    /// The position of the child named `name` in `cs`, or -1.
    pub open spec fn child_index(cs: Seq<(String, TrieNode<T>)>, name: Seq<char>) -> int {
        if Self::has_child(cs, name) {
            choose|j: int| 0 <= j < cs.len() && (#[trigger] cs[j]).0@ == name
        } else {
            -1
        }
    }

    /// The value stored at relative path `p` below this node.
    pub open spec fn lookup(self, p: KeyPath) -> Option<T>
        decreases p.len(),
    {
        if p.len() == 0 {
            self.value
        } else {
            let k = Self::child_index(self.children@, p[0]);
            if k < 0 {
                None
            } else {
                self.children@[k].1.lookup(p.drop_first())
            }
        }
    }

    /// The subtree reached by following path `p`, if every segment exists.
    pub open spec fn subtree(self, p: KeyPath) -> Option<TrieNode<T>>
        decreases p.len(),
    {
        if p.len() == 0 {
            Some(self)
        } else {
            let k = Self::child_index(self.children@, p[0]);
            if k < 0 {
                None
            } else {
                self.children@[k].1.subtree(p.drop_first())
            }
        }
    }

    /// The map from relative paths to the values stored below this node.
    pub open spec fn view_map(self) -> Map<KeyPath, T> {
        Map::new(|p: KeyPath| self.lookup(p) is Some, |p: KeyPath| self.lookup(p)->0)
    }

    /// Some value is stored at or below this node.
    pub open spec fn occupied(self) -> bool {
        exists|p: KeyPath| #[trigger] self.lookup(p) is Some
    }

    /// Neither children nor a value, as `is_empty` tests it.
    pub open spec fn bare(self) -> bool {
        self.children@.len() == 0 && self.value is None
    }

    pub open spec fn names_distinct(cs: Seq<(String, TrieNode<T>)>) -> bool {
        forall|i: int, j: int|
            0 <= i < cs.len() && 0 <= j < cs.len() && i != j ==> (#[trigger] cs[i]).0@ != (
            #[trigger] cs[j]).0@
    }

    /// Child names are distinct at every level and every child holds a value
    /// somewhere below it.
    pub open spec fn wf(self) -> bool
        decreases self,
    {
        &&& Self::names_distinct(self.children@)
        &&& forall|i: int|
            0 <= i < self.children@.len() ==> {
                &&& (#[trigger] self.children@[i]).1.wf()
                &&& self.children@[i].1.occupied()
            }
    }


    /// The stored (relative path, value) pairs of this subtree, in the order
    /// a depth-first walk meets them: this node's own value first, then each
    /// child's pairs in child order.
    pub open spec fn entries(self) -> Seq<(KeyPath, T)>
        decreases self, self.children@.len() + 1,
    {
        self.own_entries() + self.children_entries(self.children@.len() as int)
    }

    /// This node's own value, as a pair at the empty relative path.
    pub open spec fn own_entries(self) -> Seq<(KeyPath, T)> {
        match self.value {
            Some(v) => seq![(Seq::<Seq<char>>::empty(), v)],
            None => Seq::<(KeyPath, T)>::empty(),
        }
    }

    /// The pairs contributed by the first `i` children, each path prefixed
    /// with the child's segment.
    pub open spec fn children_entries(self, i: int) -> Seq<(KeyPath, T)>
        decreases self, i,
    {
        if i <= 0 || i > self.children@.len() {
            Seq::<(KeyPath, T)>::empty()
        } else {
            let c = self.children@[i - 1];
            self.children_entries(i - 1) + c.1.entries().map_values(
                |e: (KeyPath, T)| (seq![c.0@] + e.0, e.1),
            )
        }
    }

    /// The stored values of this subtree, in walk order.
    pub open spec fn values(self) -> Seq<T> {
        self.entries().map_values(|e: (KeyPath, T)| e.1)
    }

    /// This subtree drawn as text: its own line (see `render_line`) under
    /// the name `key` at depth `level`, then each child's drawing one level
    /// deeper, in child order.
    pub open spec fn render_spec(self, key: Seq<char>, level: nat) -> Seq<char>
        decreases self, self.children@.len() + 1,
    {
        render_line(key, level) + self.render_children(level + 1, self.children@.len() as int)
    }

    /// The drawings of the first `i` children, at depth `level`.
    pub open spec fn render_children(self, level: nat, i: int) -> Seq<char>
        decreases self, i,
    {
        if i <= 0 || i > self.children@.len() {
            Seq::<char>::empty()
        } else {
            let c = self.children@[i - 1];
            self.render_children(level, i - 1) + c.1.render_spec(c.0@, level)
        }
    }



    /// Looking up `q + r` from this node is looking up `r` in the subtree
    /// at `q`; without such a subtree nothing is stored under `q`.
    pub proof fn lemma_subtree_lookup(self, q: KeyPath, r: KeyPath)
        requires
            self.wf(),
        ensures
            match self.subtree(q) {
                Some(n) => n.wf() && self.lookup(q + r) == n.lookup(r),
                None => self.lookup(q + r) is None,
            },
        decreases q.len(),
    {
        if q.len() == 0 {
            assert(q + r =~= r);
        } else {
            let qr = q + r;
            assert(qr[0] == q[0]);
            assert(qr.drop_first() =~= q.drop_first() + r);
            let k = Self::child_index(self.children@, q[0]);
            if k >= 0 {
                let c = self.children@[k].1;
                assert(c.wf());
                c.lemma_subtree_lookup(q.drop_first(), r);
            }
        }
    }


    /// One more segment on a path moves to the matching child of the
    /// subtree, if there is one.
    pub proof fn lemma_subtree_push(self, q: KeyPath, seg: Seq<char>)
        ensures
            match self.subtree(q) {
                Some(n) => {
                    let k = Self::child_index(n.children@, seg);
                    self.subtree(q.push(seg)) == if k < 0 {
                        None
                    } else {
                        Some(n.children@[k].1)
                    }
                },
                None => self.subtree(q.push(seg)) is None,
            },
        decreases q.len(),
    {
        if q.len() == 0 {
            assert(q.push(seg) =~= seq![seg]);
            assert(seq![seg][0] == seg);
            assert(seq![seg].drop_first() =~= Seq::<Seq<char>>::empty());
            let k = Self::child_index(self.children@, seg);
            if k >= 0 {
                assert(self.children@[k].1.subtree(Seq::<Seq<char>>::empty()) == Some(self.children@[k].1));
            }
            assert(seq![seg].drop_first() =~= Seq::<Seq<char>>::empty());
        } else {
            assert(q.push(seg)[0] == q[0]);
            assert(q.push(seg).drop_first() =~= q.drop_first().push(seg));
            let k = Self::child_index(self.children@, q[0]);
            if k >= 0 {
                self.children@[k].1.lemma_subtree_push(q.drop_first(), seg);
            }
        }
    }

    /// Where the path `q` leads nowhere, no key below it holds a value.
    pub proof fn lemma_nothing_under(self, q: KeyPath)
        requires
            self.wf(),
            self.subtree(q) is None,
        ensures
            forall|p: KeyPath| has_prefix(p, q) ==> #[trigger] self.lookup(p) is None,
    {
        assert forall|p: KeyPath| has_prefix(p, q) implies #[trigger] self.lookup(p) is None by {
            let r = p.skip(q.len() as int);
            assert(p =~= q + r);
            self.lemma_subtree_lookup(q, r);
        }
    }

    /// The values gathered from the subtree at `q` list everything stored
    /// under `q`; a missing subtree lists nothing.
    pub proof fn lemma_enumerates_subtree(self, q: KeyPath)
        requires
            self.wf(),
        ensures
            enumerates_under(
                self.view_map(),
                q,
                match self.subtree(q) {
                    Some(n) => n.values(),
                    None => Seq::<T>::empty(),
                },
            ),
            self.subtree(q) matches Some(n) ==> enumerates_with(
                self.view_map(),
                q,
                n.values(),
                n.entries().map_values(|e: (KeyPath, T)| q + e.0),
            ),
    {
        let m = self.view_map();
        match self.subtree(q) {
            Some(n) => {
                self.lemma_subtree_lookup(q, Seq::<Seq<char>>::empty());
                n.lemma_entries();
                let es = n.entries();
                let ks = es.map_values(|e: (KeyPath, T)| q + e.0);
                let vals = n.values();
                assert forall|k: int| 0 <= k < ks.len() implies {
                    &&& #[trigger] m.contains_key(ks[k])
                    &&& has_prefix(ks[k], q)
                    &&& m[ks[k]] == vals[k]
                } by {
                    self.lemma_subtree_lookup(q, es[k].0);
                    assert(n.lookup(es[k].0) == Some(es[k].1));
                    assert((q + es[k].0).take(q.len() as int) =~= q);
                }
                assert forall|a: int, b: int|
                    0 <= a < ks.len() && 0 <= b < ks.len() && a != b implies #[trigger] ks[a]
                    != #[trigger] ks[b] by {
                    assert(es[a].0 != es[b].0);
                    if ks[a] == ks[b] {
                        assert(ks[a].skip(q.len() as int) =~= es[a].0);
                        assert(ks[b].skip(q.len() as int) =~= es[b].0);
                    }
                }
                assert forall|p: KeyPath| #[trigger] m.contains_key(p) && has_prefix(p, q) implies exists|k: int|
                    0 <= k < ks.len() && ks[k] == p by {
                    let r = p.skip(q.len() as int);
                    assert(p =~= q + r);
                    self.lemma_subtree_lookup(q, r);
                    assert(n.lookup(r) is Some);
                    let k = choose|k: int| 0 <= k < es.len() && es[k].0 == r;
                    assert(ks[k] == p);
                }
                assert(enumerates_with(m, q, vals, ks));
            },
            None => {
                self.lemma_nothing_under(q);
                let ks = Seq::<KeyPath>::empty();
                assert forall|p: KeyPath| #[trigger] m.contains_key(p) && has_prefix(p, q) implies exists|k: int|
                    0 <= k < ks.len() && ks[k] == p by {
                    assert(self.lookup(p) is None);
                }
                assert(enumerates_with(m, q, Seq::<T>::empty(), ks));
            },
        }
    }

    /// Equal first segments and equal remainders make equal paths.
    pub proof fn lemma_path_eq(p: KeyPath, q: KeyPath)
        requires
            p.len() > 0,
            q.len() > 0,
            p[0] == q[0],
            p.drop_first() == q.drop_first(),
        ensures
            p == q,
    {
        assert(p.len() == p.drop_first().len() + 1);
        assert(q.len() == q.drop_first().len() + 1);
        assert forall|k: int| 0 <= k < p.len() implies p[k] == q[k] by {
            if k > 0 {
                assert(p[k] == p.drop_first()[k - 1]);
                assert(q[k] == q.drop_first()[k - 1]);
            }
        }
        assert(p =~= q);
    }

    /// The walk pairs of a well-formed node are exactly its stored pairs,
    /// each path once.
    pub proof fn lemma_entries(self)
        requires
            self.wf(),
        ensures
            forall|k: int|
                0 <= k < self.entries().len() ==> self.lookup(#[trigger] self.entries()[k].0) == Some(
                    self.entries()[k].1,
                ),
            forall|a: int, b: int|
                0 <= a < self.entries().len() && 0 <= b < self.entries().len() && a != b
                    ==> (#[trigger] self.entries()[a]).0 != (#[trigger] self.entries()[b]).0,
            forall|p: KeyPath|
                #[trigger] self.lookup(p) is Some ==> exists|k: int|
                    0 <= k < self.entries().len() && self.entries()[k].0 == p,
            forall|a: int, b: int|
                0 <= a < self.entries().len() && 0 <= b < self.entries().len() && a != b && has_prefix(
                    (#[trigger] self.entries()[b]).0,
                    (#[trigger] self.entries()[a]).0,
                ) ==> a < b,
        decreases self, self.children@.len() + 1,
    {
        let n = self.children@.len() as int;
        self.lemma_children_entries(n);
        let own = self.own_entries();
        let ce = self.children_entries(n);
        let es = self.entries();
        assert(es == own + ce);
        assert forall|k: int| 0 <= k < es.len() implies self.lookup(#[trigger] es[k].0) == Some(
            es[k].1,
        ) by {
            if k >= own.len() {
                assert(es[k] == ce[k - own.len()]);
            }
        }
        assert forall|a: int, b: int|
            0 <= a < es.len() && 0 <= b < es.len() && a != b implies (#[trigger] es[a]).0 != (
            #[trigger] es[b]).0 by {
            if a >= own.len() {
                assert(es[a] == ce[a - own.len()]);
            }
            if b >= own.len() {
                assert(es[b] == ce[b - own.len()]);
            }
        }
        assert forall|p: KeyPath| #[trigger] self.lookup(p) is Some implies exists|k: int|
            0 <= k < es.len() && es[k].0 == p by {
            if p.len() == 0 {
                assert(es[0].0 == p);
            } else {
                let j = Self::child_index(self.children@, p[0]);
                assert(0 <= j < n && self.children@[j].0@ == p[0]);
                let k = choose|k: int| 0 <= k < ce.len() && ce[k].0 == p;
                assert(es[k + own.len()] == ce[k]);
            }
        }
        assert forall|a: int, b: int|
            0 <= a < es.len() && 0 <= b < es.len() && a != b && has_prefix(
                (#[trigger] es[b]).0,
                (#[trigger] es[a]).0,
            ) implies a < b by {
            if a >= own.len() && b >= own.len() {
                assert(es[a] == ce[a - own.len()]);
                assert(es[b] == ce[b - own.len()]);
            } else if a >= own.len() {
                assert(es[a] == ce[a - own.len()]);
                assert(es[b].0 == Seq::<Seq<char>>::empty());
            }
        }
    }

    /// What the first `i` children contribute: stored pairs under those
    /// children, each path once, and all of them.
    pub proof fn lemma_children_entries(self, i: int)
        requires
            self.wf(),
            0 <= i <= self.children@.len(),
        ensures
            forall|k: int|
                0 <= k < self.children_entries(i).len() ==> {
                    &&& (#[trigger] self.children_entries(i)[k]).0.len() > 0
                    &&& self.lookup(self.children_entries(i)[k].0) == Some(
                        self.children_entries(i)[k].1,
                    )
                    &&& exists|j: int|
                        0 <= j < i && self.children@[j].0@ == self.children_entries(i)[k].0[0]
                },
            forall|a: int, b: int|
                0 <= a < self.children_entries(i).len() && 0 <= b < self.children_entries(i).len()
                    && a != b ==> (#[trigger] self.children_entries(i)[a]).0 != (
                #[trigger] self.children_entries(i)[b]).0,
            forall|p: KeyPath, j: int|
                0 <= j < i && p.len() > 0 && #[trigger] self.children@[j].0@ == p[0]
                    && #[trigger] self.lookup(p) is Some ==> exists|k: int|
                    0 <= k < self.children_entries(i).len() && self.children_entries(i)[k].0 == p,
            forall|a: int, b: int|
                0 <= a < self.children_entries(i).len() && 0 <= b < self.children_entries(i).len() && a != b
                    && has_prefix(
                    (#[trigger] self.children_entries(i)[b]).0,
                    (#[trigger] self.children_entries(i)[a]).0,
                ) ==> a < b,
        decreases self, i,
    {
        if i > 0 {
            let cs = self.children@;
            let c = cs[i - 1];
            let name = c.0@;
            assert(decreases_to!(self => c.1));
            self.lemma_children_entries(i - 1);
            assert(c.1.wf());
            c.1.lemma_entries();
            Self::lemma_child_index_is(cs, i - 1, name);
            let prev = self.children_entries(i - 1);
            let ces = c.1.entries();
            let mapped = ces.map_values(|e: (KeyPath, T)| (seq![name] + e.0, e.1));
            let all = self.children_entries(i);
            assert(all == prev + mapped);
            assert forall|m: int| 0 <= m < mapped.len() implies {
                &&& (#[trigger] mapped[m]).0.len() > 0
                &&& mapped[m].0[0] == name
                &&& mapped[m].0.drop_first() == ces[m].0
                &&& self.lookup(mapped[m].0) == Some(mapped[m].1)
            } by {
                assert(mapped[m].0.drop_first() =~= ces[m].0);
                assert(c.1.lookup(ces[m].0) == Some(ces[m].1));
            }
            assert forall|k: int| 0 <= k < all.len() implies {
                &&& (#[trigger] all[k]).0.len() > 0
                &&& self.lookup(all[k].0) == Some(all[k].1)
                &&& exists|j: int| 0 <= j < i && self.children@[j].0@ == all[k].0[0]
            } by {
                if k < prev.len() {
                    assert(all[k] == prev[k]);
                    let j = choose|j: int| 0 <= j < i - 1 && self.children@[j].0@ == prev[k].0[0];
                } else {
                    assert(all[k] == mapped[k - prev.len()]);
                }
            }
            assert forall|a: int, b: int|
                0 <= a < all.len() && 0 <= b < all.len() && a != b implies (#[trigger] all[a]).0
                != (#[trigger] all[b]).0 by {
                if a < prev.len() && b < prev.len() {
                    assert(all[a] == prev[a] && all[b] == prev[b]);
                } else if a >= prev.len() && b >= prev.len() {
                    let ma = a - prev.len();
                    let mb = b - prev.len();
                    assert(all[a] == mapped[ma] && all[b] == mapped[mb]);
                    assert(ces[ma].0 != ces[mb].0);
                } else if a < prev.len() {
                    assert(all[a] == prev[a]);
                    assert(all[b] == mapped[b - prev.len()]);
                    let j = choose|j: int| 0 <= j < i - 1 && self.children@[j].0@ == prev[a].0[0];
                    assert(cs[j].0@ != name);
                } else {
                    assert(all[b] == prev[b]);
                    assert(all[a] == mapped[a - prev.len()]);
                    let j = choose|j: int| 0 <= j < i - 1 && self.children@[j].0@ == prev[b].0[0];
                    assert(cs[j].0@ != name);
                }
            }
            assert forall|a: int, b: int|
                0 <= a < all.len() && 0 <= b < all.len() && a != b && has_prefix(
                    (#[trigger] all[b]).0,
                    (#[trigger] all[a]).0,
                ) implies a < b by {
                if a < prev.len() && b < prev.len() {
                    assert(all[a] == prev[a] && all[b] == prev[b]);
                } else if a >= prev.len() && b >= prev.len() {
                    let ma = a - prev.len();
                    let mb = b - prev.len();
                    assert(all[a] == mapped[ma] && all[b] == mapped[mb]);
                    let pa = ces[ma].0;
                    let pb = ces[mb].0;
                    assert(mapped[ma].0 =~= seq![name] + pa);
                    assert(mapped[mb].0 =~= seq![name] + pb);
                    assert((seq![name] + pb).take((pa.len() + 1) as int).drop_first() =~= pb.take(pa.len() as int));
                    assert((seq![name] + pa).drop_first() =~= pa);
                    assert(has_prefix(pb, pa));
                } else if a >= prev.len() {
                    assert(all[b] == prev[b]);
                    assert(all[a] == mapped[a - prev.len()]);
                    let j = choose|j: int| 0 <= j < i - 1 && self.children@[j].0@ == prev[b].0[0];
                    assert(cs[j].0@ != name);
                    let la = all[a].0.len();
                    assert(all[b].0.take(la as int)[0] == all[b].0[0]);
                }
            }
            assert forall|p: KeyPath, j: int|
                0 <= j < i && p.len() > 0 && #[trigger] self.children@[j].0@ == p[0]
                    && #[trigger] self.lookup(p) is Some implies exists|k: int|
                0 <= k < all.len() && all[k].0 == p by {
                if j < i - 1 {
                    let k = choose|k: int| 0 <= k < prev.len() && prev[k].0 == p;
                    assert(all[k] == prev[k]);
                } else {
                    assert(c.1.lookup(p.drop_first()) is Some);
                    let m = choose|m: int| 0 <= m < ces.len() && ces[m].0 == p.drop_first();
                    assert(mapped[m].0.drop_first() =~= ces[m].0);
                    Self::lemma_path_eq(mapped[m].0, p);
                    assert(all[m + prev.len()] == mapped[m]);
                }
            }
        }
    }

    /// Appends every value stored at or below `node` to `out`, in walk order.
    fn collect_into<'a>(node: &'a TrieNode<T>, out: &mut Vec<&'a T>)
        ensures
            final(out)@.map_values(|r: &T| *r) == old(out)@.map_values(|r: &T| *r) + node.values(),
        decreases node,
    {
        let ghost start = out@.map_values(|r: &T| *r);
        let ghost own = node.own_entries();
        if let Some(v) = &node.value {
            out.push(v);
        }
        assert(out@.map_values(|r: &T| *r) =~= start + own.map_values(|e: (KeyPath, T)| e.1));
        let mut i: usize = 0;
        while i < node.children.len()
            invariant
                i <= node.children@.len(),
                out@.map_values(|r: &T| *r) == start + (own + node.children_entries(i as int)).map_values(
                    |e: (KeyPath, T)| e.1,
                ),
            decreases node.children@.len() - i,
        {
            let ghost before = out@.map_values(|r: &T| *r);
            assert(decreases_to!(node => node.children@[i as int].1));
            Self::collect_into(&node.children[i].1, out);
            let ghost c = node.children@[i as int];
            assert(node.children_entries(i + 1) == node.children_entries(i as int) + c.1.entries().map_values(
                |e: (KeyPath, T)| (seq![c.0@] + e.0, e.1),
            ));
            assert((own + node.children_entries(i + 1)).map_values(|e: (KeyPath, T)| e.1) =~= (own
                + node.children_entries(i as int)).map_values(|e: (KeyPath, T)| e.1) + c.1.values());
            i = i + 1;
        }
        assert(own + node.children_entries(node.children@.len() as int) == node.entries());
    }


    /// The key string `a` extended by `seg`, as `step_key` states.
    fn step_key_exec(a: &String, seg: &String) -> (out: String)
        ensures
            out@ == step_key(a@, seg@),
    {
        if a.as_str().is_empty() {
            seg.clone()
        } else {
            let mut out = a.clone();
            out.append(".");
            out.append(seg.as_str());
            proof {
                reveal_strlit(".");
            }
            out
        }
    }

    /// Appends, for every value stored at or below `node`, its key string
    /// (starting from `path`) and the value, in walk order.
    fn collect_items<'a>(node: &'a TrieNode<T>, path: String, out: &mut Vec<(String, &'a T)>)
        ensures
            final(out)@.map_values(|e: (String, &T)| (e.0@, *e.1)) == old(out)@.map_values(
                |e: (String, &T)| (e.0@, *e.1),
            ) + node.entries().map_values(|e: (KeyPath, T)| (extend_key(path@, e.0), e.1)),
        decreases node,
    {
        let ghost start = out@.map_values(|e: (String, &T)| (e.0@, *e.1));
        let ghost f = |e: (KeyPath, T)| (extend_key(path@, e.0), e.1);
        let ghost own = node.own_entries();
        if let Some(v) = &node.value {
            let key = path.clone();
            out.push((key, v));
        }
        assert(out@.map_values(|e: (String, &T)| (e.0@, *e.1)) =~= start + own.map_values(f));
        let mut i: usize = 0;
        while i < node.children.len()
            invariant
                i <= node.children@.len(),
                f == (|e: (KeyPath, T)| (extend_key(path@, e.0), e.1)),
                out@.map_values(|e: (String, &T)| (e.0@, *e.1)) == start + (own + node.children_entries(
                    i as int,
                )).map_values(f),
            decreases node.children@.len() - i,
        {
            let ghost before = out@.map_values(|e: (String, &T)| (e.0@, *e.1));
            let ghost c = node.children@[i as int];
            let child_path = Self::step_key_exec(&path, &node.children[i].0);
            assert(decreases_to!(node => node.children@[i as int].1));
            Self::collect_items(&node.children[i].1, child_path, out);
            let ghost g = |e: (KeyPath, T)| (seq![c.0@] + e.0, e.1);
            assert(node.children_entries(i + 1) == node.children_entries(i as int) + c.1.entries().map_values(g));
            assert forall|k: int| 0 <= k < c.1.entries().len() implies #[trigger] c.1.entries().map_values(g).map_values(f)[k]
                == c.1.entries().map_values(|e: (KeyPath, T)| (extend_key(step_key(path@, c.0@), e.0), e.1))[k] by {
                let e = c.1.entries()[k];
                let full = seq![c.0@] + e.0;
                assert(full[0] == c.0@);
                assert(full.drop_first() =~= e.0);
            }
            assert(c.1.entries().map_values(g).map_values(f) =~= c.1.entries().map_values(
                |e: (KeyPath, T)| (extend_key(step_key(path@, c.0@), e.0), e.1)));
            assert((own + node.children_entries(i + 1)).map_values(f) =~= (own
                + node.children_entries(i as int)).map_values(f) + c.1.entries().map_values(g).map_values(f));
            i = i + 1;
        }
        assert(own + node.children_entries(node.children@.len() as int) == node.entries());
    }

    pub fn new() -> (n: Self)
        ensures
            n.bare(),
            n.wf(),
            n.view_map() == Map::<KeyPath, T>::empty(),
    {
        let n = TrieNode { children: Vec::new(), value: None };
        assert(n.view_map() =~= Map::<KeyPath, T>::empty());
        n
    }

    pub proof fn lemma_child_index_is(cs: Seq<(String, TrieNode<T>)>, j: int, name: Seq<char>)
        requires
            Self::names_distinct(cs),
            0 <= j < cs.len(),
            cs[j].0@ == name,
        ensures
            Self::child_index(cs, name) == j,
    {
        assert(Self::has_child(cs, name));
    }

    /// Two child lists with the same names, position by position, find each
    /// name at the same position.
    pub proof fn lemma_child_index_same_names(
        cs: Seq<(String, TrieNode<T>)>,
        ds: Seq<(String, TrieNode<T>)>,
        name: Seq<char>,
    )
        requires
            Self::names_distinct(cs),
            cs.len() == ds.len(),
            forall|i: int| 0 <= i < cs.len() ==> (#[trigger] cs[i]).0@ == ds[i].0@,
        ensures
            Self::names_distinct(ds),
            Self::child_index(cs, name) == Self::child_index(ds, name),
    {
        assert(Self::names_distinct(ds)) by {
            assert forall|i: int, j: int|
                0 <= i < ds.len() && 0 <= j < ds.len() && i != j implies (#[trigger] ds[i]).0@
                != (#[trigger] ds[j]).0@ by {
                assert(cs[i].0@ == ds[i].0@);
                assert(cs[j].0@ == ds[j].0@);
            }
        }
        if Self::has_child(cs, name) {
            let j = Self::child_index(cs, name);
            assert(ds[j].0@ == name);
            Self::lemma_child_index_is(cs, j, name);
            Self::lemma_child_index_is(ds, j, name);
        } else {
            if Self::has_child(ds, name) {
                let j = choose|j: int| 0 <= j < ds.len() && (#[trigger] ds[j]).0@ == name;
                assert(cs[j].0@ == name);
            }
        }
    }

    /// A well-formed node that is not bare holds some value.
    pub proof fn lemma_not_bare_occupied(self)
        requires
            self.wf(),
            !self.bare(),
        ensures
            self.occupied(),
    {
        if self.value is Some {
            assert(self.lookup(Seq::<Seq<char>>::empty()) is Some);
        } else {
            let c = self.children@[0];
            assert(c.1.occupied());
            let q = choose|q: KeyPath| #[trigger] c.1.lookup(q) is Some;
            let p = seq![c.0@] + q;
            assert(p.drop_first() =~= q);
            Self::lemma_child_index_is(self.children@, 0, c.0@);
            assert(self.lookup(p) is Some);
        }
    }

    /// A bare node holds nothing.
    pub proof fn lemma_bare_empty(self)
        requires
            self.bare(),
        ensures
            self.view_map() == Map::<KeyPath, T>::empty(),
    {
        assert forall|p: KeyPath| #[trigger] self.lookup(p) is None by {
            if p.len() > 0 {
                assert(!Self::has_child(self.children@, p[0]));
            }
        }
        assert(self.view_map() =~= Map::<KeyPath, T>::empty());
    }

    /// The position of the child named `name`, searching from the front.
    fn find_child(children: &Vec<(String, TrieNode<T>)>, name: &String) -> (r: Option<usize>)
        requires
            Self::names_distinct(children@),
        ensures
            match r {
                Some(i) => i < children@.len() && Self::child_index(children@, name@) == i,
                None => Self::child_index(children@, name@) == -1,
            },
    {
        let mut i: usize = 0;
        while i < children.len()
            invariant
                Self::names_distinct(children@),
                i <= children@.len(),
                forall|j: int| 0 <= j < i ==> (#[trigger] children@[j]).0@ != name@,
            decreases children@.len() - i,
        {
            if children[i].0 == *name {
                proof {
                    Self::lemma_child_index_is(children@, i as int, name@);
                }
                return Some(i);
            }
            i = i + 1;
        }
        None
    }

    /// Stores `value` at the path `parts[idx..]` below this node.
    fn insert_path(node: &mut TrieNode<T>, parts: &Vec<String>, idx: usize, value: T)
        requires
            old(node).wf(),
            idx <= parts@.len(),
        ensures
            final(node).wf(),
            final(node).occupied(),
            forall|p: KeyPath|
                #[trigger] final(node).lookup(p) == if p == parts@.map_values(|s: String| s@).skip(
                    idx as int,
                ) {
                    Some(value)
                } else {
                    old(node).lookup(p)
                },
        decreases parts@.len() - idx,
    {
        let ghost pv = parts@.map_values(|s: String| s@);
        let ghost rest = pv.skip(idx as int);
        if idx == parts.len() {
            node.value = Some(value);
            assert(rest =~= Seq::<Seq<char>>::empty());
            proof {
                assert(node.lookup(rest) is Some);
                assert forall|p: KeyPath| #[trigger] node.lookup(p) == if p == rest {
                    Some(value)
                } else {
                    old(node).lookup(p)
                } by {
                    if p.len() == 0 {
                        assert(p =~= rest);
                    }
                }
            }
            return ;
        }
        let ghost name = pv[idx as int];
        assert(rest.len() > 0 && rest[0] == name && rest.drop_first() =~= pv.skip(idx + 1));
        match Self::find_child(&node.children, &parts[idx]) {
            Some(i) => {
                let ghost old_cs = node.children@;
                Self::insert_path(&mut node.children[i].1, parts, idx + 1, value);
                proof {
                    let cs = node.children@;
                    assert(cs.len() == old_cs.len());
                    assert forall|j: int| 0 <= j < cs.len() implies (#[trigger] old_cs[j]).0@
                        == cs[j].0@ by {}
                    assert forall|j: int| 0 <= j < cs.len() && j != i implies #[trigger] cs[j]
                        == old_cs[j] by {}
                    assert forall|q: Seq<char>| true implies Self::child_index(old_cs, q)
                        == #[trigger] Self::child_index(cs, q) by {
                        Self::lemma_child_index_same_names(old_cs, cs, q);
                    }
                    Self::lemma_child_index_same_names(old_cs, cs, name);
                    assert(node.wf()) by {
                        assert forall|j: int| 0 <= j < cs.len() implies {
                            &&& (#[trigger] cs[j]).1.wf()
                            &&& cs[j].1.occupied()
                        } by {
                            if j != i {
                                assert(old_cs[j].1.wf());
                                assert(old_cs[j].1.occupied());
                            }
                        }
                    }
                    assert forall|p: KeyPath| #[trigger] node.lookup(p) == if p == rest {
                        Some(value)
                    } else {
                        old(node).lookup(p)
                    } by {
                        if p.len() > 0 {
                            if p[0] == name {
                                if p.drop_first() == rest.drop_first() {
                                    assert(p.len() == rest.len());
                                    assert forall|k: int| 0 <= k < p.len() implies p[k] == rest[k] by {
                                        if k > 0 {
                                            assert(p[k] == p.drop_first()[k - 1]);
                                            assert(rest[k] == rest.drop_first()[k - 1]);
                                        }
                                    }
                                    assert(p =~= rest);
                                } else {
                                    assert(p != rest);
                                    assert(node.lookup(p) == node.children@[i as int].1.lookup(p.drop_first()));
                                }
                            } else {
                                assert(p != rest);
                                let k = Self::child_index(old_cs, p[0]);
                                if k >= 0 {
                                    assert(k != i);
                                }
                            }
                        } else {
                            assert(p != rest);
                        }
                    }
                    assert(node.lookup(rest) is Some);
                }
            },
            None => {
                let ghost old_cs = node.children@;
                let mut child = TrieNode::new();
                let ghost fresh = child;
                Self::insert_path(&mut child, parts, idx + 1, value);
                let seg = parts[idx].clone();
                node.children.push((seg, child));
                proof {
                    let cs = node.children@;
                    let last = old_cs.len() as int;
                    assert forall|j: int| 0 <= j < old_cs.len() implies #[trigger] cs[j]
                        == old_cs[j] by {}
                    assert(!Self::has_child(old_cs, name));
                    assert(Self::names_distinct(cs)) by {
                        assert forall|a: int, b: int|
                            0 <= a < cs.len() && 0 <= b < cs.len() && a != b implies (
                            #[trigger] cs[a]).0@ != (#[trigger] cs[b]).0@ by {
                            if a < last && b < last {
                                assert(old_cs[a].0@ != old_cs[b].0@);
                            } else if a < last {
                                assert(old_cs[a].0@ != name);
                            } else {
                                assert(old_cs[b].0@ != name);
                            }
                        }
                    }
                    Self::lemma_child_index_is(cs, last, name);
                    assert(node.wf()) by {
                        assert forall|j: int| 0 <= j < cs.len() implies {
                            &&& (#[trigger] cs[j]).1.wf()
                            &&& cs[j].1.occupied()
                        } by {
                            if j < last {
                                assert(old_cs[j].1.wf());
                                assert(old_cs[j].1.occupied());
                            }
                        }
                    }
                    assert forall|p: KeyPath| #[trigger] node.lookup(p) == if p == rest {
                        Some(value)
                    } else {
                        old(node).lookup(p)
                    } by {
                        if p.len() > 0 {
                            if p[0] == name {
                                if p.drop_first() == rest.drop_first() {
                                    assert(p.len() == rest.len());
                                    assert forall|k: int| 0 <= k < p.len() implies p[k] == rest[k] by {
                                        if k > 0 {
                                            assert(p[k] == p.drop_first()[k - 1]);
                                            assert(rest[k] == rest.drop_first()[k - 1]);
                                        }
                                    }
                                    assert(p =~= rest);
                                } else {
                                    assert(p != rest);
                                    assert(!fresh.view_map().dom().contains(p.drop_first()));
                                    assert(node.lookup(p) == child.lookup(p.drop_first()));
                                    assert(Self::child_index(old_cs, p[0]) == -1);
                                }
                            } else {
                                assert(p != rest);
                                if Self::has_child(old_cs, p[0]) {
                                    let k = Self::child_index(old_cs, p[0]);
                                    Self::lemma_child_index_is(cs, k, p[0]);
                                } else {
                                    assert(!Self::has_child(cs, p[0]));
                                }
                            }
                        } else {
                            assert(p != rest);
                        }
                    }
                    assert(node.lookup(rest) is Some);
                }
            },
        }
    }

    /// Clears the value at the path `parts[idx..]` below this node and drops
    /// every child on that path that is left bare. Returns whether this node
    /// itself is left bare.
    fn delete_recursive(node: &mut TrieNode<T>, parts: &Vec<String>, idx: usize) -> (r: bool)
        requires
            old(node).wf(),
            idx <= parts@.len(),
        ensures
            final(node).wf(),
            r == final(node).bare(),
            forall|p: KeyPath|
                #[trigger] final(node).lookup(p) == if p == parts@.map_values(|s: String| s@).skip(
                    idx as int,
                ) {
                    None
                } else {
                    old(node).lookup(p)
                },
        decreases parts@.len() - idx,
    {
        let ghost pv = parts@.map_values(|s: String| s@);
        let ghost rest = pv.skip(idx as int);
        if idx == parts.len() {
            node.value = None;
            assert(rest =~= Seq::<Seq<char>>::empty());
            proof {
                assert forall|p: KeyPath| #[trigger] node.lookup(p) == if p == rest {
                    None
                } else {
                    old(node).lookup(p)
                } by {
                    if p.len() == 0 {
                        assert(p =~= rest);
                    }
                }
            }
            return node.is_empty();
        }
        let ghost name = pv[idx as int];
        assert(rest.len() > 0 && rest[0] == name && rest.drop_first() =~= pv.skip(idx + 1));
        match Self::find_child(&node.children, &parts[idx]) {
            Some(i) => {
                let ghost old_cs = node.children@;
                let emptied = Self::delete_recursive(&mut node.children[i].1, parts, idx + 1);
                let ghost mid_cs = node.children@;
                let ghost new_child = mid_cs[i as int].1;
                proof {
                    assert forall|j: int| 0 <= j < mid_cs.len() implies (#[trigger] old_cs[j]).0@
                        == mid_cs[j].0@ by {}
                    assert forall|j: int| 0 <= j < mid_cs.len() && j != i implies #[trigger] mid_cs[j]
                        == old_cs[j] by {}
                    Self::lemma_child_index_same_names(old_cs, mid_cs, name);
                }
                if emptied {
                    node.children.remove(i);
                    proof {
                        let cs = node.children@;
                        new_child.lemma_bare_empty();
                        assert forall|j: int| 0 <= j < i implies #[trigger] cs[j] == old_cs[j] by {}
                        assert forall|j: int| i <= j < cs.len() implies #[trigger] cs[j] == old_cs[j + 1] by {}
                        assert(Self::names_distinct(cs)) by {
                            assert forall|a: int, b: int|
                                0 <= a < cs.len() && 0 <= b < cs.len() && a != b implies (
                                #[trigger] cs[a]).0@ != (#[trigger] cs[b]).0@ by {
                                let a2 = if a < i { a } else { a + 1 };
                                let b2 = if b < i { b } else { b + 1 };
                                assert(cs[a] == old_cs[a2]);
                                assert(cs[b] == old_cs[b2]);
                            }
                        }
                        assert(node.wf()) by {
                            assert forall|j: int| 0 <= j < cs.len() implies {
                                &&& (#[trigger] cs[j]).1.wf()
                                &&& cs[j].1.occupied()
                            } by {
                                let j2 = if j < i { j } else { j + 1 };
                                assert(cs[j] == old_cs[j2]);
                                assert(old_cs[j2].1.wf());
                                assert(old_cs[j2].1.occupied());
                            }
                        }
                        assert forall|p: KeyPath| #[trigger] node.lookup(p) == if p == rest {
                            None
                        } else {
                            old(node).lookup(p)
                        } by {
                            if p.len() > 0 {
                                if p[0] == name {
                                    assert(!Self::has_child(cs, name)) by {
                                        if Self::has_child(cs, name) {
                                            let j = choose|j: int| 0 <= j < cs.len() && (#[trigger] cs[j]).0@ == name;
                                            let j2 = if j < i { j } else { j + 1 };
                                            assert(cs[j] == old_cs[j2]);
                                        }
                                    }
                                    assert(!new_child.view_map().dom().contains(p.drop_first()));
                                    assert(new_child.lookup(p.drop_first()) is None);
                                    assert(node.lookup(p) is None);
                                    assert(Self::child_index(old_cs, name) == i);
                                    assert(old(node).lookup(p) == old_cs[i as int].1.lookup(p.drop_first()));
                                    if p.drop_first() == rest.drop_first() {
                                        assert(p.len() == rest.len());
                                        assert forall|k: int| 0 <= k < p.len() implies p[k] == rest[k] by {
                                            if k > 0 {
                                                assert(p[k] == p.drop_first()[k - 1]);
                                                assert(rest[k] == rest.drop_first()[k - 1]);
                                            }
                                        }
                                        assert(p =~= rest);
                                    } else {
                                        assert(p != rest);
                                        assert(old_cs[i as int].1.lookup(p.drop_first()) is None);
                                    }
                                } else {
                                    assert(p != rest);
                                    if Self::has_child(old_cs, p[0]) {
                                        let k = Self::child_index(old_cs, p[0]);
                                        assert(k != i);
                                        let k2 = if k < i { k } else { k - 1 };
                                        assert(cs[k2] == old_cs[k]);
                                        Self::lemma_child_index_is(cs, k2, p[0]);
                                        assert(node.lookup(p) == old(node).lookup(p));
                                    } else {
                                        assert(!Self::has_child(cs, p[0])) by {
                                            if Self::has_child(cs, p[0]) {
                                                let j = choose|j: int| 0 <= j < cs.len() && (#[trigger] cs[j]).0@ == p[0];
                                                let j2 = if j < i { j } else { j + 1 };
                                                assert(cs[j] == old_cs[j2]);
                                            }
                                        }
                                        assert(node.lookup(p) == old(node).lookup(p));
                                    }
                                }
                            } else {
                                assert(p != rest);
                                assert(node.value == old(node).value);
                            }
                        }
                    }
                } else {
                    proof {
                        let cs = node.children@;
                        new_child.lemma_not_bare_occupied();
                        assert(node.wf()) by {
                            assert forall|j: int| 0 <= j < cs.len() implies {
                                &&& (#[trigger] cs[j]).1.wf()
                                &&& cs[j].1.occupied()
                            } by {
                                if j != i {
                                    assert(old_cs[j].1.wf());
                                    assert(old_cs[j].1.occupied());
                                }
                            }
                        }
                        assert forall|p: KeyPath| #[trigger] node.lookup(p) == if p == rest {
                            None
                        } else {
                            old(node).lookup(p)
                        } by {
                            if p.len() > 0 {
                                if p[0] == name {
                                    if p.drop_first() == rest.drop_first() {
                                        assert(p.len() == rest.len());
                                        assert forall|k: int| 0 <= k < p.len() implies p[k] == rest[k] by {
                                            if k > 0 {
                                                assert(p[k] == p.drop_first()[k - 1]);
                                                assert(rest[k] == rest.drop_first()[k - 1]);
                                            }
                                        }
                                        assert(p =~= rest);
                                    } else {
                                        assert(p != rest);
                                        assert(node.lookup(p) == new_child.lookup(p.drop_first()));
                                    }
                                } else {
                                    assert(p != rest);
                                    Self::lemma_child_index_same_names(old_cs, cs, p[0]);
                                    let k = Self::child_index(old_cs, p[0]);
                                    if k >= 0 {
                                        assert(k != i);
                                    }
                                }
                            } else {
                                assert(p != rest);
                            }
                        }
                    }
                }
            },
            None => {
                proof {
                    assert forall|p: KeyPath| #[trigger] node.lookup(p) == if p == rest {
                        None
                    } else {
                        old(node).lookup(p)
                    } by {
                        if p == rest {
                            assert(Self::child_index(node.children@, p[0]) == -1);
                        }
                    }
                }
            },
        }
        node.is_empty()
    }

    pub fn is_empty(&self) -> (b: bool)
        ensures
            b == self.bare(),
    {
        self.children.len() == 0 && self.value.is_none()
    }

    /// Appends the drawing of `node` under the name `key` to `out`; `bar`
    /// and `arrow` are the line's lead-ins for its depth (see
    /// `render_line`).
    fn render_into(node: &TrieNode<T>, key: &str, bar: &String, arrow: &String, out: &mut String)
        requires
            arrow@ == dashes(arrow@.len()),
            bar@ == bar_for(arrow@.len()),
        ensures
            final(out)@ == old(out)@ + node.render_spec(key@, arrow@.len()),
        decreases node,
    {
        let ghost level = arrow@.len();
        out.append(bar.as_str());
        out.append(arrow.as_str());
        out.append("-> ");
        out.append(key);
        out.append("\n");
        proof {
            reveal_strlit("-> ");
            reveal_strlit("\n");
            assert(out@ =~= old(out)@ + render_line(key@, level));
        }
        let mut child_bar = arrow.clone();
        child_bar.append("|");
        let mut child_arrow = arrow.clone();
        child_arrow.append("-");
        proof {
            reveal_strlit("|");
            reveal_strlit("-");
            assert(child_arrow@ =~= dashes(level + 1));
            assert(child_bar@ =~= bar_for(level + 1));
        }
        let ghost start = out@;
        let mut i: usize = 0;
        while i < node.children.len()
            invariant
                i <= node.children@.len(),
                child_arrow@ == dashes(level + 1),
                child_arrow@.len() == level + 1,
                child_bar@ == bar_for(level + 1),
                out@ == start + node.render_children(level + 1, i as int),
            decreases node.children@.len() - i,
        {
            assert(decreases_to!(node => node.children@[i as int].1));
            Self::render_into(&node.children[i].1, node.children[i].0.as_str(), &child_bar, &child_arrow, out);
            i = i + 1;
        }
        assert(old(out)@ + node.render_spec(key@, level) =~= start + node.render_children(
            level + 1,
            node.children@.len() as int,
        ));
    }
}

/// `n` dashes.
pub open spec fn dashes(n: nat) -> Seq<char> {
    Seq::new(n, |i: int| '-')
}

/// What a line at depth `level` starts with: nothing at the top, else one
/// dash fewer than the depth followed by `|`.
pub open spec fn bar_for(level: nat) -> Seq<char> {
    if level == 0 {
        Seq::<char>::empty()
    } else {
        dashes((level - 1) as nat) + seq!['|']
    }
}

/// One line of a trie's drawing: the lead-in for the depth, `level`
/// dashes, `-> `, the name, and a line end.
pub open spec fn render_line(key: Seq<char>, level: nat) -> Seq<char> {
    bar_for(level) + dashes(level) + seq!['-', '>', ' '] + key + seq!['\n']
}



/// `p` starts with the segments of `q`.
pub open spec fn has_prefix(p: KeyPath, q: KeyPath) -> bool {
    q.len() <= p.len() && p.take(q.len() as int) == q
}

/// `ks` lists keys of `m` starting with `q`, each once, holding `vals`, and
/// every key of `m` starting with `q` is among them.
pub open spec fn enumerates_with<T>(m: Map<KeyPath, T>, q: KeyPath, vals: Seq<T>, ks: Seq<KeyPath>) -> bool {
    &&& ks.len() == vals.len()
    &&& forall|a: int, b: int|
        0 <= a < ks.len() && 0 <= b < ks.len() && a != b ==> #[trigger] ks[a] != #[trigger] ks[b]
    &&& forall|k: int|
        0 <= k < ks.len() ==> {
            &&& #[trigger] m.contains_key(ks[k])
            &&& has_prefix(ks[k], q)
            &&& m[ks[k]] == vals[k]
        }
    &&& forall|p: KeyPath|
        #[trigger] m.contains_key(p) && has_prefix(p, q) ==> exists|k: int|
            0 <= k < ks.len() && ks[k] == p
}

/// `vals` lists the values of `m` stored under keys starting with `q`, each
/// such key exactly once, in some order.
pub open spec fn enumerates_under<T>(m: Map<KeyPath, T>, q: KeyPath, vals: Seq<T>) -> bool {
    exists|ks: Seq<KeyPath>| #[trigger] enumerates_with(m, q, vals, ks)
}

/// The position of the first segment of `parts` that is exactly `*`, if any.
pub open spec fn star_index(parts: KeyPath) -> int
    decreases parts.len(),
{
    if parts.len() == 0 {
        -1
    } else if parts[0] == seq!['*'] {
        0
    } else {
        let k = star_index(parts.drop_first());
        if k < 0 {
            -1
        } else {
            k + 1
        }
    }
}

pub proof fn lemma_star_index(parts: KeyPath)
    ensures
        -1 <= star_index(parts) < parts.len(),
        star_index(parts) >= 0 ==> parts[star_index(parts)] == seq!['*'],
        forall|i: int| 0 <= i < parts.len() && (star_index(parts) < 0 || i < star_index(parts))
            ==> #[trigger] parts[i] != seq!['*'],
    decreases parts.len(),
{
    if parts.len() > 0 {
        lemma_star_index(parts.drop_first());
        assert forall|i: int| 0 <= i < parts.len() && (star_index(parts) < 0 || i < star_index(parts))
            implies #[trigger] parts[i] != seq!['*'] by {
            if i > 0 {
                assert(parts[i] == parts.drop_first()[i - 1]);
            }
        }
    }
}

/// What `Trie::get` answers for `prefix` on a trie holding `m`: with a `*`
/// segment, every value under the segments before it; with a `*` inside a
/// segment, every value under the whole path; otherwise the value stored at
/// exactly that key, if any.
pub open spec fn get_answer<T>(m: Map<KeyPath, T>, prefix: Seq<char>, vals: Seq<T>) -> bool {
    let parts = key_path(prefix);
    if star_index(parts) >= 0 {
        enumerates_under(m, parts.take(star_index(parts)), vals)
    } else if prefix.contains('*') {
        enumerates_under(m, parts, vals)
    } else {
        vals == if m.contains_key(parts) {
            seq![m[parts]]
        } else {
            Seq::<T>::empty()
        }
    }
}


/// The key string for a child segment below a node whose key string is `a`:
/// the segment alone below an empty string, else `a.seg`.
pub open spec fn step_key(a: Seq<char>, seg: Seq<char>) -> Seq<char> {
    if a.len() == 0 {
        seg
    } else {
        a + seq!['.'] + seg
    }
}

/// The key string reached from `a` by following the segments of `rel`.
pub open spec fn extend_key(a: Seq<char>, rel: KeyPath) -> Seq<char>
    decreases rel.len(),
{
    if rel.len() == 0 {
        a
    } else {
        extend_key(step_key(a, rel[0]), rel.drop_first())
    }
}

/// The key string under which iteration reports the value stored at `p`.
pub open spec fn iter_key(p: KeyPath) -> Seq<char> {
    extend_key(Seq::<char>::empty(), p)
}

/// Following `p` and then `r` from `a` reaches the key string that
/// following `r` from the end of `p` does.
pub proof fn lemma_extend_key_append(a: Seq<char>, p: KeyPath, r: KeyPath)
    ensures
        extend_key(a, p + r) == extend_key(extend_key(a, p), r),
    decreases p.len(),
{
    if p.len() == 0 {
        assert(p + r =~= r);
    } else {
        assert((p + r)[0] == p[0]);
        assert((p + r).drop_first() =~= p.drop_first() + r);
        lemma_extend_key_append(step_key(a, p[0]), p.drop_first(), r);
    }
}

/// With a non-empty first segment, the key string of `p` is its segments
/// joined with `.`.
pub proof fn lemma_iter_key_join(p: KeyPath)
    requires
        p.len() > 0,
        p[0].len() > 0,
    ensures
        iter_key(p) == join_spec(p, '.'),
        iter_key(p).len() >= p[0].len(),
    decreases p.len(),
{
    if p.len() == 1 {
        assert(p.drop_first() =~= Seq::<Seq<char>>::empty());
        assert(step_key(Seq::<char>::empty(), p[0]) == p[0]);
        assert(extend_key(p[0], p.drop_first()) == p[0]);
        assert(iter_key(p) == extend_key(step_key(Seq::<char>::empty(), p[0]), p.drop_first()));
    } else {
        let q = p.drop_last();
        let x = p.last();
        lemma_iter_key_join(q);
        lemma_extend_key_append(Seq::<char>::empty(), q, seq![x]);
        assert(q + seq![x] =~= p);
        let a = iter_key(q);
        assert(seq![x].drop_first() =~= Seq::<Seq<char>>::empty());
        assert(extend_key(step_key(a, x), Seq::<Seq<char>>::empty()) == step_key(a, x));
        assert(extend_key(a, seq![x]) == step_key(a, x));
        assert(a.len() > 0);
        assert(step_key(a, x) == a + seq!['.'] + x);
        assert(join_spec(p, '.') == join_spec(q, '.') + seq!['.'] + x);
    }
}

/// Law: a stored key whose text does not begin with `.` is reported by
/// iteration under its own text (see `Trie::iter` and `iter_key`).
pub proof fn law_iter_key_reads_back(key: Seq<char>)
    requires
        key_path(key)[0].len() > 0,
    ensures
        iter_key(key_path(key)) == key,
{
    lemma_split_spec_nonempty(key, '.');
    lemma_iter_key_join(key_path(key));
    lemma_join_split(key, '.');
}

/// `items` lists the values of `m` under keys starting with `q`, each such
/// key once (see `enumerates_with`), each with the key text iteration
/// reports for it (see `iter_key`).
pub open spec fn keyed_under<T>(m: Map<KeyPath, T>, q: KeyPath, items: Seq<(Seq<char>, T)>) -> bool {
    let vals = items.map_values(|e: (Seq<char>, T)| e.1);
    exists|ks: Seq<KeyPath>|
        #[trigger] enumerates_with(m, q, vals, ks) && forall|i: int|
            0 <= i < ks.len() ==> #[trigger] items[i].0 == iter_key(ks[i])
}

/// The pairs of key text and value that answer a read of `prefix` (see
/// `get_answer` for which values): with a `*`, each value with the key text
/// iteration reports for it (see `iter_key`); otherwise `prefix` itself with
/// the value stored there, if any.
pub open spec fn items_answer<T>(m: Map<KeyPath, T>, prefix: Seq<char>, items: Seq<(Seq<char>, T)>) -> bool {
    let parts = key_path(prefix);
    let vals = items.map_values(|e: (Seq<char>, T)| e.1);
    if star_index(parts) >= 0 || prefix.contains('*') {
        let q = if star_index(parts) >= 0 {
            parts.take(star_index(parts))
        } else {
            parts
        };
        keyed_under(m, q, items)
    } else {
        items == if m.contains_key(parts) {
            seq![(prefix, m[parts])]
        } else {
            Seq::<(Seq<char>, T)>::empty()
        }
    }
}

/// The pairs collected below the node at `q`, with key texts grown from
/// the text of `q`, list every value under `q` with the key text iteration
/// reports for it.
proof fn lemma_collected_items<T>(
    root: TrieNode<T>,
    q: KeyPath,
    node: TrieNode<T>,
    path: Seq<char>,
    items: Seq<(Seq<char>, T)>,
)
    requires
        root.wf(),
        root.subtree(q) == Some(node),
        path == iter_key(q),
        items == node.entries().map_values(|e: (KeyPath, T)| (extend_key(path, e.0), e.1)),
    ensures
        keyed_under(root.view_map(), q, items),
{
    root.lemma_enumerates_subtree(q);
    let es = node.entries();
    let ks = es.map_values(|e: (KeyPath, T)| q + e.0);
    assert(items.map_values(|e: (Seq<char>, T)| e.1) =~= node.values());
    assert forall|i: int| 0 <= i < ks.len() implies #[trigger] items[i].0 == iter_key(ks[i]) by {
        lemma_extend_key_append(Seq::<char>::empty(), q, es[i].0);
    }
    assert(enumerates_with(root.view_map(), q, items.map_values(|e: (Seq<char>, T)| e.1), ks));
}

/// The values of an answer by key text answer the read (see `get_answer`).
pub proof fn lemma_items_answer_values<T>(m: Map<KeyPath, T>, prefix: Seq<char>, items: Seq<(Seq<char>, T)>)
    requires
        items_answer(m, prefix, items),
    ensures
        get_answer(m, prefix, items.map_values(|e: (Seq<char>, T)| e.1)),
{
    let parts = key_path(prefix);
    let vals = items.map_values(|e: (Seq<char>, T)| e.1);
    if star_index(parts) >= 0 || prefix.contains('*') {
        let q = if star_index(parts) >= 0 {
            parts.take(star_index(parts))
        } else {
            parts
        };
        let ks = choose|ks: Seq<KeyPath>|
            #[trigger] enumerates_with(m, q, vals, ks) && forall|i: int|
                0 <= i < ks.len() ==> #[trigger] items[i].0 == iter_key(ks[i]);
        assert(keyed_under(m, q, items));
        assert(enumerates_with(m, q, vals, ks));
    } else {
        if m.contains_key(parts) {
            assert(vals =~= seq![m[parts]]);
        } else {
            assert(vals =~= Seq::<T>::empty());
        }
    }
}



/// A key without `*` has no `*` segment.
pub proof fn lemma_plain_key_no_star(key: Seq<char>)
    requires
        !key.contains('*'),
    ensures
        star_index(key_path(key)) < 0,
        forall|i: int| 0 <= i < key_path(key).len() ==> #[trigger] plain_segment(key_path(key)[i]),
{
    let parts = key_path(key);
    lemma_split_pieces(key, '.');
    lemma_star_index(parts);
    if star_index(parts) >= 0 {
        let k = star_index(parts);
        assert(parts[k][0] == '*');
        assert(parts[k].contains('*'));
    }
    assert forall|i: int| 0 <= i < parts.len() implies #[trigger] plain_segment(parts[i]) by {
        if parts[i].contains('*') {
            assert(key.contains('*'));
        }
    }
}

/// Law: once `value` is stored under a key without `*`, reading that key
/// gives exactly `value`.
pub proof fn law_get_after_insert<T>(m: Map<KeyPath, T>, key: Seq<char>, value: T, vals: Seq<T>)
    requires
        !key.contains('*'),
        get_answer(m.insert(key_path(key), value), key, vals),
    ensures
        vals == seq![value],
{
    lemma_plain_key_no_star(key);
}

/// Law: once a key without `*` is removed, reading it gives nothing.
pub proof fn law_get_after_remove<T>(m: Map<KeyPath, T>, key: Seq<char>, vals: Seq<T>)
    requires
        !key.contains('*'),
        get_answer(m.remove(key_path(key)), key, vals),
    ensures
        vals == Seq::<T>::empty(),
{
    lemma_plain_key_no_star(key);
}

/// Law: storing under one key leaves what is read under any other key
/// without `*` unchanged.
pub proof fn law_insert_keeps_other_keys<T>(
    m: Map<KeyPath, T>,
    key: Seq<char>,
    value: T,
    other: Seq<char>,
    vals: Seq<T>,
)
    requires
        !other.contains('*'),
        key_path(key) != key_path(other),
        get_answer(m.insert(key_path(key), value), other, vals),
    ensures
        get_answer(m, other, vals),
{
    lemma_plain_key_no_star(other);
}

/// The stored (key, value) pairs of a trie, handed out one at a time.
pub struct TrieIter<'a, V> {
    items: Vec<(String, &'a V)>,
    pos: usize,
}

impl<'a, V> TrieIter<'a, V> {
    #[verifier::type_invariant]
    closed spec fn inv(self) -> bool {
        self.pos <= self.items@.len()
    }

    /// The pairs not handed out yet, keys as character sequences.
    pub closed spec fn remaining(self) -> Seq<(Seq<char>, V)> {
        self.items@.skip(self.pos as int).map_values(|e: (String, &V)| (e.0@, *e.1))
    }

    /// The values of the pairs not handed out yet.
    pub open spec fn remaining_values(self) -> Seq<V> {
        self.remaining().map_values(|e: (Seq<char>, V)| e.1)
    }

    /// The next pair, or `None` once every pair has been handed out.
    pub fn next(&mut self) -> (r: Option<(String, &'a V)>)
        ensures
            old(self).remaining().len() == 0 ==> r is None && final(self).remaining() == old(
                self,
            ).remaining(),
            old(self).remaining().len() > 0 ==> {
                &&& r matches Some((k, v)) && (k@, *v) == old(self).remaining()[0]
                &&& final(self).remaining() == old(self).remaining().drop_first()
            },
    {
        proof {
            use_type_invariant(&*self);
        }
        if self.pos < self.items.len() {
            let key = self.items[self.pos].0.clone();
            let v = self.items[self.pos].1;
            self.pos = self.pos + 1;
            assert(final(self).remaining() =~= old(self).remaining().drop_first());
            Some((key, v))
        } else {
            None
        }
    }
}

/// A map from `.`-separated keys to values, stored as a tree of key segments.
#[derive(Debug)]
pub struct Trie<T> {
    root: TrieNode<T>,
}

impl<T> View for Trie<T> {
    type V = Map<KeyPath, T>;

    closed spec fn view(&self) -> Map<KeyPath, T> {
        self.root.view_map()
    }
}

impl<T> Trie<T> {
    /// The tree is well formed and every stored key is a non-empty path of
    /// plain segments.
    #[verifier::type_invariant]
    closed spec fn inv(self) -> bool {
        &&& self.root.wf()
        &&& forall|p: KeyPath| #[trigger] self.root.lookup(p) is Some ==> plain_path(p)
    }

    pub fn new() -> (t: Self)
        ensures
            t@ == Map::<KeyPath, T>::empty(),
    {
        let root = TrieNode::new();
        Trie { root }
    }

    /// The tree of segments the trie keeps its values in.
    pub closed spec fn root_node(self) -> TrieNode<T> {
        self.root
    }

    /// The trie drawn as text, one line per node from the root (named
    /// `*`), each child below its parent one level deeper (see
    /// `TrieNode::render_spec`).
    pub fn render(&self) -> (s: String)
        ensures
            s@ == self.root_node().render_spec(seq!['*'], 0),
    {
        let bar = String::new();
        let arrow = String::new();
        let mut out = String::new();
        proof {
            assert(arrow@ =~= dashes(0));
            assert(bar@ =~= bar_for(0));
        }
        TrieNode::render_into(&self.root, "*", &bar, &arrow, &mut out);
        proof {
            reveal_strlit("*");
            assert("*"@ =~= seq!['*']);
        }
        out
    }

    /// Whether `key` holds the wildcard character `*`.
    pub fn has_wildcard(key: &str) -> (b: bool)
        ensures
            b == key@.contains('*'),
    {
        contains_char(key, '*')
    }



    /// Every stored pair, keys as `.`-joined strings (see `iter_key`): each
    /// stored key exactly once, in pre-order (a key comes before every key
    /// that extends it).
    pub fn iter(&self) -> (it: TrieIter<'_, T>)
        ensures
            exists|ks: Seq<KeyPath>|
                #[trigger] enumerates_with(
                    self@,
                    Seq::<Seq<char>>::empty(),
                    it.remaining_values(),
                    ks,
                ) && (forall|i: int| 0 <= i < ks.len() ==> #[trigger] it.remaining()[i].0 == iter_key(ks[i]))
                    && forall|a: int, b: int|
                    0 <= a < ks.len() && 0 <= b < ks.len() && a != b && has_prefix(#[trigger] ks[b], #[trigger] ks[a])
                        ==> a < b,
    {
        proof {
            use_type_invariant(self);
        }
        let mut items: Vec<(String, &T)> = Vec::new();
        TrieNode::collect_items(&self.root, String::new(), &mut items);
        let it = TrieIter { items, pos: 0 };
        proof {
            let root = self.root;
            let rem = it.remaining();
            let es = root.entries();
            assert(it.items@.skip(0) == it.items@);
            assert(Seq::<(String, &T)>::empty().map_values(|e: (String, &T)| (e.0@, *e.1)) + es.map_values(
                |e: (KeyPath, T)| (extend_key(Seq::<char>::empty(), e.0), e.1)) =~= rem);
            root.lemma_enumerates_subtree(Seq::<Seq<char>>::empty());
            assert(root.subtree(Seq::<Seq<char>>::empty()) == Some(root));
            root.lemma_entries();
            let ks = es.map_values(|e: (KeyPath, T)| Seq::<Seq<char>>::empty() + e.0);
            let vals = rem.map_values(|e: (Seq<char>, T)| e.1);
            assert(vals =~= root.values());
            assert forall|k: int| 0 <= k < ks.len() implies ks[k] == es[k].0 by {
                assert(Seq::<Seq<char>>::empty() + es[k].0 =~= es[k].0);
            }
            assert forall|k: int| 0 <= k < ks.len() implies {
                &&& #[trigger] self@.contains_key(ks[k])
                &&& has_prefix(ks[k], Seq::<Seq<char>>::empty())
                &&& self@[ks[k]] == vals[k]
            } by {
                assert(root.lookup(es[k].0) == Some(es[k].1));
                assert(ks[k].take(0) =~= Seq::<Seq<char>>::empty());
            }
            assert forall|p: KeyPath| #[trigger] self@.contains_key(p) && has_prefix(p, Seq::<Seq<char>>::empty())
                implies exists|k: int| 0 <= k < ks.len() && ks[k] == p by {
                let k = choose|k: int| 0 <= k < es.len() && es[k].0 == p;
                assert(ks[k] == es[k].0);
            }
            assert(enumerates_with(self@, Seq::<Seq<char>>::empty(), vals, ks));
            assert forall|i: int| 0 <= i < ks.len() implies #[trigger] rem[i].0 == iter_key(ks[i]) by {
                assert(ks[i] == es[i].0);
            }
            assert(vals == it.remaining_values());
            assert forall|a: int, b: int|
                0 <= a < ks.len() && 0 <= b < ks.len() && a != b && has_prefix(#[trigger] ks[b], #[trigger] ks[a])
                implies a < b by {
                assert(ks[a] == es[a].0 && ks[b] == es[b].0);
            }
            assert(enumerates_with(self@, Seq::<Seq<char>>::empty(), it.remaining_values(), ks)
                && (forall|i: int| 0 <= i < ks.len() ==> #[trigger] it.remaining()[i].0 == iter_key(ks[i]))
                && forall|a: int, b: int|
                0 <= a < ks.len() && 0 <= b < ks.len() && a != b && has_prefix(#[trigger] ks[b], #[trigger] ks[a])
                    ==> a < b);
        }
        it
    }


    /// The value stored at exactly the segments `parts[..len]`; no segment
    /// is read as a wildcard.
    pub fn lookup_parts(&self, parts: &Vec<String>, len: usize) -> (r: Option<&T>)
        requires
            len <= parts@.len(),
        ensures
            match r {
                Some(v) => self@.contains_key(parts@.map_values(|s: String| s@).take(len as int))
                    && *v == self@[parts@.map_values(|s: String| s@).take(len as int)],
                None => !self@.contains_key(parts@.map_values(|s: String| s@).take(len as int)),
            },
    {
        proof {
            use_type_invariant(self);
        }
        let ghost pv = parts@.map_values(|s: String| s@);
        let ghost root = self.root;
        let mut node: &TrieNode<T> = &self.root;
        let mut i: usize = 0;
        assert(pv.take(0) =~= Seq::<Seq<char>>::empty());
        while i < len
            invariant
                root == self.root,
                root.wf(),
                pv == parts@.map_values(|s: String| s@),
                len <= pv.len(),
                i <= len,
                node.wf(),
                root.subtree(pv.take(i as int)) == Some(*node),
            decreases len - i,
        {
            assert(parts@[i as int]@ == pv[i as int]);
            proof {
                root.lemma_subtree_push(pv.take(i as int), pv[i as int]);
                assert(pv.take(i as int).push(pv[i as int]) =~= pv.take(i + 1));
            }
            match TrieNode::find_child(&node.children, &parts[i]) {
                Some(k) => {
                    assert(node.children@[k as int].1.wf());
                    node = &node.children[k].1;
                },
                None => {
                    proof {
                        root.lemma_nothing_under(pv.take(i + 1));
                        assert(pv.take(len as int).take(i + 1) =~= pv.take(i + 1));
                        assert(has_prefix(pv.take(len as int), pv.take(i + 1)));
                    }
                    return None;
                },
            }
            i = i + 1;
        }
        proof {
            root.lemma_subtree_lookup(pv.take(len as int), Seq::<Seq<char>>::empty());
            assert(pv.take(len as int) + Seq::<Seq<char>>::empty() =~= pv.take(len as int));
        }
        match &node.value {
            Some(v) => Some(v),
            None => None,
        }
    }

    /// Every value stored at or below `node`, in walk order.
    fn collect_values<'a>(&'a self, node: &'a TrieNode<T>) -> (r: Vec<&'a T>)
        ensures
            r@.map_values(|x: &T| *x) == node.values(),
    {
        let mut result: Vec<&'a T> = Vec::new();
        TrieNode::collect_into(node, &mut result);
        assert(Seq::<&T>::empty().map_values(|x: &T| *x) + node.values() =~= node.values());
        result
    }

    /// The values matching `prefix`: with a `*` segment, every value stored
    /// under the segments before it; otherwise the value stored at exactly
    /// that key (see `get_answer`).
    pub fn get(&self, prefix: &str) -> (r: Vec<&T>)
        ensures
            get_answer(self@, prefix@, r@.map_values(|x: &T| *x)),
    {
        proof {
            use_type_invariant(self);
        }
        let parts = split_char(prefix, '.');
        let ghost pv = key_path(prefix@);
        let ghost root = self.root;
        proof {
            lemma_star_index(pv);
        }
        let mut node: &TrieNode<T> = &self.root;
        let mut i: usize = 0;
        assert(pv.take(0) =~= Seq::<Seq<char>>::empty());
        while i < parts.len()
            invariant
                root == self.root,
                root.wf(),
                pv == key_path(prefix@),
                parts@.map_values(|s: String| s@) == pv,
                -1 <= star_index(pv) < pv.len(),
                star_index(pv) >= 0 ==> pv[star_index(pv)] == seq!['*'],
                forall|j: int| 0 <= j < pv.len() && (star_index(pv) < 0 || j < star_index(pv))
                    ==> #[trigger] pv[j] != seq!['*'],
                i <= pv.len(),
                node.wf(),
                root.subtree(pv.take(i as int)) == Some(*node),
                forall|j: int| 0 <= j < i ==> #[trigger] pv[j] != seq!['*'],
            decreases pv.len() - i,
        {
            assert(parts@[i as int]@ == pv[i as int]);
            if is_single_char(&parts[i], '*') {
                let r = self.collect_values(node);
                proof {
                    assert(star_index(pv) == i);
                    root.lemma_enumerates_subtree(pv.take(i as int));
                    assert(self@ == root.view_map());
                    assert(enumerates_under(root.view_map(), pv.take(i as int), node.values()));
                    assert(key_path(prefix@) == pv);
                    assert(pv.take(star_index(pv)) == pv.take(i as int));
                    assert(get_answer(root.view_map(), prefix@, node.values()));
                }
                return r;
            }
            proof {
                root.lemma_subtree_push(pv.take(i as int), pv[i as int]);
                assert(pv.take(i as int).push(pv[i as int]) =~= pv.take(i + 1));
            }
            match TrieNode::find_child(&node.children, &parts[i]) {
                Some(k) => {
                    assert(node.children@[k as int].1.wf());
                    node = &node.children[k].1;
                },
                None => {
                    proof {
                        root.lemma_nothing_under(pv.take(i + 1));
                        let ghost empty = Seq::<T>::empty();
                        let q = if star_index(pv) >= 0 {
                            pv.take(star_index(pv))
                        } else {
                            pv
                        };
                        assert(has_prefix(q, pv.take(i + 1))) by {
                            assert(q.take(i + 1) =~= pv.take(i + 1));
                        }
                        let ks = Seq::<KeyPath>::empty();
                        assert forall|p: KeyPath| #[trigger] root.view_map().contains_key(p) && has_prefix(p, q)
                            implies exists|k: int| 0 <= k < ks.len() && ks[k] == p by {
                            assert(p.take(i + 1) =~= q.take(i + 1));
                            assert(root.lookup(p) is None);
                        }
                        assert(enumerates_with(root.view_map(), q, empty, ks));
                        assert(pv.take(pv.len() as int) =~= pv);
                        assert(has_prefix(pv, pv.take(i + 1)));
                        assert(root.lookup(pv) is None);
                        assert(!root.view_map().contains_key(pv));
                    }
                    let r: Vec<&T> = Vec::new();
                    assert(r@.map_values(|x: &T| *x) =~= Seq::<T>::empty());
                    return r;
                },
            }
            i = i + 1;
        }
        assert(pv.take(pv.len() as int) =~= pv);
        if Self::has_wildcard(prefix) {
            let r = self.collect_values(node);
            proof {
                root.lemma_enumerates_subtree(pv);
            }
            r
        } else {
            proof {
                root.lemma_subtree_lookup(pv, Seq::<Seq<char>>::empty());
                assert(pv + Seq::<Seq<char>>::empty() =~= pv);
            }
            let mut r: Vec<&T> = Vec::new();
            match &node.value {
                Some(v) => {
                    r.push(v);
                    assert(r@.map_values(|x: &T| *x) =~= seq![root.view_map()[pv]]);
                },
                None => {
                    assert(r@.map_values(|x: &T| *x) =~= Seq::<T>::empty());
                },
            }
            r
        }
    }

    /// The values matching `prefix`, each with its key text (see
    /// `items_answer`): the read `get` makes, with the keys kept.
    pub fn get_items(&self, prefix: &str) -> (r: Vec<(String, &T)>)
        ensures
            items_answer(self@, prefix@, r@.map_values(|e: (String, &T)| (e.0@, *e.1))),
    {
        proof {
            use_type_invariant(self);
        }
        let parts = split_char(prefix, '.');
        let ghost pv = key_path(prefix@);
        let ghost root = self.root;
        proof {
            lemma_star_index(pv);
        }
        let mut node: &TrieNode<T> = &self.root;
        let mut path = String::new();
        let mut i: usize = 0;
        assert(pv.take(0) =~= Seq::<Seq<char>>::empty());
        while i < parts.len()
            invariant
                root == self.root,
                root.wf(),
                self@ == root.view_map(),
                pv == key_path(prefix@),
                parts@.map_values(|s: String| s@) == pv,
                -1 <= star_index(pv) < pv.len(),
                star_index(pv) >= 0 ==> pv[star_index(pv)] == seq!['*'],
                forall|j: int| 0 <= j < pv.len() && (star_index(pv) < 0 || j < star_index(pv))
                    ==> #[trigger] pv[j] != seq!['*'],
                i <= pv.len(),
                node.wf(),
                root.subtree(pv.take(i as int)) == Some(*node),
                path@ == iter_key(pv.take(i as int)),
                forall|j: int| 0 <= j < i ==> #[trigger] pv[j] != seq!['*'],
            decreases pv.len() - i,
        {
            assert(parts@[i as int]@ == pv[i as int]);
            if is_single_char(&parts[i], '*') {
                let mut out: Vec<(String, &T)> = Vec::new();
                TrieNode::collect_items(node, path, &mut out);
                proof {
                    assert(star_index(pv) == i);
                    assert(pv.take(star_index(pv)) == pv.take(i as int));
                    assert(Seq::<(String, &T)>::empty().map_values(|e: (String, &T)| (e.0@, *e.1)) + node.entries().map_values(
                        |e: (KeyPath, T)| (extend_key(path@, e.0), e.1)) =~= node.entries().map_values(
                        |e: (KeyPath, T)| (extend_key(path@, e.0), e.1)));
                    lemma_collected_items(root, pv.take(i as int), *node, path@, out@.map_values(
                        |e: (String, &T)| (e.0@, *e.1),
                    ));
                }
                return out;
            }
            proof {
                root.lemma_subtree_push(pv.take(i as int), pv[i as int]);
                assert(pv.take(i as int).push(pv[i as int]) =~= pv.take(i + 1));
                lemma_extend_key_append(Seq::<char>::empty(), pv.take(i as int), seq![pv[i as int]]);
                assert(pv.take(i as int) + seq![pv[i as int]] =~= pv.take(i + 1));
                assert(extend_key(iter_key(pv.take(i as int)), seq![pv[i as int]]) == extend_key(
                    step_key(iter_key(pv.take(i as int)), pv[i as int]),
                    seq![pv[i as int]].drop_first(),
                ));
                assert(seq![pv[i as int]].drop_first() =~= Seq::<Seq<char>>::empty());
            }
            match TrieNode::find_child(&node.children, &parts[i]) {
                Some(k) => {
                    assert(node.children@[k as int].1.wf());
                    path = TrieNode::<T>::step_key_exec(&path, &parts[i]);
                    node = &node.children[k].1;
                },
                None => {
                    proof {
                        root.lemma_nothing_under(pv.take(i + 1));
                        let q = if star_index(pv) >= 0 {
                            pv.take(star_index(pv))
                        } else {
                            pv
                        };
                        assert(has_prefix(q, pv.take(i + 1))) by {
                            assert(q.take(i + 1) =~= pv.take(i + 1));
                        }
                        let ks = Seq::<KeyPath>::empty();
                        assert forall|p: KeyPath| #[trigger] root.view_map().contains_key(p) && has_prefix(p, q)
                            implies exists|k: int| 0 <= k < ks.len() && ks[k] == p by {
                            assert(p.take(i + 1) =~= q.take(i + 1));
                            assert(root.lookup(p) is None);
                        }
                        assert(enumerates_with(root.view_map(), q, Seq::<T>::empty(), ks));
                        assert(pv.take(pv.len() as int) =~= pv);
                        assert(has_prefix(pv, pv.take(i + 1)));
                        assert(root.lookup(pv) is None);
                        assert(!root.view_map().contains_key(pv));
                    }
                    let r: Vec<(String, &T)> = Vec::new();
                    assert(r@.map_values(|e: (String, &T)| (e.0@, *e.1)) =~= Seq::<(Seq<char>, T)>::empty());
                    assert(Seq::<(Seq<char>, T)>::empty().map_values(|e: (Seq<char>, T)| e.1) =~= Seq::<T>::empty());
                    return r;
                },
            }
            i = i + 1;
        }
        assert(pv.take(pv.len() as int) =~= pv);
        if Self::has_wildcard(prefix) {
            let mut out: Vec<(String, &T)> = Vec::new();
            TrieNode::collect_items(node, path, &mut out);
            proof {
                assert(Seq::<(String, &T)>::empty().map_values(|e: (String, &T)| (e.0@, *e.1)) + node.entries().map_values(
                    |e: (KeyPath, T)| (extend_key(path@, e.0), e.1)) =~= node.entries().map_values(
                    |e: (KeyPath, T)| (extend_key(path@, e.0), e.1)));
                lemma_collected_items(root, pv, *node, path@, out@.map_values(|e: (String, &T)| (e.0@, *e.1)));
            }
            out
        } else {
            proof {
                root.lemma_subtree_lookup(pv, Seq::<Seq<char>>::empty());
                assert(pv + Seq::<Seq<char>>::empty() =~= pv);
            }
            let mut r: Vec<(String, &T)> = Vec::new();
            match &node.value {
                Some(v) => {
                    r.push((prefix.to_owned(), v));
                    assert(r@.map_values(|e: (String, &T)| (e.0@, *e.1)) =~= seq![(prefix@, root.view_map()[pv])]);
                },
                None => {
                    assert(r@.map_values(|e: (String, &T)| (e.0@, *e.1)) =~= Seq::<(Seq<char>, T)>::empty());
                },
            }
            r
        }
    }

    /// Stores `value` under `key`. A key holding `*` is refused and leaves
    /// the trie unchanged.
    pub fn insert(&mut self, key: &str, value: T) -> (r: Option<TrieError>)
        ensures
            key@.contains('*') ==> r == Some(TrieError::KeyContainsWildcard) && final(self)@
                == old(self)@ && final(self).root_node() == old(self).root_node(),
            !key@.contains('*') ==> r is None && final(self)@ == old(self)@.insert(
                key_path(key@),
                value,
            ),
    {
        proof {
            use_type_invariant(&*self);
        }
        if Self::has_wildcard(key) {
            return Some(TrieError::KeyContainsWildcard);
        }
        let parts = split_char(key, '.');
        let ghost path = key_path(key@);
        proof {
            lemma_split_pieces(key@, '.');
            crate::text::lemma_split_spec_nonempty(key@, '.');
            assert(parts@.map_values(|s: String| s@).skip(0) == path);
            assert(plain_path(path)) by {
                assert forall|i: int| 0 <= i < path.len() implies #[trigger] plain_segment(path[i]) by {
                    if path[i].contains('*') {
                        assert(key@.contains('*'));
                    }
                }
            }
        }
        let mut root = TrieNode::new();
        std::mem::swap(&mut root, &mut self.root);
        let ghost before = root;
        TrieNode::insert_path(&mut root, &parts, 0, value);
        proof {
            assert forall|p: KeyPath| #[trigger] root.lookup(p) is Some implies plain_path(p) by {
                if p != path {
                    assert(before.lookup(p) is Some);
                }
            }
        }
        self.root = root;
        assert(self@ =~= old(self)@.insert(path, value));
        None
    }

    /// Clears the value stored under `key`, dropping the segments that no
    /// longer lead to any value. Returns whether the trie is now empty.
    pub fn remove(&mut self, key: &str) -> (r: bool)
        ensures
            final(self)@ == old(self)@.remove(key_path(key@)),
            r == (final(self)@ == Map::<KeyPath, T>::empty()),
    {
        proof {
            use_type_invariant(&*self);
        }
        let parts = split_char(key, '.');
        let ghost path = key_path(key@);
        assert(parts@.map_values(|s: String| s@).skip(0) == path);
        let mut root = TrieNode::new();
        std::mem::swap(&mut root, &mut self.root);
        let ghost before = root;
        let r = TrieNode::delete_recursive(&mut root, &parts, 0);
        proof {
            assert forall|p: KeyPath| #[trigger] root.lookup(p) is Some implies plain_path(p) by {
                assert(before.lookup(p) is Some);
            }
            if r {
                root.lemma_bare_empty();
            } else {
                root.lemma_not_bare_occupied();
                let q = choose|q: KeyPath| #[trigger] root.lookup(q) is Some;
                assert(root.view_map().dom().contains(q));
            }
        }
        self.root = root;
        assert(self@ =~= old(self)@.remove(path));
        r
    }
}

} // verus!
