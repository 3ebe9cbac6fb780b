//! The trie itself: a root node, viewed abstractly as a map from byte
//! sequences to values, together with batch construction, point insert,
//! point lookup, ordered collection, and the derived queries.

use crate::node::collect_into;
use crate::node::entries_view;
use crate::node::lemma_descend_get;
use crate::node::lemma_empty_node_get;
use crate::node::lemma_node_entries_complete;
use crate::node::lemma_node_entries_sorted;
use crate::node::lemma_node_entries_sound;
use crate::node::node_descend_to;
use crate::node::node_count;
use crate::node::node_entries;
use crate::node::node_get;
use crate::node::node_insert;
use crate::node::node_lookup;
use crate::node::node_wf;
use crate::node::TrieNode;
use crate::order::is_prefix_of;
use crate::order::lemma_lex_irreflexive;
use crate::order::lex_lt;
use vstd::prelude::*;

verus! {

/// The views of a batch of byte-vector keys.
pub open spec fn key_views(items: Seq<Vec<u8>>) -> Seq<Seq<u8>> {
    Seq::new(items.len(), |i: int| items[i]@)
}

/// A byte-indexed branching trie mapping byte-sequence keys to values.
pub struct TrieHard {
    root: TrieNode,
}

impl View for TrieHard {
    type V = Map<Seq<u8>, Seq<u8>>;

    /// The trie as a map: a key is present iff a walk along its bytes
    /// reaches a node whose value is set.
    closed spec fn view(&self) -> Map<Seq<u8>, Seq<u8>> {
        Map::new(
            |k: Seq<u8>| node_get(self.root, k) is Some,
            |k: Seq<u8>| node_get(self.root, k).unwrap(),
        )
    }
}

impl TrieHard {
    /// Structural invariant: every child list in the tree is in strictly
    /// ascending byte order. Constructors establish it; every method
    /// preserves it.
    pub closed spec fn wf(&self) -> bool {
        node_wf(self.root)
    }

    /// The trie's entries in traversal order: depth-first and pre-order,
    /// children in ascending byte order.
    pub closed spec fn entries(&self) -> Seq<(Seq<u8>, Seq<u8>)> {
        node_entries(self.root, Seq::empty())
    }

    /// The number of nodes the trie owns, the root included.
    pub closed spec fn node_total(&self) -> nat {
        node_count(self.root)
    }

    /// The entry sequence is strictly sorted by key, every entry is a
    /// stored binding, and every stored binding appears: `entries` is
    /// exactly the trie's map, laid out in increasing key order.
    pub proof fn lemma_entries(&self)
        requires
            self.wf(),
        ensures
            forall|x: int, y: int|
                0 <= x < y < self.entries().len() ==> lex_lt(
                    self.entries()[x].0,
                    self.entries()[y].0,
                ),
            forall|x: int|
                0 <= x < self.entries().len() ==> self@.contains_pair(
                    (#[trigger] self.entries()[x]).0,
                    self.entries()[x].1,
                ),
            forall|k: Seq<u8>|
                #[trigger] self@.contains_key(k) ==> exists|x: int|
                    0 <= x < self.entries().len() && self.entries()[x] == (k, self@[k]),
    {
        let es = self.entries();
        lemma_node_entries_sorted(self.root, Seq::empty());
        assert forall|x: int| 0 <= x < es.len() implies self@.contains_pair(
            (#[trigger] es[x]).0,
            es[x].1,
        ) by {
            lemma_node_entries_sound(self.root, Seq::empty(), x);
            assert(es[x].0.skip(0) =~= es[x].0);
        }
        assert forall|k: Seq<u8>| #[trigger] self@.contains_key(k) implies exists|x: int|
            0 <= x < es.len() && es[x] == (k, self@[k]) by {
            lemma_node_entries_complete(self.root, Seq::empty(), k);
            assert(Seq::<u8>::empty() + k =~= k);
            let t = (k, self@[k]);
            assert(es.contains(t));
        }
    }

    /// Build a trie from a batch of keys, each key serving as its own
    /// value. Duplicates overwrite earlier occurrences; insertion order
    /// does not affect the result. An empty batch yields an empty trie.
    pub fn new(items: Vec<Vec<u8>>) -> (t: Self)
        ensures
            t.wf(),
            forall|k: Seq<u8>| #[trigger] t@.contains_key(k) <==> key_views(items@).contains(k),
            forall|k: Seq<u8>| #[trigger] t@.contains_key(k) ==> t@[k] == k,
    {
        let mut t = TrieHard { root: TrieNode { children: Vec::new(), value: None } };
        proof {
            assert forall|k: Seq<u8>| !(#[trigger] t@.contains_key(k)) by {
                lemma_empty_node_get(t.root, k);
            }
        }
        let mut j: usize = 0;
        while j < items.len()
            invariant
                t.wf(),
                j <= items@.len(),
                forall|k: Seq<u8>|
                    #[trigger] t@.contains_key(k) <==> key_views(items@.take(j as int)).contains(k),
                forall|k: Seq<u8>| #[trigger] t@.contains_key(k) ==> t@[k] == k,
            decreases items@.len() - j,
        {
            let key = vstd::slice::slice_to_vec(items[j].as_slice());
            t.insert(items[j].as_slice(), key);
            proof {
                let kv = key_views(items@.take(j as int));
                let kv1 = key_views(items@.take(j as int + 1));
                assert(kv1 =~= kv.push(items@[j as int]@));
                assert forall|k: Seq<u8>| #[trigger] t@.contains_key(k) <==> kv1.contains(k) by {
                    if t@.contains_key(k) {
                        if k == items@[j as int]@ {
                            assert(kv1[kv.len() as int] == k);
                        } else {
                            let i = choose|i: int| 0 <= i < kv.len() && kv[i] == k;
                            assert(kv1[i] == k);
                        }
                    }
                    if kv1.contains(k) {
                        let i = choose|i: int| 0 <= i < kv1.len() && kv1[i] == k;
                        if i < kv.len() {
                            assert(kv[i] == k);
                        }
                    }
                }
            }
            j += 1;
        }
        proof {
            assert(items@.take(items@.len() as int) =~= items@);
        }
        t
    }

    /// Set `key`'s value to `value`, creating the key's path as needed:
    /// an idempotent overwrite, never an accumulation. No node is ever
    /// discarded, and at most `key`'s length of new nodes are created.
    pub fn insert(&mut self, key: &[u8], value: Vec<u8>)
        requires
            old(self).wf(),
        ensures
            final(self).wf(),
            final(self)@ == old(self)@.insert(key@, value@),
            old(self).node_total() <= final(self).node_total(),
            final(self).node_total() <= old(self).node_total() + key@.len(),
    {
        node_insert(&mut self.root, key, 0, value);
        proof {
            assert(key@.skip(0) =~= key@);
            assert(self@ =~= old(self)@.insert(key@, value@));
        }
    }

    /// Remove `key`: clear its value to the empty tombstone value. The key
    /// stays present (reported with the empty value), and no node is
    /// discarded.
    pub fn remove(&mut self, key: &[u8])
        requires
            old(self).wf(),
        ensures
            final(self).wf(),
            final(self)@ == old(self)@.insert(key@, Seq::<u8>::empty()),
            old(self).node_total() <= final(self).node_total(),
            final(self).node_total() <= old(self).node_total() + key@.len(),
    {
        self.insert(key, Vec::new());
    }

    /// Look up `key`: `None` when some byte has no child or the terminal
    /// node's value is unset; otherwise the value, including the empty
    /// value a removal leaves behind.
    pub fn get(&self, key: &[u8]) -> (r: Option<&Vec<u8>>)
        requires
            self.wf(),
        ensures
            match r {
                Some(v) => self@.contains_key(key@) && self@[key@] == v@,
                None => !self@.contains_key(key@),
            },
    {
        proof {
            assert(key@.skip(0) =~= key@);
        }
        node_lookup(&self.root, key, 0)
    }

    /// Whether `key` is present: a removed key still is, with the empty
    /// value.
    pub fn contains(&self, key: &[u8]) -> (r: bool)
        requires
            self.wf(),
        ensures
            r == self@.contains_key(key@),
    {
        self.get(key).is_some()
    }

    /// All entries, in strictly increasing byte-lexicographic key order:
    /// exactly the trie's map, a shorter key before any key extending it.
    pub fn collect_items(&self) -> (r: Vec<(Vec<u8>, Vec<u8>)>)
        requires
            self.wf(),
        ensures
            entries_view(r@) == self.entries(),
            forall|x: int, y: int| 0 <= x < y < r@.len() ==> lex_lt(r@[x].0@, r@[y].0@),
            forall|x: int|
                0 <= x < r@.len() ==> self@.contains_pair((#[trigger] r@[x]).0@, r@[x].1@),
            forall|k: Seq<u8>|
                #[trigger] self@.contains_key(k) ==> exists|x: int|
                    0 <= x < r@.len() && (#[trigger] r@[x]).0@ == k && r@[x].1@ == self@[k],
    {
        let path: Vec<u8> = Vec::new();
        let mut out: Vec<(Vec<u8>, Vec<u8>)> = Vec::new();
        collect_into(&self.root, &path, &mut out);
        proof {
            assert(entries_view(out@) =~= self.entries());
            self.lemma_entries();
            assert forall|x: int| 0 <= x < out@.len() implies self.entries()[x] == (
                (#[trigger] out@[x]).0@,
                out@[x].1@,
            ) by {
                assert(entries_view(out@)[x] == (out@[x].0@, out@[x].1@));
            }
            assert forall|x: int, y: int| 0 <= x < y < out@.len() implies lex_lt(
                out@[x].0@,
                out@[y].0@,
            ) by {
                assert(self.entries()[x] == (out@[x].0@, out@[x].1@));
                assert(self.entries()[y] == (out@[y].0@, out@[y].1@));
            }
            assert forall|k: Seq<u8>| #[trigger] self@.contains_key(k) implies exists|x: int|
                0 <= x < out@.len() && (#[trigger] out@[x]).0@ == k && out@[x].1@ == self@[k] by {
                let x = choose|x: int|
                    0 <= x < self.entries().len() && self.entries()[x] == (k, self@[k]);
                assert(out@[x].0@ == k && out@[x].1@ == self@[k]);
            }
        }
        out
    }

    /// All entries whose key extends `prefix`, in the same order as full
    /// collection. A prefix that is no path in the tree yields nothing.
    pub fn collect_prefix_items(&self, prefix: &[u8]) -> (r: Vec<(Vec<u8>, Vec<u8>)>)
        requires
            self.wf(),
        ensures
            forall|x: int, y: int| 0 <= x < y < r@.len() ==> lex_lt(r@[x].0@, r@[y].0@),
            forall|x: int|
                0 <= x < r@.len() ==> self@.contains_pair((#[trigger] r@[x]).0@, r@[x].1@)
                    && is_prefix_of(prefix@, r@[x].0@),
            forall|k: Seq<u8>|
                self@.contains_key(k) && #[trigger] is_prefix_of(prefix@, k) ==> exists|x: int|
                    0 <= x < r@.len() && (#[trigger] r@[x]).0@ == k && r@[x].1@ == self@[k],
    {
        proof {
            assert(prefix@.skip(0) =~= prefix@);
        }
        let target = node_descend_to(&self.root, prefix, 0);
        match target {
            None => {
                proof {
                    assert forall|k: Seq<u8>|
                        !(self@.contains_key(k) && #[trigger] is_prefix_of(prefix@, k)) by {
                        if self@.contains_key(k) && is_prefix_of(prefix@, k) {
                            lemma_descend_get(self.root, prefix@, k.skip(prefix@.len() as int));
                            assert(prefix@ + k.skip(prefix@.len() as int) =~= k);
                        }
                    }
                }
                Vec::new()
            },
            Some(m) => {
                let path = vstd::slice::slice_to_vec(prefix);
                let mut out: Vec<(Vec<u8>, Vec<u8>)> = Vec::new();
                collect_into(m, &path, &mut out);
                proof {
                    let plen = prefix@.len() as int;
                    let es = node_entries(*m, prefix@);
                    assert(entries_view(out@) =~= es);
                    lemma_node_entries_sorted(*m, prefix@);
                    assert forall|x: int| 0 <= x < out@.len() implies es[x] == (
                        (#[trigger] out@[x]).0@,
                        out@[x].1@,
                    ) by {
                        assert(entries_view(out@)[x] == (out@[x].0@, out@[x].1@));
                    }
                    assert forall|x: int, y: int| 0 <= x < y < out@.len() implies lex_lt(
                        out@[x].0@,
                        out@[y].0@,
                    ) by {
                        assert(es[x] == (out@[x].0@, out@[x].1@));
                        assert(es[y] == (out@[y].0@, out@[y].1@));
                    }
                    assert forall|x: int| 0 <= x < out@.len() implies self@.contains_pair(
                        (#[trigger] out@[x]).0@,
                        out@[x].1@,
                    ) && is_prefix_of(prefix@, out@[x].0@) by {
                        lemma_node_entries_sound(*m, prefix@, x);
                        let t = es[x];
                        lemma_descend_get(self.root, prefix@, t.0.skip(plen));
                        assert(prefix@ + t.0.skip(plen) =~= t.0);
                    }
                    assert forall|k: Seq<u8>|
                        self@.contains_key(k) && #[trigger] is_prefix_of(
                            prefix@,
                            k,
                        ) implies exists|x: int|
                        0 <= x < out@.len() && (#[trigger] out@[x]).0@ == k && out@[x].1@
                            == self@[k] by {
                        lemma_descend_get(self.root, prefix@, k.skip(plen));
                        assert(prefix@ + k.skip(plen) =~= k);
                        lemma_node_entries_complete(*m, prefix@, k.skip(plen));
                        let t = (k, self@[k]);
                        assert(es.contains(t));
                        let x = choose|x: int| 0 <= x < es.len() && es[x] == t;
                        assert(out@[x].0@ == k && out@[x].1@ == self@[k]);
                    }
                }
                out
            },
        }
    }

    /// The number of keys present, tombstoned keys included. Computed by a
    /// full traversal; no count field is maintained.
    pub fn len(&self) -> (r: usize)
        requires
            self.wf(),
        ensures
            r == self.entries().len(),
            self@.dom().finite(),
            r == self@.dom().len(),
    {
        let items = self.collect_items();
        proof {
            broadcast use vstd::seq_lib::seq_to_set_is_finite;

            let es = self.entries();
            let ks = Seq::new(es.len(), |x: int| es[x].0);
            self.lemma_entries();
            assert forall|x: int, y: int| 0 <= x < y < ks.len() implies ks[x] != ks[y] by {
                lemma_lex_irreflexive(es[x].0);
            }
            assert(ks.no_duplicates());
            assert forall|k: Seq<u8>| #[trigger] self@.dom().contains(k) implies ks.to_set()
                .contains(k) by {
                let x = choose|x: int| 0 <= x < es.len() && es[x] == (k, self@[k]);
                assert(ks[x] == k);
            }
            assert forall|k: Seq<u8>| #[trigger] ks.to_set().contains(k) implies self@.dom()
                .contains(k) by {
                let x = choose|x: int| 0 <= x < ks.len() && ks[x] == k;
                assert(self@.contains_pair(es[x].0, es[x].1));
            }
            assert(self@.dom() =~= ks.to_set());
            ks.unique_seq_to_set();
        }
        items.len()
    }

    /// Whether the trie holds no keys at all.
    pub fn is_empty(&self) -> (r: bool)
        requires
            self.wf(),
        ensures
            r <==> self@ == Map::<Seq<u8>, Seq<u8>>::empty(),
    {
        let n = self.len();
        proof {
            self.lemma_entries();
            if n == 0 {
                assert forall|k: Seq<u8>| !(#[trigger] self@.contains_key(k)) by {
                    if self@.contains_key(k) {
                        let x = choose|x: int|
                            0 <= x < self.entries().len() && self.entries()[x] == (k, self@[k]);
                    }
                }
                assert(self@ =~= Map::<Seq<u8>, Seq<u8>>::empty());
            } else {
                assert(self@.contains_pair(self.entries()[0].0, self.entries()[0].1));
            }
        }
        n == 0
    }

    /// Reset to a single empty root, discarding every node: afterwards the
    /// trie holds nothing.
    pub fn clear(&mut self)
        ensures
            final(self).wf(),
            final(self)@ == Map::<Seq<u8>, Seq<u8>>::empty(),
            final(self).node_total() == 1,
    {
        self.root = TrieNode { children: Vec::new(), value: None };
        proof {
            assert forall|k: Seq<u8>| !(#[trigger] self@.contains_key(k)) by {
                lemma_empty_node_get(self.root, k);
            }
            assert(self@ =~= Map::<Seq<u8>, Seq<u8>>::empty());
        }
    }

    /// The keys alone, in collection order.
    pub fn keys(&self) -> (r: Vec<Vec<u8>>)
        requires
            self.wf(),
        ensures
            r@.len() == self.entries().len(),
            forall|x: int| 0 <= x < r@.len() ==> (#[trigger] r@[x])@ == self.entries()[x].0,
    {
        let items = self.collect_items();
        let mut out: Vec<Vec<u8>> = Vec::new();
        let mut j: usize = 0;
        while j < items.len()
            invariant
                j <= items@.len(),
                entries_view(items@) == self.entries(),
                out@.len() == j,
                forall|x: int| 0 <= x < j ==> (#[trigger] out@[x])@ == self.entries()[x].0,
            decreases items@.len() - j,
        {
            out.push(vstd::slice::slice_to_vec(items[j].0.as_slice()));
            j += 1;
        }
        out
    }

    /// The values alone, in key order.
    pub fn values(&self) -> (r: Vec<Vec<u8>>)
        requires
            self.wf(),
        ensures
            r@.len() == self.entries().len(),
            forall|x: int| 0 <= x < r@.len() ==> (#[trigger] r@[x])@ == self.entries()[x].1,
    {
        let items = self.collect_items();
        let mut out: Vec<Vec<u8>> = Vec::new();
        let mut j: usize = 0;
        while j < items.len()
            invariant
                j <= items@.len(),
                entries_view(items@) == self.entries(),
                out@.len() == j,
                forall|x: int| 0 <= x < j ==> (#[trigger] out@[x])@ == self.entries()[x].1,
            decreases items@.len() - j,
        {
            out.push(vstd::slice::slice_to_vec(items[j].1.as_slice()));
            j += 1;
        }
        out
    }

    /// Whether any key extends `prefix` (tombstoned keys count).
    pub fn starts_with(&self, prefix: &[u8]) -> (r: bool)
        requires
            self.wf(),
        ensures
            r <==> exists|k: Seq<u8>| #[trigger] self@.contains_key(k) && is_prefix_of(prefix@, k),
    {
        let items = self.collect_prefix_items(prefix);
        let r = !items.is_empty();
        proof {
            if r {
                assert(self@.contains_key(items@[0].0@) && is_prefix_of(prefix@, items@[0].0@));
            }
        }
        r
    }

    /// Whether some key extending `prefix` has a live, non-tombstoned
    /// value: distinguishes "path exists" from "path exists with a
    /// non-empty value".
    pub fn prefix_contains(&self, prefix: &[u8]) -> (r: bool)
        requires
            self.wf(),
        ensures
            r <==> exists|k: Seq<u8>|
                #[trigger] self@.contains_key(k) && is_prefix_of(prefix@, k) && self@[k].len() > 0,
    {
        let items = self.collect_prefix_items(prefix);
        let mut j: usize = 0;
        while j < items.len()
            invariant
                j <= items@.len(),
                self.wf(),
                forall|x: int| 0 <= x < j ==> (#[trigger] items@[x]).1@.len() == 0,
                forall|x: int|
                    0 <= x < items@.len() ==> self@.contains_pair(
                        (#[trigger] items@[x]).0@,
                        items@[x].1@,
                    ) && is_prefix_of(prefix@, items@[x].0@),
                forall|k: Seq<u8>|
                    self@.contains_key(k) && #[trigger] is_prefix_of(prefix@, k) ==> exists|x: int|
                        0 <= x < items@.len() && (#[trigger] items@[x]).0@ == k && items@[x].1@
                            == self@[k],
            decreases items@.len() - j,
        {
            if items[j].1.len() > 0 {
                proof {
                    let k = items@[j as int].0@;
                    assert(self@.contains_key(k) && is_prefix_of(prefix@, k) && self@[k].len() > 0);
                }
                return true;
            }
            j += 1;
        }
        false
    }
}

/// After `insert(k, v)`, `k` maps to `v`; any other key's presence and
/// value are exactly as before, so the binding persists until another
/// insert targets `k`.
pub proof fn lemma_insert_get(m: Map<Seq<u8>, Seq<u8>>, k: Seq<u8>, v: Seq<u8>, other: Seq<u8>)
    ensures
        m.insert(k, v).contains_key(k) && m.insert(k, v)[k] == v,
        other != k ==> (m.insert(k, v).contains_key(other) <==> m.contains_key(other)),
        other != k && m.contains_key(other) ==> m.insert(k, v)[other] == m[other],
{
}

/// Inserting the same binding twice is the same as inserting it once, so
/// a repeated insert changes neither lookups nor the key count.
pub proof fn lemma_insert_idempotent(m: Map<Seq<u8>, Seq<u8>>, k: Seq<u8>, v: Seq<u8>)
    ensures
        m.insert(k, v).insert(k, v) == m.insert(k, v),
{
    assert(m.insert(k, v).insert(k, v) =~= m.insert(k, v));
}

/// A trie freshly built from a batch of pairwise distinct keys holds
/// exactly as many keys as the batch has.
pub proof fn lemma_new_key_count(t: TrieHard, items: Seq<Vec<u8>>)
    requires
        forall|k: Seq<u8>| #[trigger] t@.contains_key(k) <==> key_views(items).contains(k),
        key_views(items).no_duplicates(),
    ensures
        t@.dom().finite(),
        t@.dom().len() == items.len(),
{
    broadcast use vstd::seq_lib::seq_to_set_is_finite;

    let ks = key_views(items);
    assert(t@.dom() =~= ks.to_set());
    ks.unique_seq_to_set();
}

} // verus!
