//! The trie's node representation and its mathematical model: the value
//! found under a node for a given key suffix, and the ordered sequence of
//! entries a depth-first traversal of the node's subtree yields.

use crate::order::is_prefix_of;
use crate::order::lemma_lex_common_prefix;
use crate::order::lemma_lex_proper_prefix;
use crate::order::lemma_prefix_reflexive;
use crate::order::lemma_prefix_step;
use crate::order::lex_lt;
use vstd::prelude::*;

verus! {

broadcast use vstd::std_specs::vec::group_vec_axioms;

/// One position along a byte path. `children` maps bytes to child nodes,
/// at most one child per byte, kept in strictly ascending byte order;
/// `value` is present iff some inserted key terminates exactly here.
pub(crate) struct TrieNode {
    pub(crate) children: Vec<(u8, TrieNode)>,
    pub(crate) value: Option<Vec<u8>>,
}

/// The child list is in strictly ascending byte order (so bytes are unique).
pub(crate) open spec fn children_sorted(cs: Seq<(u8, TrieNode)>) -> bool {
    forall|i: int, j: int|
        0 <= i < j < cs.len() ==> (#[trigger] cs[i]).0 < (#[trigger] cs[j]).0
}

/// Every child list in the subtree is sorted.
pub(crate) open spec fn node_wf(n: TrieNode) -> bool
    decreases n,
{
    &&& children_sorted(n.children@)
    &&& forall|i: int|
        0 <= i < n.children@.len() ==> node_wf(#[trigger] n.children@[i].1)
}

/// The child reached from `cs` over byte `b`: the first entry for `b`,
/// if any (in a sorted list there is at most one).
pub(crate) open spec fn find_node(cs: Seq<(u8, TrieNode)>, b: u8) -> Option<TrieNode>
    decreases cs.len(),
{
    if cs.len() == 0 {
        None
    } else if cs[0].0 == b {
        Some(cs[0].1)
    } else {
        find_node(cs.drop_first(), b)
    }
}

/// The value stored under `n` for the key suffix `key`: walk one byte at
/// a time; absent children or an unset terminal value mean absence.
pub(crate) open spec fn node_get(n: TrieNode, key: Seq<u8>) -> Option<Seq<u8>>
    decreases key.len(),
{
    if key.len() == 0 {
        match n.value {
            Some(v) => Some(v@),
            None => None,
        }
    } else {
        match find_node(n.children@, key[0]) {
            Some(c) => node_get(c, key.drop_first()),
            None => None,
        }
    }
}

/// The entry `n` itself contributes at path `path`: one pair if its value
/// is set, none otherwise.
pub(crate) open spec fn own_entry(n: TrieNode, path: Seq<u8>) -> Seq<(Seq<u8>, Seq<u8>)> {
    match n.value {
        Some(v) => seq![(path, v@)],
        None => Seq::empty(),
    }
}

/// The entries of a depth-first pre-order traversal of `n`'s subtree, with
/// `path` the byte path accumulated from the root to `n`: the node's own
/// entry first, then each child's entries in ascending byte order.
pub(crate) open spec fn node_entries(n: TrieNode, path: Seq<u8>) -> Seq<(Seq<u8>, Seq<u8>)>
    decreases n, 1int,
{
    own_entry(n, path) + children_entries(n.children@, path)
}

/// The entries of the subtrees of the children `cs`, front to back.
pub(crate) open spec fn children_entries(cs: Seq<(u8, TrieNode)>, path: Seq<u8>) -> Seq<
    (Seq<u8>, Seq<u8>),
>
    decreases cs, 0int,
{
    if cs.len() == 0 {
        Seq::empty()
    } else {
        node_entries(cs[0].1, path.push(cs[0].0)) + children_entries(cs.drop_first(), path)
    }
}

/// The number of nodes in `n`'s subtree, the node itself included.
pub(crate) open spec fn node_count(n: TrieNode) -> nat
    decreases n, 1int,
{
    1 + children_count(n.children@)
}

/// The number of nodes in the subtrees of the children `cs`.
pub(crate) open spec fn children_count(cs: Seq<(u8, TrieNode)>) -> nat
    decreases cs, 0int,
{
    if cs.len() == 0 {
        0
    } else {
        node_count(cs[0].1) + children_count(cs.drop_first())
    }
}

/// Replacing the child at `j` changes the count by the difference of the
/// two subtree counts.
pub(crate) proof fn lemma_children_count_update(cs: Seq<(u8, TrieNode)>, j: int, e: (u8, TrieNode))
    requires
        0 <= j < cs.len(),
    ensures
        children_count(cs.update(j, e)) + node_count(cs[j].1) == children_count(cs) + node_count(
            e.1,
        ),
    decreases cs.len(),
{
    if j == 0 {
        assert(cs.update(0, e)[0] == e);
        assert(cs.update(0, e).drop_first() =~= cs.drop_first());
    } else {
        assert(cs.update(j, e)[0] == cs[0]);
        assert(cs.update(j, e).drop_first() =~= cs.drop_first().update(j - 1, e));
        lemma_children_count_update(cs.drop_first(), j - 1, e);
    }
}

/// Inserting a child adds exactly its subtree's count.
pub(crate) proof fn lemma_children_count_insert(cs: Seq<(u8, TrieNode)>, j: int, e: (u8, TrieNode))
    requires
        0 <= j <= cs.len(),
    ensures
        children_count(cs.insert(j, e)) == children_count(cs) + node_count(e.1),
    decreases cs.len(),
{
    cs.insert_ensures(j, e);
    if j == 0 {
        assert(cs.insert(0, e)[0] == e);
        assert(cs.insert(0, e).drop_first() =~= cs);
    } else {
        assert(cs.insert(j, e)[0] == cs[0]);
        assert(cs.insert(j, e).drop_first() =~= cs.drop_first().insert(j - 1, e));
        cs.drop_first().insert_ensures(j - 1, e);
        lemma_children_count_insert(cs.drop_first(), j - 1, e);
    }
}

/// If `find_node` succeeds, some entry holds the byte and that child; if it
/// fails, no entry holds the byte.
pub(crate) proof fn lemma_find_node(cs: Seq<(u8, TrieNode)>, b: u8)
    ensures
        match find_node(cs, b) {
            Some(c) => exists|i: int| 0 <= i < cs.len() && cs[i].0 == b && cs[i].1 == c,
            None => forall|i: int| 0 <= i < cs.len() ==> (#[trigger] cs[i]).0 != b,
        },
    decreases cs.len(),
{
    if cs.len() == 0 {
    } else if cs[0].0 == b {
        assert(cs[0].0 == b && cs[0].1 == find_node(cs, b).unwrap());
    } else {
        lemma_find_node(cs.drop_first(), b);
        match find_node(cs.drop_first(), b) {
            Some(c) => {
                let i = choose|i: int|
                    0 <= i < cs.drop_first().len() && cs.drop_first()[i].0 == b
                        && cs.drop_first()[i].1 == c;
                assert(cs[i + 1].0 == b && cs[i + 1].1 == c);
            },
            None => {
                assert forall|i: int| 0 <= i < cs.len() implies (#[trigger] cs[i]).0 != b by {
                    if i > 0 {
                        assert(cs.drop_first()[i - 1] == cs[i]);
                    }
                }
            },
        }
    }
}

/// `find_node` returns the entry at `j` when no earlier entry holds `b`.
pub(crate) proof fn lemma_find_node_at(cs: Seq<(u8, TrieNode)>, b: u8, j: int)
    requires
        0 <= j < cs.len(),
        cs[j].0 == b,
        forall|i: int| 0 <= i < j ==> (#[trigger] cs[i]).0 != b,
    ensures
        find_node(cs, b) == Some(cs[j].1),
    decreases j,
{
    if j > 0 {
        assert forall|i: int| 0 <= i < j - 1 implies (#[trigger] cs.drop_first()[i]).0 != b by {
            assert(cs.drop_first()[i] == cs[i + 1]);
        }
        assert(cs.drop_first()[j - 1] == cs[j]);
        lemma_find_node_at(cs.drop_first(), b, j - 1);
    }
}

/// `find_node` fails when no entry holds `b`.
pub(crate) proof fn lemma_find_node_none(cs: Seq<(u8, TrieNode)>, b: u8)
    requires
        forall|i: int| 0 <= i < cs.len() ==> (#[trigger] cs[i]).0 != b,
    ensures
        find_node(cs, b) is None,
    decreases cs.len(),
{
    if cs.len() > 0 {
        assert forall|i: int| 0 <= i < cs.drop_first().len() implies (#[trigger] cs.drop_first()[
            i
        ]).0 != b by {
            assert(cs.drop_first()[i] == cs[i + 1]);
        }
        lemma_find_node_none(cs.drop_first(), b);
    }
}

/// Scan a sorted child list for byte `b`: either the index holding `b`,
/// or the position where an entry for `b` would have to be inserted.
pub(crate) fn find_child(cs: &Vec<(u8, TrieNode)>, b: u8) -> (r: (bool, usize))
    requires
        children_sorted(cs@),
    ensures
        r.1 <= cs@.len(),
        r.0 ==> r.1 < cs@.len() && cs@[r.1 as int].0 == b && find_node(cs@, b) == Some(
            cs@[r.1 as int].1,
        ) && (forall|i: int| 0 <= i < r.1 ==> (#[trigger] cs@[i]).0 < b),
        !r.0 ==> find_node(cs@, b) is None && (forall|i: int|
            0 <= i < r.1 ==> (#[trigger] cs@[i]).0 < b) && (forall|i: int|
            r.1 <= i < cs@.len() ==> (#[trigger] cs@[i]).0 > b),
{
    let mut j: usize = 0;
    while j < cs.len()
        invariant
            j <= cs@.len(),
            children_sorted(cs@),
            forall|i: int| 0 <= i < j ==> (#[trigger] cs@[i]).0 < b,
        decreases cs@.len() - j,
    {
        let cb = cs[j].0;
        if cb == b {
            proof {
                lemma_find_node_at(cs@, b, j as int);
            }
            return (true, j);
        }
        if cb > b {
            proof {
                assert forall|i: int| j <= i < cs@.len() implies (#[trigger] cs@[i]).0 > b by {
                    assert(cs@[j as int].0 <= cs@[i].0);
                }
                lemma_find_node_none(cs@, b);
            }
            return (false, j);
        }
        j += 1;
    }
    proof {
        lemma_find_node_none(cs@, b);
    }
    (false, j)
}

/// Looking up any byte other than `b` is unaffected when only entries
/// holding `b` are replaced, byte for byte, in a child list.
pub(crate) proof fn lemma_find_congruent(
    cs: Seq<(u8, TrieNode)>,
    cs2: Seq<(u8, TrieNode)>,
    b: u8,
    x: u8,
)
    requires
        cs.len() == cs2.len(),
        forall|i: int| 0 <= i < cs.len() ==> (#[trigger] cs2[i]).0 == cs[i].0,
        forall|i: int| 0 <= i < cs.len() && (#[trigger] cs[i]).0 != b ==> cs2[i] == cs[i],
        x != b,
    ensures
        find_node(cs2, x) == find_node(cs, x),
    decreases cs.len(),
{
    if cs.len() > 0 {
        if cs[0].0 == x {
            assert(cs2[0] == cs[0]);
        } else {
            assert forall|i: int| 0 <= i < cs.drop_first().len() implies (#[trigger] cs2.drop_first()[
                i
            ]).0 == cs.drop_first()[i].0 by {
                assert(cs.drop_first()[i] == cs[i + 1]);
                assert(cs2.drop_first()[i] == cs2[i + 1]);
            }
            assert forall|i: int|
                0 <= i < cs.drop_first().len() && (#[trigger] cs.drop_first()[i]).0
                    != b implies cs2.drop_first()[i] == cs.drop_first()[i] by {
                assert(cs.drop_first()[i] == cs[i + 1]);
                assert(cs2.drop_first()[i] == cs2[i + 1]);
            }
            lemma_find_congruent(cs.drop_first(), cs2.drop_first(), b, x);
        }
    }
}

/// Inserting an entry for a fresh byte leaves lookups of other bytes alone.
pub(crate) proof fn lemma_find_insert(cs: Seq<(u8, TrieNode)>, j: int, e: (u8, TrieNode), x: u8)
    requires
        0 <= j <= cs.len(),
        x != e.0,
    ensures
        find_node(cs.insert(j, e), x) == find_node(cs, x),
    decreases cs.len(),
{
    let cs2 = cs.insert(j, e);
    cs.insert_ensures(j, e);
    if j == 0 {
        assert(cs2[0] == e);
        assert(cs2.drop_first() =~= cs);
    } else {
        assert(cs2[0] == cs[0]);
        if cs[0].0 != x {
            cs.drop_first().insert_ensures(j - 1, e);
            assert(cs2.drop_first() =~= cs.drop_first().insert(j - 1, e));
            lemma_find_insert(cs.drop_first(), j - 1, e, x);
        }
    }
}

/// Keys with equal head bytes and equal tails are equal.
pub(crate) proof fn lemma_head_tail_eq(k: Seq<u8>, s: Seq<u8>)
    requires
        k.len() > 0,
        s.len() > 0,
        k[0] == s[0],
        k.drop_first() == s.drop_first(),
    ensures
        k == s,
{
    assert(k.drop_first().len() == k.len() - 1);
    assert(s.drop_first().len() == s.len() - 1);
    assert forall|m: int| 0 <= m < k.len() implies k[m] == s[m] by {
        if m > 0 {
            assert(k.drop_first()[m - 1] == k[m]);
            assert(s.drop_first()[m - 1] == s[m]);
        }
    }
    assert(k =~= s);
}

/// A node with no children and no value stores nothing.
pub(crate) proof fn lemma_empty_node_get(n: TrieNode, k: Seq<u8>)
    requires
        n.children@.len() == 0,
        n.value is None,
    ensures
        node_get(n, k) is None,
{
}

/// Walk `key` from `n`, starting at byte `i`, creating missing nodes along
/// the way, and set the terminal node's value to `value`, replacing any
/// prior value there. Every other key's value is untouched.
#[verifier::rlimit(50)]
pub(crate) fn node_insert(n: &mut TrieNode, key: &[u8], i: usize, value: Vec<u8>)
    requires
        node_wf(*old(n)),
        i <= key@.len(),
    ensures
        node_wf(*final(n)),
        forall|k: Seq<u8>|
            #[trigger] node_get(*final(n), k) == (if k == key@.skip(i as int) {
                Some(value@)
            } else {
                node_get(*old(n), k)
            }),
        node_count(*old(n)) <= node_count(*final(n)),
        node_count(*final(n)) <= node_count(*old(n)) + (key@.len() - i),
    decreases key@.len() - i,
{
    if i == key.len() {
        n.value = Some(value);
        proof {
            assert(node_count(*n) == 1 + children_count(n.children@));
            assert(node_count(*old(n)) == 1 + children_count(n.children@));
            assert(key@.skip(i as int) =~= Seq::<u8>::empty());
            assert forall|k: Seq<u8>|
                #[trigger] node_get(*n, k) == (if k == key@.skip(i as int) {
                    Some(value@)
                } else {
                    node_get(*old(n), k)
                }) by {
                if k.len() != 0 {
                    assert(k != key@.skip(i as int));
                } else {
                    assert(k =~= key@.skip(i as int));
                }
            }
        }
    } else {
        let b = key[i];
        let ghost suffix = key@.skip(i as int);
        let ghost cs = n.children@;
        proof {
            assert(suffix[0] == key@[i as int]);
            assert(suffix.drop_first() =~= key@.skip(i as int + 1));
        }
        let (found, j) = find_child(&n.children, b);
        if found {
            let (cb, mut child) = n.children.remove(j);
            proof {
                assert(node_wf(cs[j as int].1));
            }
            node_insert(&mut child, key, i + 1, value);
            n.children.insert(j, (cb, child));
            proof {
                let ncs = n.children@;
                cs.remove_ensures(j as int);
                cs.remove(j as int).insert_ensures(j as int, (cb, child));
                assert(ncs =~= cs.update(j as int, (cb, child)));
                lemma_children_count_update(cs, j as int, (cb, child));
                assert(node_count(*n) == 1 + children_count(ncs));
                assert(node_count(*old(n)) == 1 + children_count(cs));
                assert forall|k: Seq<u8>|
                    #[trigger] node_get(*n, k) == (if k == suffix {
                        Some(value@)
                    } else {
                        node_get(*old(n), k)
                    }) by {
                    if k.len() == 0 {
                        assert(k != suffix);
                    } else if k[0] == b {
                        lemma_find_node_at(ncs, b, j as int);
                        assert(node_get(*n, k) == node_get(child, k.drop_first()));
                        assert(node_get(*old(n), k) == node_get(cs[j as int].1, k.drop_first()));
                        if k.drop_first() == key@.skip(i as int + 1) {
                            lemma_head_tail_eq(k, suffix);
                        } else {
                            assert(k != suffix);
                        }
                    } else {
                        lemma_find_congruent(cs, ncs, b, k[0]);
                        assert(k != suffix);
                        match find_node(cs, k[0]) {
                            Some(c) => {
                                assert(node_get(*n, k) == node_get(c, k.drop_first()));
                            },
                            None => {},
                        }
                    }
                }
            }
        } else {
            let mut child = TrieNode { children: Vec::new(), value: None };
            proof {
                assert(node_wf(child));
            }
            let ghost fresh = child;
            node_insert(&mut child, key, i + 1, value);
            n.children.insert(j, (b, child));
            proof {
                let ncs = n.children@;
                cs.insert_ensures(j as int, (b, child));
                lemma_children_count_insert(cs, j as int, (b, child));
                assert(node_count(fresh) == 1);
                assert(node_count(*n) == 1 + children_count(ncs));
                assert(node_count(*old(n)) == 1 + children_count(cs));
                assert(children_sorted(ncs)) by {
                    assert forall|x: int, y: int|
                        0 <= x < y < ncs.len() implies (#[trigger] ncs[x]).0 < (
                    #[trigger] ncs[y]).0 by {
                        if x < j && y < j {
                        } else if x < j && y == j {
                        } else if x < j && y > j {
                            assert(ncs[y] == cs[y - 1]);
                        } else if x == j && y > j {
                            assert(ncs[y] == cs[y - 1]);
                        } else if x > j && y > j {
                            assert(ncs[x] == cs[x - 1]);
                            assert(ncs[y] == cs[y - 1]);
                        }
                    }
                }
                assert forall|x: int| 0 <= x < ncs.len() implies node_wf(
                    #[trigger] ncs[x].1,
                ) by {
                    if x < j {
                        assert(ncs[x] == cs[x]);
                    } else if x > j {
                        assert(ncs[x] == cs[x - 1]);
                    }
                }
                assert forall|k: Seq<u8>|
                    #[trigger] node_get(*n, k) == (if k == suffix {
                        Some(value@)
                    } else {
                        node_get(*old(n), k)
                    }) by {
                    if k.len() == 0 {
                        assert(k != suffix);
                    } else if k[0] == b {
                        assert forall|x: int| 0 <= x < j implies (#[trigger] ncs[x]).0 != b by {
                            assert(ncs[x] == cs[x]);
                        }
                        lemma_find_node_at(ncs, b, j as int);
                        assert(node_get(*n, k) == node_get(child, k.drop_first()));
                        lemma_find_node_none(cs, b);
                        assert(node_get(*old(n), k) is None);
                        if k.drop_first() == key@.skip(i as int + 1) {
                            lemma_head_tail_eq(k, suffix);
                        } else {
                            assert(k != suffix);
                            lemma_empty_node_get(fresh, k.drop_first());
                        }
                    } else {
                        lemma_find_insert(cs, j as int, (b, child), k[0]);
                        assert(k != suffix);
                        match find_node(cs, k[0]) {
                            Some(c) => {
                                assert(node_get(*n, k) == node_get(c, k.drop_first()));
                            },
                            None => {},
                        }
                    }
                }
            }
        }
    }
}

/// Walk `key` from `n`, starting at byte `i`, and return the value at the
/// end of the walk, if the path exists and its terminal value is set.
pub(crate) fn node_lookup<'a>(n: &'a TrieNode, key: &[u8], i: usize) -> (r: Option<&'a Vec<u8>>)
    requires
        node_wf(*n),
        i <= key@.len(),
    ensures
        match r {
            Some(v) => node_get(*n, key@.skip(i as int)) == Some(v@),
            None => node_get(*n, key@.skip(i as int)) is None,
        },
    decreases key@.len() - i,
{
    if i == key.len() {
        proof {
            assert(key@.skip(i as int) =~= Seq::<u8>::empty());
        }
        match &n.value {
            Some(v) => Some(v),
            None => None,
        }
    } else {
        let (found, j) = find_child(&n.children, key[i]);
        if found {
            proof {
                assert(node_wf(n.children@[j as int].1));
                assert(key@.skip(i as int)[0] == key@[i as int]);
                assert(key@.skip(i as int).drop_first() =~= key@.skip(i as int + 1));
            }
            node_lookup(&n.children[j].1, key, i + 1)
        } else {
            proof {
                assert(key@.skip(i as int)[0] == key@[i as int]);
            }
            None
        }
    }
}

/// The entries of `s`, each pair of byte vectors viewed as a pair of byte
/// sequences.
pub open spec fn entries_view(s: Seq<(Vec<u8>, Vec<u8>)>) -> Seq<(Seq<u8>, Seq<u8>)> {
    Seq::new(s.len(), |i: int| (s[i].0@, s[i].1@))
}

/// Appending a child at the end appends its subtree's entries at the end.
pub(crate) proof fn lemma_children_entries_push(
    cs: Seq<(u8, TrieNode)>,
    e: (u8, TrieNode),
    path: Seq<u8>,
)
    ensures
        children_entries(cs.push(e), path) == children_entries(cs, path) + node_entries(
            e.1,
            path.push(e.0),
        ),
    decreases cs.len(),
{
    if cs.len() == 0 {
        assert(cs.push(e)[0] == e);
        assert(cs.push(e).drop_first() =~= cs);
        assert(children_entries(cs.push(e), path) =~= children_entries(cs, path) + node_entries(
            e.1,
            path.push(e.0),
        ));
    } else {
        assert(cs.push(e)[0] == cs[0]);
        assert(cs.push(e).drop_first() =~= cs.drop_first().push(e));
        lemma_children_entries_push(cs.drop_first(), e, path);
        assert(children_entries(cs.push(e), path) =~= children_entries(cs, path) + node_entries(
            e.1,
            path.push(e.0),
        ));
    }
}

/// Depth-first pre-order traversal from `n`, with `path` the byte path from
/// the root to `n`: append the node's own entry, if any, then each child's
/// entries in ascending byte order.
pub(crate) fn collect_into(n: &TrieNode, path: &Vec<u8>, out: &mut Vec<(Vec<u8>, Vec<u8>)>)
    requires
        node_wf(*n),
    ensures
        entries_view(final(out)@) == entries_view(old(out)@) + node_entries(*n, path@),
    decreases *n,
{
    match &n.value {
        Some(v) => {
            let kcopy = vstd::slice::slice_to_vec(path.as_slice());
            let vcopy = vstd::slice::slice_to_vec(v.as_slice());
            out.push((kcopy, vcopy));
        },
        None => {},
    }
    proof {
        assert(entries_view(out@) =~= entries_view(old(out)@) + own_entry(*n, path@));
    }
    let ghost prior = out@;
    let mut j: usize = 0;
    while j < n.children.len()
        invariant
            node_wf(*n),
            j <= n.children@.len(),
            entries_view(out@) == entries_view(prior) + children_entries(
                n.children@.take(j as int),
                path@,
            ),
        decreases n.children@.len() - j,
    {
        proof {
            assert(children_sorted(n.children@));
            assert(node_wf(n.children@[j as int].1));
        }
        let ghost before = out@;
        let b = n.children[j].0;
        let mut child_path = vstd::slice::slice_to_vec(path.as_slice());
        child_path.push(b);
        collect_into(&n.children[j].1, &child_path, out);
        proof {
            assert(child_path@ == path@.push(b));
            assert(n.children@.take(j as int + 1) =~= n.children@.take(j as int).push(
                n.children@[j as int],
            ));
            lemma_children_entries_push(n.children@.take(j as int), n.children@[j as int], path@);
            assert(entries_view(out@) =~= entries_view(prior) + children_entries(
                n.children@.take(j as int + 1),
                path@,
            ));
        }
        j += 1;
    }
    proof {
        assert(n.children@.take(n.children@.len() as int) =~= n.children@);
        assert(entries_view(out@) =~= entries_view(old(out)@) + node_entries(*n, path@));
    }
}

/// The node reached from `n` by walking the bytes of `p`, if every byte
/// has a child along the way.
pub(crate) open spec fn node_descend(n: TrieNode, p: Seq<u8>) -> Option<TrieNode>
    decreases p.len(),
{
    if p.len() == 0 {
        Some(n)
    } else {
        match find_node(n.children@, p[0]) {
            Some(c) => node_descend(c, p.drop_first()),
            None => None,
        }
    }
}

/// Walking `p` and then `k` is walking `p + k`.
pub(crate) proof fn lemma_descend_get(n: TrieNode, p: Seq<u8>, k: Seq<u8>)
    ensures
        node_get(n, p + k) == (match node_descend(n, p) {
            Some(m) => node_get(m, k),
            None => None::<Seq<u8>>,
        }),
    decreases p.len(),
{
    if p.len() == 0 {
        assert(p + k =~= k);
    } else {
        assert((p + k)[0] == p[0]);
        assert((p + k).drop_first() =~= p.drop_first() + k);
        match find_node(n.children@, p[0]) {
            Some(c) => {
                lemma_descend_get(c, p.drop_first(), k);
            },
            None => {},
        }
    }
}

/// Descending from a well-formed node reaches a well-formed node.
pub(crate) proof fn lemma_descend_wf(n: TrieNode, p: Seq<u8>)
    requires
        node_wf(n),
        node_descend(n, p) is Some,
    ensures
        node_wf(node_descend(n, p).unwrap()),
    decreases p.len(),
{
    if p.len() > 0 {
        lemma_find_node(n.children@, p[0]);
        let c = find_node(n.children@, p[0]).unwrap();
        let i = choose|i: int|
            0 <= i < n.children@.len() && (#[trigger] n.children@[i]).0 == p[0]
                && n.children@[i].1 == c;
        assert(node_wf(c));
        lemma_descend_wf(c, p.drop_first());
    }
}

/// Walk the bytes of `p` from `n`, starting at byte `i`, to the node whose
/// path extends `n`'s by `p`'s remainder, if the walk does not fall off
/// the tree.
pub(crate) fn node_descend_to<'a>(n: &'a TrieNode, p: &[u8], i: usize) -> (r: Option<&'a TrieNode>)
    requires
        node_wf(*n),
        i <= p@.len(),
    ensures
        match r {
            Some(m) => node_descend(*n, p@.skip(i as int)) == Some(*m) && node_wf(*m),
            None => node_descend(*n, p@.skip(i as int)) is None,
        },
    decreases p@.len() - i,
{
    if i == p.len() {
        proof {
            assert(p@.skip(i as int) =~= Seq::<u8>::empty());
        }
        Some(n)
    } else {
        let (found, j) = find_child(&n.children, p[i]);
        proof {
            assert(p@.skip(i as int)[0] == p@[i as int]);
        }
        if found {
            proof {
                assert(node_wf(n.children@[j as int].1));
                assert(p@.skip(i as int).drop_first() =~= p@.skip(i as int + 1));
            }
            node_descend_to(&n.children[j].1, p, i + 1)
        } else {
            None
        }
    }
}

/// Some entry of `cs` holds byte `b`.
pub(crate) open spec fn has_byte(cs: Seq<(u8, TrieNode)>, b: u8) -> bool {
    exists|i: int| 0 <= i < cs.len() && (#[trigger] cs[i]).0 == b
}

/// An element of either part is an element of the concatenation.
pub(crate) proof fn lemma_add_contains<A>(s1: Seq<A>, s2: Seq<A>, t: A)
    requires
        s1.contains(t) || s2.contains(t),
    ensures
        (s1 + s2).contains(t),
{
    if s1.contains(t) {
        let i = choose|i: int| 0 <= i < s1.len() && s1[i] == t;
        assert((s1 + s2)[i] == t);
    } else {
        let i = choose|i: int| 0 <= i < s2.len() && s2[i] == t;
        assert((s1 + s2)[s1.len() + i] == t);
    }
}

/// What one child's subtree traversal yields, the whole child list's
/// traversal yields.
pub(crate) proof fn lemma_children_entries_contain(
    cs: Seq<(u8, TrieNode)>,
    path: Seq<u8>,
    i: int,
    t: (Seq<u8>, Seq<u8>),
)
    requires
        0 <= i < cs.len(),
        node_entries(cs[i].1, path.push(cs[i].0)).contains(t),
    ensures
        children_entries(cs, path).contains(t),
    decreases i,
{
    if i > 0 {
        assert(cs.drop_first()[i - 1] == cs[i]);
        lemma_children_entries_contain(cs.drop_first(), path, i - 1, t);
    }
    lemma_add_contains(
        node_entries(cs[0].1, path.push(cs[0].0)),
        children_entries(cs.drop_first(), path),
        t,
    );
}

/// Completeness of the traversal: every stored key appears among its
/// entries, under the accumulated path, with its stored value.
pub(crate) proof fn lemma_node_entries_complete(n: TrieNode, path: Seq<u8>, k: Seq<u8>)
    requires
        node_wf(n),
        node_get(n, k) is Some,
    ensures
        node_entries(n, path).contains((path + k, node_get(n, k).unwrap())),
    decreases k.len(),
{
    let t = (path + k, node_get(n, k).unwrap());
    if k.len() == 0 {
        assert(path + k =~= path);
        assert(own_entry(n, path)[0] == t);
        assert(own_entry(n, path).contains(t));
        lemma_add_contains(own_entry(n, path), children_entries(n.children@, path), t);
    } else {
        lemma_find_node(n.children@, k[0]);
        let c = find_node(n.children@, k[0]).unwrap();
        let i = choose|i: int|
            0 <= i < n.children@.len() && (#[trigger] n.children@[i]).0 == k[0]
                && n.children@[i].1 == c;
        assert(node_wf(c));
        lemma_node_entries_complete(c, path.push(k[0]), k.drop_first());
        assert(path.push(k[0]) + k.drop_first() =~= path + k);
        lemma_children_entries_contain(n.children@, path, i, t);
        lemma_add_contains(own_entry(n, path), children_entries(n.children@, path), t);
    }
}

/// Soundness of the traversal at one index: the entry's key extends
/// `path`, and the walk along the key's remainder finds the entry's value.
pub(crate) proof fn lemma_node_entries_sound(n: TrieNode, path: Seq<u8>, x: int)
    requires
        node_wf(n),
        0 <= x < node_entries(n, path).len(),
    ensures
        is_prefix_of(path, node_entries(n, path)[x].0),
        node_get(n, node_entries(n, path)[x].0.skip(path.len() as int)) == Some(
            node_entries(n, path)[x].1,
        ),
    decreases n, 1int,
{
    let es = node_entries(n, path);
    let own = own_entry(n, path);
    let ces = children_entries(n.children@, path);
    if x < own.len() {
        assert(es[x] == own[0]);
        lemma_prefix_reflexive(path);
        assert(path.skip(path.len() as int) =~= Seq::<u8>::empty());
    } else {
        assert(es[x] == ces[x - own.len()]);
        lemma_children_entries_sound(n.children@, path, x - own.len());
        let t = ces[x - own.len()];
        let i = choose|i: int|
            0 <= i < n.children@.len() && (#[trigger] n.children@[i]).0 == t.0[path.len() as int]
                && node_get(n.children@[i].1, t.0.skip(path.len() as int + 1)) == Some(t.1);
        let kk = t.0.skip(path.len() as int);
        assert(kk[0] == t.0[path.len() as int]);
        assert forall|m: int| 0 <= m < i implies (#[trigger] n.children@[m]).0 != kk[0] by {
            assert(n.children@[m].0 < n.children@[i].0);
        }
        lemma_find_node_at(n.children@, kk[0], i);
        assert(kk.drop_first() =~= t.0.skip(path.len() as int + 1));
    }
}

/// Soundness for a child list: each entry's key extends `path` by at least
/// one byte, and some child holds that byte and stores the entry's value
/// under the key's remainder.
pub(crate) proof fn lemma_children_entries_sound(cs: Seq<(u8, TrieNode)>, path: Seq<u8>, x: int)
    requires
        children_sorted(cs),
        forall|i: int| 0 <= i < cs.len() ==> node_wf((#[trigger] cs[i]).1),
        0 <= x < children_entries(cs, path).len(),
    ensures
        is_prefix_of(path, children_entries(cs, path)[x].0),
        children_entries(cs, path)[x].0.len() > path.len(),
        exists|i: int|
            0 <= i < cs.len() && (#[trigger] cs[i]).0 == children_entries(cs, path)[x].0[path.len(
            ) as int] && node_get(
                cs[i].1,
                children_entries(cs, path)[x].0.skip(path.len() as int + 1),
            ) == Some(children_entries(cs, path)[x].1),
    decreases cs, 0int,
{
    let block = node_entries(cs[0].1, path.push(cs[0].0));
    let rest = children_entries(cs.drop_first(), path);
    let t = children_entries(cs, path)[x];
    if x < block.len() {
        assert(t == block[x]);
        lemma_node_entries_sound(cs[0].1, path.push(cs[0].0), x);
        lemma_prefix_step(path, cs[0].0, t.0);
        assert(path.push(cs[0].0).len() == path.len() + 1);
        assert(cs[0].0 == t.0[path.len() as int] && node_get(
            cs[0].1,
            t.0.skip(path.len() as int + 1),
        ) == Some(t.1));
    } else {
        assert(t == rest[x - block.len()]);
        assert forall|a: int, b: int|
            0 <= a < b < cs.drop_first().len() implies (#[trigger] cs.drop_first()[a]).0 < (
        #[trigger] cs.drop_first()[b]).0 by {
            assert(cs.drop_first()[a] == cs[a + 1]);
            assert(cs.drop_first()[b] == cs[b + 1]);
        }
        assert forall|i: int| 0 <= i < cs.drop_first().len() implies node_wf(
            (#[trigger] cs.drop_first()[i]).1,
        ) by {
            assert(cs.drop_first()[i] == cs[i + 1]);
        }
        lemma_children_entries_sound(cs.drop_first(), path, x - block.len());
        let i = choose|i: int|
            0 <= i < cs.drop_first().len() && (#[trigger] cs.drop_first()[i]).0 == t.0[path.len(
            ) as int] && node_get(cs.drop_first()[i].1, t.0.skip(path.len() as int + 1)) == Some(
                t.1,
            );
        assert(cs.drop_first()[i] == cs[i + 1]);
        assert((#[trigger] cs[i + 1]).0 == t.0[path.len() as int] && node_get(
            cs[i + 1].1,
            t.0.skip(path.len() as int + 1),
        ) == Some(t.1));
    }
}

/// The traversal's keys all extend `path` and come in strictly increasing
/// byte-lexicographic order.
pub(crate) proof fn lemma_node_entries_sorted(n: TrieNode, path: Seq<u8>)
    requires
        node_wf(n),
    ensures
        forall|x: int|
            0 <= x < node_entries(n, path).len() ==> is_prefix_of(
                path,
                (#[trigger] node_entries(n, path)[x]).0,
            ),
        forall|x: int, y: int|
            0 <= x < y < node_entries(n, path).len() ==> lex_lt(
                node_entries(n, path)[x].0,
                node_entries(n, path)[y].0,
            ),
    decreases n, 1int,
{
    let es = node_entries(n, path);
    let own = own_entry(n, path);
    let ces = children_entries(n.children@, path);
    lemma_children_entries_sorted(n.children@, path);
    lemma_prefix_reflexive(path);
    assert forall|x: int| 0 <= x < es.len() implies is_prefix_of(path, (#[trigger] es[x]).0) by {
        if x < own.len() {
            assert(es[x] == own[0]);
        } else {
            assert(es[x] == ces[x - own.len()]);
        }
    }
    assert forall|x: int, y: int| 0 <= x < y < es.len() implies lex_lt(es[x].0, es[y].0) by {
        if x < own.len() {
            assert(es[x] == own[0]);
            assert(es[y] == ces[y - own.len()]);
            lemma_lex_proper_prefix(path, es[y].0);
        } else {
            assert(es[x] == ces[x - own.len()]);
            assert(es[y] == ces[y - own.len()]);
        }
    }
}

/// Keys from a sorted child list's traversal extend `path` by a byte of
/// the list and come in strictly increasing byte-lexicographic order.
pub(crate) proof fn lemma_children_entries_sorted(cs: Seq<(u8, TrieNode)>, path: Seq<u8>)
    requires
        children_sorted(cs),
        forall|i: int| 0 <= i < cs.len() ==> node_wf((#[trigger] cs[i]).1),
    ensures
        forall|x: int|
            0 <= x < children_entries(cs, path).len() ==> is_prefix_of(
                path,
                (#[trigger] children_entries(cs, path)[x]).0,
            ) && children_entries(cs, path)[x].0.len() > path.len() && has_byte(
                cs,
                children_entries(cs, path)[x].0[path.len() as int],
            ),
        forall|x: int, y: int|
            0 <= x < y < children_entries(cs, path).len() ==> lex_lt(
                children_entries(cs, path)[x].0,
                children_entries(cs, path)[y].0,
            ),
    decreases cs, 0int,
{
    if cs.len() > 0 {
        let b0 = cs[0].0;
        let block = node_entries(cs[0].1, path.push(b0));
        let rest = children_entries(cs.drop_first(), path);
        let ces = children_entries(cs, path);
        lemma_node_entries_sorted(cs[0].1, path.push(b0));
        assert forall|a: int, b: int|
            0 <= a < b < cs.drop_first().len() implies (#[trigger] cs.drop_first()[a]).0 < (
        #[trigger] cs.drop_first()[b]).0 by {
            assert(cs.drop_first()[a] == cs[a + 1]);
            assert(cs.drop_first()[b] == cs[b + 1]);
        }
        assert forall|i: int| 0 <= i < cs.drop_first().len() implies node_wf(
            (#[trigger] cs.drop_first()[i]).1,
        ) by {
            assert(cs.drop_first()[i] == cs[i + 1]);
        }
        lemma_children_entries_sorted(cs.drop_first(), path);
        assert forall|x: int| 0 <= x < ces.len() implies is_prefix_of(
            path,
            (#[trigger] ces[x]).0,
        ) && ces[x].0.len() > path.len() && has_byte(cs, ces[x].0[path.len() as int]) by {
            if x < block.len() {
                assert(ces[x] == block[x]);
                lemma_prefix_step(path, b0, ces[x].0);
            } else {
                assert(ces[x] == rest[x - block.len()]);
                let bb = ces[x].0[path.len() as int];
                let i = choose|i: int|
                    0 <= i < cs.drop_first().len() && (#[trigger] cs.drop_first()[i]).0 == bb;
                assert(cs.drop_first()[i] == cs[i + 1]);
                assert((#[trigger] cs[i + 1]).0 == bb);
            }
        }
        assert forall|x: int, y: int| 0 <= x < y < ces.len() implies lex_lt(
            ces[x].0,
            ces[y].0,
        ) by {
            if y < block.len() {
                assert(ces[x] == block[x]);
                assert(ces[y] == block[y]);
            } else if x >= block.len() {
                assert(ces[x] == rest[x - block.len()]);
                assert(ces[y] == rest[y - block.len()]);
            } else {
                assert(ces[x] == block[x]);
                assert(ces[y] == rest[y - block.len()]);
                lemma_prefix_step(path, b0, ces[x].0);
                let bb = ces[y].0[path.len() as int];
                let i = choose|i: int|
                    0 <= i < cs.drop_first().len() && (#[trigger] cs.drop_first()[i]).0 == bb;
                assert(cs.drop_first()[i] == cs[i + 1]);
                assert(cs[0].0 < cs[i + 1].0);
                lemma_lex_common_prefix(path, ces[x].0, ces[y].0);
            }
        }
    }
}

} // verus!
