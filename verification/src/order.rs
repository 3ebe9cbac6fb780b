//! Byte-lexicographic order on keys, with a proper prefix sorting before
//! any of its extensions. This is the order in which collection returns
//! the trie's entries.

use vstd::prelude::*;

verus! {

/// `p` is a prefix of `k`.
pub open spec fn is_prefix_of(p: Seq<u8>, k: Seq<u8>) -> bool {
    p.len() <= k.len() && k.take(p.len() as int) == p
}

/// Strict byte-lexicographic order: `a` sorts before `b`. A proper prefix
/// sorts before every extension of it; otherwise the first differing byte
/// decides.
pub open spec fn lex_lt(a: Seq<u8>, b: Seq<u8>) -> bool
    decreases a.len(),
{
    if b.len() == 0 {
        false
    } else if a.len() == 0 {
        true
    } else if a[0] < b[0] {
        true
    } else if a[0] > b[0] {
        false
    } else {
        lex_lt(a.drop_first(), b.drop_first())
    }
}

/// Every sequence is a prefix of itself.
pub proof fn lemma_prefix_reflexive(p: Seq<u8>)
    ensures
        is_prefix_of(p, p),
{
    assert(p.take(p.len() as int) =~= p);
}

/// A proper prefix sorts strictly before any extension of it.
pub proof fn lemma_lex_proper_prefix(p: Seq<u8>, k: Seq<u8>)
    requires
        is_prefix_of(p, k),
        p.len() < k.len(),
    ensures
        lex_lt(p, k),
    decreases p.len(),
{
    if p.len() > 0 {
        assert(k.take(p.len() as int)[0] == k[0]);
        assert(is_prefix_of(p.drop_first(), k.drop_first())) by {
            assert(k.drop_first().take(p.len() - 1) =~= k.take(p.len() as int).drop_first());
        }
        lemma_lex_proper_prefix(p.drop_first(), k.drop_first());
    }
}

/// Two keys that agree on a common prefix and continue with different
/// bytes order by the first differing byte.
pub proof fn lemma_lex_common_prefix(p: Seq<u8>, a: Seq<u8>, b: Seq<u8>)
    requires
        is_prefix_of(p, a),
        is_prefix_of(p, b),
        a.len() > p.len(),
        b.len() > p.len(),
        a[p.len() as int] < b[p.len() as int],
    ensures
        lex_lt(a, b),
    decreases p.len(),
{
    if p.len() == 0 {
    } else {
        assert(a.take(p.len() as int)[0] == a[0]);
        assert(b.take(p.len() as int)[0] == b[0]);
        assert(is_prefix_of(p.drop_first(), a.drop_first())) by {
            assert(a.drop_first().take(p.len() - 1) =~= a.take(p.len() as int).drop_first());
        }
        assert(is_prefix_of(p.drop_first(), b.drop_first())) by {
            assert(b.drop_first().take(p.len() - 1) =~= b.take(p.len() as int).drop_first());
        }
        assert(a.drop_first()[p.len() - 1] == a[p.len() as int]);
        assert(b.drop_first()[p.len() - 1] == b[p.len() as int]);
        lemma_lex_common_prefix(p.drop_first(), a.drop_first(), b.drop_first());
    }
}

/// A prefix one byte longer fixes both the shorter prefix and the byte
/// that follows it.
pub proof fn lemma_prefix_step(path: Seq<u8>, b: u8, k: Seq<u8>)
    requires
        is_prefix_of(path.push(b), k),
    ensures
        is_prefix_of(path, k),
        k.len() > path.len(),
        k[path.len() as int] == b,
{
    assert(k.take(path.len() as int + 1) == path.push(b));
    assert(k.take(path.len() as int + 1)[path.len() as int] == k[path.len() as int]);
    assert forall|m: int| 0 <= m < path.len() implies k.take(path.len() as int)[m] == path[m] by {
        assert(k.take(path.len() as int)[m] == k[m]);
        assert(k.take(path.len() as int + 1)[m] == k[m]);
        assert(path.push(b)[m] == path[m]);
    }
    assert(k.take(path.len() as int) =~= path);
}

/// No sequence sorts before itself.
pub proof fn lemma_lex_irreflexive(a: Seq<u8>)
    ensures
        !lex_lt(a, a),
    decreases a.len(),
{
    if a.len() > 0 {
        lemma_lex_irreflexive(a.drop_first());
    }
}

} // verus!
