//! Keyed-sequence reasoning.
//!
//! The preference store keeps each of its tables as a vector of keyed
//! entries.  The spec functions here describe membership, last-match
//! lookup and removal on such sequences, and the lemmas relate them.

use vstd::prelude::*;

verus! {

/// Does some element of `s` satisfy `p`?
pub open spec fn seq_has<T>(s: Seq<T>, p: spec_fn(T) -> bool) -> bool {
    exists|x: T| #[trigger] s.contains(x) && p(x)
}

/// The last element of `s` satisfying `p`, if any.
pub open spec fn find_last<T>(s: Seq<T>, p: spec_fn(T) -> bool) -> Option<T>
    decreases s.len(),
{
    if s.len() == 0 {
        None
    } else if p(s.last()) {
        Some(s.last())
    } else {
        find_last(s.drop_last(), p)
    }
}

/// `s` with every element satisfying `p` removed, order kept.
pub open spec fn remove_by<T>(s: Seq<T>, p: spec_fn(T) -> bool) -> Seq<T>
    decreases s.len(),
{
    if s.len() == 0 {
        Seq::empty()
    } else if p(s.last()) {
        remove_by(s.drop_last(), p)
    } else {
        remove_by(s.drop_last(), p).push(s.last())
    }
}

/// No two elements of `s` share a key under `k`.
pub open spec fn nodup_by<T>(s: Seq<T>, k: spec_fn(T) -> (int, Seq<char>)) -> bool
    decreases s.len(),
{
    if s.len() == 0 {
        true
    } else {
        nodup_by(s.drop_last(), k) && !seq_has(s.drop_last(), |x: T| k(x) == k(s.last()))
    }
}

pub proof fn lemma_push_contains<T>(s: Seq<T>, e: T, x: T)
    ensures
        s.push(e).contains(x) <==> (s.contains(x) || x == e),
{
    if s.push(e).contains(x) {
        let i = choose|i: int| 0 <= i < s.push(e).len() && s.push(e)[i] == x;
        if i < s.len() {
            assert(s[i] == x);
        }
    }
    if s.contains(x) {
        let i = choose|i: int| 0 <= i < s.len() && s[i] == x;
        assert(s.push(e)[i] == x);
    }
    assert(s.push(e)[s.len() as int] == e);
}

pub proof fn lemma_push_has<T>(s: Seq<T>, e: T, p: spec_fn(T) -> bool)
    ensures
        seq_has(s.push(e), p) <==> (seq_has(s, p) || p(e)),
{
    if seq_has(s.push(e), p) {
        let x = choose|x: T| s.push(e).contains(x) && p(x);
        lemma_push_contains(s, e, x);
    }
    if seq_has(s, p) {
        let x = choose|x: T| s.contains(x) && p(x);
        lemma_push_contains(s, e, x);
    }
    lemma_push_contains(s, e, e);
}

pub proof fn lemma_remove_by_contains<T>(s: Seq<T>, p: spec_fn(T) -> bool, x: T)
    ensures
        remove_by(s, p).contains(x) <==> (s.contains(x) && !p(x)),
    decreases s.len(),
{
    if s.len() == 0 {
        assert(!s.contains(x));
        assert(!remove_by(s, p).contains(x));
    } else {
        let d = s.drop_last();
        lemma_remove_by_contains(d, p, x);
        assert(s =~= d.push(s.last()));
        lemma_push_contains(d, s.last(), x);
        if p(s.last()) {
            assert(remove_by(s, p) == remove_by(d, p));
        } else {
            assert(remove_by(s, p) == remove_by(d, p).push(s.last()));
            lemma_push_contains(remove_by(d, p), s.last(), x);
        }
    }
}

/// Membership under a predicate disjoint from the removed one is unchanged.
pub proof fn lemma_remove_by_has<T>(s: Seq<T>, p: spec_fn(T) -> bool, q: spec_fn(T) -> bool)
    requires
        forall|x: T| !(#[trigger] p(x) && q(x)),
    ensures
        seq_has(remove_by(s, p), q) == seq_has(s, q),
{
    if seq_has(remove_by(s, p), q) {
        let x = choose|x: T| remove_by(s, p).contains(x) && q(x);
        lemma_remove_by_contains(s, p, x);
        assert(s.contains(x) && q(x));
    }
    if seq_has(s, q) {
        let x = choose|x: T| s.contains(x) && q(x);
        assert(!(p(x) && q(x)));
        lemma_remove_by_contains(s, p, x);
        assert(remove_by(s, p).contains(x) && q(x));
    }
}

/// Nothing satisfying `p` is left after removal.
pub proof fn lemma_remove_by_clean<T>(s: Seq<T>, p: spec_fn(T) -> bool)
    ensures
        !seq_has(remove_by(s, p), p),
{
    if seq_has(remove_by(s, p), p) {
        let x = choose|x: T| remove_by(s, p).contains(x) && p(x);
        lemma_remove_by_contains(s, p, x);
    }
}

pub proof fn lemma_find_last_push<T>(s: Seq<T>, e: T, p: spec_fn(T) -> bool)
    ensures
        find_last(s.push(e), p) == (if p(e) {
            Some(e)
        } else {
            find_last(s, p)
        }),
{
    assert(s.push(e).last() == e);
    assert(s.push(e).drop_last() =~= s);
}

/// Last-match lookup under a predicate disjoint from the removed one
/// is unchanged.
pub proof fn lemma_remove_by_find_last<T>(
    s: Seq<T>,
    p: spec_fn(T) -> bool,
    q: spec_fn(T) -> bool,
)
    requires
        forall|x: T| !(#[trigger] p(x) && q(x)),
    ensures
        find_last(remove_by(s, p), q) == find_last(s, q),
    decreases s.len(),
{
    if s.len() > 0 {
        let d = s.drop_last();
        lemma_remove_by_find_last(d, p, q);
        if p(s.last()) {
            assert(!q(s.last()));
        } else {
            lemma_find_last_push(remove_by(d, p), s.last(), q);
        }
    }
}

/// Removal keeps keys pairwise distinct.
pub proof fn lemma_remove_by_nodup<T>(
    s: Seq<T>,
    p: spec_fn(T) -> bool,
    k: spec_fn(T) -> (int, Seq<char>),
)
    requires
        nodup_by(s, k),
    ensures
        nodup_by(remove_by(s, p), k),
    decreases s.len(),
{
    if s.len() > 0 {
        let d = s.drop_last();
        lemma_remove_by_nodup(d, p, k);
        if !p(s.last()) {
            let r = remove_by(d, p).push(s.last());
            assert(r.drop_last() =~= remove_by(d, p));
            assert(r.last() == s.last());
            let same = |x: T| k(x) == k(s.last());
            if seq_has(remove_by(d, p), same) {
                let x = choose|x: T| remove_by(d, p).contains(x) && same(x);
                lemma_remove_by_contains(d, p, x);
                assert(d.contains(x) && same(x));
                assert(seq_has(d, |x: T| k(x) == k(s.last())));
            }
            assert(!seq_has(remove_by(d, p), |x: T| k(x) == k(r.last())));
        }
    }
}

/// Distinct keys, element by element.
pub proof fn lemma_nodup_by_pairwise<T>(s: Seq<T>, k: spec_fn(T) -> (int, Seq<char>))
    requires
        nodup_by(s, k),
    ensures
        forall|i: int, j: int| 0 <= i < j < s.len() ==> k(#[trigger] s[i]) != k(#[trigger] s[j]),
    decreases s.len(),
{
    if s.len() > 0 {
        lemma_nodup_by_pairwise(s.drop_last(), k);
        assert forall|i: int, j: int| 0 <= i < j < s.len() implies k(#[trigger] s[i]) != k(
            #[trigger] s[j],
        ) by {
            if j < s.len() - 1 {
                assert(s.drop_last()[i] == s[i]);
                assert(s.drop_last()[j] == s[j]);
            } else {
                assert(s.drop_last()[i] == s[i]);
                if k(s[i]) == k(s.last()) {
                    assert(s.drop_last().contains(s[i]));
                    assert(seq_has(s.drop_last(), |x: T| k(x) == k(s.last())));
                }
            }
        }
    }
}

/// Pushing an entry whose key is absent keeps keys pairwise distinct.
pub proof fn lemma_push_nodup<T>(s: Seq<T>, e: T, k: spec_fn(T) -> (int, Seq<char>))
    requires
        nodup_by(s, k),
        !seq_has(s, |x: T| k(x) == k(e)),
    ensures
        nodup_by(s.push(e), k),
{
    assert(s.push(e).drop_last() =~= s);
    assert(s.push(e).last() == e);
}

} // verus!
