//! Reasoning toolkit for sequences of names (key strings, namespace names).
//!
//! The stateful structures of this crate keep their entries in insertion
//! order inside a `Vec`, with the invariant that no name occurs twice. This
//! module defines the first-occurrence index of a name in such a sequence and
//! the lemmas that connect a linear scan to it.

use vstd::prelude::*;

verus! {

/// Index of the first occurrence of `k` in `s`, or -1 if `k` does not occur.
pub open spec fn index_of_key(s: Seq<Seq<char>>, k: Seq<char>) -> int
    decreases s.len(),
{
    if s.len() == 0 {
        -1
    } else if s[0] == k {
        0
    } else {
        let r = index_of_key(s.drop_first(), k);
        if r < 0 {
            -1
        } else {
            r + 1
        }
    }
}

/// `k` occurs somewhere in `s`.
pub open spec fn has_key(s: Seq<Seq<char>>, k: Seq<char>) -> bool {
    index_of_key(s, k) >= 0
}

/// No name occurs twice in `s`.
pub open spec fn unique_keys(s: Seq<Seq<char>>) -> bool {
    forall|i: int, j: int| 0 <= i < j < s.len() ==> s[i] != s[j]
}

/// What the first-occurrence index means: when it is non-negative it points
/// at an occurrence of `k` preceded by none, and when it is negative there is
/// no occurrence at all.
pub proof fn lemma_index_of_key_props(s: Seq<Seq<char>>, k: Seq<char>)
    ensures
        index_of_key(s, k) >= 0 ==> index_of_key(s, k) < s.len() && s[index_of_key(s, k)] == k
            && (forall|j: int| 0 <= j < index_of_key(s, k) ==> s[j] != k),
        index_of_key(s, k) < 0 ==> (forall|j: int| 0 <= j < s.len() ==> s[j] != k),
    decreases s.len(),
{
    if s.len() == 0 {
    } else if s[0] == k {
    } else {
        lemma_index_of_key_props(s.drop_first(), k);
        let r = index_of_key(s.drop_first(), k);
        assert forall|j: int| 0 <= j < s.len() && j >= 1 implies s[j] == s.drop_first()[j - 1] by {
        }
        if r >= 0 {
            assert(s[r + 1] == s.drop_first()[r]);
        }
    }
}

/// A name that occurs in `s` has a non-negative first-occurrence index.
pub proof fn lemma_index_of_key_witness(s: Seq<Seq<char>>, k: Seq<char>, i: int)
    requires
        0 <= i < s.len(),
        s[i] == k,
    ensures
        has_key(s, k),
{
    lemma_index_of_key_props(s, k);
}

/// If `k` stands at `i` and nowhere before, then `i` is its first-occurrence
/// index. This is what a linear scan establishes when it stops at a match.
pub proof fn lemma_index_of_key_found(s: Seq<Seq<char>>, k: Seq<char>, i: int)
    requires
        0 <= i < s.len(),
        s[i] == k,
        forall|j: int| 0 <= j < i ==> s[j] != k,
    ensures
        index_of_key(s, k) == i,
{
    lemma_index_of_key_props(s, k);
    let r = index_of_key(s, k);
    if r < 0 {
        assert(s[i] != k);
    } else if r < i {
        assert(s[r] != k);
    } else if r > i {
        assert(s[i] != k);
    }
}

/// If `k` stands nowhere in `s`, its first-occurrence index is negative.
/// This is what a linear scan establishes when it runs off the end.
pub proof fn lemma_index_of_key_not_found(s: Seq<Seq<char>>, k: Seq<char>)
    requires
        forall|j: int| 0 <= j < s.len() ==> s[j] != k,
    ensures
        index_of_key(s, k) < 0,
{
    lemma_index_of_key_props(s, k);
    let r = index_of_key(s, k);
    if r >= 0 {
        assert(s[r] != k);
    }
}

/// Appending a fresh name puts it at the end and moves nothing else.
pub proof fn lemma_index_of_key_push(s: Seq<Seq<char>>, k: Seq<char>, k2: Seq<char>)
    ensures
        index_of_key(s.push(k), k2) == if index_of_key(s, k2) >= 0 {
            index_of_key(s, k2)
        } else if k2 == k {
            s.len() as int
        } else {
            -1
        },
{
    lemma_index_of_key_props(s, k2);
    let r = index_of_key(s, k2);
    if r >= 0 {
        assert(s.push(k)[r] == s[r]);
        lemma_index_of_key_found(s.push(k), k2, r);
    } else if k2 == k {
        assert(s.push(k)[s.len() as int] == k);
        lemma_index_of_key_found(s.push(k), k2, s.len() as int);
    } else {
        assert forall|j: int| 0 <= j < s.push(k).len() implies s.push(k)[j] != k2 by {
            if j < s.len() {
                assert(s.push(k)[j] == s[j]);
            }
        }
        lemma_index_of_key_not_found(s.push(k), k2);
    }
}

} // verus!
