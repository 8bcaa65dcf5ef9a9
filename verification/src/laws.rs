//! The behavioural laws of the registry, stated over the transition
//! predicates that the operations' contracts use and proved once and for
//! all. Each law connects several operations: the state a successful call
//! leaves behind, as its contract describes it, forces the outcome of the
//! next call, again as its contract describes it.

use vstd::prelude::*;

use crate::store::key_is_under;
use crate::{
    destroy_transition, init_transition, path_present, remove_transition, write_transition,
    Pathmap,
};

verus! {

/// A namespace is created exactly once: after a successful `init_ns` of `n`
/// the namespace exists, so by `init_ns`'s contract a second call without
/// an intervening `delete_ns` returns `NamespaceAlreadyExists`; and after a
/// successful `delete_ns` it is gone again, so `init_ns` succeeds once
/// more.
pub proof fn lemma_init_once(pre: Pathmap, mid: Pathmap, post: Pathmap, n: Seq<char>)
    requires
        init_transition(pre, mid, n),
        destroy_transition(mid, post, n),
    ensures
        mid.has_ns(n),
        !post.has_ns(n),
{
}

/// What `set` stores, `get` returns: after a successful `set` of `v` at
/// key `k` of namespace `n`, the namespace holds exactly `v` at `k`, so by
/// `get`'s contract the same path reads back `v`; and since the key is now
/// present, by `set`'s contract a second `set` on it returns
/// `ValueAlreadyExists` and leaves the stored value untouched.
pub proof fn lemma_set_get_round_trip(pre: Pathmap, post: Pathmap, n: Seq<char>, k: Seq<char>, v: Seq<u8>)
    requires
        write_transition(pre, post, n, k, v),
    ensures
        post.has_ns(n),
        post.ns_contents(n).contains_key(k),
        post.ns_contents(n)[k] == v,
{
}

/// The last `overwrite` wins: overwriting `v1` and then `v2` at the same
/// key leaves exactly `v2` for `get` to read; and an `overwrite` into an
/// absent namespace creates it on the way.
pub proof fn lemma_overwrite_last_wins(
    pre: Pathmap,
    mid: Pathmap,
    post: Pathmap,
    n: Seq<char>,
    k: Seq<char>,
    v1: Seq<u8>,
    v2: Seq<u8>,
)
    requires
        !pre.has_ns(n),
        write_transition(pre, mid, n, k, v1),
        write_transition(mid, post, n, k, v2),
    ensures
        mid.has_ns(n),
        post.ns_contents(n).contains_key(k),
        post.ns_contents(n)[k] == v2,
{
}

/// Existence over a value's life: where no key lies at or under `k`, the
/// path does not exist; after a write of exactly `k` it does; after the
/// key is deleted again — `delete` never fails on an absent key — it does
/// not. (`path_present` is precisely what `exists_path` reports for a path
/// whose namespace exists.)
pub proof fn lemma_exists_lifecycle(
    pre: Pathmap,
    mid: Pathmap,
    post: Pathmap,
    n: Seq<char>,
    k: Seq<char>,
    v: Seq<u8>,
)
    requires
        forall|q: Seq<char>| #[trigger]
            pre.ns_contents(n).contains_key(q) ==> !key_is_under(q, k),
        write_transition(pre, mid, n, k, v),
        remove_transition(mid, post, n, k),
    ensures
        !path_present(pre, n, k),
        path_present(mid, n, k),
        !path_present(post, n, k),
{
    assert(mid.ns_contents(n).contains_key(k) && key_is_under(k, k));
    assert forall|q: Seq<char>| #[trigger]
        post.ns_contents(n).contains_key(q) implies !key_is_under(q, k) by {
        assert(mid.ns_contents(n).contains_key(q) && q != k);
        assert(pre.ns_contents(n).contains_key(q));
    }
}

/// Destroying a namespace removes its backing store and evicts its cached
/// handle, so by `init_ns`'s contract a following `init_ns` with the same
/// name succeeds; and by `delete_ns`'s contract a `delete_ns` of a
/// namespace with no backing store fails with `NamespaceNotFound`.
pub proof fn lemma_destroy_resets(pre: Pathmap, post: Pathmap, n: Seq<char>)
    requires
        destroy_transition(pre, post, n),
    ensures
        !post.has_ns(n),
        !post.is_cached(n),
{
}

} // verus!

