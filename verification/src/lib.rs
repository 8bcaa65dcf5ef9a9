//! kvmap: a namespaced key-value addressing layer.
//!
//! Keys are addressed as `namespace::group.subgroup.key`. Each namespace is
//! an independently managed store; this crate holds the routing and
//! lifecycle core — path parsing, the store-handle cache, namespace creation
//! and destruction, value and listing operations, and the idle-maintenance
//! decisions — as a verified model over plain values. Serialization of typed
//! values and the per-store persistence engine are outside collaborators and
//! stay at the edge of the host application, which mirrors every state
//! change of this model onto its backing files.

use vstd::prelude::*;

pub mod error;
pub mod keys;
pub mod laws;
pub mod listing;
pub mod path;
pub mod scheduler;
pub mod store;
pub mod text;

use crate::error::PathmapError;
use crate::keys::{
    has_key, index_of_key, lemma_index_of_key_found, lemma_index_of_key_not_found,
    lemma_index_of_key_props, lemma_index_of_key_push, lemma_index_of_key_witness, unique_keys,
};
use crate::listing::{classify, listing_of, Listing};
use crate::path::{has_sep, parse_path, path_key, path_ns, valid_value_path};
use crate::store::{key_is_under, Store};
use crate::text::{find_str_index, str_eq};

verus! {

struct NamespaceEntry {
    name: String,
    store: Store,
}

/// The namespace registry: routes every operation to the store backing the
/// addressed namespace, manages namespace creation and destruction, and
/// caches a handle per namespace once one has been resolved.
///
/// Its abstract state is, per namespace name: whether the namespace exists
/// ([`Pathmap::has_ns`]), its contents ([`Pathmap::ns_contents`]), and
/// whether a handle for it is cached ([`Pathmap::is_cached`]); plus the
/// configured base path ([`Pathmap::base`]).
pub struct Pathmap {
    base_path: String,
    namespaces: Vec<NamespaceEntry>,
    cached: Vec<String>,
}

/// `post` and `pre` agree on every namespace but `n`: each other namespace
/// exists in one exactly when it exists in the other, with the same
/// contents.
pub open spec fn same_namespaces_except(pre: Pathmap, post: Pathmap, n: Seq<char>) -> bool {
    &&& forall|o: Seq<char>| #![auto] o != n ==> post.has_ns(o) == pre.has_ns(o)
    &&& forall|o: Seq<char>| #![auto] o != n ==> post.ns_contents(o) == pre.ns_contents(o)
}

/// The cache entries of `post` and `pre` agree on every namespace but `n`.
pub open spec fn same_cache_except(pre: Pathmap, post: Pathmap, n: Seq<char>) -> bool {
    forall|o: Seq<char>| #![auto] o != n ==> post.is_cached(o) == pre.is_cached(o)
}

/// What a successful `init_ns` of `n` does: the namespace exists and is
/// empty, its fresh handle is cached, and nothing else changes.
pub open spec fn init_transition(pre: Pathmap, post: Pathmap, n: Seq<char>) -> bool {
    &&& post.has_ns(n)
    &&& post.ns_contents(n) == Map::<Seq<char>, Seq<u8>>::empty()
    &&& post.is_cached(n)
    &&& same_namespaces_except(pre, post, n)
    &&& same_cache_except(pre, post, n)
    &&& post.base() == pre.base()
}

/// What a successful write (`set` or `overwrite`) of value `v` at key `k`
/// of namespace `n` does: the namespace exists and holds `v` at `k` on top
/// of its previous contents, its handle is cached, and nothing else changes.
/// (An absent namespace has empty contents, so this also describes the
/// namespace that `overwrite` creates transparently.)
pub open spec fn write_transition(
    pre: Pathmap,
    post: Pathmap,
    n: Seq<char>,
    k: Seq<char>,
    v: Seq<u8>,
) -> bool {
    &&& post.has_ns(n)
    &&& post.ns_contents(n) == pre.ns_contents(n).insert(k, v)
    &&& post.is_cached(n)
    &&& same_namespaces_except(pre, post, n)
    &&& same_cache_except(pre, post, n)
    &&& post.base() == pre.base()
}

/// What a successful `delete` of key `k` in namespace `n` does: the key is
/// gone from the namespace's contents — whether or not it was present — the
/// namespace's handle is cached, and nothing else changes.
pub open spec fn remove_transition(pre: Pathmap, post: Pathmap, n: Seq<char>, k: Seq<char>) -> bool {
    &&& post.has_ns(n)
    &&& post.ns_contents(n) == pre.ns_contents(n).remove(k)
    &&& post.is_cached(n)
    &&& same_namespaces_except(pre, post, n)
    &&& same_cache_except(pre, post, n)
    &&& post.base() == pre.base()
}

/// What a successful `delete_ns` of `n` does: the namespace and its cached
/// handle are gone, and nothing else changes.
pub open spec fn destroy_transition(pre: Pathmap, post: Pathmap, n: Seq<char>) -> bool {
    &&& !post.has_ns(n)
    &&& !post.is_cached(n)
    &&& same_namespaces_except(pre, post, n)
    &&& same_cache_except(pre, post, n)
    &&& post.base() == pre.base()
}

/// What `exists_path` reports for a path with namespace `n` and key `k`:
/// the namespace exists and some key lies at or under `k`, honouring the
/// group boundary.
pub open spec fn path_present(s: Pathmap, n: Seq<char>, k: Seq<char>) -> bool {
    s.has_ns(n) && exists|q: Seq<char>|
        #[trigger] s.ns_contents(n).contains_key(q) && key_is_under(q, k)
}

impl Pathmap {
    /// The configured base path under which backing files live.
    pub closed spec fn base(self) -> Seq<char> {
        self.base_path@
    }

    /// The names of the existing namespaces, in creation order.
    pub closed spec fn ns_names(self) -> Seq<Seq<char>> {
        self.namespaces@.map_values(|e: NamespaceEntry| e.name@)
    }

    /// The namespace `n` exists (its backing store is present).
    pub open spec fn has_ns(self, n: Seq<char>) -> bool {
        has_key(self.ns_names(), n)
    }

    /// The contents of namespace `n`; an absent namespace is empty.
    pub closed spec fn ns_contents(self, n: Seq<char>) -> Map<Seq<char>, Seq<u8>> {
        if has_key(self.ns_names(), n) {
            self.namespaces@[index_of_key(self.ns_names(), n)].store.contents()
        } else {
            Map::empty()
        }
    }

    /// The keys of namespace `n`, in insertion order; empty if absent.
    pub closed spec fn ns_key_list(self, n: Seq<char>) -> Seq<Seq<char>> {
        if has_key(self.ns_names(), n) {
            self.namespaces@[index_of_key(self.ns_names(), n)].store.key_list()
        } else {
            Seq::empty()
        }
    }

    /// The names of the namespaces with a cached handle.
    pub closed spec fn cached_names(self) -> Seq<Seq<char>> {
        self.cached.deep_view()
    }

    /// A handle for namespace `n` is cached.
    pub open spec fn is_cached(self, n: Seq<char>) -> bool {
        has_key(self.cached_names(), n)
    }

    /// Well-formed: namespace names are unique, every store is well-formed,
    /// cache entries are unique, and no handle outlives its namespace.
    pub closed spec fn wf(self) -> bool {
        &&& unique_keys(self.ns_names())
        &&& forall|i: int|
            0 <= i < self.namespaces@.len() ==> (#[trigger] self.namespaces@[i]).store.wf()
        &&& unique_keys(self.cached_names())
        &&& forall|i: int|
            0 <= i < self.cached_names().len() ==> has_key(
                self.ns_names(),
                #[trigger] self.cached_names()[i],
            )
    }

    /// A fresh registry over the default base path, with no namespaces and
    /// an empty handle cache.
    pub fn new() -> (r: Pathmap)
        ensures
            r.wf(),
            forall|o: Seq<char>| #![auto] !r.has_ns(o),
            forall|o: Seq<char>| #![auto] !r.is_cached(o),
            r.base() == "/opt/pathmap/"@,
    {
        let r = Pathmap {
            base_path: "/opt/pathmap/".to_owned(),
            namespaces: Vec::new(),
            cached: Vec::new(),
        };
        proof {
            assert(r.ns_names() =~= Seq::<Seq<char>>::empty());
            assert(r.cached_names() =~= Seq::<Seq<char>>::empty());
            assert forall|o: Seq<char>| #![auto] !r.has_ns(o) && !r.is_cached(o) by {
                lemma_index_of_key_props(r.ns_names(), o);
                lemma_index_of_key_props(r.cached_names(), o);
            }
        }
        r
    }

    /// Overrides the base path. Configuration happens once, before any
    /// namespace has been touched.
    pub fn with_base_path(self, p: &str) -> (r: Pathmap)
        requires
            self.wf(),
            forall|o: Seq<char>| #![auto] !self.has_ns(o),
        ensures
            r.wf(),
            forall|o: Seq<char>| #![auto] !r.has_ns(o),
            forall|o: Seq<char>| #![auto] !r.is_cached(o),
            r.base() == p@,
    {
        let ghost pre = self;
        let r = Pathmap {
            base_path: p.to_owned(),
            namespaces: self.namespaces,
            cached: self.cached,
        };
        proof {
            assert(r.ns_names() == pre.ns_names());
            assert(r.cached_names() == pre.cached_names());
            assert forall|o: Seq<char>| #![auto] !r.has_ns(o) && !r.is_cached(o) by {
                assert(!pre.has_ns(o));
                lemma_index_of_key_props(pre.cached_names(), o);
                if has_key(pre.cached_names(), o) {
                    let i = index_of_key(pre.cached_names(), o);
                    assert(has_key(pre.ns_names(), pre.cached_names()[i]));
                    assert(!pre.has_ns(pre.cached_names()[i]));
                }
            }
        }
        r
    }

    /// Index of the namespace entry named `ns`, if the namespace exists.
    fn find_ns(&self, ns: &str) -> (r: Option<usize>)
        ensures
            match r {
                Some(i) => i < self.namespaces@.len() && self.ns_names()[i as int] == ns@
                    && index_of_key(self.ns_names(), ns@) == i,
                None => !self.has_ns(ns@),
            },
    {
        let mut i: usize = 0;
        while i < self.namespaces.len()
            invariant
                i <= self.namespaces@.len(),
                forall|j: int| 0 <= j < i ==> self.ns_names()[j] != ns@,
            decreases self.namespaces@.len() - i,
        {
            if str_eq(self.namespaces[i].name.as_str(), ns) {
                proof {
                    assert(self.ns_names()[i as int] == ns@);
                    lemma_index_of_key_found(self.ns_names(), ns@, i as int);
                }
                return Some(i);
            }
            proof {
                assert(self.ns_names()[i as int] == self.namespaces@[i as int].name@);
            }
            i += 1;
        }
        proof {
            lemma_index_of_key_not_found(self.ns_names(), ns@);
        }
        None
    }

    /// Records a handle for `ns` in the cache if none is there yet.
    fn touch_cache(&mut self, ns: &str)
        requires
            old(self).wf(),
            old(self).has_ns(ns@),
        ensures
            final(self).wf(),
            final(self).is_cached(ns@),
            same_cache_except(*old(self), *final(self), ns@),
            final(self).namespaces == old(self).namespaces,
            final(self).base_path == old(self).base_path,
    {
        if let Some(_) = find_str_index(&self.cached, ns) {
            return ;
        }
        let ghost ocn = self.cached_names();
        self.cached.push(ns.to_owned());
        proof {
            assert(self.cached_names() =~= ocn.push(ns@));
            assert forall|o: Seq<char>| #![auto]
                has_key(self.cached_names(), o) == (has_key(ocn, o) || o == ns@) by {
                lemma_index_of_key_push(ocn, ns@, o);
                lemma_index_of_key_props(ocn, o);
            }
            assert(self.wf()) by {
                assert forall|i2: int, j2: int|
                    0 <= i2 < j2 < self.cached_names().len() implies self.cached_names()[i2]
                    != self.cached_names()[j2] by {
                    if j2 == ocn.len() as int {
                        lemma_index_of_key_props(ocn, ns@);
                    }
                }
                assert forall|i2: int|
                    0 <= i2 < self.cached_names().len() implies has_key(
                    self.ns_names(),
                    #[trigger] self.cached_names()[i2],
                ) by {
                    if i2 < ocn.len() as int {
                        assert(has_key(old(self).ns_names(), ocn[i2]));
                    }
                }
            }
        }
    }

    /// Drops any cached handle for `ns`.
    fn evict_cache(&mut self, ns: &str)
        requires
            old(self).wf(),
        ensures
            final(self).wf(),
            !final(self).is_cached(ns@),
            same_cache_except(*old(self), *final(self), ns@),
            final(self).namespaces == old(self).namespaces,
            final(self).base_path == old(self).base_path,
    {
        if let Some(i) = find_str_index(&self.cached, ns) {
            let ghost pre = *self;
            self.cached.remove(i);
            proof {
                self.lemma_cache_removed(pre, i as int, ns@);
            }
        }
    }

    proof fn lemma_cache_removed(self, pre: Pathmap, i: int, n: Seq<char>)
        requires
            pre.wf(),
            0 <= i < pre.cached_names().len(),
            pre.cached_names()[i] == n,
            self.cached@ == pre.cached@.remove(i),
            self.namespaces == pre.namespaces,
            self.base_path == pre.base_path,
        ensures
            self.wf(),
            !self.is_cached(n),
            same_cache_except(pre, self, n),
    {
        let ocn = pre.cached_names();
        let ncn = self.cached_names();
        assert(ncn =~= ocn.remove(i));
        assert forall|o: Seq<char>| #![auto] has_key(ncn, o) == (has_key(ocn, o) && o != n) by {
            lemma_index_of_key_props(ocn, o);
            lemma_index_of_key_props(ncn, o);
            if has_key(ncn, o) {
                let rn = index_of_key(ncn, o);
                let p = if rn < i {
                    rn
                } else {
                    rn + 1
                };
                assert(ocn[p] == o);
                lemma_index_of_key_witness(ocn, o, p);
                assert(o != n);
            } else if has_key(ocn, o) && o != n {
                let ro = index_of_key(ocn, o);
                assert(ocn[ro] == o);
                assert(ro != i);
                let pn = if ro < i {
                    ro
                } else {
                    ro - 1
                };
                assert(ncn[pn] == o);
                lemma_index_of_key_witness(ncn, o, pn);
            }
        }
        assert(self.wf()) by {
            assert forall|i2: int, j2: int|
                0 <= i2 < j2 < ncn.len() implies ncn[i2] != ncn[j2] by {
                let p2 = if i2 < i {
                    i2
                } else {
                    i2 + 1
                };
                let q2 = if j2 < i {
                    j2
                } else {
                    j2 + 1
                };
                assert(ncn[i2] == ocn[p2]);
                assert(ncn[j2] == ocn[q2]);
            }
            assert forall|i2: int|
                0 <= i2 < ncn.len() implies has_key(self.ns_names(), #[trigger] ncn[i2]) by {
                let p2 = if i2 < i {
                    i2
                } else {
                    i2 + 1
                };
                assert(ncn[i2] == ocn[p2]);
                assert(has_key(pre.ns_names(), ocn[p2]));
            }
        }
    }

    /// The keys of a namespace are exactly the keys of its contents: what
    /// `list` classifies is what `get` can read.
    pub proof fn lemma_ns_keys_match_contents(self, n: Seq<char>)
        ensures
            forall|k: Seq<char>| #![auto]
                self.ns_key_list(n).contains(k) == self.ns_contents(n).contains_key(k),
    {
        if has_key(self.ns_names(), n) {
            lemma_index_of_key_props(self.ns_names(), n);
            let st = self.namespaces@[index_of_key(self.ns_names(), n)].store;
            st.lemma_views_agree();
        }
    }

    /// Creates a new namespace with an empty backing store, failing with
    /// `NamespaceAlreadyExists` if it already exists. The fresh handle is
    /// cached at once.
    pub fn init_ns(&mut self, ns: &str) -> (r: Result<bool, PathmapError>)
        requires
            old(self).wf(),
        ensures
            final(self).wf(),
            r is Ok <==> !old(self).has_ns(ns@),
            r matches Ok(b) ==> b && init_transition(*old(self), *final(self), ns@),
            r matches Err(e) ==> *final(self) == *old(self) && (e matches
                PathmapError::NamespaceAlreadyExists(q) && q@ == ns@),
    {
        match self.find_ns(ns) {
            Some(_) => Err(PathmapError::NamespaceAlreadyExists(ns.to_owned())),
            None => {
                let ghost pre = *self;
                let st = Store::new();
                self.namespaces.push(NamespaceEntry { name: ns.to_owned(), store: st });
                proof {
                    self.lemma_ns_push(pre, ns@);
                    assert(self.ns_contents(ns@) =~= Map::<Seq<char>, Seq<u8>>::empty());
                }
                self.touch_cache(ns);
                Ok(true)
            },
        }
    }

    /// Destroys a namespace: any cached handle is dropped first (so a
    /// half-completed destroy is recoverable by calling again), then the
    /// backing store is removed; `NamespaceNotFound` if there is none.
    pub fn delete_ns(&mut self, ns: &str) -> (r: Result<bool, PathmapError>)
        requires
            old(self).wf(),
        ensures
            final(self).wf(),
            !final(self).is_cached(ns@),
            r is Ok <==> old(self).has_ns(ns@),
            r matches Ok(b) ==> b && destroy_transition(*old(self), *final(self), ns@),
            r matches Err(e) ==> (e matches PathmapError::NamespaceNotFound(q) && q@ == ns@)
                && same_cache_except(*old(self), *final(self), ns@)
                && (forall|o: Seq<char>| #![auto] final(self).has_ns(o) == old(self).has_ns(o))
                && (forall|o: Seq<char>| #![auto]
                    final(self).ns_contents(o) == old(self).ns_contents(o))
                && final(self).base() == old(self).base(),
    {
        self.evict_cache(ns);
        let ghost mid = *self;
        match self.find_ns(ns) {
            None => Err(PathmapError::NamespaceNotFound(ns.to_owned())),
            Some(i) => {
                self.namespaces.remove(i);
                proof {
                    self.lemma_ns_removed(mid, i as int);
                }
                Ok(true)
            },
        }
    }

    /// Reads the value stored at `path` (`namespace::group.key`). Fails with
    /// `InvalidPath` on a path without separator or key, `NamespaceNotFound`
    /// if the namespace's store is absent, and `ValueNotFound` if the key is
    /// absent. Resolving the namespace caches its handle.
    pub fn get(&mut self, path: &str) -> (r: Result<Vec<u8>, PathmapError>)
        requires
            old(self).wf(),
        ensures
            final(self).wf(),
            forall|o: Seq<char>| #![auto] final(self).has_ns(o) == old(self).has_ns(o),
            forall|o: Seq<char>| #![auto] final(self).ns_contents(o) == old(self).ns_contents(o),
            final(self).base() == old(self).base(),
            !valid_value_path(path@) ==> (r matches Err(e) && e matches PathmapError::InvalidPath(
                q,
            ) && q@ == path@) && *final(self) == *old(self),
            valid_value_path(path@) && !old(self).has_ns(path_ns(path@)) ==> (r matches Err(e)
                && e matches PathmapError::NamespaceNotFound(q) && q@ == path_ns(path@)) && *final(self) == *old(self),
            valid_value_path(path@) && old(self).has_ns(path_ns(path@)) ==> final(self).is_cached(
                path_ns(path@),
            ) && same_cache_except(*old(self), *final(self), path_ns(path@)),
            valid_value_path(path@) && old(self).has_ns(path_ns(path@)) && old(self).ns_contents(
                path_ns(path@),
            ).contains_key(path_key(path@)) ==> (r matches Ok(v) && v@ == old(self).ns_contents(
                path_ns(path@),
            )[path_key(path@)]),
            valid_value_path(path@) && old(self).has_ns(path_ns(path@)) && !old(self).ns_contents(
                path_ns(path@),
            ).contains_key(path_key(path@)) ==> (r matches Err(e) && e matches
                PathmapError::ValueNotFound(q) && q@ == path_key(path@)),
    {
        let (ns, key) = match parse_path(path) {
            Ok(p) => p,
            Err(e) => {
                return Err(e);
            },
        };
        if key.unicode_len() == 0 {
            return Err(PathmapError::InvalidPath(path.to_owned()));
        }
        let i = match self.find_ns(ns) {
            Some(i) => i,
            None => {
                return Err(PathmapError::NamespaceNotFound(ns.to_owned()));
            },
        };
        let got = self.namespaces[i].store.get(key);
        proof {
            assert(self.ns_contents(ns@) == self.namespaces@[i as int].store.contents());
        }
        self.touch_cache(ns);
        match got {
            Some(v) => Ok(v),
            None => Err(PathmapError::ValueNotFound(key.to_owned())),
        }
    }

    /// Stores `value` at `path` only if the key is absent, failing with
    /// `ValueAlreadyExists` otherwise (and leaving the stored value
    /// unchanged). The namespace must exist. Resolving it caches its handle.
    pub fn set(&mut self, path: &str, value: Vec<u8>) -> (r: Result<(), PathmapError>)
        requires
            old(self).wf(),
        ensures
            final(self).wf(),
            final(self).base() == old(self).base(),
            r is Ok <==> valid_value_path(path@) && old(self).has_ns(path_ns(path@)) && !old(self).ns_contents(path_ns(path@)).contains_key(path_key(path@)),
            r is Ok ==> write_transition(
                *old(self),
                *final(self),
                path_ns(path@),
                path_key(path@),
                value@,
            ),
            !valid_value_path(path@) ==> (r matches Err(e) && e matches PathmapError::InvalidPath(
                q,
            ) && q@ == path@) && *final(self) == *old(self),
            valid_value_path(path@) && !old(self).has_ns(path_ns(path@)) ==> (r matches Err(e)
                && e matches PathmapError::NamespaceNotFound(q) && q@ == path_ns(path@)) && *final(self) == *old(self),
            valid_value_path(path@) && old(self).has_ns(path_ns(path@)) && old(self).ns_contents(
                path_ns(path@),
            ).contains_key(path_key(path@)) ==> (r matches Err(e) && e matches
                PathmapError::ValueAlreadyExists(q) && q@ == path_key(path@)) && (forall|
                o: Seq<char>,
            | #![auto] final(self).has_ns(o) == old(self).has_ns(o)) && (forall|o: Seq<char>|
                #![auto] final(self).ns_contents(o) == old(self).ns_contents(o)) && final(self).is_cached(path_ns(path@)) && same_cache_except(*old(self), *final(self), path_ns(path@)),
    {
        let (ns, key) = match parse_path(path) {
            Ok(p) => p,
            Err(e) => {
                return Err(e);
            },
        };
        if key.unicode_len() == 0 {
            return Err(PathmapError::InvalidPath(path.to_owned()));
        }
        let i = match self.find_ns(ns) {
            Some(i) => i,
            None => {
                return Err(PathmapError::NamespaceNotFound(ns.to_owned()));
            },
        };
        self.touch_cache(ns);
        let ghost mid = *self;
        let mut entry = self.namespaces.remove(i);
        let inserted = entry.store.set(key, value);
        self.namespaces.insert(i, entry);
        proof {
            assert(self.namespaces@ =~= mid.namespaces@.update(i as int, self.namespaces@[i as int]));
            self.lemma_store_update(mid, i as int);
        }
        if inserted {
            Ok(())
        } else {
            Err(PathmapError::ValueAlreadyExists(key.to_owned()))
        }
    }

    /// Stores `value` at `path` unconditionally, creating the namespace
    /// transparently if it does not exist. Fails only on an invalid path.
    pub fn overwrite(&mut self, path: &str, value: Vec<u8>) -> (r: Result<(), PathmapError>)
        requires
            old(self).wf(),
        ensures
            final(self).wf(),
            r is Ok <==> valid_value_path(path@),
            r is Ok ==> write_transition(
                *old(self),
                *final(self),
                path_ns(path@),
                path_key(path@),
                value@,
            ),
            r matches Err(e) ==> (e matches PathmapError::InvalidPath(q) && q@ == path@) && *final(self) == *old(self),
    {
        let (ns, key) = match parse_path(path) {
            Ok(p) => p,
            Err(e) => {
                return Err(e);
            },
        };
        if key.unicode_len() == 0 {
            return Err(PathmapError::InvalidPath(path.to_owned()));
        }
        let i = match self.find_ns(ns) {
            Some(i) => i,
            None => {
                let ghost pre = *self;
                let st = Store::new();
                self.namespaces.push(NamespaceEntry { name: ns.to_owned(), store: st });
                proof {
                    self.lemma_ns_push(pre, ns@);
                    assert(self.ns_contents(ns@) =~= Map::<Seq<char>, Seq<u8>>::empty());
                }
                self.namespaces.len() - 1
            },
        };
        proof {
            assert(self.ns_names()[i as int] == ns@);
        }
        self.touch_cache(ns);
        let ghost mid = *self;
        let mut entry = self.namespaces.remove(i);
        entry.store.overwrite(key, value);
        self.namespaces.insert(i, entry);
        proof {
            assert(self.namespaces@ =~= mid.namespaces@.update(i as int, self.namespaces@[i as int]));
            self.lemma_store_update(mid, i as int);
        }
        Ok(())
    }

    /// Deletes the value at `path`. Deleting an absent key is not an error;
    /// the namespace must exist. Resolving it caches its handle.
    pub fn delete(&mut self, path: &str) -> (r: Result<(), PathmapError>)
        requires
            old(self).wf(),
        ensures
            final(self).wf(),
            final(self).base() == old(self).base(),
            r is Ok <==> valid_value_path(path@) && old(self).has_ns(path_ns(path@)),
            r is Ok ==> remove_transition(
                *old(self),
                *final(self),
                path_ns(path@),
                path_key(path@),
            ),
            !valid_value_path(path@) ==> (r matches Err(e) && e matches PathmapError::InvalidPath(
                q,
            ) && q@ == path@) && *final(self) == *old(self),
            valid_value_path(path@) && !old(self).has_ns(path_ns(path@)) ==> (r matches Err(e)
                && e matches PathmapError::NamespaceNotFound(q) && q@ == path_ns(path@)) && *final(self) == *old(self),
    {
        let (ns, key) = match parse_path(path) {
            Ok(p) => p,
            Err(e) => {
                return Err(e);
            },
        };
        if key.unicode_len() == 0 {
            return Err(PathmapError::InvalidPath(path.to_owned()));
        }
        let i = match self.find_ns(ns) {
            Some(i) => i,
            None => {
                return Err(PathmapError::NamespaceNotFound(ns.to_owned()));
            },
        };
        self.touch_cache(ns);
        let ghost mid = *self;
        let mut entry = self.namespaces.remove(i);
        entry.store.delete(key);
        self.namespaces.insert(i, entry);
        proof {
            assert(self.namespaces@ =~= mid.namespaces@.update(i as int, self.namespaces@[i as int]));
            self.lemma_store_update(mid, i as int);
        }
        Ok(())
    }

    /// Three-level existence check. A path without the namespace separator
    /// asks whether that namespace's store exists; a full path asks whether
    /// a value or group is present at or under its key. An absent namespace
    /// answers `false` — an existence check never creates anything.
    pub fn exists_path(&mut self, path: &str) -> (r: Result<bool, PathmapError>)
        requires
            old(self).wf(),
        ensures
            final(self).wf(),
            forall|o: Seq<char>| #![auto] final(self).has_ns(o) == old(self).has_ns(o),
            forall|o: Seq<char>| #![auto] final(self).ns_contents(o) == old(self).ns_contents(o),
            final(self).base() == old(self).base(),
            !has_sep(path@) ==> (r matches Ok(b) && b == old(self).has_ns(path@)) && *final(self)
                == *old(self),
            has_sep(path@) && path_key(path@).len() == 0 ==> (r matches Err(e) && e matches
                PathmapError::InvalidPath(q) && q@ == path@) && *final(self) == *old(self),
            valid_value_path(path@) && !old(self).has_ns(path_ns(path@)) ==> (r matches Ok(b) && !b)
                && *final(self) == *old(self),
            valid_value_path(path@) && old(self).has_ns(path_ns(path@)) ==> (r matches Ok(b) && b
                == path_present(*old(self), path_ns(path@), path_key(path@))) && final(self).is_cached(path_ns(path@)) && same_cache_except(*old(self), *final(self), path_ns(path@)),
    {
        let parsed = parse_path(path);
        match parsed {
            Err(_) => {
                match self.find_ns(path) {
                    Some(_) => Ok(true),
                    None => Ok(false),
                }
            },
            Ok((ns, key)) => {
                if key.unicode_len() == 0 {
                    return Err(PathmapError::InvalidPath(path.to_owned()));
                }
                match self.find_ns(ns) {
                    None => Ok(false),
                    Some(i) => {
                        let b = self.namespaces[i].store.exists_under(key);
                        proof {
                            assert(self.ns_contents(ns@) == self.namespaces@[
                                i as int
                            ].store.contents());
                            assert(b == path_present(*old(self), ns@, key@));
                        }
                        self.touch_cache(ns);
                        Ok(b)
                    },
                }
            },
        }
    }

    /// Synchronously compacts a namespace's backing store, failing with
    /// `NamespaceNotFound` if it cannot be resolved. Compaction reclaims
    /// space and preserves every stored value.
    pub fn manual_cleanup(&mut self, ns: &str) -> (r: Result<(), PathmapError>)
        requires
            old(self).wf(),
        ensures
            final(self).wf(),
            forall|o: Seq<char>| #![auto] final(self).has_ns(o) == old(self).has_ns(o),
            forall|o: Seq<char>| #![auto] final(self).ns_contents(o) == old(self).ns_contents(o),
            final(self).base() == old(self).base(),
            r is Ok <==> old(self).has_ns(ns@),
            r is Ok ==> final(self).is_cached(ns@) && same_cache_except(
                *old(self),
                *final(self),
                ns@,
            ),
            r matches Err(e) ==> (e matches PathmapError::NamespaceNotFound(q) && q@ == ns@)
                && *final(self) == *old(self),
    {
        match self.find_ns(ns) {
            None => Err(PathmapError::NamespaceNotFound(ns.to_owned())),
            Some(_) => {
                self.touch_cache(ns);
                Ok(())
            },
        }
    }

    /// Lists the immediate children of a path: the distinct sub-group names
    /// below it and the value names stored directly at it. A bare namespace
    /// path lists the namespace root. Fails with `NamespaceNotFound` if the
    /// namespace's store is absent. Resolving the namespace caches its
    /// handle.
    pub fn list(&mut self, path: &str) -> (r: Result<Listing, PathmapError>)
        requires
            old(self).wf(),
        ensures
            final(self).wf(),
            forall|o: Seq<char>| #![auto] final(self).has_ns(o) == old(self).has_ns(o),
            forall|o: Seq<char>| #![auto] final(self).ns_contents(o) == old(self).ns_contents(o),
            final(self).base() == old(self).base(),
            !has_sep(path@) && old(self).has_ns(path@) ==> (r matches Ok(l) && listing_of(
                l,
                old(self).ns_key_list(path@),
                Seq::<char>::empty(),
            )) && final(self).is_cached(path@) && same_cache_except(*old(self), *final(self), path@),
            !has_sep(path@) && !old(self).has_ns(path@) ==> (r matches Err(e) && e matches
                PathmapError::NamespaceNotFound(q) && q@ == path@) && *final(self) == *old(self),
            has_sep(path@) && path_key(path@).len() == 0 ==> (r matches Err(e) && e matches
                PathmapError::InvalidPath(q) && q@ == path@) && *final(self) == *old(self),
            valid_value_path(path@) && !old(self).has_ns(path_ns(path@)) ==> (r matches Err(e)
                && e matches PathmapError::NamespaceNotFound(q) && q@ == path_ns(path@)) && *final(self)
                == *old(self),
            valid_value_path(path@) && old(self).has_ns(path_ns(path@)) ==> (r matches Ok(l)
                && listing_of(l, old(self).ns_key_list(path_ns(path@)), path_key(path@))) && final(self).is_cached(path_ns(path@)) && same_cache_except(*old(self), *final(self), path_ns(path@)),
    {
        let parsed = parse_path(path);
        match parsed {
            Err(_) => {
                let i = match self.find_ns(path) {
                    Some(i) => i,
                    None => {
                        return Err(PathmapError::NamespaceNotFound(path.to_owned()));
                    },
                };
                let ks = self.namespaces[i].store.all_keys();
                proof {
                    assert(self.ns_key_list(path@) == self.namespaces@[i as int].store.key_list());
                    reveal_strlit("");
                    assert(""@ =~= Seq::<char>::empty());
                }
                let l = classify(&ks, "");
                self.touch_cache(path);
                Ok(l)
            },
            Ok((ns, key)) => {
                if key.unicode_len() == 0 {
                    return Err(PathmapError::InvalidPath(path.to_owned()));
                }
                let i = match self.find_ns(ns) {
                    Some(i) => i,
                    None => {
                        return Err(PathmapError::NamespaceNotFound(ns.to_owned()));
                    },
                };
                let ks = self.namespaces[i].store.all_keys();
                proof {
                    assert(self.ns_key_list(ns@) == self.namespaces@[i as int].store.key_list());
                }
                let l = classify(&ks, key);
                self.touch_cache(ns);
                Ok(l)
            },
        }
    }

    /// The backing file for namespace `ns`: `<ns>.sqlite` under the base
    /// path, with a path separator inserted unless the base already ends in
    /// one.
    pub fn get_db_path(&self, ns: &str) -> (r: String)
        ensures
            r@ == db_file_of(self.base(), ns@),
    {
        let mut s = self.base_path.clone();
        let blen = self.base_path.as_str().unicode_len();
        if !(blen > 0 && self.base_path.as_str().get_char(blen - 1) == '/') {
            s.append("/");
            proof {
                reveal_strlit("/");
            }
        }
        s.append(ns);
        s.append(".sqlite");
        proof {
            assert(s@ =~= db_file_of(self.base(), ns@));
        }
        s
    }

    /// The names of all existing namespaces, in creation order.
    pub fn list_ns(&self) -> (r: Vec<String>)
        ensures
            r.deep_view() =~= self.ns_names(),
    {
        let mut r: Vec<String> = Vec::new();
        let mut i: usize = 0;
        while i < self.namespaces.len()
            invariant
                i <= self.namespaces@.len(),
                r.deep_view().len() == i,
                forall|j: int| 0 <= j < i ==> r.deep_view()[j] == self.ns_names()[j],
            decreases self.namespaces@.len() - i,
        {
            r.push(self.namespaces[i].name.clone());
            proof {
                assert(self.ns_names()[i as int] == self.namespaces@[i as int].name@);
            }
            i += 1;
        }
        r
    }

    /// After a fresh entry was appended, the registry gains exactly that
    /// namespace and nothing else changes.
    proof fn lemma_ns_push(self, pre: Pathmap, n: Seq<char>)
        requires
            pre.wf(),
            !pre.has_ns(n),
            self.namespaces@.len() == pre.namespaces@.len() + 1,
            forall|j: int|
                0 <= j < pre.namespaces@.len() ==> self.namespaces@[j] == pre.namespaces@[j],
            self.namespaces@[pre.namespaces@.len() as int].name@ == n,
            self.namespaces@[pre.namespaces@.len() as int].store.wf(),
            self.cached == pre.cached,
            self.base_path == pre.base_path,
        ensures
            self.wf(),
            self.has_ns(n),
            index_of_key(self.ns_names(), n) == pre.namespaces@.len(),
            self.ns_contents(n) == self.namespaces@[pre.namespaces@.len() as int].store.contents(),
            forall|o: Seq<char>| #![auto] o != n ==> self.has_ns(o) == pre.has_ns(o),
            forall|o: Seq<char>| #![auto] o != n ==> self.ns_contents(o) == pre.ns_contents(o),
            forall|o: Seq<char>| #![auto] self.is_cached(o) == pre.is_cached(o),
            self.base() == pre.base(),
    {
        let onames = pre.ns_names();
        let nnames = self.ns_names();
        assert(nnames =~= onames.push(n));
        lemma_index_of_key_props(onames, n);
        lemma_index_of_key_push(onames, n, n);
        assert forall|o: Seq<char>| #![auto]
            o != n implies has_key(nnames, o) == has_key(onames, o) && (has_key(onames, o)
            ==> index_of_key(nnames, o) == index_of_key(onames, o)) by {
            lemma_index_of_key_push(onames, n, o);
        }
        assert forall|o: Seq<char>| #![auto]
            o != n implies self.ns_contents(o) == pre.ns_contents(o) by {
            lemma_index_of_key_push(onames, n, o);
            lemma_index_of_key_props(onames, o);
            if has_key(onames, o) {
                let r = index_of_key(onames, o);
                assert(self.namespaces@[r] == pre.namespaces@[r]);
            }
        }
        assert(self.wf()) by {
            assert forall|i2: int, j2: int|
                0 <= i2 < j2 < nnames.len() implies nnames[i2] != nnames[j2] by {
                if j2 == onames.len() as int {
                    assert(nnames[j2] == n);
                    lemma_index_of_key_props(onames, n);
                    assert(onames[i2] != n);
                }
            }
            assert forall|j: int|
                0 <= j < self.namespaces@.len() implies (#[trigger] self.namespaces@[j]).store.wf()
            by {
                if j < pre.namespaces@.len() {
                    assert(self.namespaces@[j] == pre.namespaces@[j]);
                }
            }
            assert forall|i2: int|
                0 <= i2 < self.cached_names().len() implies has_key(
                self.ns_names(),
                #[trigger] self.cached_names()[i2],
            ) by {
                assert(has_key(onames, pre.cached_names()[i2]));
                lemma_index_of_key_push(onames, n, pre.cached_names()[i2]);
            }
        }
    }

    /// After the entry at `i` was removed — with no cached handle left for
    /// it — the registry loses exactly that namespace and nothing else
    /// changes.
    proof fn lemma_ns_removed(self, pre: Pathmap, i: int)
        requires
            pre.wf(),
            0 <= i < pre.namespaces@.len(),
            self.namespaces@ == pre.namespaces@.remove(i),
            !pre.is_cached(pre.namespaces@[i].name@),
            self.cached == pre.cached,
            self.base_path == pre.base_path,
        ensures
            self.wf(),
            !self.has_ns(pre.namespaces@[i].name@),
            forall|o: Seq<char>| #![auto]
                o != pre.namespaces@[i].name@ ==> self.has_ns(o) == pre.has_ns(o),
            forall|o: Seq<char>| #![auto]
                o != pre.namespaces@[i].name@ ==> self.ns_contents(o) == pre.ns_contents(o),
            forall|o: Seq<char>| #![auto] self.is_cached(o) == pre.is_cached(o),
            self.base() == pre.base(),
    {
        let n = pre.namespaces@[i].name@;
        let onames = pre.ns_names();
        let nnames = self.ns_names();
        assert(onames[i] == n);
        assert(nnames =~= onames.remove(i));
        assert forall|o: Seq<char>| #![auto]
            has_key(nnames, o) == (has_key(onames, o) && o != n) && (o != n && has_key(onames, o)
            ==> self.namespaces@[index_of_key(nnames, o)] == pre.namespaces@[index_of_key(
                onames,
                o,
            )]) by {
            lemma_index_of_key_props(onames, o);
            lemma_index_of_key_props(nnames, o);
            if has_key(nnames, o) {
                let rn = index_of_key(nnames, o);
                let p = if rn < i {
                    rn
                } else {
                    rn + 1
                };
                assert(nnames[rn] == onames[p]);
                lemma_index_of_key_witness(onames, o, p);
                assert(o != n);
                let ro = index_of_key(onames, o);
                assert(onames[ro] == o);
                assert(ro == p);
                assert(self.namespaces@[rn] == pre.namespaces@[p]);
            } else if has_key(onames, o) && o != n {
                let ro = index_of_key(onames, o);
                assert(onames[ro] == o);
                assert(ro != i);
                let pn = if ro < i {
                    ro
                } else {
                    ro - 1
                };
                assert(nnames[pn] == onames[ro]);
                lemma_index_of_key_witness(nnames, o, pn);
            }
        }
        assert forall|o: Seq<char>| #![auto]
            o != n implies self.ns_contents(o) == pre.ns_contents(o) by {
        }
        assert(self.wf()) by {
            assert forall|i2: int, j2: int|
                0 <= i2 < j2 < nnames.len() implies nnames[i2] != nnames[j2] by {
                let p2 = if i2 < i {
                    i2
                } else {
                    i2 + 1
                };
                let q2 = if j2 < i {
                    j2
                } else {
                    j2 + 1
                };
                assert(nnames[i2] == onames[p2]);
                assert(nnames[j2] == onames[q2]);
            }
            assert forall|j: int|
                0 <= j < self.namespaces@.len() implies (#[trigger] self.namespaces@[j]).store.wf()
            by {
                let p = if j < i {
                    j
                } else {
                    j + 1
                };
                assert(self.namespaces@[j] == pre.namespaces@[p]);
            }
            assert forall|i2: int|
                0 <= i2 < self.cached_names().len() implies has_key(
                self.ns_names(),
                #[trigger] self.cached_names()[i2],
            ) by {
                let c = pre.cached_names()[i2];
                assert(has_key(onames, c));
                if c == n {
                    lemma_index_of_key_witness(pre.cached_names(), c, i2);
                    assert(pre.is_cached(n));
                }
            }
        }
    }

    /// After an entry's store was replaced in place (same name, same
    /// position), the registry's abstract state changes only at that
    /// namespace, whose contents are now the new store's.
    proof fn lemma_store_update(self, pre: Pathmap, i: int)
        requires
            pre.wf(),
            0 <= i < pre.namespaces@.len(),
            self.namespaces@.len() == pre.namespaces@.len(),
            forall|j: int|
                0 <= j < pre.namespaces@.len() && j != i ==> self.namespaces@[j]
                    == pre.namespaces@[j],
            self.namespaces@[i].name@ == pre.namespaces@[i].name@,
            self.namespaces@[i].store.wf(),
            self.cached == pre.cached,
            self.base_path == pre.base_path,
        ensures
            self.wf(),
            self.ns_names() == pre.ns_names(),
            self.base() == pre.base(),
            forall|o: Seq<char>| #![auto] self.has_ns(o) == pre.has_ns(o),
            forall|o: Seq<char>| #![auto] self.is_cached(o) == pre.is_cached(o),
            self.has_ns(pre.namespaces@[i].name@),
            self.ns_contents(pre.namespaces@[i].name@) == self.namespaces@[i].store.contents(),
            self.ns_key_list(pre.namespaces@[i].name@) == self.namespaces@[i].store.key_list(),
            forall|o: Seq<char>| #![auto]
                o != pre.namespaces@[i].name@ ==> self.ns_contents(o) == pre.ns_contents(o),
    {
        let n = pre.namespaces@[i].name@;
        assert(self.ns_names() =~= pre.ns_names());
        lemma_index_of_key_witness(pre.ns_names(), n, i);
        assert(index_of_key(self.ns_names(), n) == i) by {
            lemma_index_of_key_props(self.ns_names(), n);
            let r = index_of_key(self.ns_names(), n);
            assert(self.ns_names()[r] == n);
            if r != i {
                assert(false);
            }
        }
        assert forall|o: Seq<char>| #![auto]
            o != n && has_key(self.ns_names(), o) implies self.ns_contents(o)
            == pre.ns_contents(o) by {
            lemma_index_of_key_props(self.ns_names(), o);
            let r = index_of_key(self.ns_names(), o);
            assert(self.ns_names()[r] == o);
            assert(r != i);
            assert(self.namespaces@[r] == pre.namespaces@[r]);
        }
        assert(self.wf()) by {
            assert forall|j: int|
                0 <= j < self.namespaces@.len() implies (#[trigger] self.namespaces@[j]).store.wf()
            by {
                if j != i {
                    assert(self.namespaces@[j] == pre.namespaces@[j]);
                }
            }
        }
    }
}

/// The backing file name for namespace `n` under `base`:
/// `<base>/<n>.sqlite`, with the separator inserted only where `base` does
/// not already end in one.
pub open spec fn db_file_of(base: Seq<char>, n: Seq<char>) -> Seq<char> {
    if base.len() > 0 && base[base.len() - 1] == '/' {
        base + n + ".sqlite"@
    } else {
        base + "/"@ + n + ".sqlite"@
    }
}

impl Default for Pathmap {
    /// Same as [`Pathmap::new`].
    fn default() -> (r: Pathmap)
        ensures
            r.wf(),
            forall|o: Seq<char>| #![auto] !r.has_ns(o),
            forall|o: Seq<char>| #![auto] !r.is_cached(o),
            r.base() == "/opt/pathmap/"@,
    {
        Pathmap::new()
    }
}

} // verus!
