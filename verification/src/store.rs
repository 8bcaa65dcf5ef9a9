//! One namespace's keyed contents.
//!
//! A `Store` models the contents of a single namespace's backing store: a
//! mapping from key strings (with `.` separating hierarchy segments) to
//! opaque byte values, kept in insertion order. Its abstract view is the map
//! [`Store::contents`]; the ordered, duplicate-free key sequence
//! [`Store::key_list`] records the insertion order that listings rely on.

use vstd::prelude::*;

use crate::keys::{
    has_key, index_of_key, lemma_index_of_key_found, lemma_index_of_key_not_found,
    lemma_index_of_key_props, lemma_index_of_key_push, lemma_index_of_key_witness, unique_keys,
};
use crate::text::{starts_with, str_eq, str_starts_with};
use vstd::map::*;
use vstd::pervasive::VecAdditionalExecFns;

verus! {

/// `k` lies at or under the path `p`: it is `p` itself, or it continues
/// behind `p` with a group separator. A key that merely shares a character
/// prefix (such as `englishx` against `english`) does not qualify.
pub open spec fn key_is_under(k: Seq<char>, p: Seq<char>) -> bool {
    k == p || (k.len() > p.len() && starts_with(k, p) && k[p.len() as int] == '.')
}

/// Whether `k` lies at or under the path `p`, honouring the group boundary.
pub fn key_under(k: &str, p: &str) -> (r: bool)
    ensures
        r == key_is_under(k@, p@),
{
    if str_eq(k, p) {
        return true;
    }
    let lk = k.unicode_len();
    let lp = p.unicode_len();
    if lk > lp && str_starts_with(k, p) && k.get_char(lp) == '.' {
        return true;
    }
    false
}

struct Entry {
    key: String,
    value: Vec<u8>,
}

/// The keyed contents of one namespace, in insertion order.
pub struct Store {
    entries: Vec<Entry>,
}

impl Store {
    /// The keys, in insertion order.
    pub closed spec fn key_list(self) -> Seq<Seq<char>> {
        self.entries@.map_values(|e: Entry| e.key@)
    }

    /// The abstract contents: key string to byte value.
    pub closed spec fn contents(self) -> Map<Seq<char>, Seq<u8>> {
        Map::new(
            |k: Seq<char>| has_key(self.key_list(), k),
            |k: Seq<char>| self.entries@[index_of_key(self.key_list(), k)].value@,
        )
    }

    /// Well-formed: no key occurs twice.
    pub closed spec fn wf(self) -> bool {
        unique_keys(self.key_list())
    }

    /// The two views agree: a key is in the contents exactly when it is in
    /// the key list.
    pub proof fn lemma_views_agree(self)
        ensures
            forall|k: Seq<char>| #[trigger]
                self.contents().contains_key(k) == self.key_list().contains(k),
    {
        assert forall|k: Seq<char>| #[trigger]
            self.contents().contains_key(k) == self.key_list().contains(k) by {
            lemma_index_of_key_props(self.key_list(), k);
            if self.key_list().contains(k) {
                let i = choose|i: int|
                    0 <= i < self.key_list().len() && self.key_list()[i] == k;
                lemma_index_of_key_witness(self.key_list(), k, i);
            }
        }
    }

    /// An empty store.
    pub fn new() -> (s: Store)
        ensures
            s.wf(),
            s.contents() =~= Map::<Seq<char>, Seq<u8>>::empty(),
            s.key_list() =~= Seq::<Seq<char>>::empty(),
    {
        let s = Store { entries: Vec::new() };
        proof {
            assert(s.key_list() =~= Seq::<Seq<char>>::empty());
            assert forall|k: Seq<char>| !(#[trigger] has_key(s.key_list(), k)) by {
                lemma_index_of_key_props(s.key_list(), k);
            }
            assert(s.contents() =~= Map::<Seq<char>, Seq<u8>>::empty());
        }
        s
    }

    /// Index of `key` among the entries, if present.
    fn find(&self, key: &str) -> (r: Option<usize>)
        ensures
            match r {
                Some(i) => i < self.entries@.len() && self.key_list()[i as int] == key@
                    && index_of_key(self.key_list(), key@) == i,
                None => !has_key(self.key_list(), key@),
            },
    {
        let mut i: usize = 0;
        while i < self.entries.len()
            invariant
                i <= self.entries@.len(),
                forall|j: int| 0 <= j < i ==> self.key_list()[j] != key@,
            decreases self.entries@.len() - i,
        {
            if str_eq(self.entries[i].key.as_str(), key) {
                proof {
                    assert(self.key_list()[i as int] == key@);
                    lemma_index_of_key_found(self.key_list(), key@, i as int);
                }
                return Some(i);
            }
            proof {
                assert(self.key_list()[i as int] == self.entries@[i as int].key@);
            }
            i += 1;
        }
        proof {
            lemma_index_of_key_not_found(self.key_list(), key@);
        }
        None
    }

    /// Retrieves the value stored at exactly `key`, if any.
    pub fn get(&self, key: &str) -> (r: Option<Vec<u8>>)
        ensures
            r is Some <==> self.contents().contains_key(key@),
            r matches Some(v) ==> v@ == self.contents()[key@],
    {
        match self.find(key) {
            Some(i) => {
                let v = copy_bytes(&self.entries[i].value);
                proof {
                    lemma_index_of_key_witness(self.key_list(), key@, i as int);
                }
                Some(v)
            },
            None => None,
        }
    }

    /// Inserts `value` at `key` only if the key is absent; reports whether
    /// the insert happened. A present key leaves the store untouched.
    pub fn set(&mut self, key: &str, value: Vec<u8>) -> (r: bool)
        requires
            old(self).wf(),
        ensures
            final(self).wf(),
            r == !old(self).contents().contains_key(key@),
            r ==> final(self).contents() =~= old(self).contents().insert(key@, value@)
                && final(self).key_list() =~= old(self).key_list().push(key@),
            !r ==> *final(self) == *old(self),
    {
        match self.find(key) {
            Some(_) => {
                proof {
                    assert(has_key(self.key_list(), key@));
                }
                false
            },
            None => {
                let ghost okl = self.key_list();
                let ghost oentries = self.entries@;
                self.entries.push(Entry { key: key.to_owned(), value });
                proof {
                    self.lemma_after_push(okl, oentries, key@);
                }
                true
            },
        }
    }

    /// Inserts or replaces the value at `key`. A fresh key goes to the end
    /// of the insertion order; a present key keeps its place.
    pub fn overwrite(&mut self, key: &str, value: Vec<u8>)
        requires
            old(self).wf(),
        ensures
            final(self).wf(),
            final(self).contents() =~= old(self).contents().insert(key@, value@),
            final(self).key_list() =~= if has_key(old(self).key_list(), key@) {
                old(self).key_list()
            } else {
                old(self).key_list().push(key@)
            },
    {
        let ghost okl = self.key_list();
        let ghost oentries = self.entries@;
        match self.find(key) {
            Some(i) => {
                self.entries.set(i, Entry { key: key.to_owned(), value });
                proof {
                    assert(self.key_list() =~= okl);
                    assert_maps_equal!(
                        self.contents(),
                        old(self).contents().insert(key@, value@),
                        k2 => {
                            lemma_index_of_key_props(okl, k2);
                            if has_key(okl, k2) {
                                let r = index_of_key(okl, k2);
                                if k2 == key@ {
                                    assert(r == i);
                                } else {
                                    assert(okl[r] == k2);
                                    assert(r != i);
                                }
                            }
                        }
                    );
                }
            },
            None => {
                self.entries.push(Entry { key: key.to_owned(), value });
                proof {
                    self.lemma_after_push(okl, oentries, key@);
                }
            },
        }
    }

    proof fn lemma_after_push(self, okl: Seq<Seq<char>>, oentries: Seq<Entry>, k: Seq<char>)
        requires
            unique_keys(okl),
            !has_key(okl, k),
            okl == oentries.map_values(|e: Entry| e.key@),
            self.entries@.len() == oentries.len() + 1,
            forall|j: int| 0 <= j < oentries.len() ==> self.entries@[j] == oentries[j],
            self.entries@[oentries.len() as int].key@ == k,
        ensures
            self.wf(),
            self.key_list() =~= okl.push(k),
            self.contents() =~= Map::new(
                |k2: Seq<char>| has_key(okl, k2),
                |k2: Seq<char>| oentries[index_of_key(okl, k2)].value@,
            ).insert(k, self.entries@[oentries.len() as int].value@),
    {
        assert(self.key_list() =~= okl.push(k));
        lemma_index_of_key_props(okl, k);
        assert(self.wf()) by {
            assert forall|i: int, j: int|
                0 <= i < j < self.key_list().len() implies self.key_list()[i]
                != self.key_list()[j] by {
                if j == okl.len() as int {
                    assert(self.key_list()[j] == k);
                    assert(okl[i] != k);
                }
            }
        }
        assert_maps_equal!(
            self.contents(),
            Map::new(
                |k2: Seq<char>| has_key(okl, k2),
                |k2: Seq<char>| oentries[index_of_key(okl, k2)].value@,
            ).insert(k, self.entries@[oentries.len() as int].value@),
            k2 => {
                lemma_index_of_key_push(okl, k, k2);
                lemma_index_of_key_props(okl, k2);
                assert(index_of_key(okl.push(k), k2) == index_of_key(self.key_list(), k2));
            }
        );
    }

    /// Removes the value at exactly `key`. An absent key is no error and
    /// leaves the store untouched.
    pub fn delete(&mut self, key: &str)
        requires
            old(self).wf(),
        ensures
            final(self).wf(),
            final(self).contents() =~= old(self).contents().remove(key@),
            !old(self).contents().contains_key(key@) ==> *final(self) == *old(self),
    {
        let ghost okl = self.key_list();
        let ghost oentries = self.entries@;
        match self.find(key) {
            Some(i) => {
                self.entries.remove(i);
                proof {
                    let nkl = self.key_list();
                    let nentries = self.entries@;
                    assert forall|j: int| 0 <= j < nkl.len() implies nkl[j] == (if j < i {
                        okl[j]
                    } else {
                        okl[j + 1]
                    }) && nentries[j] == (if j < i {
                        oentries[j]
                    } else {
                        oentries[j + 1]
                    }) by {
                        assert(nentries[j] == oentries.remove(i as int)[j]);
                    }
                    assert_maps_equal!(
                        self.contents(),
                        old(self).contents().remove(key@),
                        k2 => {
                            lemma_index_of_key_props(okl, k2);
                            lemma_index_of_key_props(nkl, k2);
                            if has_key(nkl, k2) {
                                // a key of the shrunk store sits in the old
                                // store away from position i, so it is not
                                // the deleted key
                                let rn = index_of_key(nkl, k2);
                                let p = if rn < i { rn } else { rn + 1 };
                                assert(okl[p] == k2);
                                lemma_index_of_key_witness(okl, k2, p);
                                assert(index_of_key(okl, k2) == p) by {
                                    let ro = index_of_key(okl, k2);
                                    assert(okl[ro] == k2);
                                }
                                assert(k2 != key@);
                            } else if has_key(okl, k2) && k2 != key@ {
                                // a surviving old key reappears in the
                                // shrunk store
                                let ro = index_of_key(okl, k2);
                                assert(okl[ro] == k2);
                                assert(ro != i);
                                let pn = if ro < i { ro } else { ro - 1 };
                                assert(nkl[pn] == k2);
                                lemma_index_of_key_witness(nkl, k2, pn);
                            }
                        }
                    );
                }
            },
            None => {
                proof {
                    lemma_index_of_key_props(okl, key@);
                    assert(!old(self).contents().contains_key(key@));
                    assert(self.contents() =~= old(self).contents().remove(key@));
                }
            },
        }
    }

    /// Whether some key lies at or under the path `p`, honouring the group
    /// boundary (a value or group is present there).
    pub fn exists_under(&self, p: &str) -> (r: bool)
        ensures
            r == exists|k: Seq<char>|
                #[trigger] self.contents().contains_key(k) && key_is_under(k, p@),
    {
        let mut i: usize = 0;
        while i < self.entries.len()
            invariant
                i <= self.entries@.len(),
                forall|j: int| 0 <= j < i ==> !key_is_under(#[trigger] self.key_list()[j], p@),
            decreases self.entries@.len() - i,
        {
            if key_under(self.entries[i].key.as_str(), p) {
                proof {
                    assert(self.key_list()[i as int] == self.entries@[i as int].key@);
                    lemma_index_of_key_witness(self.key_list(), self.key_list()[i as int], i as int);
                    assert(self.contents().contains_key(self.key_list()[i as int]));
                }
                return true;
            }
            proof {
                assert(self.key_list()[i as int] == self.entries@[i as int].key@);
            }
            i += 1;
        }
        proof {
            if exists|k: Seq<char>| #[trigger]
                self.contents().contains_key(k) && key_is_under(k, p@) {
                let k = choose|k: Seq<char>| #[trigger]
                    self.contents().contains_key(k) && key_is_under(k, p@);
                lemma_index_of_key_props(self.key_list(), k);
                let r = index_of_key(self.key_list(), k);
                assert(!key_is_under(self.key_list()[r], p@));
            }
        }
        false
    }

    /// All keys, cloned, in insertion order.
    pub fn all_keys(&self) -> (r: Vec<String>)
        ensures
            r.deep_view() =~= self.key_list(),
    {
        let mut r: Vec<String> = Vec::new();
        let mut i: usize = 0;
        while i < self.entries.len()
            invariant
                i <= self.entries@.len(),
                r.deep_view().len() == i,
                forall|j: int| 0 <= j < i ==> r.deep_view()[j] == self.key_list()[j],
            decreases self.entries@.len() - i,
        {
            r.push(self.entries[i].key.clone());
            proof {
                assert(self.key_list()[i as int] == self.entries@[i as int].key@);
            }
            i += 1;
        }
        r
    }
}

/// An exact copy of a byte vector.
fn copy_bytes(v: &Vec<u8>) -> (r: Vec<u8>)
    ensures
        r@ =~= v@,
{
    let mut r: Vec<u8> = Vec::new();
    let mut i: usize = 0;
    while i < v.len()
        invariant
            i <= v@.len(),
            r@ =~= v@.subrange(0, i as int),
        decreases v@.len() - i,
    {
        r.push(v[i]);
        i += 1;
    }
    r
}

} // verus!
