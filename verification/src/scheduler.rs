//! Idle-maintenance decisions for the background cleanup loop.
//!
//! The host runs a periodic task: each tick it snapshots the cached
//! namespaces and asks, per namespace, whether it has been idle beyond the
//! configured threshold and is due for compaction. That decision — tracking
//! a last-access instant per namespace, comparing it to the clock, and
//! resetting it whenever compaction is triggered (whether or not the
//! compaction then succeeds, to avoid tight retry loops) — lives here,
//! verified; the host loop only performs the waiting and the compaction
//! calls. Instants are plain milliseconds of a monotonic clock.

use vstd::prelude::*;

use crate::keys::{
    has_key, index_of_key, lemma_index_of_key_found, lemma_index_of_key_not_found,
    lemma_index_of_key_props, lemma_index_of_key_push, unique_keys,
};
use crate::text::str_eq;
use vstd::pervasive::VecAdditionalExecFns;

verus! {

/// How long a namespace last seen at `last` has been idle at `now`.
pub open spec fn idle_span(last: u64, now: u64) -> u64 {
    if now >= last {
        (now - last) as u64
    } else {
        0
    }
}

struct TrackEntry {
    name: String,
    last: u64,
}

/// Per-namespace last-access tracking for the cleanup loop.
pub struct CleanupTracker {
    entries: Vec<TrackEntry>,
}

impl CleanupTracker {
    /// The tracked namespace names, in order of first sighting.
    pub closed spec fn names(self) -> Seq<Seq<char>> {
        self.entries@.map_values(|e: TrackEntry| e.name@)
    }

    /// Namespace `n` has a last-access record.
    pub open spec fn is_tracked(self, n: Seq<char>) -> bool {
        has_key(self.names(), n)
    }

    /// The recorded last-access instant of a tracked namespace.
    pub closed spec fn last_of(self, n: Seq<char>) -> u64 {
        self.entries@[index_of_key(self.names(), n)].last
    }

    /// Well-formed: one record per namespace.
    pub closed spec fn wf(self) -> bool {
        unique_keys(self.names())
    }

    /// An empty tracker.
    pub fn new() -> (r: CleanupTracker)
        ensures
            r.wf(),
            forall|o: Seq<char>| #![auto] !r.is_tracked(o),
    {
        let r = CleanupTracker { entries: Vec::new() };
        proof {
            assert(r.names() =~= Seq::<Seq<char>>::empty());
            assert forall|o: Seq<char>| #![auto] !r.is_tracked(o) by {
                lemma_index_of_key_props(r.names(), o);
            }
        }
        r
    }

    /// Index of the record for `ns`, if one exists.
    fn find(&self, ns: &str) -> (r: Option<usize>)
        ensures
            match r {
                Some(i) => i < self.entries@.len() && self.names()[i as int] == ns@
                    && index_of_key(self.names(), ns@) == i,
                None => !self.is_tracked(ns@),
            },
    {
        let mut i: usize = 0;
        while i < self.entries.len()
            invariant
                i <= self.entries@.len(),
                forall|j: int| 0 <= j < i ==> self.names()[j] != ns@,
            decreases self.entries@.len() - i,
        {
            if str_eq(self.entries[i].name.as_str(), ns) {
                proof {
                    assert(self.names()[i as int] == ns@);
                    lemma_index_of_key_found(self.names(), ns@, i as int);
                }
                return Some(i);
            }
            proof {
                assert(self.names()[i as int] == self.entries@[i as int].name@);
            }
            i += 1;
        }
        proof {
            lemma_index_of_key_not_found(self.names(), ns@);
        }
        None
    }

    /// One scheduling decision for namespace `ns` at instant `now`: reports
    /// whether the namespace is due for compaction — it has a record and has
    /// been idle longer than `idle_timeout`. A first sighting only records
    /// `now`; a due namespace has its record reset to `now` at once, whether
    /// or not the compaction the caller then runs succeeds.
    pub fn due(&mut self, ns: &str, now: u64, idle_timeout: u64) -> (r: bool)
        requires
            old(self).wf(),
        ensures
            final(self).wf(),
            r == (old(self).is_tracked(ns@) && idle_span(old(self).last_of(ns@), now) > idle_timeout),
            final(self).is_tracked(ns@),
            final(self).last_of(ns@) == if !old(self).is_tracked(ns@) || r {
                now
            } else {
                old(self).last_of(ns@)
            },
            forall|o: Seq<char>| #![auto] o != ns@ ==> final(self).is_tracked(o) == old(self).is_tracked(o),
            forall|o: Seq<char>| #![auto]
                o != ns@ && old(self).is_tracked(o) ==> final(self).last_of(o) == old(self).last_of(o),
    {
        match self.find(ns) {
            None => {
                let ghost opre = *self;
                self.entries.push(TrackEntry { name: ns.to_owned(), last: now });
                proof {
                    self.lemma_after_record(opre, ns@);
                }
                false
            },
            Some(i) => {
                let last = self.entries[i].last;
                let idle = if now >= last {
                    now - last
                } else {
                    0
                };
                if idle > idle_timeout {
                    let ghost opre = *self;
                    self.entries.set(i, TrackEntry { name: ns.to_owned(), last: now });
                    proof {
                        self.lemma_after_reset(opre, i as int);
                    }
                    true
                } else {
                    false
                }
            },
        }
    }

    /// A fresh record appended for an untracked namespace changes nothing
    /// else.
    proof fn lemma_after_record(self, pre: CleanupTracker, n: Seq<char>)
        requires
            pre.wf(),
            !pre.is_tracked(n),
            self.entries@.len() == pre.entries@.len() + 1,
            forall|j: int| 0 <= j < pre.entries@.len() ==> self.entries@[j] == pre.entries@[j],
            self.entries@[pre.entries@.len() as int].name@ == n,
        ensures
            self.wf(),
            self.is_tracked(n),
            self.last_of(n) == self.entries@[pre.entries@.len() as int].last,
            forall|o: Seq<char>| #![auto] o != n ==> self.is_tracked(o) == pre.is_tracked(o),
            forall|o: Seq<char>| #![auto]
                o != n && pre.is_tracked(o) ==> self.last_of(o) == pre.last_of(o),
    {
        let onames = pre.names();
        let nnames = self.names();
        assert(nnames =~= onames.push(n));
        lemma_index_of_key_push(onames, n, n);
        lemma_index_of_key_props(onames, n);
        assert forall|o: Seq<char>| #![auto]
            o != n implies self.is_tracked(o) == pre.is_tracked(o) && (pre.is_tracked(o) ==> self.last_of(o)
            == pre.last_of(o)) by {
            lemma_index_of_key_push(onames, n, o);
            lemma_index_of_key_props(onames, o);
            if has_key(onames, o) {
                let r = index_of_key(onames, o);
                assert(self.entries@[r] == pre.entries@[r]);
            }
        }
        assert(self.wf()) by {
            assert forall|i2: int, j2: int|
                0 <= i2 < j2 < nnames.len() implies nnames[i2] != nnames[j2] by {
                if j2 == onames.len() as int {
                    assert(nnames[j2] == n);
                    assert(onames[i2] != n);
                }
            }
        }
    }

    /// A record replaced in place (same name, same position) changes
    /// nothing else.
    proof fn lemma_after_reset(self, pre: CleanupTracker, i: int)
        requires
            pre.wf(),
            0 <= i < pre.entries@.len(),
            self.entries@.len() == pre.entries@.len(),
            forall|j: int|
                0 <= j < pre.entries@.len() && j != i ==> self.entries@[j] == pre.entries@[j],
            self.entries@[i].name@ == pre.entries@[i].name@,
        ensures
            self.wf(),
            self.is_tracked(pre.entries@[i].name@),
            self.last_of(pre.entries@[i].name@) == self.entries@[i].last,
            forall|o: Seq<char>| #![auto]
                o != pre.entries@[i].name@ ==> self.is_tracked(o) == pre.is_tracked(o),
            forall|o: Seq<char>| #![auto]
                o != pre.entries@[i].name@ && pre.is_tracked(o) ==> self.last_of(o) == pre.last_of(o),
    {
        let n = pre.entries@[i].name@;
        assert(self.names() =~= pre.names());
        lemma_index_of_key_props(pre.names(), n);
        assert(pre.names()[i] == n);
        assert(index_of_key(self.names(), n) == i) by {
            lemma_index_of_key_props(self.names(), n);
            let r = index_of_key(self.names(), n);
            assert(self.names()[r] == n);
        }
        assert forall|o: Seq<char>| #![auto]
            o != n && pre.is_tracked(o) implies self.last_of(o) == pre.last_of(o) by {
            lemma_index_of_key_props(self.names(), o);
            let r = index_of_key(self.names(), o);
            assert(self.names()[r] == o);
            assert(r != i);
            assert(self.entries@[r] == pre.entries@[r]);
        }
    }
}

} // verus!
