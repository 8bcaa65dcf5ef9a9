//! Hierarchical listing: classifying the keys under a group path.
//!
//! A listing of a path shows the immediate children of its group: the
//! distinct names of the sub-groups that continue below it, and the names of
//! the values stored directly at it. A key belongs to the listing of group
//! `g` when it continues behind `g` with a group separator (or, for the
//! namespace root, when it is any nonempty key); the part behind the
//! separator is its remainder. A remainder with a further `.` contributes
//! its first segment as a group name; one without is a value name.

use vstd::prelude::*;

use crate::keys::unique_keys;
use crate::text::{starts_with, str_starts_with, vec_has_str};

verus! {

/// Position of the first `.` at or after `i` in `s`, or -1.
pub open spec fn first_dot_from(s: Seq<char>, i: int) -> int
    decreases s.len() - i
        when 0 <= i <= s.len()
{
    if i >= s.len() {
        -1
    } else if s[i] == '.' {
        i
    } else {
        first_dot_from(s, i + 1)
    }
}

/// Position of the first `.` in `s`, or -1.
pub open spec fn first_dot(s: Seq<char>) -> int {
    first_dot_from(s, 0)
}

/// The key `k` belongs to the listing of group path `g`: behind `g` and its
/// separator there is a nonempty remainder. The namespace root (`g` empty)
/// lists every nonempty key.
pub open spec fn group_member(k: Seq<char>, g: Seq<char>) -> bool {
    if g.len() == 0 {
        k.len() > 0
    } else {
        k.len() > g.len() + 1 && starts_with(k, g) && k[g.len() as int] == '.'
    }
}

/// The remainder of member key `k` relative to group path `g`.
pub open spec fn member_rest(k: Seq<char>, g: Seq<char>) -> Seq<char> {
    if g.len() == 0 {
        k
    } else {
        k.subrange(g.len() as int + 1, k.len() as int)
    }
}

/// Key `k` contributes the sub-group `name` to the listing of `g`.
pub open spec fn is_group_of(k: Seq<char>, g: Seq<char>, name: Seq<char>) -> bool {
    &&& group_member(k, g)
    &&& first_dot(member_rest(k, g)) >= 0
    &&& name == member_rest(k, g).subrange(0, first_dot(member_rest(k, g)))
}

/// Key `k` contributes the value `name` to the listing of `g`.
pub open spec fn is_value_of(k: Seq<char>, g: Seq<char>, name: Seq<char>) -> bool {
    &&& group_member(k, g)
    &&& first_dot(member_rest(k, g)) < 0
    &&& name == member_rest(k, g)
}

/// `l` is the listing of the keys `ks` under group path `g`: its groups and
/// values hold exactly the names the member keys contribute, without
/// duplicates.
pub open spec fn listing_of(l: Listing, ks: Seq<Seq<char>>, g: Seq<char>) -> bool {
    &&& forall|n: Seq<char>| #![auto]
        l.groups.deep_view().contains(n) <==> exists|i: int|
            0 <= i < ks.len() && is_group_of(ks[i], g, n)
    &&& forall|n: Seq<char>| #![auto]
        l.values.deep_view().contains(n) <==> exists|i: int|
            0 <= i < ks.len() && is_value_of(ks[i], g, n)
    &&& unique_keys(l.groups.deep_view())
    &&& unique_keys(l.values.deep_view())
}

/// The immediate children of a listed path: the distinct sub-group names
/// below it, and the names of the values stored directly at it, each in the
/// order in which the keys that contribute them were first encountered.
#[derive(Debug, PartialEq, Eq)]
pub struct Listing {
    pub groups: Vec<String>,
    pub values: Vec<String>,
}

/// Position of the first `.` in `s`, if any.
pub fn find_dot(s: &str) -> (r: Option<usize>)
    ensures
        match r {
            Some(i) => i < s@.len() && first_dot(s@) == i as int,
            None => first_dot(s@) == -1,
        },
{
    let n = s.unicode_len();
    let mut i: usize = 0;
    while i < n
        invariant
            n == s@.len(),
            i <= n,
            first_dot_from(s@, i as int) == first_dot(s@),
        decreases n - i,
    {
        if s.get_char(i) == '.' {
            return Some(i);
        }
        i += 1;
    }
    None
}

/// One classification step: after key `i` contributed `name` (which is
/// recorded unless already present), the recorded names are exactly those
/// the first `i + 1` keys contribute.
proof fn lemma_group_step(
    ks: Seq<Seq<char>>,
    g: Seq<char>,
    i: int,
    gpre: Seq<Seq<char>>,
    gpost: Seq<Seq<char>>,
    name: Seq<char>,
)
    requires
        0 <= i < ks.len(),
        is_group_of(ks[i], g, name),
        forall|n: Seq<char>| #![auto]
            gpre.contains(n) <==> exists|j: int| 0 <= j < i && is_group_of(ks[j], g, n),
        unique_keys(gpre),
        gpost == if gpre.contains(name) {
            gpre
        } else {
            gpre.push(name)
        },
    ensures
        forall|n: Seq<char>| #![auto]
            gpost.contains(n) <==> exists|j: int| 0 <= j < i + 1 && is_group_of(ks[j], g, n),
        unique_keys(gpost),
{
    assert forall|n: Seq<char>| #![auto]
        gpost.contains(n) <==> exists|j: int| 0 <= j < i + 1 && is_group_of(ks[j], g, n) by {
        if gpost.contains(n) {
            let j2 = choose|j2: int| 0 <= j2 < gpost.len() && gpost[j2] == n;
            if j2 < gpre.len() {
                assert(gpre[j2] == n);
                assert(gpre.contains(n));
                let j = choose|j: int| 0 <= j < i && is_group_of(ks[j], g, n);
                assert(is_group_of(ks[j], g, n));
            } else {
                assert(n == name);
                assert(is_group_of(ks[i], g, n));
            }
        }
        if exists|j: int| 0 <= j < i + 1 && is_group_of(ks[j], g, n) {
            let j = choose|j: int| 0 <= j < i + 1 && is_group_of(ks[j], g, n);
            if j < i {
                assert(gpre.contains(n));
                let j2 = choose|j2: int| 0 <= j2 < gpre.len() && gpre[j2] == n;
                assert(gpost[j2] == n);
            } else {
                assert(n == name);
                if gpre.contains(name) {
                    let j2 = choose|j2: int| 0 <= j2 < gpre.len() && gpre[j2] == name;
                    assert(gpost[j2] == name);
                } else {
                    assert(gpost[gpre.len() as int] == name);
                }
            }
            assert(gpost.contains(n));
        }
    }
    if !gpre.contains(name) {
        assert forall|a: int, b: int|
            0 <= a < b < gpost.len() implies gpost[a] != gpost[b] by {
            if b == gpre.len() as int {
                assert(gpost[b] == name);
                assert(gpost[a] == gpre[a]);
                if gpre[a] == name {
                    assert(gpre.contains(name));
                }
            } else {
                assert(gpost[a] == gpre[a]);
                assert(gpost[b] == gpre[b]);
            }
        }
    }
}

/// One classification step: after key `i` contributed `name` (which is
/// recorded unless already present), the recorded names are exactly those
/// the first `i + 1` keys contribute.
proof fn lemma_value_step(
    ks: Seq<Seq<char>>,
    g: Seq<char>,
    i: int,
    gpre: Seq<Seq<char>>,
    gpost: Seq<Seq<char>>,
    name: Seq<char>,
)
    requires
        0 <= i < ks.len(),
        is_value_of(ks[i], g, name),
        forall|n: Seq<char>| #![auto]
            gpre.contains(n) <==> exists|j: int| 0 <= j < i && is_value_of(ks[j], g, n),
        unique_keys(gpre),
        gpost == if gpre.contains(name) {
            gpre
        } else {
            gpre.push(name)
        },
    ensures
        forall|n: Seq<char>| #![auto]
            gpost.contains(n) <==> exists|j: int| 0 <= j < i + 1 && is_value_of(ks[j], g, n),
        unique_keys(gpost),
{
    assert forall|n: Seq<char>| #![auto]
        gpost.contains(n) <==> exists|j: int| 0 <= j < i + 1 && is_value_of(ks[j], g, n) by {
        if gpost.contains(n) {
            let j2 = choose|j2: int| 0 <= j2 < gpost.len() && gpost[j2] == n;
            if j2 < gpre.len() {
                assert(gpre[j2] == n);
                assert(gpre.contains(n));
                let j = choose|j: int| 0 <= j < i && is_value_of(ks[j], g, n);
                assert(is_value_of(ks[j], g, n));
            } else {
                assert(n == name);
                assert(is_value_of(ks[i], g, n));
            }
        }
        if exists|j: int| 0 <= j < i + 1 && is_value_of(ks[j], g, n) {
            let j = choose|j: int| 0 <= j < i + 1 && is_value_of(ks[j], g, n);
            if j < i {
                assert(gpre.contains(n));
                let j2 = choose|j2: int| 0 <= j2 < gpre.len() && gpre[j2] == n;
                assert(gpost[j2] == n);
            } else {
                assert(n == name);
                if gpre.contains(name) {
                    let j2 = choose|j2: int| 0 <= j2 < gpre.len() && gpre[j2] == name;
                    assert(gpost[j2] == name);
                } else {
                    assert(gpost[gpre.len() as int] == name);
                }
            }
            assert(gpost.contains(n));
        }
    }
    if !gpre.contains(name) {
        assert forall|a: int, b: int|
            0 <= a < b < gpost.len() implies gpost[a] != gpost[b] by {
            if b == gpre.len() as int {
                assert(gpost[b] == name);
                assert(gpost[a] == gpre[a]);
                if gpre[a] == name {
                    assert(gpre.contains(name));
                }
            } else {
                assert(gpost[a] == gpre[a]);
                assert(gpost[b] == gpre[b]);
            }
        }
    }
}

/// Classifies the keys `ks` under group path `g` into the listing of `g`:
/// each member key's remainder contributes its first segment as a group
/// name, or the whole remainder as a value name, deduplicated in order of
/// first occurrence.
pub fn classify(ks: &Vec<String>, g: &str) -> (r: Listing)
    ensures
        listing_of(r, ks.deep_view(), g@),
{
    let lg = g.unicode_len();
    let mut groups: Vec<String> = Vec::new();
    let mut values: Vec<String> = Vec::new();
    let mut i: usize = 0;
    while i < ks.len()
        invariant
            lg == g@.len(),
            i <= ks@.len(),
            forall|n: Seq<char>| #![auto]
                groups.deep_view().contains(n) <==> exists|j: int|
                    0 <= j < i && is_group_of(ks.deep_view()[j], g@, n),
            forall|n: Seq<char>| #![auto]
                values.deep_view().contains(n) <==> exists|j: int|
                    0 <= j < i && is_value_of(ks.deep_view()[j], g@, n),
            unique_keys(groups.deep_view()),
            unique_keys(values.deep_view()),
        decreases ks@.len() - i,
    {
        let k = &ks[i];
        proof {
            assert(ks.deep_view()[i as int] == k@);
        }
        let lk = k.unicode_len();
        let member = if lg == 0 {
            lk > 0
        } else {
            lk > lg && lk - lg > 1 && str_starts_with(k.as_str(), g) && k.as_str().get_char(lg)
                == '.'
        };
        proof {
            assert(member == group_member(k@, g@));
        }
        if member {
            let rest: &str = if lg == 0 {
                k.as_str()
            } else {
                k.as_str().substring_char(lg + 1, lk)
            };
            proof {
                assert(rest@ == member_rest(k@, g@));
            }
            match find_dot(rest) {
                Some(d) => {
                    let name = rest.substring_char(0, d);
                    proof {
                        assert(is_group_of(k@, g@, name@));
                    }
                    let ghost gpre = groups.deep_view();
                    if !vec_has_str(&groups, name) {
                        groups.push(name.to_owned());
                        proof {
                            assert(groups.deep_view() =~= gpre.push(name@));
                        }
                    }
                    proof {
                        lemma_group_step(
                            ks.deep_view(),
                            g@,
                            i as int,
                            gpre,
                            groups.deep_view(),
                            name@,
                        );
                    }
                },
                None => {
                    proof {
                        assert(is_value_of(k@, g@, rest@));
                    }
                    let ghost vpre = values.deep_view();
                    if !vec_has_str(&values, rest) {
                        values.push(rest.to_owned());
                        proof {
                            assert(values.deep_view() =~= vpre.push(rest@));
                        }
                    }
                    proof {
                        lemma_value_step(
                            ks.deep_view(),
                            g@,
                            i as int,
                            vpre,
                            values.deep_view(),
                            rest@,
                        );
                    }
                },
            }
        }
        i += 1;
    }
    Listing { groups, values }
}

} // verus!
