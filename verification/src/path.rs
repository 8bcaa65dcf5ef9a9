//! The path model: `namespace::group.group.key` syntax.
//!
//! A path splits at the first occurrence of the two-character namespace
//! separator `::` into a namespace name and a key. The key keeps its `.`
//! separators: group structure is realized by the store's prefix semantics,
//! not here. A path without the separator is a bare namespace reference; a
//! path with the separator but an empty remainder is invalid. No
//! normalization of any kind is performed.

use vstd::prelude::*;

use crate::error::PathmapError;

verus! {

/// The namespace separator `::` stands at character position `i` of `s`.
pub open spec fn is_sep_at(s: Seq<char>, i: int) -> bool {
    0 <= i && i + 2 <= s.len() && s[i] == ':' && s[i + 1] == ':'
}

/// Position of the first namespace separator at or after `i`, or -1.
pub open spec fn first_sep_from(s: Seq<char>, i: int) -> int
    decreases s.len() - i
        when 0 <= i <= s.len()
{
    if i + 2 > s.len() {
        -1
    } else if is_sep_at(s, i) {
        i
    } else {
        first_sep_from(s, i + 1)
    }
}

/// Position of the first namespace separator in `s`, or -1.
pub open spec fn first_sep(s: Seq<char>) -> int {
    first_sep_from(s, 0)
}

/// `s` contains the namespace separator.
pub open spec fn has_sep(s: Seq<char>) -> bool {
    first_sep(s) >= 0
}

/// The namespace part of a path that contains the separator.
pub open spec fn path_ns(s: Seq<char>) -> Seq<char> {
    s.subrange(0, first_sep(s))
}

/// The key part of a path that contains the separator.
pub open spec fn path_key(s: Seq<char>) -> Seq<char> {
    s.subrange(first_sep(s) + 2, s.len() as int)
}

/// A path that addresses a key: it has the separator and a nonempty
/// remainder behind it.
pub open spec fn valid_value_path(s: Seq<char>) -> bool {
    has_sep(s) && path_key(s).len() > 0
}

/// Splits a path at the first `::` into its namespace and key parts, failing
/// with `InvalidPath` when the separator is absent. The parts are returned as
/// slices of the input: nothing is copied and nothing is normalized.
pub fn parse_path<'a>(path: &'a str) -> (r: Result<(&'a str, &'a str), PathmapError>)
    ensures
        r is Ok <==> has_sep(path@),
        r matches Ok(p) ==> p.0@ == path_ns(path@) && p.1@ == path_key(path@),
        r matches Err(e) ==> e matches PathmapError::InvalidPath(q) && q@ == path@,
{
    let n = path.unicode_len();
    let mut i: usize = 0;
    while n >= 2 && i <= n - 2
        invariant
            n == path@.len(),
            i <= n,
            first_sep_from(path@, i as int) == first_sep(path@),
        decreases n - i,
    {
        if path.get_char(i) == ':' && path.get_char(i + 1) == ':' {
            proof {
                assert(is_sep_at(path@, i as int));
                assert(first_sep(path@) == i as int);
            }
            let ns = path.substring_char(0, i);
            let key = path.substring_char(i + 2, n);
            return Ok((ns, key));
        }
        proof {
            assert(!is_sep_at(path@, i as int));
        }
        i += 1;
    }
    proof {
        assert(first_sep_from(path@, i as int) == -1);
    }
    Err(PathmapError::InvalidPath(path.to_owned()))
}

} // verus!
