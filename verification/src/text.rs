//! Paths as text: the part of a target that names a location, the folding
//! of case, and the comparison that decides whether a link is active.

use vstd::prelude::*;
use vstd::std_specs::iter::IteratorSpec;

verus! {

/// Whether `c` ends the path of a target: `?` begins the query, `#` the fragment.
pub open spec fn is_cut(c: char) -> bool {
    c == '?' || c == '#'
}

/// The index of the first `?` or `#` of `s` at or after `i`; the length of
/// `s` if there is none.
pub open spec fn scan(s: Seq<char>, i: int) -> int
    decreases s.len() - i,
{
    if i < 0 || i >= s.len() || is_cut(s[i]) {
        i
    } else {
        scan(s, i + 1)
    }
}

/// The path of a target: what stands before its query and its fragment.
pub open spec fn path_part(s: Seq<char>) -> Seq<char> {
    s.take(scan(s, 0))
}

/// The lowercase form of a text, as the standard library computes it.
pub uninterp spec fn lowercase(s: Seq<char>) -> Seq<char>;

/// Whether a link to `path` is active at `location`, both already in
/// lowercase: on equality if `exact`, else as soon as the location begins
/// with the path.
pub open spec fn matches_location(location: Seq<char>, path: Seq<char>, exact: bool) -> bool {
    if exact {
        location == path
    } else {
        path.is_prefix_of(location)
    }
}

/// Whether a link whose resolved target is `to` is active at `location`. A
/// link without a target is never active. Case does not count, and neither
/// do the query and the fragment of the target.
pub open spec fn active(to: Option<Seq<char>>, location: Seq<char>, exact: bool) -> bool {
    match to {
        None => false,
        Some(t) => matches_location(lowercase(location), lowercase(path_part(t)), exact),
    }
}

/// The scan finds the first cut: nothing before it is one, and it is one
/// unless the text ends there.
pub proof fn lemma_scan(s: Seq<char>, i: int)
    requires
        0 <= i <= s.len(),
    ensures
        i <= scan(s, i) <= s.len(),
        forall|j: int| i <= j < scan(s, i) ==> !is_cut(#[trigger] s[j]),
        scan(s, i) < s.len() ==> is_cut(s[scan(s, i)]),
    decreases s.len() - i,
{
    if i < s.len() && !is_cut(s[i]) {
        lemma_scan(s, i + 1);
    }
}

/// A target without query and fragment is its own path.
pub proof fn lemma_path_part_plain(s: Seq<char>)
    requires
        forall|j: int| 0 <= j < s.len() ==> !is_cut(#[trigger] s[j]),
    ensures
        path_part(s) == s,
{
    lemma_scan(s, 0);
    assert(s.take(s.len() as int) =~= s);
}

/// Calls `str::to_lowercase`, which returns the lowercase form of the text
/// as a new `String`. The contract gives that result its name and claims no
/// more of it.
#[verifier::external_body]
fn lower(s: &str) -> (r: String)
    ensures
        r@ == lowercase(s@),
{
    s.to_lowercase()
}

/// Calls `str::starts_with` with a string as the pattern, which tells
/// whether the pattern matches a prefix of the text.
#[verifier::external_body]
fn begins_with(s: &str, prefix: &str) -> (r: bool)
    ensures
        r == prefix@.is_prefix_of(s@),
{
    s.starts_with(prefix)
}

/// The number of characters of `s` that stand before its first `?` or `#`.
pub fn path_end(s: &str) -> (n: usize)
    ensures
        n == scan(s@, 0),
        n <= s@.len(),
{
    let total = s.unicode_len();
    let mut it = s.chars();
    let mut n: usize = 0;
    proof {
        assert(s@.skip(0) =~= s@);
    }
    while n < total
        invariant
            total == s@.len(),
            n <= total,
            it.obeys_prophetic_iter_laws(),
            it.remaining() == s@.skip(n as int),
            scan(s@, 0) == scan(s@, n as int),
        decreases total - n,
    {
        let ghost before = it;
        match it.next() {
            None => {
                return n;
            },
            Some(c) => {
                proof {
                    assert(before.remaining()[0] == s@[n as int]);
                    assert(s@.skip(n as int).drop_first() =~= s@.skip(n as int + 1));
                }
                if c == '?' || c == '#' {
                    return n;
                }
                n += 1;
            },
        }
    }
    n
}

/// The path of a target: the target up to its first `?` or `#`.
pub fn strip_target(s: &str) -> (r: &str)
    ensures
        r@ == path_part(s@),
{
    let n = path_end(s);
    s.substring_char(0, n)
}

/// Decides whether a link is active, from the location and the path of the
/// target, both already in lowercase.
pub fn compare_paths(location: &String, path: &String, exact: bool) -> (r: bool)
    ensures
        r == matches_location(location@, path@, exact),
{
    if exact {
        *location == *path
    } else {
        begins_with(location.as_str(), path.as_str())
    }
}

/// Whether a link whose resolved target is `to` is active at `location`.
pub fn is_active(to: Option<&str>, location: &str, exact: bool) -> (r: bool)
    ensures
        r == active(
            match to {
                Some(t) => Some(t@),
                None => None,
            },
            location@,
            exact,
        ),
{
    match to {
        None => false,
        Some(t) => {
            let path = lower(strip_target(t));
            let loc = lower(location);
            compare_paths(&loc, &path, exact)
        },
    }
}

} // verus!
