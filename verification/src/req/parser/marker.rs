//! `###` request markers.

use vstd::prelude::*;

use crate::text::{starts_with, starts_with_at, to_chars, trim, trim_bounds, from_chars};

verus! {

/// `Some(name)` when the trimmed `line` is a `###` marker; the name is the
/// trimmed rest of the line, `None` when that rest is empty.
pub open spec fn spec_marker(line: Seq<char>) -> Option<Option<Seq<char>>> {
    if starts_with(line, "###"@) {
        let name = trim(line.skip("###"@.len() as int));
        if name.len() == 0 {
            Some(None)
        } else {
            Some(Some(name))
        }
    } else {
        None
    }
}

/// The marker held by `v[lo..hi]`.
pub fn marker_at(v: &Vec<char>, lo: usize, hi: usize) -> (r: Option<Option<String>>)
    requires
        lo <= hi <= v.len(),
    ensures
        spec_marker(v@.subrange(lo as int, hi as int)) == match r {
            Some(Some(n)) => Some(Some(n@)),
            Some(None) => Some(None),
            None => None::<Option<Seq<char>>>,
        },
{
    let p = to_chars("###");
    if !starts_with_at(v, lo, hi, &p) {
        return None;
    }
    assert(v@.subrange(lo as int, hi as int).skip(p@.len() as int) =~= v@.subrange(
        lo + p@.len(),
        hi as int,
    ));
    let (a, b) = trim_bounds(v, lo + p.len(), hi);
    if a == b {
        Some(None)
    } else {
        Some(Some(from_chars(v, a, b)))
    }
}

/// Parses a `### Name` request marker line.
pub fn parse_request_marker(line: &str) -> (r: Option<Option<String>>)
    ensures
        spec_marker(line@) == match r {
            Some(Some(n)) => Some(Some(n@)),
            Some(None) => Some(None),
            None => None::<Option<Seq<char>>>,
        },
{
    let v = to_chars(line);
    assert(v@.subrange(0, v@.len() as int) =~= line@);
    marker_at(&v, 0, v.len())
}

} // verus!
