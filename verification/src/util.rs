//! Small shared helpers.

use vstd::prelude::*;
use crate::text::chars_of;

verus! {

/// `input` is a non-empty prefix of `canonical`.
pub open spec fn spec_matches_direction(input: Seq<char>, canonical: Seq<char>) -> bool {
    input.len() > 0 && input.len() <= canonical.len() && canonical.subrange(0, input.len() as int)
        == input
}

/// Check if `input` matches the beginning of `canonical`.
pub fn matches_direction(input: &str, canonical: &str) -> (r: bool)
    ensures
        r == spec_matches_direction(input@, canonical@),
{
    let a = chars_of(input);
    let b = chars_of(canonical);
    matches_prefix(&a, b.as_slice())
}

/// `a` is a non-empty prefix of `b`.
pub fn matches_prefix(a: &Vec<char>, b: &[char]) -> (r: bool)
    ensures
        r == spec_matches_direction(a@, b@),
{
    if a.len() == 0 || a.len() > b.len() {
        assert(!spec_matches_direction(a@, b@));
        return false;
    }
    let mut i: usize = 0;
    while i < a.len()
        invariant
            0 < a.len() <= b.len(),
            i <= a.len(),
            forall|k: int| 0 <= k < i ==> a@[k] == b@[k],
        decreases a.len() - i,
    {
        if a[i] != b[i] {
            assert(b@.subrange(0, a.len() as int)[i as int] != a@[i as int]);
            return false;
        }
        i = i + 1;
    }
    assert(b@.subrange(0, a.len() as int) =~= a@);
    true
}

} // verus!
