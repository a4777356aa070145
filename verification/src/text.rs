//! Character-level string building, relied on from std.

use vstd::prelude::*;

verus! {

/// Relies on `String::push` (std): appends exactly the one character.
#[verifier::external_body]
pub(crate) fn push_char(s: &mut String, c: char)
    ensures
        final(s)@ == old(s)@.push(c),
{
    s.push(c);
}

} // verus!
