//! What this crate takes on trust of the standard library, where `vstd` says
//! nothing of it.

use vstd::prelude::*;

verus! {

/// Trusted, not proved: `String::push` of the standard library appends the
/// character `ch` to the end of the string and leaves the characters before
/// it as they were.
pub assume_specification[ String::push ](s: &mut String, ch: char)
    ensures
        final(s)@ == old(s)@.push(ch),
;

} // verus!
