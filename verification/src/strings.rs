//! What this crate takes on trust about `String`.

use vstd::prelude::*;

verus! {

/// `String::push` appends the one character `ch` to the end of the string and
/// leaves what was there before in place.
pub assume_specification[ String::push ](s: &mut String, ch: char)
    ensures
        final(s)@ == old(s)@.push(ch),
;

} // verus!
