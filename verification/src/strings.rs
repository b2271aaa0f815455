//! What the scanner takes on trust of `String`: the three methods below come
//! from the standard library, and their contracts are stated, not proved.

use vstd::prelude::*;

verus! {

/// `String::push` appends the character to the end of the string.
pub assume_specification[ String::push ](s: &mut String, c: char)
    ensures
        final(s)@ == old(s)@.push(c),
;

/// `String::clear` removes all characters from the string.
pub assume_specification[ String::clear ](s: &mut String)
    ensures
        final(s)@ == Seq::<char>::empty(),
;

/// `String::remove` removes the character that starts at a byte position and
/// returns it. It panics on a position that is no character's start, so this
/// contract takes the position 0 of a string that is not empty, and says that
/// the first character leaves.
pub assume_specification[ String::remove ](s: &mut String, idx: usize) -> (c: char)
    requires
        idx == 0,
        old(s)@.len() > 0,
    ensures
        c == old(s)@[0],
        final(s)@ == old(s)@.drop_first(),
;

} // verus!
