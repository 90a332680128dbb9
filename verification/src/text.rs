//! Building text one character at a time.

use vstd::prelude::*;

verus! {

/// Appends one character, as `String::push` does: the text afterwards is
/// the text before with the character at its end.
#[verifier::external_body]
pub(crate) fn push_char(text: &mut String, c: char)
    ensures
        final(text)@ == old(text)@.push(c),
{
    text.push(c)
}

} // verus!
