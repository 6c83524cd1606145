//! What the verifier is told about the string operations of the standard
//! library that the crate builds its texts with.
use vstd::prelude::*;

verus! {

/// `String::push` appends the one character `ch` to the string and changes
/// nothing else of it. Assumed, not proved: it is the documented behaviour of
/// the standard library.
pub assume_specification[ std::string::String::push ](s: &mut std::string::String, ch: char)
    ensures
        final(s)@ == old(s)@.push(ch),
;

/// The text that `{:?}` writes for the string `s`: `s` between quotation
/// marks, with the characters that could not stand there written as escapes.
pub uninterp spec fn debug_text(s: Seq<char>) -> Seq<char>;

/// `format!("{:?}", s)`, the standard library's `Debug` text of a string. The
/// contract only gives that text its name: the same characters always give
/// the same text.
#[verifier::external_body]
pub(crate) fn debug_string(s: &str) -> (r: String)
    ensures
        r@ == debug_text(s@),
{
    format!("{:?}", s)
}

} // verus!
