//! Character and string shims over the standard library, for the two
//! operations the codecs need that vstd gives no specification for.

use vstd::prelude::*;
use vstd::utf8::is_scalar;

verus! {

/// Relies on char::from_u32: it returns `Some` exactly on Unicode scalar
/// values (not a surrogate, at most U+10FFFF), and the returned character
/// has the given code point.
#[verifier::external_body]
pub(crate) fn char_from_u32(u: u32) -> (r: Option<char>)
    ensures
        r is Some <==> is_scalar(u),
        r matches Some(c) ==> c == u as char,
{
    char::from_u32(u)
}

/// Relies on String::push: it appends exactly the given character.
#[verifier::external_body]
pub(crate) fn push_char(s: &mut String, c: char)
    ensures
        final(s)@ == old(s)@.push(c),
{
    s.push(c);
}

} // verus!
