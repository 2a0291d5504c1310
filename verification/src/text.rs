use vstd::prelude::*;

verus! {

/// `String::push` of the standard library: the string afterwards is the
/// string before with `c` added at its end.
#[verifier::external_body]
pub(crate) fn push_char(text: &mut String, c: char)
    ensures
        final(text)@ == old(text)@.push(c),
{
    text.push(c)
}

/// Whether a code point is a Unicode scalar value: any but a surrogate, up
/// to the last code point.
pub open spec fn is_scalar_value(code: u32) -> bool {
    code <= 0xD7FF || 0xE000 <= code <= 0x10FFFF
}

/// `char::from_u32` of the standard library: the character with the code
/// point `code`, and `None` exactly where `code` is no Unicode scalar value.
#[verifier::external_body]
pub(crate) fn char_from_u32(code: u32) -> (c: Option<char>)
    ensures
        is_scalar_value(code) ==> c == Some(code as char),
        !is_scalar_value(code) ==> c.is_none(),
{
    char::from_u32(code)
}

} // verus!
