//! Growing a `String` one piece at a time, and turning code points into chars.

use vstd::prelude::*;

verus! {

/// Whether `c` is a Unicode scalar value, i.e. a value that a `char` can hold.
pub open spec fn is_char_value(c: u32) -> bool {
    c < 0xD800 || (0xE000 <= c && c <= 0x10FFFF)
}

/// The chars that a code point stands for: the char itself when `c` is a Unicode
/// scalar value, nothing otherwise.
pub open spec fn chars_of_code_point(c: u32) -> Seq<char> {
    if is_char_value(c) {
        seq![c as char]
    } else {
        Seq::empty()
    }
}

/// `String::push`: appends one char.
#[verifier::external_body]
pub(crate) fn push_char(s: &mut String, c: char)
    ensures
        final(s)@ == old(s)@.push(c),
{
    s.push(c);
}

/// `char::from_u32`: the char with the given code point, or `None` where the value
/// is a surrogate or lies above `0x10FFFF`.
#[verifier::external_body]
pub(crate) fn char_from_u32(c: u32) -> (r: Option<char>)
    ensures
        r == (if is_char_value(c) { Some(c as char) } else { None::<char> }),
{
    char::from_u32(c)
}

/// Appends the char of code point `c` where there is one.
pub fn push_code_point(s: &mut String, c: u32)
    ensures
        final(s)@ == old(s)@ + chars_of_code_point(c),
{
    if let Some(ch) = char_from_u32(c) {
        push_char(s, ch);
        assert(old(s)@.push(ch) =~= old(s)@ + seq![ch]);
    } else {
        assert(old(s)@ + Seq::<char>::empty() =~= old(s)@);
    }
}

} // verus!
