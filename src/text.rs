//! Rendering of bytes as text characters, and ASCII case folding.

use crate::bridge::{is_printable, push_char};
use vstd::prelude::*;
use vstd::string::*;

verus! {

/// A byte shows as itself when it is a printable ASCII character
/// (`0x20..=0x7E`) and as `.` otherwise.
pub open spec fn text_char(b: u8) -> char {
    if 0x20 <= b && b <= 0x7E {
        b as char
    } else {
        '.'
    }
}

/// An upper-case ASCII letter becomes its lower-case form; any other
/// character stays as it is.
pub open spec fn lower_char(c: char) -> char {
    if 65 <= (c as u32) && (c as u32) <= 90 {
        ((c as u32) + 32) as u8 as char
    } else {
        c
    }
}

/// `s` with its upper-case ASCII letters in lower case.
pub open spec fn lower_text(s: Seq<char>) -> Seq<char> {
    s.map_values(|c: char| lower_char(c))
}

/// Renders a byte as the one character that the text view shows for it.
pub fn byte_to_string(byte: &u8) -> (r: String)
    ensures
        r@ == seq![text_char(*byte)],
{
    let c = *byte as char;
    let mut s = String::new();
    if is_printable(c) {
        push_char(&mut s, c);
    } else {
        push_char(&mut s, '.');
    }
    assert(s@ =~= seq![text_char(*byte)]);
    s
}

/// Maps the upper-case ASCII letters of `s` to lower case.
pub fn lowercase_ascii(s: &str) -> (r: String)
    ensures
        r@ == lower_text(s@),
{
    let n = s.unicode_len();
    let mut out = String::new();
    let mut i: usize = 0;
    while i < n
        invariant
            n == s@.len(),
            i <= n,
            out@ =~= lower_text(s@.subrange(0, i as int)),
        decreases n - i,
    {
        let c = s.get_char(i);
        let l = if 'A' <= c && c <= 'Z' {
            ((c as u32) + 32) as u8 as char
        } else {
            c
        };
        push_char(&mut out, l);
        i = i + 1;
        assert(lower_text(s@.subrange(0, i as int)) =~= lower_text(s@.subrange(0, i - 1)).push(
            lower_char(c),
        ));
    }
    assert(s@.subrange(0, n as int) =~= s@);
    out
}

} // verus!
