//! Calls into std and into `ascii_utils` whose contracts are taken on trust.

use ascii_utils::Check;
use vstd::prelude::*;

verus! {

/// Relies on `String::push`: the character is appended at the end.
#[verifier::external_body]
pub(crate) fn push_char(s: &mut String, c: char)
    ensures
        final(s)@ == old(s)@.push(c),
{
    s.push(c);
}

/// Relies on `ascii_utils::Check::is_printable` for `char`: it truncates the
/// character to its low byte and accepts exactly `0x20..=0x7E`.
#[verifier::external_body]
pub(crate) fn is_printable(c: char) -> (r: bool)
    ensures
        r == (0x20 <= (c as u32) % 256 && (c as u32) % 256 <= 0x7E),
{
    c.is_printable()
}

} // verus!
