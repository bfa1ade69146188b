//! Hexadecimal rendering of bytes and addresses.

use crate::bridge::push_char;
use vstd::arithmetic::div_mod::{lemma_div_is_ordered, lemma_fundamental_div_mod};
use vstd::prelude::*;

verus! {

/// The character of a hexadecimal digit `d < 16`, with letters in upper case
/// when `upper` holds and in lower case otherwise.
pub open spec fn digit_char(d: nat, upper: bool) -> char {
    if d < 10 {
        (48 + d) as u8 as char
    } else if upper {
        (55 + d) as u8 as char
    } else {
        (87 + d) as u8 as char
    }
}

/// The value of a hexadecimal digit character, in either case.
pub open spec fn digit_value(c: char) -> nat {
    let x = c as u32;
    if 48 <= x && x <= 57 {
        (x - 48) as nat
    } else if 65 <= x && x <= 70 {
        (x - 55) as nat
    } else if 97 <= x && x <= 102 {
        (x - 87) as nat
    } else {
        0
    }
}

/// Sixteen to the power `n`.
pub open spec fn pow16(n: nat) -> nat
    decreases n,
{
    if n == 0 {
        1
    } else {
        16 * pow16((n - 1) as nat)
    }
}

/// The `n` lowest hexadecimal digits of `v`, most significant first.
pub open spec fn hex_digits(v: nat, n: nat, upper: bool) -> Seq<char>
    decreases n,
{
    if n == 0 {
        seq![]
    } else {
        hex_digits(v / 16, (n - 1) as nat, upper).push(digit_char(v % 16, upper))
    }
}

/// The number that a string of hexadecimal digits spells, most significant first.
pub open spec fn hex_value(s: Seq<char>) -> nat
    decreases s.len(),
{
    if s.len() == 0 {
        0
    } else {
        hex_value(s.drop_last()) * 16 + digit_value(s.last())
    }
}

/// A byte as two upper-case hexadecimal digits.
pub open spec fn hex_text(b: u8) -> Seq<char> {
    hex_digits(b as nat, 2, true)
}

/// An address as `0x` followed by eight lower-case hexadecimal digits.
pub open spec fn address_text(a: u32) -> Seq<char> {
    seq!['0', 'x'] + hex_digits(a as nat, 8, false)
}

/// `s` comes before `t` in dictionary order, both being of one length.
pub open spec fn text_lt(s: Seq<char>, t: Seq<char>) -> bool {
    s.len() == t.len() && exists|k: int|
        0 <= k < s.len() && #[trigger] s.subrange(0, k) == t.subrange(0, k) && (s[k] as u32) < (
        t[k] as u32)
}

/// `s` equals `t` or comes before it in dictionary order.
pub open spec fn text_le(s: Seq<char>, t: Seq<char>) -> bool {
    s == t || text_lt(s, t)
}

proof fn lemma_pow16_values()
    ensures
        pow16(2) == 0x100,
        pow16(8) == 0x1_0000_0000,
{
    reveal_with_fuel(pow16, 9);
}

proof fn lemma_digit_round_trip(d: nat, upper: bool)
    requires
        d < 16,
    ensures
        digit_value(digit_char(d, upper)) == d,
{
}

proof fn lemma_digit_ordered(d1: nat, d2: nat, upper: bool)
    requires
        d1 < d2 < 16,
    ensures
        (digit_char(d1, upper) as u32) < (digit_char(d2, upper) as u32),
{
}

proof fn lemma_digits_round_trip(v: nat, n: nat, upper: bool)
    requires
        v < pow16(n),
    ensures
        hex_digits(v, n, upper).len() == n,
        hex_value(hex_digits(v, n, upper)) == v,
    decreases n,
{
    if n > 0 {
        let m = (n - 1) as nat;
        lemma_fundamental_div_mod(v as int, 16);
        assert(v / 16 < pow16(m)) by (nonlinear_arith)
            requires
                v < 16 * pow16(m),
        ;
        lemma_digits_round_trip(v / 16, m, upper);
        lemma_digit_round_trip(v % 16, upper);
        let s = hex_digits(v, n, upper);
        assert(s.drop_last() =~= hex_digits(v / 16, m, upper));
    }
}

proof fn lemma_digits_ordered(v1: nat, v2: nat, n: nat, upper: bool)
    requires
        v1 < v2 < pow16(n),
    ensures
        text_lt(hex_digits(v1, n, upper), hex_digits(v2, n, upper)),
    decreases n,
{
    let m = (n - 1) as nat;
    let s = hex_digits(v1, n, upper);
    let t = hex_digits(v2, n, upper);
    let p = hex_digits(v1 / 16, m, upper);
    let q = hex_digits(v2 / 16, m, upper);
    lemma_fundamental_div_mod(v1 as int, 16);
    lemma_fundamental_div_mod(v2 as int, 16);
    lemma_div_is_ordered(v1 as int, v2 as int, 16);
    assert(v2 / 16 < pow16(m)) by (nonlinear_arith)
        requires
            v2 < 16 * pow16(m),
    ;
    lemma_digits_round_trip(v1 / 16, m, upper);
    lemma_digits_round_trip(v2 / 16, m, upper);
    if v1 / 16 < v2 / 16 {
        lemma_digits_ordered(v1 / 16, v2 / 16, m, upper);
        let k = choose|k: int|
            0 <= k < p.len() && #[trigger] p.subrange(0, k) == q.subrange(0, k) && (p[k] as u32)
                < (q[k] as u32);
        assert(s.subrange(0, k) =~= p.subrange(0, k));
        assert(t.subrange(0, k) =~= q.subrange(0, k));
        assert(s[k] == p[k] && t[k] == q[k]);
    } else {
        assert(v1 % 16 < v2 % 16);
        lemma_digit_ordered(v1 % 16, v2 % 16, upper);
        assert(s.subrange(0, m as int) =~= t.subrange(0, m as int));
    }
}

/// A byte renders as exactly two hexadecimal digits, and reading those digits
/// back gives the byte.
pub proof fn lemma_byte_hex_round_trip(b: u8)
    ensures
        hex_text(b).len() == 2,
        hex_value(hex_text(b)) == b,
{
    lemma_pow16_values();
    lemma_digits_round_trip(b as nat, 2, true);
}

/// The two digits of a byte: its high half, then its low half.
pub proof fn lemma_hex_text_digits(b: u8)
    ensures
        hex_text(b) == seq![digit_char(b as nat / 16, true), digit_char(b as nat % 16, true)],
        hex_text(b)[0] != '.',
{
    reveal_with_fuel(hex_digits, 3);
    assert(hex_text(b) =~= seq![digit_char(b as nat / 16, true), digit_char(b as nat % 16, true)]);
}

/// Every address renders as ten characters that start with `0x`, and a larger
/// address never renders as text that sorts before that of a smaller one.
pub proof fn lemma_address_ordered(a1: u32, a2: u32)
    requires
        a1 <= a2,
    ensures
        address_text(a1).len() == 10,
        address_text(a1).subrange(0, 2) == seq!['0', 'x'],
        text_le(address_text(a1), address_text(a2)),
{
    lemma_pow16_values();
    lemma_digits_round_trip(a1 as nat, 8, false);
    assert(address_text(a1).subrange(0, 2) =~= seq!['0', 'x']);
    if a1 < a2 {
        let s = hex_digits(a1 as nat, 8, false);
        let t = hex_digits(a2 as nat, 8, false);
        lemma_digits_ordered(a1 as nat, a2 as nat, 8, false);
        let k = choose|k: int|
            0 <= k < s.len() && #[trigger] s.subrange(0, k) == t.subrange(0, k) && (s[k] as u32)
                < (t[k] as u32);
        let x = address_text(a1);
        let y = address_text(a2);
        assert(x.subrange(0, k + 2) =~= seq!['0', 'x'] + s.subrange(0, k));
        assert(y.subrange(0, k + 2) =~= seq!['0', 'x'] + t.subrange(0, k));
        assert(x[k + 2] == s[k] && y[k + 2] == t[k]);
    }
}

fn digit(d: u8, upper: bool) -> (c: char)
    requires
        d < 16,
    ensures
        c == digit_char(d as nat, upper),
{
    if d < 10 {
        (48 + d) as char
    } else if upper {
        (55 + d) as char
    } else {
        (87 + d) as char
    }
}

fn push_digits(s: &mut String, v: u32, n: usize, upper: bool)
    ensures
        final(s)@ == old(s)@ + hex_digits(v as nat, n as nat, upper),
    decreases n,
{
    if n > 0 {
        push_digits(s, v / 16, n - 1, upper);
        push_char(s, digit((v % 16) as u8, upper));
        assert(final(s)@ =~= old(s)@ + hex_digits(v as nat, n as nat, upper));
    } else {
        assert(final(s)@ =~= old(s)@ + hex_digits(v as nat, n as nat, upper));
    }
}

/// Renders a byte as two upper-case hexadecimal digits.
pub fn byte_to_hex(byte: &u8) -> (r: String)
    ensures
        r@ == hex_text(*byte),
{
    let mut s = String::new();
    push_digits(&mut s, *byte as u32, 2, true);
    assert(s@ =~= hex_text(*byte));
    s
}

/// Renders an address as `0x` and eight lower-case hexadecimal digits.
pub fn address_to_hex(address: u32) -> (r: String)
    ensures
        r@ == address_text(address),
{
    let mut s = String::new();
    push_char(&mut s, '0');
    push_char(&mut s, 'x');
    push_digits(&mut s, address, 8, false);
    assert(s@ =~= address_text(address));
    s
}

} // verus!
