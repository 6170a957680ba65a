//! Verified text building: character appends and zero-padded decimal and
//! hexadecimal renderings used by the disassembly listing and the debugger.

use vstd::prelude::*;

verus! {

/// Relies on `String::push`: appends exactly the one character.
#[verifier::external_body]
pub(crate) fn string_push(s: &mut String, c: char)
    ensures
        final(s)@ == old(s)@.push(c),
{
    s.push(c);
}

/// The character for one digit value: `0`-`9`, then `a`-`f`.
pub open spec fn spec_digit(d: int) -> char {
    if d < 10 {
        ((48 + d) as u8) as char
    } else {
        ((87 + d) as u8) as char
    }
}

fn digit_char(d: u8) -> (c: char)
    requires
        d < 16,
    ensures
        c == spec_digit(d as int),
{
    if d < 10 {
        (48 + d) as char
    } else {
        (87 + d) as char
    }
}

/// The digits of `n` in base `base`, zero-padded on the left to `width`.
pub open spec fn spec_radix(n: int, width: int, base: int) -> Seq<char>
    decreases n + (if width > 0 { width } else { 0 }),
{
    if base < 2 || n < 0 {
        Seq::empty()
    } else if width <= 1 && n < base {
        seq![spec_digit(n % base)]
    } else {
        proof {
            assert((n >= base ==> n / base < n && n / base >= 0) && (n < base ==> n / base
                == 0)) by (nonlinear_arith)
                requires
                    n >= 0,
                    base >= 2,
            ;
        }
        spec_radix(n / base, if width > 1 { width - 1 } else { 0 }, base).push(
            spec_digit(n % base),
        )
    }
}

/// Decimal rendering, zero-padded to `width`.
pub open spec fn spec_dec(n: int, width: int) -> Seq<char> {
    spec_radix(n, width, 10)
}

/// Hexadecimal rendering, zero-padded to `width`.
pub open spec fn spec_hex(n: int, width: int) -> Seq<char> {
    spec_radix(n, width, 16)
}

/// Append the decimal digits of `n`, zero-padded on the left to `width`.
pub fn push_dec(s: &mut String, n: usize, width: usize)
    ensures
        final(s)@ == old(s)@ + spec_dec(n as int, width as int),
    decreases n + width,
{
    if width <= 1 && n < 10 {
        string_push(s, digit_char((n % 10) as u8));
    } else {
        push_dec(s, n / 10, if width == 0 { 0 } else { width - 1 });
        string_push(s, digit_char((n % 10) as u8));
        proof {
            assert(s@ =~= old(s)@ + spec_dec(n as int, width as int));
        }
    }
}

/// Append the hexadecimal digits of `n`, zero-padded on the left to `width`.
pub fn push_hex(s: &mut String, n: usize, width: usize)
    ensures
        final(s)@ == old(s)@ + spec_hex(n as int, width as int),
    decreases n + width,
{
    if width <= 1 && n < 16 {
        string_push(s, digit_char((n % 16) as u8));
    } else {
        push_hex(s, n / 16, if width == 0 { 0 } else { width - 1 });
        string_push(s, digit_char((n % 16) as u8));
        proof {
            assert(s@ =~= old(s)@ + spec_hex(n as int, width as int));
        }
    }
}

/// Append the same character `count` times.
pub fn push_repeat(s: &mut String, c: char, count: usize)
    ensures
        final(s)@ == old(s)@ + Seq::new(count as nat, |i: int| c),
{
    let mut i: usize = 0;
    while i < count
        invariant
            i <= count,
            s@ == old(s)@ + Seq::new(i as nat, |k: int| c),
        decreases count - i,
    {
        string_push(s, c);
        proof {
            assert(s@ =~= old(s)@ + Seq::new((i + 1) as nat, |k: int| c));
        }
        i += 1;
    }
}

} // verus!
