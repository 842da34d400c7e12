//! Decimal rendering of words and single-character output fragments.

use vstd::prelude::*;

verus! {

/// Whether `n` is a valid Unicode scalar value (a code point outside the
/// surrogate range).
pub open spec fn is_codepoint(n: i32) -> bool {
    0 <= n && (n < 0xD800 || (0xE000 <= n && n <= 0x10FFFF))
}

/// The character for a single decimal digit value.
pub open spec fn digit_char(d: nat) -> char
    recommends
        d < 10,
{
    ((48 + d) as u8) as char
}

/// The decimal digits of a nonnegative number, most significant first.
pub open spec fn dec_digits(n: nat) -> Seq<char>
    decreases n,
{
    if n < 10 {
        seq![digit_char(n)]
    } else {
        dec_digits(n / 10).push(digit_char(n % 10))
    }
}

/// Ordinary base-10 rendering of an integer: a `-` sign for negative
/// numbers, then the digits without leading zeros (`0` itself as "0").
pub open spec fn dec_rep(n: int) -> Seq<char> {
    if n < 0 {
        seq!['-'] + dec_digits((n * -1) as nat)
    } else {
        dec_digits(n as nat)
    }
}

/// Relies on `char::from_u32`: returns `Some` exactly on Unicode scalar
/// values (code points up to 0x10FFFF that are not surrogates), and then the
/// character with that code point.
#[verifier::external_body]
pub fn char_from_u32(u: u32) -> (r: Option<char>)
    ensures
        (u < 0xD800 || (0xE000 <= u && u <= 0x10FFFF)) ==> r == Some((u as char)),
        !(u < 0xD800 || (0xE000 <= u && u <= 0x10FFFF)) ==> r is None,
{
    char::from_u32(u)
}

/// Relies on `String::push`: appends one character at the end.
#[verifier::external_body]
pub fn push_char(s: &mut String, c: char)
    ensures
        final(s)@ == old(s)@.push(c),
{
    s.push(c);
}

/// A string holding exactly the given character.
pub fn char_to_string(c: char) -> (r: String)
    ensures
        r@ == seq![c],
{
    let mut s = String::new();
    push_char(&mut s, c);
    proof {
        assert(s@ =~= seq![c]);
    }
    s
}

/// Appends the decimal digits of `m`, most significant first.
pub fn push_dec_digits(m: u32, s: &mut String)
    ensures
        final(s)@ == old(s)@ + dec_digits(m as nat),
    decreases m,
{
    if m < 10 {
        let c = (m as u8 + 48) as char;
        push_char(s, c);
        proof {
            assert(c == digit_char(m as nat));
            assert(old(s)@.push(c) =~= old(s)@ + dec_digits(m as nat));
        }
    } else {
        push_dec_digits(m / 10, s);
        let c = ((m % 10) as u8 + 48) as char;
        push_char(s, c);
        proof {
            assert(c == digit_char((m % 10) as nat));
            assert((old(s)@ + dec_digits((m / 10) as nat)).push(c) =~= old(s)@
                + dec_digits(m as nat));
        }
    }
}

/// The decimal rendering of a word, as a string.
pub fn i32_to_string(n: i32) -> (r: String)
    ensures
        r@ == dec_rep(n as int),
{
    let m: u32 = if n < 0 {
        (-(n as i64)) as u32
    } else {
        n as u32
    };
    proof {
        assert(m as nat == if n < 0 {
            (n as int) * -1
        } else {
            n as int
        });
    }
    let mut s = String::new();
    if n < 0 {
        push_char(&mut s, '-');
        proof {
            assert(s@ =~= seq!['-']);
        }
    }
    push_dec_digits(m, &mut s);
    proof {
        if n < 0 {
            assert(s@ == seq!['-'] + dec_digits(((n as int) * -1) as nat));
        } else {
            assert(Seq::<char>::empty() + dec_digits(n as nat) =~= dec_digits(n as nat));
        }
    }
    s
}

} // verus!
