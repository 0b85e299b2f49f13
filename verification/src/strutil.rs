//! Small string-building helpers: appending single characters, ASCII case
//! folding, and decimal rendering. Only ASCII letters change case; any other
//! character is kept as it is.

use vstd::prelude::*;
use vstd::string::StrSliceExecFns;

verus! {

/// Relies on `String::push`: appends one character to the end of the string.
#[verifier::external_body]
pub(crate) fn push_char(s: &mut String, c: char)
    ensures
        final(s)@ == old(s)@.push(c),
{
    s.push(c);
}

/// Relies on `char::from_u32`: defined for every Unicode scalar value, and
/// returns the character with exactly that value.
#[verifier::external_body]
pub(crate) fn char_from_u32(v: u32) -> (c: char)
    requires
        vstd::utf8::is_scalar(v),
    ensures
        c as u32 == v,
{
    char::from_u32(v).unwrap()
}

/// An ASCII lower-case letter raised to upper case; everything else is kept.
pub open spec fn upper_char(c: char) -> char {
    if 'a' <= c && c <= 'z' {
        (((c as u32) - 32) as u32) as char
    } else {
        c
    }
}

/// An ASCII upper-case letter lowered; everything else is kept.
pub open spec fn lower_char(c: char) -> char {
    if 'A' <= c && c <= 'Z' {
        (((c as u32) + 32) as u32) as char
    } else {
        c
    }
}

/// Appends `c`, ASCII-uppercased, to `out`.
fn push_upper(out: &mut String, c: char)
    ensures
        final(out)@ == old(out)@.push(upper_char(c)),
{
    if 'a' <= c && c <= 'z' {
        let v = (c as u32) - 32;
        proof {
            assert(97 <= c as u32 <= 122);
            assert(vstd::utf8::is_scalar(v));
        }
        let u = char_from_u32(v);
        proof {
            vstd::utf8::char_u32_cast(u, v);
        }
        push_char(out, u);
    } else {
        push_char(out, c);
    }
}

/// Appends `c`, ASCII-lowercased, to `out`.
fn push_lower(out: &mut String, c: char)
    ensures
        final(out)@ == old(out)@.push(lower_char(c)),
{
    if 'A' <= c && c <= 'Z' {
        let v = (c as u32) + 32;
        proof {
            assert(65 <= c as u32 <= 90);
            assert(vstd::utf8::is_scalar(v));
        }
        let u = char_from_u32(v);
        proof {
            vstd::utf8::char_u32_cast(u, v);
        }
        push_char(out, u);
    } else {
        push_char(out, c);
    }
}

/// The string with every ASCII letter lowered.
pub fn ascii_lower(s: &str) -> (r: String)
    ensures
        r@ == s@.map_values(|c: char| lower_char(c)),
{
    let n = s.unicode_len();
    let mut out = String::new();
    let mut i: usize = 0;
    proof {
        assert(out@ =~= s@.map_values(|c: char| lower_char(c)).take(0));
    }
    while i < n
        invariant
            i <= n,
            n == s@.len(),
            out@ == s@.map_values(|c: char| lower_char(c)).take(i as int),
        decreases n - i,
    {
        let c = s.get_char(i);
        push_lower(&mut out, c);
        proof {
            assert(s@.map_values(|c: char| lower_char(c)).take(i as int + 1) =~= s@.map_values(
                |c: char| lower_char(c),
            ).take(i as int).push(lower_char(s@[i as int])));
        }
        i = i + 1;
    }
    proof {
        assert(s@.map_values(|c: char| lower_char(c)).take(n as int) =~= s@.map_values(
            |c: char| lower_char(c),
        ));
    }
    out
}

/// A character of a file name: spaces become underscores and ASCII letters
/// are uppercased.
pub open spec fn file_name_char(c: char) -> char {
    if c == ' ' {
        '_'
    } else {
        upper_char(c)
    }
}

/// The string mapped through [`file_name_char`].
pub fn file_name_fold(s: &str) -> (r: String)
    ensures
        r@ == s@.map_values(|c: char| file_name_char(c)),
{
    let n = s.unicode_len();
    let mut out = String::new();
    let mut i: usize = 0;
    proof {
        assert(out@ =~= s@.map_values(|c: char| file_name_char(c)).take(0));
    }
    while i < n
        invariant
            i <= n,
            n == s@.len(),
            out@ == s@.map_values(|c: char| file_name_char(c)).take(i as int),
        decreases n - i,
    {
        let c = s.get_char(i);
        if c == ' ' {
            push_char(&mut out, '_');
        } else {
            push_upper(&mut out, c);
        }
        proof {
            assert(s@.map_values(|c: char| file_name_char(c)).take(i as int + 1) =~= s@.map_values(
                |c: char| file_name_char(c),
            ).take(i as int).push(file_name_char(s@[i as int])));
        }
        i = i + 1;
    }
    proof {
        assert(s@.map_values(|c: char| file_name_char(c)).take(n as int) =~= s@.map_values(
            |c: char| file_name_char(c),
        ));
    }
    out
}

/// The decimal digit character for one digit value.
pub open spec fn digit_char(d: int) -> char {
    ((48 + d) as u32) as char
}

/// The decimal digits of a number, most significant first.
pub open spec fn decimal_of(n: int) -> Seq<char>
    decreases n,
{
    if n < 10 {
        seq![digit_char(if n < 0 {
            0
        } else {
            n
        })]
    } else {
        decimal_of(n / 10).push(digit_char(n % 10))
    }
}

/// Appends the decimal rendering of `n` to `s`.
pub fn push_decimal(s: &mut String, n: u64)
    ensures
        final(s)@ == old(s)@ + decimal_of(n as int),
    decreases n,
{
    if n >= 10 {
        push_decimal(s, n / 10);
    }
    let d = (n % 10) as u32;
    let v = 48 + d;
    proof {
        assert(vstd::utf8::is_scalar(v));
    }
    let c = char_from_u32(v);
    proof {
        vstd::utf8::char_u32_cast(c, v);
        assert(c == digit_char((n % 10) as int));
    }
    push_char(s, c);
    proof {
        if n < 10 {
            assert(decimal_of(n as int) =~= seq![digit_char(n as int)]);
        }
        assert(s@ =~= old(s)@ + decimal_of(n as int));
    }
}

} // verus!
