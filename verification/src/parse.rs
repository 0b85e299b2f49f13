//! Turning free-form text into a cell value, as import and insert tooling
//! needs: the text is tried as a boolean, as a 64-bit integer, as a calendar
//! date, and as an absolute URL, in that order, and kept as a string when
//! nothing fits. Dates and URLs are judged by the chrono and url crates
//! through the two trusted wrappers at the bottom.

use vstd::prelude::*;
use vstd::string::StrSliceExecFns;

use crate::strutil::lower_char;
use crate::value::{str_eq, FieldValue, Val};

verus! {

/// Whether `c` is a decimal digit.
pub open spec fn is_digit(c: char) -> bool {
    '0' <= c && c <= '9'
}

/// The value of a sequence of decimal digits, most significant first.
pub open spec fn digits_value(s: Seq<char>) -> int
    decreases s.len(),
{
    if s.len() == 0 {
        0
    } else {
        digits_value(s.drop_last()) * 10 + (s.last() as int - 48)
    }
}

/// Whether every character of the sequence is a decimal digit.
pub open spec fn all_digits(s: Seq<char>) -> bool {
    forall|i: int| 0 <= i < s.len() ==> is_digit(#[trigger] s[i])
}

/// The integer a piece of text denotes: an optional leading minus sign
/// followed by one or more decimal digits. The engine's numeric literals are
/// capped at eighteen digits, which always fit a 64-bit integer.
pub open spec fn int_of(s: Seq<char>) -> Option<int> {
    if s.len() > 0 && s[0] == '-' {
        let digits = s.drop_first();
        if digits.len() > 0 && digits.len() <= 18 && all_digits(digits) {
            Some(-digits_value(digits))
        } else {
            None
        }
    } else {
        if s.len() > 0 && s.len() <= 18 && all_digits(s) {
            Some(digits_value(s))
        } else {
            None
        }
    }
}

/// Ten to the `k`.
pub open spec fn pow10(k: nat) -> int
    decreases k,
{
    if k == 0 {
        1
    } else {
        10 * pow10((k - 1) as nat)
    }
}

/// `pow10` is positive and grows with its exponent.
proof fn lemma_pow10_mono(a: nat, b: nat)
    requires
        a <= b,
    ensures
        1 <= pow10(a) <= pow10(b),
    decreases b,
{
    if b == 0 {
    } else if a == b {
        lemma_pow10_mono((a - 1) as nat, (b - 1) as nat);
    } else {
        lemma_pow10_mono(a, (b - 1) as nat);
    }
}

/// A sequence of digits denotes a value below ten to its length.
proof fn lemma_digits_value_pow(s: Seq<char>)
    requires
        all_digits(s),
    ensures
        0 <= digits_value(s) < pow10(s.len()),
    decreases s.len(),
{
    if s.len() > 0 {
        assert(all_digits(s.drop_last())) by {
            assert(forall|i: int| 0 <= i < s.len() - 1 ==> s.drop_last()[i] == s[i]);
        }
        lemma_digits_value_pow(s.drop_last());
        assert(is_digit(s.last()));
        assert(48 <= s.last() as int <= 57);
    }
}

/// A digit sequence of at most eighteen digits stays below `10^18`.
proof fn lemma_digits_value_bound(s: Seq<char>)
    requires
        all_digits(s),
        s.len() <= 18,
    ensures
        0 <= digits_value(s) < 1000000000000000000,
{
    lemma_digits_value_pow(s);
    lemma_pow10_mono(s.len(), 18);
    reveal_with_fuel(pow10, 19);
    assert(pow10(18) == 1000000000000000000);
}

/// A digit sequence of at most seventeen digits stays below `10^17`.
proof fn lemma_digits_value_tight(s: Seq<char>)
    requires
        all_digits(s),
        s.len() <= 17,
    ensures
        0 <= digits_value(s) < 100000000000000000,
{
    lemma_digits_value_pow(s);
    lemma_pow10_mono(s.len(), 17);
    reveal_with_fuel(pow10, 18);
    assert(pow10(17) == 100000000000000000);
}

/// Parses a run of decimal digits, returning its value; the run must be
/// nonempty, all digits, and at most eighteen long.
fn parse_digits(s: &str, from: usize, to: usize) -> (r: Option<i64>)
    requires
        from <= to <= s@.len(),
    ensures
        ({
            let digits = s@.subrange(from as int, to as int);
            if to - from > 0 && to - from <= 18 && all_digits(digits) {
                r matches Some(v) && v as int == digits_value(digits)
            } else {
                r is None
            }
        }),
{
    let ghost digits = s@.subrange(from as int, to as int);
    if to == from || to - from > 18 {
        return None;
    }
    let mut value: i64 = 0;
    let mut i: usize = from;
    proof {
        assert(digits.subrange(0, 0) =~= Seq::<char>::empty());
    }
    while i < to
        invariant
            from <= i <= to <= s@.len(),
            to - from <= 18,
            digits == s@.subrange(from as int, to as int),
            all_digits(digits.subrange(0, i - from)),
            value as int == digits_value(digits.subrange(0, i - from)),
            0 <= value as int && (value as int) < 1000000000000000000,
        decreases to - i,
    {
        let c = s.get_char(i);
        proof {
            assert(s@[i as int] == digits[i - from]);
        }
        if !('0' <= c && c <= '9') {
            proof {
                assert(!is_digit(digits[i - from]));
            }
            return None;
        }
        proof {
            let prefix = digits.subrange(0, i - from);
            let next = digits.subrange(0, i + 1 - from);
            assert(next.drop_last() =~= prefix);
            assert(next.last() == digits[i - from]);
            assert(all_digits(next)) by {
                assert(forall|k: int| 0 <= k < prefix.len() ==> next[k] == prefix[k]);
            }
            lemma_digits_value_tight(prefix);
        }
        value = value * 10 + ((c as u32) - 48) as i64;
        i = i + 1;
    }
    proof {
        assert(digits.subrange(0, to - from) =~= digits);
        lemma_digits_value_bound(digits);
    }
    Some(value)
}

/// Parses a whole piece of text as a signed integer, as [`int_of`] defines.
pub fn parse_int(s: &str) -> (r: Option<i64>)
    ensures
        match int_of(s@) {
            Some(v) => r matches Some(x) && x as int == v,
            None => r is None,
        },
{
    let n = s.unicode_len();
    if n == 0 {
        return None;
    }
    if s.get_char(0) == '-' {
        proof {
            assert(s@.subrange(1, n as int) =~= s@.drop_first());
            if s@.drop_first().len() > 0 && s@.drop_first().len() <= 18 && all_digits(
                s@.drop_first(),
            ) {
                lemma_digits_value_bound(s@.drop_first());
            }
        }
        match parse_digits(s, 1, n) {
            Some(v) => Some(-v),
            None => None,
        }
    } else {
        proof {
            assert(s@.subrange(0, n as int) =~= s@);
        }
        parse_digits(s, 0, n)
    }
}

/// The shape of a calendar date: `YYYY-MM-DD`, all digits.
pub open spec fn date_shape(s: Seq<char>) -> bool {
    &&& s.len() == 10
    &&& s[4] == '-'
    &&& s[7] == '-'
    &&& all_digits(s.subrange(0, 4))
    &&& all_digits(s.subrange(5, 7))
    &&& all_digits(s.subrange(8, 10))
}

/// The UTC midnight timestamp of a calendar date, when the date exists: what
/// the chrono crate computes. The result depends on the three numbers alone.
pub uninterp spec fn date_stamp_of(y: int, m: int, d: int) -> Option<int>;

/// The normalized text of an absolute URL, when the text parses as one: what
/// the url crate computes. The result depends on the input text alone.
pub uninterp spec fn url_of(s: Seq<char>) -> Option<Seq<char>>;

/// Relies on chrono's `NaiveDate::from_ymd_opt`, `NaiveDate::and_hms_opt` and
/// `DateTime::timestamp`: whether a calendar date exists, and the epoch
/// second of its UTC midnight, depend on the three numbers alone.
#[verifier::external_body]
fn date_timestamp(y: i32, m: u32, d: u32) -> (r: Option<i64>)
    ensures
        (r is Some) == (date_stamp_of(y as int, m as int, d as int) is Some),
        r matches Some(ts) ==> date_stamp_of(y as int, m as int, d as int) == Some(ts as int),
{
    match chrono::NaiveDate::from_ymd_opt(y, m, d) {
        Some(nd) => match nd.and_hms_opt(0, 0, 0) {
            Some(ndt) => Some(ndt.and_utc().timestamp()),
            None => None,
        },
        None => None,
    }
}

/// Relies on `url::Url::parse` and its `Display` form: whether a text parses
/// as an absolute URL, and the normalized text, depend on the input alone.
#[verifier::external_body]
fn parse_url(s: &str) -> (r: Option<String>)
    ensures
        (r is Some) == (url_of(s@) is Some),
        r matches Some(t) ==> url_of(s@) == Some(t@),
{
    match url::Url::parse(s) {
        Ok(u) => Some(Into::<String>::into(u)),
        Err(_) => None,
    }
}

/// The cell value a piece of text denotes: `true` and `false` (any ASCII
/// case) are booleans; a signed run of up to eighteen digits is a number; a
/// valid `YYYY-MM-DD` calendar date is a date; an absolute URL is a URL; and
/// anything else stays a string.
pub open spec fn parsed_val(s: Seq<char>) -> Val {
    let l = s.map_values(|c: char| lower_char(c));
    if l == "true"@ {
        Val::Boolean(true)
    } else if l == "false"@ {
        Val::Boolean(false)
    } else if int_of(s) is Some {
        Val::Number(int_of(s).unwrap())
    } else if date_shape(s) && date_stamp_of(
        digits_value(s.subrange(0, 4)),
        digits_value(s.subrange(5, 7)),
        digits_value(s.subrange(8, 10)),
    ) is Some {
        Val::Date(
            date_stamp_of(
                digits_value(s.subrange(0, 4)),
                digits_value(s.subrange(5, 7)),
                digits_value(s.subrange(8, 10)),
            ).unwrap(),
        )
    } else if url_of(s) is Some {
        Val::Url(url_of(s).unwrap())
    } else {
        Val::String(s)
    }
}

/// Turns free-form text into the cell value it denotes, per [`parsed_val`].
pub fn parse_into_field_value(value: &String) -> (r: FieldValue)
    ensures
        r@ == parsed_val(value@),
{
    let lowered = crate::strutil::ascii_lower(value.as_str());
    if str_eq(lowered.as_str(), "true") {
        return FieldValue::Boolean(true);
    }
    if str_eq(lowered.as_str(), "false") {
        return FieldValue::Boolean(false);
    }
    match parse_int(value.as_str()) {
        Some(v) => {
            return FieldValue::Number(v);
        },
        None => {},
    }
    match try_parse_date(value.as_str()) {
        Some(ts) => {
            return FieldValue::Date(ts);
        },
        None => {},
    }
    proof {
        assert(!(int_of(value@) is Some));
    }
    match parse_url(value.as_str()) {
        Some(u) => {
            return FieldValue::Url(u);
        },
        None => {},
    }
    FieldValue::String(value.clone())
}

/// Parses `YYYY-MM-DD` into its UTC midnight timestamp, if the text has that
/// shape and the date exists.
fn try_parse_date(s: &str) -> (r: Option<i64>)
    ensures
        ({
            let stamp = date_stamp_of(
                digits_value(s@.subrange(0, 4)),
                digits_value(s@.subrange(5, 7)),
                digits_value(s@.subrange(8, 10)),
            );
            if date_shape(s@) && stamp is Some {
                r matches Some(ts) && Some(ts as int) == stamp
            } else {
                r is None
            }
        }),
{
    let n = s.unicode_len();
    if n != 10 {
        return None;
    }
    if s.get_char(4) != '-' || s.get_char(7) != '-' {
        return None;
    }
    let y = match parse_digits(s, 0, 4) {
        Some(v) => v,
        None => {
            return None;
        },
    };
    let m = match parse_digits(s, 5, 7) {
        Some(v) => v,
        None => {
            return None;
        },
    };
    let d = match parse_digits(s, 8, 10) {
        Some(v) => v,
        None => {
            return None;
        },
    };
    proof {
        lemma_digits_value_pow(s@.subrange(0, 4));
        lemma_digits_value_pow(s@.subrange(5, 7));
        lemma_digits_value_pow(s@.subrange(8, 10));
        reveal_with_fuel(pow10, 5);
        assert(pow10(4) == 10000);
        assert(pow10(2) == 100);
    }
    date_timestamp(y as i32, m as u32, d as u32)
}

} // verus!
