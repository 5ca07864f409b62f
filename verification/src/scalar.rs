//! Scalar coercion: the words `yes`, `no` and `none` become `true`,
//! `false` and null, digit runs become unsigned integers, decimal-number
//! text becomes a float, and anything else stays a string.
//!
//! Coercion applies to values only, never to keys, and only once a word is
//! committed as an array item or as the right-hand side of an assignment.

use vstd::prelude::*;
use crate::text::str_to_chars;
use crate::value::{SpecValue, Value};

verus! {

/// Is `c` a decimal digit?
pub open spec fn is_digit(c: char) -> bool {
    '0' <= c && c <= '9'
}

/// The numeric value of a digit.
pub open spec fn digit_val(c: char) -> int {
    c as int - '0' as int
}

/// Does `s` consist of decimal digits only, at least one?
pub open spec fn all_digits(s: Seq<char>) -> bool {
    forall|i: int| 0 <= i < s.len() ==> is_digit(#[trigger] s[i])
}

/// The number a run of decimal digits denotes.
pub open spec fn dec_val(s: Seq<char>) -> int
    decreases s.len(),
{
    if s.len() == 0 {
        0
    } else {
        dec_val(s.drop_last()) * 10 + digit_val(s.last())
    }
}

/// `s` without one leading `+`, if any: the digits of an unsigned number.
pub open spec fn unsigned_digits(s: Seq<char>) -> Seq<char> {
    if s.len() > 0 && s[0] == '+' {
        s.drop_first()
    } else {
        s
    }
}

/// Does `s` denote an unsigned 64-bit integer: an optional `+`, then one
/// or more digits, with a value that fits?
pub open spec fn is_u64_text(s: Seq<char>) -> bool {
    let d = unsigned_digits(s);
    d.len() > 0 && all_digits(d) && dec_val(d) <= u64::MAX
}

/// The integer `s` denotes, when `is_u64_text(s)` holds.
pub open spec fn u64_text_val(s: Seq<char>) -> int {
    dec_val(unsigned_digits(s))
}

/// The first position at or after `i` that does not hold a digit.
pub open spec fn digits_end(s: Seq<char>, i: int) -> int
    decreases s.len() - i,
{
    if i < s.len() && is_digit(s[i]) {
        digits_end(s, i + 1)
    } else {
        i
    }
}

/// Is `c` a sign character?
pub open spec fn is_sign(c: char) -> bool {
    c == '+' || c == '-'
}

/// Does `s` denote a decimal floating-point number?  The shape is an
/// optional sign, then digits with an optional point (at least one digit
/// on one side of the point), then an optional exponent `e`/`E`, optional
/// sign, one or more digits.  The keywords `inf` and `nan` are not
/// numbers here: they stay strings, since a float value is carried as its
/// literal text.
pub open spec fn is_float_text(s: Seq<char>) -> bool {
    let i1: int = if s.len() > 0 && is_sign(s[0]) {
        1
    } else {
        0
    };
    let i2 = digits_end(s, i1);
    let i3: int = if i2 < s.len() && s[i2] == '.' {
        digits_end(s, i2 + 1)
    } else {
        i2
    };
    let mantissa_ok = i2 > i1 || (i2 < s.len() && s[i2] == '.' && i3 > i2 + 1);
    if i3 == s.len() {
        mantissa_ok
    } else if s[i3] == 'e' || s[i3] == 'E' {
        let i4: int = if i3 + 1 < s.len() && is_sign(s[i3 + 1]) {
            i3 + 2
        } else {
            i3 + 1
        };
        let i5 = digits_end(s, i4);
        mantissa_ok && i5 > i4 && i5 == s.len()
    } else {
        false
    }
}

/// What a scalar coerces to.  Words become booleans, null, numbers or
/// stay strings; everything that is not a string passes through.
pub open spec fn spec_parse_scalar(v: SpecValue) -> SpecValue {
    match v {
        SpecValue::Str(s) => if s == "yes"@ {
            SpecValue::Bool(true)
        } else if s == "no"@ {
            SpecValue::Bool(false)
        } else if s == "none"@ {
            SpecValue::Null
        } else if is_u64_text(s) {
            SpecValue::UInt(u64_text_val(s) as u64)
        } else if is_float_text(s) {
            SpecValue::Float(s)
        } else {
            SpecValue::Str(s)
        },
        _ => v,
    }
}

fn digit(c: char) -> (b: bool)
    ensures
        b == is_digit(c),
{
    c as u32 >= 48 && c as u32 <= 57
}

proof fn lemma_dec_val_monotonic(s: Seq<char>, i: int, j: int)
    requires
        0 <= i <= j <= s.len(),
        all_digits(s),
    ensures
        dec_val(s.subrange(0, i)) <= dec_val(s.subrange(0, j)),
    decreases j - i,
{
    if i < j {
        let a = s.subrange(0, j - 1);
        let b = s.subrange(0, j);
        assert(b.drop_last() =~= a);
        assert(dec_val(b) == dec_val(a) * 10 + digit_val(b.last()));
        assert(dec_val(a) >= 0) by {
            lemma_dec_val_nonneg(a);
        }
        lemma_dec_val_monotonic(s, i, j - 1);
    }
}

proof fn lemma_dec_val_nonneg(s: Seq<char>)
    requires
        forall|i: int| 0 <= i < s.len() ==> is_digit(#[trigger] s[i]),
    ensures
        dec_val(s) >= 0,
    decreases s.len(),
{
    if s.len() > 0 {
        lemma_dec_val_nonneg(s.drop_last());
    }
}

/// Reads the digits `d` as an unsigned 64-bit integer, or reports that
/// their value does not fit.
fn digits_to_u64(d: &Vec<char>) -> (r: Option<u64>)
    requires
        d@.len() > 0,
        all_digits(d@),
    ensures
        match r {
            Some(n) => dec_val(d@) <= u64::MAX && n == dec_val(d@),
            None => dec_val(d@) > u64::MAX,
        },
{
    let mut val: u64 = 0;
    let mut i: usize = 0;
    while i < d.len()
        invariant
            0 <= i <= d@.len(),
            all_digits(d@),
            val == dec_val(d@.subrange(0, i as int)),
        decreases d@.len() - i,
    {
        let c = d[i];
        let dv: u64 = (c as u32 - 48) as u64;
        assert(dv == digit_val(d@[i as int]) && dv <= 9);
        let next = match val.checked_mul(10) {
            Some(m) => m.checked_add(dv),
            None => None,
        };
        assert(d@.subrange(0, i + 1 as int).drop_last() =~= d@.subrange(0, i as int));
        match next {
            Some(n) => {
                val = n;
                i = i + 1;
            },
            None => {
                proof {
                    lemma_dec_val_monotonic(d@, i + 1, d@.len() as int);
                    assert(d@.subrange(0, d@.len() as int) =~= d@);
                }
                return None;
            },
        }
    }
    assert(d@.subrange(0, d@.len() as int) =~= d@);
    Some(val)
}

/// Reads `cs` as an unsigned 64-bit integer: an optional `+`, then one or
/// more digits whose value fits.
fn chars_to_u64(cs: &Vec<char>) -> (r: Option<u64>)
    ensures
        r is Some <==> is_u64_text(cs@),
        match r {
            Some(n) => n == u64_text_val(cs@),
            None => true,
        },
{
    let start: usize = if cs.len() > 0 && cs[0] == '+' {
        1
    } else {
        0
    };
    let ghost d = unsigned_digits(cs@);
    assert(d =~= cs@.subrange(start as int, cs@.len() as int));
    let mut i = start;
    while i < cs.len() && digit(cs[i])
        invariant
            start <= i <= cs@.len(),
            forall|k: int| start <= k < i ==> is_digit(#[trigger] cs@[k]),
        decreases cs@.len() - i,
    {
        i = i + 1;
    }
    if i < cs.len() || i == start {
        // a non-digit after the optional sign, or no digits at all
        proof {
            if i < cs.len() {
                assert(d[i - start] == cs@[i as int]);
                assert(!is_digit(d[i - start]));
            }
        }
        assert(!is_u64_text(cs@));
        return None;
    }
    assert(all_digits(d));
    let mut digits: Vec<char> = Vec::new();
    let mut k = start;
    while k < cs.len()
        invariant
            start <= k <= cs@.len(),
            digits@ =~= cs@.subrange(start as int, k as int),
        decreases cs@.len() - k,
    {
        digits.push(cs[k]);
        k = k + 1;
    }
    assert(digits@ =~= d);
    digits_to_u64(&digits)
}

fn sign(c: char) -> (b: bool)
    ensures
        b == is_sign(c),
{
    c == '+' || c == '-'
}

fn digits_end_exec(cs: &Vec<char>, i: usize) -> (r: usize)
    requires
        i <= cs@.len(),
    ensures
        r == digits_end(cs@, i as int),
        i <= r <= cs@.len(),
{
    let mut j = i;
    while j < cs.len() && digit(cs[j])
        invariant
            i <= j <= cs@.len(),
            digits_end(cs@, i as int) == digits_end(cs@, j as int),
        decreases cs@.len() - j,
    {
        j = j + 1;
    }
    j
}

/// Does `cs` spell a decimal floating-point number?
fn float_text(cs: &Vec<char>) -> (b: bool)
    ensures
        b == is_float_text(cs@),
{
    let n = cs.len();
    let i1: usize = if n > 0 && sign(cs[0]) {
        1
    } else {
        0
    };
    let i2 = digits_end_exec(cs, i1);
    let has_dot = i2 < n && cs[i2] == '.';
    let i3 = if has_dot {
        digits_end_exec(cs, i2 + 1)
    } else {
        i2
    };
    let mantissa_ok = i2 > i1 || (has_dot && i3 > i2 + 1);
    if i3 == n {
        mantissa_ok
    } else if cs[i3] == 'e' || cs[i3] == 'E' {
        let i4 = if i3 + 1 < n && sign(cs[i3 + 1]) {
            i3 + 2
        } else {
            i3 + 1
        };
        let i5 = digits_end_exec(cs, i4);
        mantissa_ok && i5 > i4 && i5 == n
    } else {
        false
    }
}

/// Coerces one scalar: `yes`, `no` and `none` become `true`, `false` and
/// null, number text becomes a number, any other string stays itself, and
/// values that are not strings pass through untouched.
pub fn parse_scalar(v: Value) -> (r: Value)
    ensures
        r@ == spec_parse_scalar(v@),
{
    match v {
        Value::Str(s) => {
            if s == String::from_str("yes") {
                Value::Bool(true)
            } else if s == String::from_str("no") {
                Value::Bool(false)
            } else if s == String::from_str("none") {
                Value::Null
            } else {
                let cs = str_to_chars(s.as_str());
                match chars_to_u64(&cs) {
                    Some(n) => Value::UInt(n),
                    None => {
                        if float_text(&cs) {
                            Value::Float(s)
                        } else {
                            Value::Str(s)
                        }
                    },
                }
            }
        },
        other => other,
    }
}

/// Coercion is idempotent: coercing a coerced scalar changes nothing.
pub proof fn lemma_parse_scalar_idempotent(v: SpecValue)
    ensures
        spec_parse_scalar(spec_parse_scalar(v)) == spec_parse_scalar(v),
{
}

} // verus!
