//! Numeric literal text: validation and signed integer parsing.
//!
//! A mantissa is well formed when its text holds at most one decimal
//! point and at least one digit; the exponent of a numeric literal is
//! the value of a signed decimal digit run, and must fit in 16 signed
//! bits.

use vstd::prelude::*;
use vstd::string::StrSliceExecFns;

use crate::scan::{digit_char, digit_val, is_digit_char};

verus! {

/// Every character of `t` is an ASCII digit.
pub open spec fn all_digits(t: Seq<char>) -> bool {
    forall|i: int| 0 <= i < t.len() ==> is_digit_char(t[i])
}

/// The value of a run of ASCII digits read as a decimal numeral.
pub open spec fn digits_val(t: Seq<char>) -> int
    decreases t.len(),
{
    if t.len() == 0 {
        0
    } else {
        digits_val(t.drop_last()) * 10 + digit_val(t.last())
    }
}

/// `t` without its optional single leading sign.
pub open spec fn sign_body(t: Seq<char>) -> Seq<char> {
    if t.len() > 0 && (t[0] == '+' || t[0] == '-') {
        t.drop_first()
    } else {
        t
    }
}

/// Whether `t` carries a leading minus sign.
pub open spec fn is_negative_text(t: Seq<char>) -> bool {
    t.len() > 0 && t[0] == '-'
}

/// `t` is a well-formed signed decimal numeral: an optional single
/// leading sign followed by a non-empty run of digits.
pub open spec fn int_text_wf(t: Seq<char>) -> bool {
    sign_body(t).len() > 0 && all_digits(sign_body(t))
}

/// The signed value of a well-formed signed decimal numeral.
pub open spec fn int_text_val(t: Seq<char>) -> int {
    if is_negative_text(t) {
        -digits_val(sign_body(t))
    } else {
        digits_val(sign_body(t))
    }
}

/// A digit run has a non-negative value.
pub proof fn lemma_digits_val_nonneg(t: Seq<char>)
    requires
        all_digits(t),
    ensures
        digits_val(t) >= 0,
    decreases t.len(),
{
    if t.len() > 0 {
        lemma_digits_val_nonneg(t.drop_last());
    }
}

/// Reading one more digit multiplies the value by ten and adds the
/// digit.
pub proof fn lemma_digits_val_take_succ(t: Seq<char>, j: int)
    requires
        0 <= j < t.len(),
    ensures
        digits_val(t.take(j + 1)) == digits_val(t.take(j)) * 10 + digit_val(t[j]),
{
    assert(t.take(j + 1).drop_last() =~= t.take(j));
    assert(t.take(j + 1).last() == t[j]);
}

/// The value of a prefix of a digit run never exceeds the value of the
/// whole run.
pub proof fn lemma_digits_val_take_le(t: Seq<char>, j: int)
    requires
        all_digits(t),
        0 <= j <= t.len(),
    ensures
        digits_val(t.take(j)) <= digits_val(t),
    decreases t.len() - j,
{
    if j < t.len() {
        lemma_digits_val_take_succ(t, j);
        assert(all_digits(t.take(j))) by {
            assert(forall|i: int|
                0 <= i < t.take(j).len() ==> t.take(j)[i] == t[i]);
        }
        lemma_digits_val_nonneg(t.take(j));
        assert(digits_val(t.take(j)) <= digits_val(t.take(j + 1)));
        lemma_digits_val_take_le(t, j + 1);
    } else {
        assert(t.take(j) =~= t);
    }
}

/// Parses `t` as a signed 16-bit decimal integer.  Returns the value
/// exactly when `t` is a well-formed signed numeral whose value fits;
/// returns `None` otherwise.
pub fn parse_i16(t: &str) -> (r: Option<i16>)
    ensures
        r is Some <==> int_text_wf(t@) && -32768 <= int_text_val(t@) <= 32767,
        r matches Some(v) ==> v as int == int_text_val(t@),
{
    let n = t.unicode_len();
    if n == 0 {
        return None;
    }
    let first = t.get_char(0);
    let negative = first == '-';
    let start: usize = if first == '-' || first == '+' {
        1
    } else {
        0
    };
    let ghost body = sign_body(t@);
    proof {
        assert(body =~= t@.subrange(start as int, n as int));
    }
    if start == n {
        return None;
    }
    let mut mag: u32 = 0;
    let mut i: usize = start;
    while i < n
        invariant
            start <= i <= n,
            n == t@.len(),
            start == if t@[0] == '-' || t@[0] == '+' { 1int } else { 0int },
            body == sign_body(t@),
            body =~= t@.subrange(start as int, n as int),
            all_digits(body.take(i - start)),
            mag == digits_val(body.take(i - start)),
            mag <= 32768,
        decreases n - i,
    {
        let c = t.get_char(i);
        if !digit_char(c) {
            proof {
                assert(body[i - start] == t@[i as int]);
                assert(!all_digits(body));
            }
            return None;
        }
        let d = (c as u32) - 48;
        let next_mag = mag * 10 + d;
        proof {
            assert(body[i - start] == t@[i as int]);
            lemma_digits_val_take_succ(body, i - start);
            assert(all_digits(body.take(i - start + 1))) by {
                assert(forall|k: int|
                    0 <= k < i - start + 1 ==> body.take(i - start + 1)[k] == body[k]);
            }
        }
        if next_mag > 32768 {
            proof {
                if int_text_wf(t@) {
                    lemma_digits_val_take_le(body, i - start + 1);
                    lemma_digits_val_nonneg(body);
                }
            }
            return None;
        }
        mag = next_mag;
        i = i + 1;
    }
    proof {
        assert(body.take(n - start) =~= body);
    }
    if negative {
        let v = -(mag as i32);
        Some(v as i16)
    } else {
        if mag > 32767 {
            return None;
        }
        Some(mag as i16)
    }
}

/// The number of `.` characters in `t`.
pub open spec fn dot_count(t: Seq<char>) -> nat
    decreases t.len(),
{
    if t.len() == 0 {
        0
    } else {
        dot_count(t.drop_last()) + if t.last() == '.' {
            1nat
        } else {
            0nat
        }
    }
}

/// `t` holds at least one ASCII digit.
pub open spec fn has_digit(t: Seq<char>) -> bool {
    exists|i: int| 0 <= i < t.len() && is_digit_char(t[i])
}

/// A mantissa text is well formed when it holds at most one decimal
/// point and at least one digit.  For a text whose first character is a
/// digit or `-` and whose remainder is digits and dots, this is exactly
/// when the text is a valid decimal numeral.
pub open spec fn valid_mantissa(t: Seq<char>) -> bool {
    dot_count(t) <= 1 && has_digit(t)
}

/// Decides `valid_mantissa` for the given text.
pub fn mantissa_well_formed(t: &str) -> (b: bool)
    ensures
        b == valid_mantissa(t@),
{
    let n = t.unicode_len();
    let mut dots: usize = 0;
    let mut digit_seen = false;
    let mut i: usize = 0;
    while i < n
        invariant
            0 <= i <= n,
            n == t@.len(),
            dots == dot_count(t@.take(i as int)),
            digit_seen == has_digit(t@.take(i as int)),
            dots <= i,
        decreases n - i,
    {
        let c = t.get_char(i);
        proof {
            assert(t@.take(i + 1).drop_last() =~= t@.take(i as int));
            assert(t@.take(i + 1).last() == t@[i as int]);
            if has_digit(t@.take(i as int)) {
                let w = choose|k: int|
                    0 <= k < i && is_digit_char(t@.take(i as int)[k]);
                assert(is_digit_char(t@.take(i + 1)[w]));
            }
            if is_digit_char(t@[i as int]) {
                assert(is_digit_char(t@.take(i + 1)[i as int]));
            }
        }
        if c == '.' {
            dots = dots + 1;
        } else if digit_char(c) {
            digit_seen = true;
        }
        proof {
            if !is_digit_char(t@[i as int]) && has_digit(t@.take(i + 1)) {
                let w = choose|k: int|
                    0 <= k < i + 1 && #[trigger] is_digit_char(t@.take(i + 1)[k]);
                assert(is_digit_char(t@.take(i as int)[w]));
            }
        }
        i = i + 1;
    }
    proof {
        assert(t@.take(n as int) =~= t@);
    }
    dots <= 1 && digit_seen
}

} // verus!
