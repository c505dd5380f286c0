//! Character classification and maximal-run scanning.
//!
//! The lexer repeatedly consumes the longest run of characters drawn
//! from some class (string body, mantissa characters, exponent
//! characters, keyword letters, resynchronization).  `run_end` is the
//! specification of where such a run stops; the lemmas below give its
//! characteristic properties.

use vstd::prelude::*;

verus! {

/// ASCII decimal digit `0` through `9`.
pub open spec fn is_digit_char(c: char) -> bool {
    48 <= c as u32 <= 57
}

/// ASCII letter `a` through `z` or `A` through `Z`.
pub open spec fn is_alpha_char(c: char) -> bool {
    (65 <= c as u32 <= 90) || (97 <= c as u32 <= 122)
}

/// ASCII whitespace: space, horizontal tab, line feed, form feed or
/// carriage return.
pub open spec fn is_whitespace_char(c: char) -> bool {
    c == ' ' || c == '\t' || c == '\n' || c == '\x0c' || c == '\r'
}

/// The numeric value of an ASCII digit.
pub open spec fn digit_val(c: char) -> int {
    c as u32 - 48
}

pub fn digit_char(c: char) -> (b: bool)
    ensures
        b == is_digit_char(c),
{
    let u = c as u32;
    48 <= u && u <= 57
}

pub fn alpha_char(c: char) -> (b: bool)
    ensures
        b == is_alpha_char(c),
{
    let u = c as u32;
    (65 <= u && u <= 90) || (97 <= u && u <= 122)
}

pub fn whitespace_char(c: char) -> (b: bool)
    ensures
        b == is_whitespace_char(c),
{
    c == ' ' || c == '\t' || c == '\n' || c == '\x0c' || c == '\r'
}

/// The classes of characters over which the lexer takes maximal runs.
#[derive(Clone, Copy, Debug, PartialEq, Eq, Structural)]
pub enum CharClass {
    /// Any character but the closing `"`: the body of a string literal.
    NonQuote,
    /// ASCII digits and `.`: the mantissa of a numeric literal.
    DigitDot,
    /// ASCII digits, `+` and `-`: the text after an exponent marker.
    ExponentRun,
    /// ASCII letters: a keyword candidate.
    Alphabetic,
    /// Any character but `,`, `]` and `}`: consumed when the cursor is
    /// resynchronized after a rejected numeric literal.
    NonBoundary,
}

/// Whether `c` belongs to the class.
pub open spec fn class_holds(class: CharClass, c: char) -> bool {
    match class {
        CharClass::NonQuote => c != '"',
        CharClass::DigitDot => is_digit_char(c) || c == '.',
        CharClass::ExponentRun => is_digit_char(c) || c == '+' || c == '-',
        CharClass::Alphabetic => is_alpha_char(c),
        CharClass::NonBoundary => c != ',' && c != ']' && c != '}',
    }
}

pub fn class_char(class: CharClass, c: char) -> (b: bool)
    ensures
        b == class_holds(class, c),
{
    match class {
        CharClass::NonQuote => c != '"',
        CharClass::DigitDot => digit_char(c) || c == '.',
        CharClass::ExponentRun => digit_char(c) || c == '+' || c == '-',
        CharClass::Alphabetic => alpha_char(c),
        CharClass::NonBoundary => c != ',' && c != ']' && c != '}',
    }
}

/// The index just past the longest run of characters of `class` that
/// starts at `pos`: the first index at or after `pos` holding a
/// character outside the class, or the end of the input.
pub open spec fn run_end(s: Seq<char>, pos: int, class: CharClass) -> int
    decreases s.len() - pos,
    when pos <= s.len()
{
    if pos < s.len() && class_holds(class, s[pos]) {
        run_end(s, pos + 1, class)
    } else {
        pos
    }
}

/// The characteristic properties of `run_end`: it stays within the
/// input, every character of the run is in the class, and the run stops
/// only at the end of the input or at a character outside the class.
pub proof fn lemma_run_end(s: Seq<char>, pos: int, class: CharClass)
    requires
        0 <= pos <= s.len(),
    ensures
        pos <= run_end(s, pos, class) <= s.len(),
        forall|i: int|
            pos <= i < run_end(s, pos, class) ==> class_holds(class, s[i]),
        run_end(s, pos, class) < s.len() ==> !class_holds(
            class,
            s[run_end(s, pos, class)],
        ),
    decreases s.len() - pos,
{
    if pos < s.len() && class_holds(class, s[pos]) {
        lemma_run_end(s, pos + 1, class);
    }
}

/// Any index with the characteristic properties is `run_end`.
pub proof fn lemma_run_end_determined(s: Seq<char>, pos: int, class: CharClass, e: int)
    requires
        0 <= pos <= e <= s.len(),
        forall|i: int| pos <= i < e ==> class_holds(class, s[i]),
        e < s.len() ==> !class_holds(class, s[e]),
    ensures
        run_end(s, pos, class) == e,
    decreases e - pos,
{
    if pos < e {
        lemma_run_end_determined(s, pos + 1, class, e);
    }
}

/// `run_end` is invariant under translating the run into a larger
/// sequence that holds the same characters.
pub proof fn lemma_run_end_shift(u: Seq<char>, v: Seq<char>, j: int, class: CharClass)
    requires
        0 <= j <= v.len(),
    ensures
        run_end(u + v, u.len() + j, class) == u.len() + run_end(v, j, class),
{
    lemma_run_end(v, j, class);
    let e = run_end(v, j, class);
    assert forall|i: int| u.len() + j <= i < u.len() + e implies class_holds(
        class,
        (u + v)[i],
    ) by {
        assert((u + v)[i] == v[i - u.len()]);
    }
    if u.len() + e < (u + v).len() {
        assert((u + v)[u.len() + e] == v[e]);
    }
    lemma_run_end_determined(u + v, u.len() + j, class, u.len() + e);
}

} // verus!
