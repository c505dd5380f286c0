//! General properties of the lexer, proved once for every input.

use vstd::prelude::*;

use crate::lexer::{keyword_false, keyword_null, keyword_true};
use crate::numeric::{digits_val, sign_body};
use crate::scan::digit_val;
use crate::lexer::{lemma_lex_step_bounds, lex_all, lex_step, number_step, Error};
use crate::scan::{class_holds, lemma_run_end, lemma_run_end_determined, lemma_run_end_shift, run_end, CharClass};
use crate::scan::{is_alpha_char, is_digit_char, is_whitespace_char};
use crate::tokens::{ParenthesisType, SpecToken};

verus! {

/// One of the four bracket characters.
pub open spec fn is_bracket_char(c: char) -> bool {
    c == '[' || c == ']' || c == '{' || c == '}'
}

/// The token a bracket character scans to.
pub open spec fn bracket_token(c: char) -> SpecToken {
    if c == '[' {
        SpecToken::Bracket(ParenthesisType::Open)
    } else if c == ']' {
        SpecToken::Bracket(ParenthesisType::Close)
    } else if c == '{' {
        SpecToken::CurlyBracket(ParenthesisType::Open)
    } else {
        SpecToken::CurlyBracket(ParenthesisType::Close)
    }
}

/// The brackets of `s`, each mapped to its token.
pub open spec fn bracket_tokens(s: Seq<char>) -> Seq<SpecToken> {
    s.map_values(|c: char| bracket_token(c))
}

proof fn lemma_structural_from(s: Seq<char>, pos: int)
    requires
        0 <= pos <= s.len(),
        forall|i: int| 0 <= i < s.len() ==> is_bracket_char(#[trigger] s[i]),
    ensures
        lex_all(s, pos) == Ok::<Seq<SpecToken>, Error>(
            bracket_tokens(s.subrange(pos, s.len() as int)),
        ),
    decreases s.len() - pos,
{
    if pos == s.len() {
        assert(bracket_tokens(s.subrange(pos, s.len() as int)) =~= Seq::<
            SpecToken,
        >::empty());
    } else {
        lemma_structural_from(s, pos + 1);
        assert(seq![bracket_token(s[pos])] + bracket_tokens(
            s.subrange(pos + 1, s.len() as int),
        ) =~= bracket_tokens(s.subrange(pos, s.len() as int)));
    }
}

/// Law: an input consisting solely of `[`, `]`, `{`, `}` in any order
/// and multiplicity scans to exactly the corresponding structural
/// tokens, in source order, one to one.
pub proof fn lemma_structural_only(s: Seq<char>)
    requires
        forall|i: int| 0 <= i < s.len() ==> is_bracket_char(#[trigger] s[i]),
    ensures
        lex_all(s, 0) == Ok::<Seq<SpecToken>, Error>(bracket_tokens(s)),
{
    lemma_structural_from(s, 0);
    assert(s.subrange(0, s.len() as int) =~= s);
}

/// Law: whitespace at the cursor is discarded, never tokenized; the
/// step over it produces exactly what the step after it produces.
pub proof fn lemma_whitespace_skipped(s: Seq<char>, pos: int)
    requires
        0 <= pos < s.len(),
        is_whitespace_char(s[pos]),
    ensures
        lex_step(s, pos) == lex_step(s, pos + 1),
        lex_all(s, pos) == lex_all(s, pos + 1),
{
}

/// Law: a numeric literal with an explicit leading `+` always fails
/// with `InvalidNumberFormat`, whatever follows it.
pub proof fn lemma_plus_sign_rejected(s: Seq<char>, pos: int)
    requires
        0 <= pos < s.len(),
        s[pos] == '+',
    ensures
        lex_step(s, pos).0 == Some(Err::<SpecToken, Error>(Error::InvalidNumberFormat)),
{
}

/// Law: a leading `0` directly followed by another digit always fails
/// with `InvalidNumberFormat`, whatever follows it.
pub proof fn lemma_leading_zero_rejected(s: Seq<char>, pos: int)
    requires
        0 <= pos < s.len(),
        s[pos] == '0',
        pos + 1 < s.len(),
        is_digit_char(s[pos + 1]),
    ensures
        lex_step(s, pos).0 == Some(Err::<SpecToken, Error>(Error::InvalidNumberFormat)),
{
}

/// Law: string scanning is escape-unaware and transparent to every
/// character but `"`.  A quote, any run of non-quote characters and a
/// closing quote scan to a string token holding exactly that run.
pub proof fn lemma_string_scan(s: Seq<char>, pos: int, close: int)
    requires
        0 <= pos < close < s.len(),
        s[pos] == '"',
        s[close] == '"',
        forall|i: int| pos + 1 <= i < close ==> s[i] != '"',
    ensures
        lex_step(s, pos).0 == Some(
            Ok::<SpecToken, Error>(SpecToken::String(s.subrange(pos + 1, close))),
        ),
        lex_step(s, pos).1 == close + 1,
{
    lemma_run_end_determined(s, pos + 1, CharClass::NonQuote, close);
}

/// Law: an opening quote never followed by a closing quote fails with
/// `UnclosedString`, with the whole remaining input consumed.
pub proof fn lemma_unclosed_string(s: Seq<char>, pos: int)
    requires
        0 <= pos < s.len(),
        s[pos] == '"',
        forall|i: int| pos + 1 <= i < s.len() ==> s[i] != '"',
    ensures
        lex_step(s, pos).0 == Some(Err::<SpecToken, Error>(Error::UnclosedString)),
        lex_step(s, pos).1 == s.len(),
{
    lemma_run_end_determined(s, pos + 1, CharClass::NonQuote, s.len() as int);
}

/// Law: keyword matching is exact.  A maximal alphabetic run scans to
/// `Boolean(true)`, `Boolean(false)` or `Null` exactly when it is
/// spelled `true`, `false` or `null`, and fails with `UnknownKeyword`
/// on every other spelling; no prefix or extension of a keyword is
/// ever accepted as that keyword.
pub proof fn lemma_keyword_exact(s: Seq<char>, pos: int, kw_end: int)
    requires
        0 <= pos < kw_end <= s.len(),
        forall|i: int| pos <= i < kw_end ==> is_alpha_char(#[trigger] s[i]),
        kw_end < s.len() ==> !is_alpha_char(s[kw_end]),
    ensures
        lex_step(s, pos).0 == ({
            let kw = s.subrange(pos, kw_end);
            if kw == keyword_true() {
                Some(Ok::<SpecToken, Error>(SpecToken::Boolean(true)))
            } else if kw == keyword_false() {
                Some(Ok::<SpecToken, Error>(SpecToken::Boolean(false)))
            } else if kw == keyword_null() {
                Some(Ok::<SpecToken, Error>(SpecToken::Null))
            } else {
                Some(Err::<SpecToken, Error>(Error::UnknownKeyword))
            }
        }),
        lex_step(s, pos).1 == kw_end,
{
    lemma_run_end_determined(s, pos + 1, CharClass::Alphabetic, kw_end);
}

/// `number_step` is invariant under translation of its input.
proof fn lemma_number_step_shift(u: Seq<char>, v: Seq<char>, j: int)
    requires
        0 <= j < v.len(),
    ensures
        number_step(u + v, u.len() + j).0 == number_step(v, j).0,
        number_step(u + v, u.len() + j).1 == u.len() + number_step(
            v,
            j,
        ).1,
{
    let w = u + v;
    let n = u.len() as int;
    assert(w[n + j] == v[j]);
    if j + 1 < v.len() {
        assert(w[n + j + 1] == v[j + 1]);
    }
    lemma_run_end_shift(u, v, j + 1, CharClass::NonBoundary);
    lemma_run_end_shift(u, v, j + 1, CharClass::DigitDot);
    let mant_end = run_end(v, j + 1, CharClass::DigitDot);
    lemma_run_end(v, j + 1, CharClass::DigitDot);
    assert(w.subrange(n + j, n + mant_end) =~= v.subrange(j, mant_end));
    if mant_end < v.len() {
        assert(w[n + mant_end] == v[mant_end]);
        if v[mant_end] == 'e' || v[mant_end] == 'E' {
            lemma_run_end_shift(u, v, mant_end + 1, CharClass::ExponentRun);
            let exp_end = run_end(v, mant_end + 1, CharClass::ExponentRun);
            lemma_run_end(v, mant_end + 1, CharClass::ExponentRun);
            assert(w.subrange(n + mant_end + 1, n + exp_end) =~= v.subrange(
                mant_end + 1,
                exp_end,
            ));
        }
    }
}

/// `lex_step` is invariant under translation of its input.
proof fn lemma_lex_step_shift(u: Seq<char>, v: Seq<char>, j: int)
    requires
        0 <= j <= v.len(),
    ensures
        lex_step(u + v, u.len() + j).0 == lex_step(v, j).0,
        lex_step(u + v, u.len() + j).1 == u.len() + lex_step(v, j).1,
    decreases v.len() - j,
{
    let w = u + v;
    let n = u.len() as int;
    assert(w.len() == n + v.len());
    if j < v.len() {
        assert(w[n + j] == v[j]);
        let c = v[j];
        if c == '[' || c == ']' || c == '{' || c == '}' || c == ',' || c == ':' {
        } else if c == '"' {
            lemma_run_end_shift(u, v, j + 1, CharClass::NonQuote);
            let body_end = run_end(v, j + 1, CharClass::NonQuote);
            lemma_run_end(v, j + 1, CharClass::NonQuote);
            if body_end < v.len() {
                assert(w.subrange(n + j + 1, n + body_end) =~= v.subrange(j + 1, body_end));
            }
        } else if is_whitespace_char(c) {
            lemma_lex_step_shift(u, v, j + 1);
        } else if is_digit_char(c) || c == '-' || c == '+' {
            lemma_number_step_shift(u, v, j);
        } else if is_alpha_char(c) {
            lemma_run_end_shift(u, v, j + 1, CharClass::Alphabetic);
            let kw_end = run_end(v, j + 1, CharClass::Alphabetic);
            lemma_run_end(v, j + 1, CharClass::Alphabetic);
            assert(w.subrange(n + j, n + kw_end) =~= v.subrange(j, kw_end));
        }
    }
}

/// `lex_all` is invariant under translation of its input.
proof fn lemma_lex_all_shift(u: Seq<char>, v: Seq<char>, j: int)
    requires
        0 <= j <= v.len(),
    ensures
        lex_all(u + v, u.len() + j) == lex_all(v, j),
    decreases v.len() - j,
{
    lemma_lex_step_shift(u, v, j);
    lemma_lex_step_bounds(v, j);
    let (item, next) = lex_step(v, j);
    match item {
        None => {},
        Some(Err(_)) => {},
        Some(Ok(_)) => {
            lemma_lex_all_shift(u, v, next);
        },
    }
}

/// The cursor position after `k` produced items, starting from the
/// beginning of the input.  Every such position lies between two
/// tokens (or at the very start or end): a token boundary.
pub open spec fn step_pos(s: Seq<char>, k: nat) -> int
    decreases k,
{
    if k == 0 {
        0
    } else {
        lex_step(s, step_pos(s, (k - 1) as nat)).1
    }
}

proof fn lemma_step_pos_bounds(s: Seq<char>, k: nat)
    ensures
        0 <= step_pos(s, k) <= s.len(),
    decreases k,
{
    if k > 0 {
        lemma_step_pos_bounds(s, (k - 1) as nat);
        lemma_lex_step_bounds(s, step_pos(s, (k - 1) as nat));
    }
}

/// Position `p` is reached from position `q` by whole steps of the
/// lexer.
spec fn reaches(s: Seq<char>, q: int, p: int) -> bool
    decreases p - q,
    when q <= p
{
    q == p || ({
        let next = lex_step(s, q).1;
        &&& q < next <= p
        &&& reaches(s, next, p)
    })
}

proof fn lemma_reaches_extend(s: Seq<char>, q: int, p: int, beyond: int)
    requires
        q <= p,
        reaches(s, q, p),
        lex_step(s, p).1 == beyond,
        p < beyond,
    ensures
        reaches(s, q, beyond),
    decreases p - q,
{
    if q == p {
        assert(reaches(s, beyond, beyond));
    } else {
        let next = lex_step(s, q).1;
        lemma_reaches_extend(s, next, p, beyond);
    }
}

proof fn lemma_step_pos_reaches(s: Seq<char>, k: nat)
    ensures
        reaches(s, 0, step_pos(s, k)),
    decreases k,
{
    if k == 0 {
    } else {
        let prev = step_pos(s, (k - 1) as nat);
        lemma_step_pos_reaches(s, (k - 1) as nat);
        lemma_step_pos_bounds(s, (k - 1) as nat);
        lemma_lex_step_bounds(s, prev);
        if lex_step(s, prev).1 != prev {
            lemma_reaches_extend(s, 0, prev, step_pos(s, k));
        }
    }
}

/// Whitespace from `r` up to `r2` is skipped wholesale: the step at
/// the start of the run is the step just past it.
proof fn lemma_ws_run_skip(t: Seq<char>, r: int, r2: int)
    requires
        0 <= r <= r2 <= t.len(),
        forall|i: int| r <= i < r2 ==> is_whitespace_char(#[trigger] t[i]),
    ensures
        lex_step(t, r) == lex_step(t, r2),
    decreases r2 - r,
{
    if r < r2 {
        lemma_ws_run_skip(t, r + 1, r2);
    }
}

/// A step that ends at or before `p` is unchanged when a whitespace
/// run is inserted at `p`: it produces the same item, and, when that
/// item is a token, it leaves the cursor at the same position.
proof fn lemma_step_agree(s: Seq<char>, t: Seq<char>, p: int, q: int)
    requires
        0 <= q < p <= s.len(),
        s.len() < t.len(),
        forall|i: int| 0 <= i < p ==> t[i] == s[i],
        forall|i: int|
            p <= i < p + t.len() - s.len() ==> is_whitespace_char(#[trigger] t[i]),
        lex_step(s, q).1 <= p,
    ensures
        lex_step(t, q).0 == lex_step(s, q).0,
        lex_step(s, q).0 matches Some(Ok(_)) ==> lex_step(t, q).1 == lex_step(s, q).1,
    decreases p - q,
{
    lemma_lex_step_bounds(s, q);
    let c = s[q];
    if c == '[' || c == ']' || c == '{' || c == '}' || c == ',' || c == ':' {
    } else if c == '"' {
        let body_end = run_end(s, q + 1, CharClass::NonQuote);
        lemma_run_end(s, q + 1, CharClass::NonQuote);
        if body_end < s.len() {
            // terminated string: the closing quote lies before `p`
            lemma_run_end_determined(t, q + 1, CharClass::NonQuote, body_end);
            assert(t.subrange(q + 1, body_end) =~= s.subrange(q + 1, body_end));
        } else {
            // unclosed: the whole input from the quote on is quote-free,
            // and so is the inserted whitespace character
            assert(forall|i: int|
                q + 1 <= i < t.len() ==> class_holds(CharClass::NonQuote, #[trigger] t[i]));
            lemma_run_end_determined(t, q + 1, CharClass::NonQuote, t.len() as int);
        }
    } else if is_whitespace_char(c) {
        if q + 1 < p {
            lemma_step_agree(s, t, p, q + 1);
        } else {
            // the skipped character is the last one before `p`; the step
            // from `p` stays within the input only by producing nothing,
            // so `p` is the end of the input and the inserted character
            // is its last: whitespace all the way down on both sides
            lemma_lex_step_bounds(s, p);
            assert(lex_step(s, q) == lex_step(s, p));
            assert(lex_step(s, p).1 == p);
            assert(lex_step(s, p).0 is None);
            assert(p == s.len());
            lemma_ws_run_skip(t, q, t.len() as int);
            assert(lex_step(t, t.len() as int) == (
                None::<Result<SpecToken, Error>>,
                t.len() as int,
            ));
        }
    } else if is_digit_char(c) || c == '-' || c == '+' {
        lemma_number_step_agree(s, t, p, q);
    } else if is_alpha_char(c) {
        let kw_end = run_end(s, q + 1, CharClass::Alphabetic);
        lemma_run_end(s, q + 1, CharClass::Alphabetic);
        lemma_run_end_determined(t, q + 1, CharClass::Alphabetic, kw_end);
        assert(t.subrange(q, kw_end) =~= s.subrange(q, kw_end));
    } else {
    }
}

/// The numeric sub-rule of `lemma_step_agree`.
proof fn lemma_number_step_agree(s: Seq<char>, t: Seq<char>, p: int, q: int)
    requires
        0 <= q < p <= s.len(),
        s.len() < t.len(),
        forall|i: int| 0 <= i < p ==> t[i] == s[i],
        forall|i: int|
            p <= i < p + t.len() - s.len() ==> is_whitespace_char(#[trigger] t[i]),
        is_digit_char(s[q]) || s[q] == '-' || s[q] == '+',
        number_step(s, q).1 <= p,
    ensures
        number_step(t, q).0 == number_step(s, q).0,
        number_step(s, q).0 matches Some(Ok(_)) ==> number_step(
            t,
            q,
        ).1 == number_step(s, q).1,
{
    let c = s[q];
    assert(is_whitespace_char(t[p]));
    let reject_s = c == '+' || (c == '0' && q + 1 < s.len() && is_digit_char(s[q + 1]));
    let reject_t = c == '+' || (c == '0' && q + 1 < t.len() && is_digit_char(t[q + 1]));
    if c == '0' && q + 1 < s.len() && is_digit_char(s[q + 1]) {
        // the digit after the zero keeps the drain running past q + 1,
        // so q + 1 lies strictly before p and the characters agree
        lemma_run_end(s, q + 1, CharClass::NonBoundary);
        assert(run_end(s, q + 1, CharClass::NonBoundary) == run_end(
            s,
            q + 2,
            CharClass::NonBoundary,
        ));
        lemma_run_end(s, q + 2, CharClass::NonBoundary);
    }
    if reject_s {
        if c != '+' {
            assert(q + 1 < p);
        }
        assert(reject_t);
    } else {
        if c == '0' && q + 1 == p {
            assert(!is_digit_char(t[q + 1]));
        }
        assert(!reject_t);
        let mant_end = run_end(s, q + 1, CharClass::DigitDot);
        lemma_run_end(s, q + 1, CharClass::DigitDot);
        let marker_s = mant_end < s.len() && (s[mant_end] == 'e' || s[mant_end] == 'E');
        if marker_s {
            lemma_run_end(s, mant_end + 1, CharClass::ExponentRun);
            assert(mant_end < p);
        } else {
            assert(mant_end <= p);
        }
        lemma_run_end_determined(t, q + 1, CharClass::DigitDot, mant_end);
        assert(t.subrange(q, mant_end) =~= s.subrange(q, mant_end));
        let marker_t = mant_end < t.len() && (t[mant_end] == 'e' || t[mant_end] == 'E');
        assert(marker_t == marker_s);
        if marker_s {
            let exp_end = run_end(s, mant_end + 1, CharClass::ExponentRun);
            lemma_run_end_determined(t, mant_end + 1, CharClass::ExponentRun, exp_end);
            assert(t.subrange(mant_end + 1, exp_end) =~= s.subrange(mant_end + 1, exp_end));
        }
    }
}

/// The input with the run `w` inserted at position `p`.
pub open spec fn splice(s: Seq<char>, p: int, w: Seq<char>) -> Seq<char> {
    s.subrange(0, p) + w + s.subrange(p, s.len() as int)
}

/// Inserting a whitespace run at a position that the lexer reaches by
/// whole steps leaves the result of lexing unchanged.
proof fn lemma_insert_ws_run_from(s: Seq<char>, w: Seq<char>, p: int, q: int)
    requires
        w.len() > 0,
        forall|i: int| 0 <= i < w.len() ==> is_whitespace_char(#[trigger] w[i]),
        0 <= q <= p <= s.len(),
        reaches(s, q, p),
    ensures
        lex_all(splice(s, p, w), q) == lex_all(s, q),
    decreases p - q,
{
    let t = splice(s, p, w);
    assert(forall|i: int| 0 <= i < p ==> t[i] == s[i]);
    assert(forall|i: int| p <= i < p + w.len() ==> is_whitespace_char(#[trigger] t[i]));
    if q == p {
        // the lexer at `p` skips the inserted run, and the input past
        // it is untouched: shift both sides onto the common suffix
        let tail = s.subrange(p, s.len() as int);
        let with_ws = t.subrange(0, p + w.len());
        let without = s.subrange(0, p);
        assert(t =~= with_ws + tail);
        assert(s =~= without + tail);
        lemma_lex_all_shift(with_ws, tail, 0);
        lemma_lex_all_shift(without, tail, 0);
        lemma_ws_run_skip(t, p, p + w.len());
        assert(lex_all(t, p) == lex_all(t, p + w.len()));
    } else {
        let (item, next) = lex_step(s, q);
        lemma_lex_step_bounds(s, q);
        lemma_step_agree(s, t, p, q);
        lemma_insert_ws_run_from(s, w, p, next);
        match item {
            None => {},
            Some(Err(_)) => {},
            Some(Ok(_)) => {},
        }
    }
}

/// Law: whitespace runs are fully transparent between tokens.
/// Inserting any run of ASCII whitespace at any token boundary — any
/// position the cursor reaches after some number of produced items —
/// never changes the result of lexing: the same tokens in the same
/// order, or the same first error.  Read right to left, removing such
/// a run never changes it either.
pub proof fn lemma_whitespace_run_insert(s: Seq<char>, k: nat, w: Seq<char>)
    requires
        forall|i: int| 0 <= i < w.len() ==> is_whitespace_char(#[trigger] w[i]),
    ensures
        lex_all(splice(s, step_pos(s, k), w), 0) == lex_all(s, 0),
{
    lemma_step_pos_bounds(s, k);
    lemma_step_pos_reaches(s, k);
    if w.len() == 0 {
        assert(splice(s, step_pos(s, k), w) =~= s);
    } else {
        lemma_insert_ws_run_from(s, w, step_pos(s, k), 0);
    }
}

/// Law: inserting one ASCII whitespace character at a token boundary
/// never changes the result of lexing.
pub proof fn lemma_whitespace_insert(s: Seq<char>, k: nat, c: char)
    requires
        is_whitespace_char(c),
    ensures
        lex_all(s.insert(step_pos(s, k), c), 0) == lex_all(s, 0),
{
    lemma_step_pos_bounds(s, k);
    lemma_whitespace_run_insert(s, k, seq![c]);
    assert(splice(s, step_pos(s, k), seq![c]) =~= s.insert(step_pos(s, k), c));
}

/// Law, removal direction: a whitespace character whose position is a
/// token boundary of the remaining text may be removed without
/// changing the result of lexing.
pub proof fn lemma_whitespace_remove(s: Seq<char>, k: nat, p: int)
    requires
        0 <= p < s.len(),
        is_whitespace_char(s[p]),
        step_pos(s.remove(p), k) == p,
    ensures
        lex_all(s.remove(p), 0) == lex_all(s, 0),
{
    lemma_whitespace_insert(s.remove(p), k, s[p]);
    s.remove(p).insert_ensures(p, s[p]);
    assert(s.remove(p).insert(p, s[p]) =~= s);
}

/// Law: redundant padding in an exponent is meaningless.  Prepending a
/// `0` to a digit run keeps its value, and an explicit leading `+`
/// contributes nothing to a signed numeral, so `4E000002`, `4E+000002`
/// and `4E2` all carry the same exponent.
pub proof fn lemma_exponent_zero_padding(t: Seq<char>)
    ensures
        digits_val(seq!['0'] + t) == digits_val(t),
        sign_body(seq!['+'] + t) == t,
    decreases t.len(),
{
    if t.len() == 0 {
        assert((seq!['0'] + t) =~= seq!['0']);
        assert(seq!['0'].drop_last() =~= Seq::<char>::empty());
        assert(digits_val(Seq::<char>::empty()) == 0);
        assert(digits_val(seq!['0']) == 0);
    } else {
        lemma_exponent_zero_padding(t.drop_last());
        assert((seq!['0'] + t).drop_last() =~= seq!['0'] + t.drop_last());
        assert((seq!['0'] + t).last() == t.last());
        assert(digits_val(seq!['0'] + t) == digits_val(seq!['0'] + t.drop_last()) * 10
            + digit_val(t.last()));
        assert(digits_val(t) == digits_val(t.drop_last()) * 10 + digit_val(t.last()));
    }
    assert(sign_body(seq!['+'] + t) =~= t);
}

} // verus!

