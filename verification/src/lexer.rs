//! The lexer: a one-character-lookahead cursor over the input together
//! with the scanning algorithm that produces tokens on demand.
//!
//! `lex_step` is the mathematical description of one call to
//! [`Lexer::next`]: given the input and the cursor position it yields
//! the produced item (a token, an error, or the end-of-input signal)
//! and the position the cursor is left at.  `lex_all` folds `lex_step`
//! over the whole input and stops at the first error; it is the
//! contract of [`lex`].

use vstd::prelude::*;
use vstd::string::{StrSliceExecFns, StringExecFns};

use crate::numeric::{int_text_val, int_text_wf, valid_mantissa};
use crate::numeric::{mantissa_well_formed, parse_i16};
use crate::scan::{alpha_char, digit_char, whitespace_char};
use crate::scan::{class_char, lemma_run_end, run_end, CharClass};
use crate::scan::{is_alpha_char, is_digit_char, is_whitespace_char};
use crate::tokens::{ParenthesisType, SpecToken, Token};
use crate::types::{JSONNumber, JSONString, SpecNumber};

verus! {

/// A lexical error.  Every error is returned as a value; the lexer
/// never panics on malformed input.
#[derive(Clone, Debug, PartialEq, Eq, Structural)]
pub enum Error {
    /// Reserved for constructs that require more input than remains.
    /// No current scanning path raises it; it is kept as a member of
    /// the taxonomy for constructs that require explicit closing.
    UnexpectedEOF,
    /// The character at the cursor starts no token.
    UnknownChar,
    /// An alphabetic run that is none of `true`, `false`, `null`.
    UnknownKeyword,
    /// A string literal whose closing `"` is missing.
    UnclosedString,
    /// A malformed numeric literal: an explicit leading `+`, a leading
    /// zero followed by another digit, an unparsable mantissa, or an
    /// exponent value that does not fit in 16 signed bits.
    InvalidNumberFormat,
    /// An exponent marker followed by an empty run, or by a bare sign.
    InvalidExponentFormat,
}

/// The spelling of the `true` keyword.
pub open spec fn keyword_true() -> Seq<char> {
    seq!['t', 'r', 'u', 'e']
}

/// The spelling of the `false` keyword.
pub open spec fn keyword_false() -> Seq<char> {
    seq!['f', 'a', 'l', 's', 'e']
}

/// The spelling of the `null` keyword.
pub open spec fn keyword_null() -> Seq<char> {
    seq!['n', 'u', 'l', 'l']
}

/// One step of the numeric sub-rule, entered with the cursor on a
/// digit, `-` or `+`.  Yields the produced item and the position the
/// cursor is left at.
///
/// A leading `+`, or a leading `0` directly followed by another digit,
/// is rejected early; the cursor is then drained up to (not including)
/// the next `,`, `]` or `}` so that a later step lands at a structural
/// boundary.  Otherwise the mantissa is the lead character plus the
/// longest following run of digits and dots, and an optional exponent
/// follows an `e` or `E` marker.
pub open spec fn number_step(s: Seq<char>, pos: int) -> (Option<Result<SpecToken, Error>>, int) {
    let c = s[pos];
    if c == '+' || (c == '0' && pos + 1 < s.len() && is_digit_char(s[pos + 1])) {
        (
            Some(Err(Error::InvalidNumberFormat)),
            run_end(s, pos + 1, CharClass::NonBoundary),
        )
    } else {
        let mant_end = run_end(s, pos + 1, CharClass::DigitDot);
        let mantissa = s.subrange(pos, mant_end);
        if mant_end < s.len() && (s[mant_end] == 'e' || s[mant_end] == 'E') {
            let exp_end = run_end(s, mant_end + 1, CharClass::ExponentRun);
            let exp = s.subrange(mant_end + 1, exp_end);
            if exp.len() == 0 || exp == seq!['+'] || exp == seq!['-'] {
                (Some(Err(Error::InvalidExponentFormat)), exp_end)
            } else if !valid_mantissa(mantissa) {
                (Some(Err(Error::InvalidNumberFormat)), exp_end)
            } else if !(int_text_wf(exp) && -32768 <= int_text_val(exp) <= 32767) {
                (Some(Err(Error::InvalidNumberFormat)), exp_end)
            } else {
                (
                    Some(
                        Ok(
                            SpecToken::Number(
                                SpecNumber {
                                    mantissa,
                                    exponent: Some(int_text_val(exp) as i16),
                                },
                            ),
                        ),
                    ),
                    exp_end,
                )
            }
        } else {
            if valid_mantissa(mantissa) {
                (
                    Some(Ok(SpecToken::Number(SpecNumber { mantissa, exponent: None }))),
                    mant_end,
                )
            } else {
                (Some(Err(Error::InvalidNumberFormat)), mant_end)
            }
        }
    }
}

/// One step of the lexer: the item produced from position `pos` and
/// the position the cursor is left at.  `None` signals exhausted
/// input; whitespace is discarded, never tokenized.
pub open spec fn lex_step(s: Seq<char>, pos: int) -> (Option<Result<SpecToken, Error>>, int)
    decreases s.len() - pos,
    when 0 <= pos <= s.len()
{
    if pos == s.len() {
        (None, pos)
    } else {
        let c = s[pos];
        if c == '[' {
            (Some(Ok(SpecToken::Bracket(ParenthesisType::Open))), pos + 1)
        } else if c == ']' {
            (Some(Ok(SpecToken::Bracket(ParenthesisType::Close))), pos + 1)
        } else if c == '{' {
            (Some(Ok(SpecToken::CurlyBracket(ParenthesisType::Open))), pos + 1)
        } else if c == '}' {
            (Some(Ok(SpecToken::CurlyBracket(ParenthesisType::Close))), pos + 1)
        } else if c == ',' {
            (Some(Ok(SpecToken::ElementDelimiter)), pos + 1)
        } else if c == ':' {
            (Some(Ok(SpecToken::KeyDelimiter)), pos + 1)
        } else if c == '"' {
            let body_end = run_end(s, pos + 1, CharClass::NonQuote);
            if body_end < s.len() {
                (Some(Ok(SpecToken::String(s.subrange(pos + 1, body_end)))), body_end + 1)
            } else {
                (Some(Err(Error::UnclosedString)), body_end)
            }
        } else if is_whitespace_char(c) {
            lex_step(s, pos + 1)
        } else if is_digit_char(c) || c == '-' || c == '+' {
            number_step(s, pos)
        } else if is_alpha_char(c) {
            let kw_end = run_end(s, pos + 1, CharClass::Alphabetic);
            let kw = s.subrange(pos, kw_end);
            if kw == keyword_true() {
                (Some(Ok(SpecToken::Boolean(true))), kw_end)
            } else if kw == keyword_false() {
                (Some(Ok(SpecToken::Boolean(false))), kw_end)
            } else if kw == keyword_null() {
                (Some(Ok(SpecToken::Null)), kw_end)
            } else {
                (Some(Err(Error::UnknownKeyword)), kw_end)
            }
        } else {
            (Some(Err(Error::UnknownChar)), pos + 1)
        }
    }
}

/// Every step stays within the input, makes progress whenever it
/// produces an item, and signals the end only at the end.
pub proof fn lemma_lex_step_bounds(s: Seq<char>, pos: int)
    requires
        0 <= pos <= s.len(),
    ensures
        pos <= lex_step(s, pos).1 <= s.len(),
        lex_step(s, pos).0 is Some ==> pos < lex_step(s, pos).1,
        lex_step(s, pos).0 is None ==> lex_step(s, pos).1 == s.len(),
    decreases s.len() - pos,
{
    if pos < s.len() {
        let c = s[pos];
        if c == '"' {
            lemma_run_end(s, pos + 1, CharClass::NonQuote);
        } else if c == '[' || c == ']' || c == '{' || c == '}' || c == ',' || c == ':' {
        } else if is_whitespace_char(c) {
            lemma_lex_step_bounds(s, pos + 1);
        } else if is_digit_char(c) || c == '-' || c == '+' {
            lemma_run_end(s, pos + 1, CharClass::NonBoundary);
            lemma_run_end(s, pos + 1, CharClass::DigitDot);
            let mant_end = run_end(s, pos + 1, CharClass::DigitDot);
            if mant_end < s.len() && (s[mant_end] == 'e' || s[mant_end] == 'E') {
                lemma_run_end(s, mant_end + 1, CharClass::ExponentRun);
            }
        } else if is_alpha_char(c) {
            lemma_run_end(s, pos + 1, CharClass::Alphabetic);
        }
    }
}

/// The whole token sequence from position `pos`, or the first error.
pub open spec fn lex_all(s: Seq<char>, pos: int) -> Result<Seq<SpecToken>, Error>
    decreases s.len() - pos,
    when 0 <= pos <= s.len()
    via lex_all_decreases
{
    let (item, next) = lex_step(s, pos);
    match item {
        None => Ok(Seq::empty()),
        Some(Err(e)) => Err(e),
        Some(Ok(t)) => match lex_all(s, next) {
            Ok(rest) => Ok(seq![t] + rest),
            Err(e) => Err(e),
        },
    }
}

#[via_fn]
proof fn lex_all_decreases(s: Seq<char>, pos: int) {
    lemma_lex_step_bounds(s, pos);
}

/// The model of one produced item: token payloads replaced by their
/// views.
pub open spec fn item_view(r: Option<Result<Token, Error>>) -> Option<
    Result<SpecToken, Error>,
> {
    match r {
        None => None,
        Some(Ok(t)) => Some(Ok(t@)),
        Some(Err(e)) => Some(Err(e)),
    }
}

/// The model of a produced token sequence.
pub open spec fn tokens_view(ts: Seq<Token>) -> Seq<SpecToken> {
    ts.map_values(|t: Token| t@)
}

/// Relies on `String::push`: appends the given character at the end of
/// the string.
#[verifier::external_body]
fn push_char(s: &mut String, c: char)
    ensures
        final(s)@ == old(s)@.push(c),
{
    s.push(c);
}

/// The lexer: the input characters and a cursor position, advanced
/// monotonically.  The character at the cursor is the one-character
/// lookahead.
#[derive(Debug)]
pub struct Lexer {
    /// The input sequence of Unicode scalar values.
    pub source: Vec<char>,
    /// The index of the next unconsumed character.
    pub pos: usize,
}

impl Lexer {
    /// The cursor lies within the input.
    pub open spec fn wf(self) -> bool {
        self.pos <= self.source.len()
    }

    /// Creates a lexer reading the given input from its start.
    pub fn from(source: Vec<char>) -> (l: Lexer)
        ensures
            l.source@ == source@,
            l.pos == 0,
            l.wf(),
    {
        Lexer { source, pos: 0 }
    }

    /// Consumes the longest run of characters of `class` at the cursor
    /// and returns exactly those characters.
    #[verifier::loop_isolation(false)]
    pub fn read_while(&mut self, class: CharClass) -> (res: JSONString)
        requires
            old(self).wf(),
        ensures
            final(self).wf(),
            final(self).source@ == old(self).source@,
            final(self).pos as int == run_end(old(self).source@, old(self).pos as int, class),
            res@ == old(self).source@.subrange(old(self).pos as int, final(self).pos as int),
    {
        let ghost s0 = self.source@;
        let ghost p0 = self.pos as int;
        let mut res = String::new();
        while self.pos < self.source.len() && class_char(class, self.source[self.pos])
            invariant
                self.wf(),
                self.source@ == s0,
                p0 <= self.pos as int,
                run_end(s0, self.pos as int, class) == run_end(s0, p0, class),
                res@ == s0.subrange(p0, self.pos as int),
            decreases s0.len() - self.pos,
        {
            let c = self.source[self.pos];
            push_char(&mut res, c);
            self.pos = self.pos + 1;
            proof {
                assert(res@ =~= s0.subrange(p0, self.pos as int));
            }
        }
        res
    }

    /// Produces the next item: a token, a lexical error, or `None`
    /// once the input is exhausted.  Exactly one step of `lex_step`.
    #[verifier::loop_isolation(false)]
    pub fn next(&mut self) -> (r: Option<Result<Token, Error>>)
        requires
            old(self).wf(),
        ensures
            final(self).wf(),
            final(self).source@ == old(self).source@,
            item_view(r) == lex_step(old(self).source@, old(self).pos as int).0,
            final(self).pos as int == lex_step(old(self).source@, old(self).pos as int).1,
    {
        let ghost s0 = self.source@;
        let ghost p0 = self.pos as int;
        loop
            invariant
                self.wf(),
                self.source@ == s0,
                p0 <= self.pos as int,
                lex_step(s0, self.pos as int) == lex_step(s0, p0),
            decreases s0.len() - self.pos,
        {
            if self.pos == self.source.len() {
                return None;
            }
            let c = self.source[self.pos];
            let q = self.pos;
            if c == '[' {
                self.pos = q + 1;
                return Some(Ok(Token::Bracket(ParenthesisType::Open)));
            } else if c == ']' {
                self.pos = q + 1;
                return Some(Ok(Token::Bracket(ParenthesisType::Close)));
            } else if c == '{' {
                self.pos = q + 1;
                return Some(Ok(Token::CurlyBracket(ParenthesisType::Open)));
            } else if c == '}' {
                self.pos = q + 1;
                return Some(Ok(Token::CurlyBracket(ParenthesisType::Close)));
            } else if c == ',' {
                self.pos = q + 1;
                return Some(Ok(Token::ElementDelimiter));
            } else if c == ':' {
                self.pos = q + 1;
                return Some(Ok(Token::KeyDelimiter));
            } else if c == '"' {
                self.pos = q + 1;
                let body = self.read_while(CharClass::NonQuote);
                if self.pos < self.source.len() {
                    self.pos = self.pos + 1;
                    return Some(Ok(Token::String(body)));
                } else {
                    return Some(Err(Error::UnclosedString));
                }
            } else if whitespace_char(c) {
                self.pos = q + 1;
            } else if digit_char(c) || c == '-' || c == '+' {
                return Some(self.scan_number(c));
            } else if alpha_char(c) {
                return Some(self.scan_keyword(c));
            } else {
                self.pos = q + 1;
                return Some(Err(Error::UnknownChar));
            }
        }
    }

    /// The numeric sub-rule, entered with the cursor on the lead
    /// character `c` (a digit, `-` or `+`).
    fn scan_number(&mut self, c: char) -> (r: Result<Token, Error>)
        requires
            old(self).wf(),
            old(self).pos < old(self).source.len(),
            old(self).source@[old(self).pos as int] == c,
            is_digit_char(c) || c == '-' || c == '+',
        ensures
            final(self).wf(),
            final(self).source@ == old(self).source@,
            ({
                let (item, next) = number_step(old(self).source@, old(self).pos as int);
                &&& item == item_view(Some(r))
                &&& final(self).pos as int == next
            }),
    {
        let ghost s0 = self.source@;
        let ghost q = self.pos as int;
        let zero_padded = c == '0' && self.pos + 1 < self.source.len() && digit_char(
            self.source[self.pos + 1],
        );
        self.pos = self.pos + 1;
        if c == '+' || zero_padded {
            let _ = self.read_while(CharClass::NonBoundary);
            return Err(Error::InvalidNumberFormat);
        }
        let rest = self.read_while(CharClass::DigitDot);
        proof {
            lemma_run_end(s0, q + 1, CharClass::DigitDot);
        }
        let mut mantissa = String::new();
        push_char(&mut mantissa, c);
        mantissa.append(rest.as_str());
        let ghost mant_seq = s0.subrange(q, self.pos as int);
        proof {
            assert(mantissa@ =~= mant_seq);
        }
        let marker_present = self.pos < self.source.len() && (self.source[self.pos] == 'e'
            || self.source[self.pos] == 'E');
        if marker_present {
            self.pos = self.pos + 1;
            let ghost marker_pos = self.pos as int;
            let exp = self.read_while(CharClass::ExponentRun);
            proof {
                lemma_run_end(s0, marker_pos, CharClass::ExponentRun);
            }
            let exp_len = exp.as_str().unicode_len();
            if exp_len == 0 {
                proof {
                    assert(exp@ =~= Seq::<char>::empty());
                }
                return Err(Error::InvalidExponentFormat);
            }
            let first = exp.as_str().get_char(0);
            if exp_len == 1 && (first == '+' || first == '-') {
                proof {
                    if first == '+' {
                        assert(exp@ =~= seq!['+']);
                    } else {
                        assert(exp@ =~= seq!['-']);
                    }
                }
                return Err(Error::InvalidExponentFormat);
            }
            proof {
                assert(exp@ != seq!['+'] && exp@ != seq!['-']) by {
                    if exp@ == seq!['+'] || exp@ == seq!['-'] {
                        assert(exp@.len() == 1);
                        assert(exp@[0] == '+' || exp@[0] == '-');
                    }
                }
            }
            if !mantissa_well_formed(mantissa.as_str()) {
                return Err(Error::InvalidNumberFormat);
            }
            match parse_i16(exp.as_str()) {
                None => Err(Error::InvalidNumberFormat),
                Some(v) => Ok(Token::Number(JSONNumber::new(mantissa, Some(v)))),
            }
        } else {
            if !mantissa_well_formed(mantissa.as_str()) {
                return Err(Error::InvalidNumberFormat);
            }
            Ok(Token::Number(JSONNumber::new(mantissa, None)))
        }
    }

    /// The characters of `s`, in order, as a vector.
    fn chars_of(s: &str) -> (v: Vec<char>)
        ensures
            v@ == s@,
    {
        let n = s.unicode_len();
        let mut v: Vec<char> = Vec::new();
        let mut i: usize = 0;
        while i < n
            invariant
                0 <= i <= n,
                n == s@.len(),
                v@ == s@.take(i as int),
            decreases n - i,
        {
            let c = s.get_char(i);
            v.push(c);
            proof {
                assert(v@ =~= s@.take(i + 1));
            }
            i = i + 1;
        }
        proof {
            assert(s@.take(n as int) =~= s@);
        }
        v
    }

    /// The keyword sub-rule, entered with the cursor on the lead
    /// letter `c`.
    fn scan_keyword(&mut self, c: char) -> (r: Result<Token, Error>)
        requires
            old(self).wf(),
            old(self).pos < old(self).source.len(),
            old(self).source@[old(self).pos as int] == c,
            is_alpha_char(c),
        ensures
            final(self).wf(),
            final(self).source@ == old(self).source@,
            ({
                let s = old(self).source@;
                let pos = old(self).pos as int;
                let kw_end = run_end(s, pos + 1, CharClass::Alphabetic);
                &&& final(self).pos as int == kw_end
                &&& item_view(Some(r)) == lex_step(s, pos).0
            }),
    {
        let ghost s0 = self.source@;
        let ghost q = self.pos as int;
        self.pos = self.pos + 1;
        let rest = self.read_while(CharClass::Alphabetic);
        proof {
            lemma_run_end(s0, q + 1, CharClass::Alphabetic);
        }
        let mut kw = String::new();
        push_char(&mut kw, c);
        kw.append(rest.as_str());
        let ghost kw_seq = s0.subrange(q, self.pos as int);
        proof {
            assert(kw@ =~= kw_seq);
            reveal_strlit("true");
            reveal_strlit("false");
            reveal_strlit("null");
            assert(("true")@ =~= keyword_true());
            assert(("false")@ =~= keyword_false());
            assert(("null")@ =~= keyword_null());
        }
        if kw == String::from_str("true") {
            Ok(Token::Boolean(true))
        } else if kw == String::from_str("false") {
            Ok(Token::Boolean(false))
        } else if kw == String::from_str("null") {
            Ok(Token::Null)
        } else {
            Err(Error::UnknownKeyword)
        }
    }
}

/// Scans the whole input eagerly: every token in source order, or the
/// first lexical error encountered.
#[verifier::loop_isolation(false)]
pub fn lex(source: &JSONString) -> (r: Result<Vec<Token>, Error>)
    ensures
        (match r {
            Ok(tokens) => lex_all(source@, 0) == Ok::<Seq<SpecToken>, Error>(
                tokens_view(tokens@),
            ),
            Err(e) => lex_all(source@, 0) == Err::<Seq<SpecToken>, Error>(e),
        }),
{
    let chars = Lexer::chars_of(source.as_str());
    let mut lexer = Lexer::from(chars);
    let mut tokens: Vec<Token> = Vec::new();
    proof {
        if lex_all(source@, 0) is Ok {
            assert(tokens_view(tokens@) + lex_all(source@, 0)->Ok_0 =~= lex_all(
                source@,
                0,
            )->Ok_0);
        }
    }
    loop
        invariant
            lexer.wf(),
            lexer.source@ == source@,
            (match lex_all(source@, lexer.pos as int) {
                Ok(rest) => lex_all(source@, 0) == Ok::<Seq<SpecToken>, Error>(
                    tokens_view(tokens@) + rest,
                ),
                Err(e) => lex_all(source@, 0) == Err::<Seq<SpecToken>, Error>(e),
            }),
        decreases source@.len() - lexer.pos,
    {
        let ghost p_old = lexer.pos as int;
        let item = lexer.next();
        proof {
            lemma_lex_step_bounds(source@, p_old);
        }
        match item {
            None => {
                proof {
                    assert(tokens_view(tokens@) + Seq::<SpecToken>::empty() =~= tokens_view(
                        tokens@,
                    ));
                }
                return Ok(tokens);
            },
            Some(Ok(t)) => {
                let ghost old_tokens = tokens@;
                tokens.push(t);
                proof {
                    assert(tokens_view(tokens@) =~= tokens_view(old_tokens) + seq![t@]);
                    if lex_all(source@, lexer.pos as int) is Ok {
                        let rest = lex_all(source@, lexer.pos as int)->Ok_0;
                        assert(tokens_view(old_tokens) + (seq![t@] + rest) =~= tokens_view(
                            tokens@,
                        ) + rest);
                    }
                }
            },
            Some(Err(e)) => {
                return Err(e);
            },
        }
    }
}

} // verus!
