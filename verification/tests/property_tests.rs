use json_lexer::lexer::{lex, Error, Lexer};
use json_lexer::numeric::{mantissa_well_formed, parse_i16};
use json_lexer::scan::CharClass;
use json_lexer::tokens::{ParenthesisType, Token};
use json_lexer::types::JSONNumber;

fn num(mantissa: &str, exponent: Option<i16>) -> Token {
    Token::Number(JSONNumber::new(mantissa.to_string(), exponent))
}

#[test]
fn whitespace_runs_are_transparent() {
    let spaced = lex(&"0 1 2".to_string());
    let tabbed = lex(&"0\t1\n2".to_string());
    let expected = Ok(vec![num("0", None), num("1", None), num("2", None)]);
    assert_eq!(spaced, expected);
    assert_eq!(tabbed, expected);
    assert_eq!(
        lex(&" \t\r\n[ \x0c] ".to_string()),
        Ok(vec![
            Token::Bracket(ParenthesisType::Open),
            Token::Bracket(ParenthesisType::Close),
        ])
    );
}

#[test]
fn padded_exponents_agree() {
    let a = lex(&"4E000002".to_string());
    let b = lex(&"4E+000002".to_string());
    let c = lex(&"4E2".to_string());
    let expected = Ok(vec![num("4", Some(2))]);
    assert_eq!(a, expected);
    assert_eq!(b, expected);
    assert_eq!(a, b);
    assert_eq!(b, c);
}

#[test]
fn leading_zero_rejected() {
    assert_eq!(lex(&"00".to_string()), Err(Error::InvalidNumberFormat));
}

#[test]
fn lone_zero_accepted() {
    assert_eq!(lex(&"0".to_string()), Ok(vec![num("0", None)]));
}

#[test]
fn bare_minus_rejected() {
    assert_eq!(lex(&"-".to_string()), Err(Error::InvalidNumberFormat));
}

#[test]
fn empty_exponent_rejected() {
    assert_eq!(lex(&"4E".to_string()), Err(Error::InvalidExponentFormat));
}

#[test]
fn bare_plus_exponent_rejected() {
    assert_eq!(lex(&"4E+".to_string()), Err(Error::InvalidExponentFormat));
}

#[test]
fn bare_minus_exponent_rejected() {
    assert_eq!(lex(&"4E-".to_string()), Err(Error::InvalidExponentFormat));
}

#[test]
fn overflowing_exponent_rejected() {
    assert_eq!(lex(&"4E99999".to_string()), Err(Error::InvalidNumberFormat));
    assert_eq!(lex(&"4E-99999".to_string()), Err(Error::InvalidNumberFormat));
    assert_eq!(
        lex(&"4E32767".to_string()),
        Ok(vec![num("4", Some(32767))])
    );
    assert_eq!(
        lex(&"4E-32768".to_string()),
        Ok(vec![num("4", Some(-32768))])
    );
    assert_eq!(lex(&"4E32768".to_string()), Err(Error::InvalidNumberFormat));
}

#[test]
fn garbled_exponent_rejected() {
    assert_eq!(lex(&"4E1+2".to_string()), Err(Error::InvalidNumberFormat));
    assert_eq!(lex(&"4E--2".to_string()), Err(Error::InvalidNumberFormat));
}

#[test]
fn keyword_prefix_never_accepted() {
    assert_eq!(lex(&"nul".to_string()), Err(Error::UnknownKeyword));
    assert_eq!(lex(&"tru".to_string()), Err(Error::UnknownKeyword));
    assert_eq!(lex(&"falsee".to_string()), Err(Error::UnknownKeyword));
}

#[test]
fn unknown_character_rejected() {
    assert_eq!(lex(&"@".to_string()), Err(Error::UnknownChar));
}

#[test]
fn empty_input_gives_no_tokens() {
    assert_eq!(lex(&"".to_string()), Ok(vec![]));
    let mut lexer = Lexer::from(Vec::new());
    assert_eq!(lexer.next(), None);
}

#[test]
fn rejected_number_resynchronizes_at_boundary() {
    // after draining the malformed literal the cursor lands exactly at
    // the next delimiter, so iteration can resume cleanly
    let mut lexer = Lexer::from("+12garbage,2]".chars().collect());
    assert_eq!(lexer.next(), Some(Err(Error::InvalidNumberFormat)));
    assert_eq!(lexer.next(), Some(Ok(Token::ElementDelimiter)));
    assert_eq!(lexer.next(), Some(Ok(num("2", None))));
    assert_eq!(
        lexer.next(),
        Some(Ok(Token::Bracket(ParenthesisType::Close)))
    );
    assert_eq!(lexer.next(), None);
}

#[test]
fn read_while_takes_longest_run() {
    let mut lexer = Lexer::from("abc123".chars().collect());
    assert_eq!(lexer.read_while(CharClass::Alphabetic), "abc".to_string());
    assert_eq!(lexer.read_while(CharClass::DigitDot), "123".to_string());
    assert_eq!(lexer.read_while(CharClass::NonQuote), "".to_string());
}

#[test]
fn string_scanning_is_escape_unaware() {
    // a backslash is an ordinary content character
    assert_eq!(
        lex(&r#""a\nb""#.to_string()),
        Ok(vec![Token::String(r"a\nb".to_string())])
    );
}

#[test]
fn mantissa_well_formed_counts_dots_and_digits() {
    assert!(mantissa_well_formed("0"));
    assert!(mantissa_well_formed("-214.12498"));
    assert!(mantissa_well_formed("5."));
    assert!(!mantissa_well_formed("20.0.0.0"));
    assert!(!mantissa_well_formed("-"));
    assert!(!mantissa_well_formed(""));
}

#[test]
fn parse_i16_exact() {
    assert_eq!(parse_i16("000002"), Some(2));
    assert_eq!(parse_i16("+000002"), Some(2));
    assert_eq!(parse_i16("-000002"), Some(-2));
    assert_eq!(parse_i16("32767"), Some(32767));
    assert_eq!(parse_i16("-32768"), Some(-32768));
    assert_eq!(parse_i16("32768"), None);
    assert_eq!(parse_i16("-32769"), None);
    assert_eq!(parse_i16(""), None);
    assert_eq!(parse_i16("+"), None);
    assert_eq!(parse_i16("1+2"), None);
}

#[test]
fn number_equality_is_structural() {
    let a = JSONNumber::new("4".to_string(), Some(2));
    let b = JSONNumber::new("4".to_string(), Some(2));
    let c = JSONNumber::new("4".to_string(), Some(3));
    let d = JSONNumber::new("4.0".to_string(), Some(2));
    assert_eq!(a, b);
    assert_ne!(a, c);
    assert_ne!(a, d);
}
