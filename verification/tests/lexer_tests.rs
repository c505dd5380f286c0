use json_lexer::lexer::{lex, Error, Lexer};
use json_lexer::tokens::{ParenthesisType, Token};
use json_lexer::types::JSONNumber;

fn number(mantissa: &str, exponent: Option<i16>) -> Token {
    Token::Number(JSONNumber::new(mantissa.to_string(), exponent))
}

#[test]
fn bracket_open() {
    assert_eq!(
        lex(&"[".to_string()),
        Ok(vec![Token::Bracket(ParenthesisType::Open)])
    );
}

#[test]
fn bracket_close() {
    assert_eq!(
        lex(&"]".to_string()),
        Ok(vec![Token::Bracket(ParenthesisType::Close)])
    );
}

#[test]
fn bracket_pair() {
    assert_eq!(
        lex(&"[]".to_string()),
        Ok(vec![
            Token::Bracket(ParenthesisType::Open),
            Token::Bracket(ParenthesisType::Close),
        ])
    );
}

#[test]
fn bracket_nested() {
    assert_eq!(
        lex(&"[[]]".to_string()),
        Ok(vec![
            Token::Bracket(ParenthesisType::Open),
            Token::Bracket(ParenthesisType::Open),
            Token::Bracket(ParenthesisType::Close),
            Token::Bracket(ParenthesisType::Close),
        ])
    );
}

#[test]
fn bracket_mixed() {
    assert_eq!(
        lex(&"[[][".to_string()),
        Ok(vec![
            Token::Bracket(ParenthesisType::Open),
            Token::Bracket(ParenthesisType::Open),
            Token::Bracket(ParenthesisType::Close),
            Token::Bracket(ParenthesisType::Open),
        ])
    );
}

#[test]
fn curly_open() {
    assert_eq!(
        lex(&"{".to_string()),
        Ok(vec![Token::CurlyBracket(ParenthesisType::Open)])
    );
}

#[test]
fn curly_close() {
    assert_eq!(
        lex(&"}".to_string()),
        Ok(vec![Token::CurlyBracket(ParenthesisType::Close)])
    );
}

#[test]
fn curly_pair() {
    assert_eq!(
        lex(&"{}".to_string()),
        Ok(vec![
            Token::CurlyBracket(ParenthesisType::Open),
            Token::CurlyBracket(ParenthesisType::Close),
        ])
    );
}

#[test]
fn curly_nested() {
    assert_eq!(
        lex(&"{{}}".to_string()),
        Ok(vec![
            Token::CurlyBracket(ParenthesisType::Open),
            Token::CurlyBracket(ParenthesisType::Open),
            Token::CurlyBracket(ParenthesisType::Close),
            Token::CurlyBracket(ParenthesisType::Close),
        ])
    );
}

#[test]
fn curly_mixed() {
    assert_eq!(
        lex(&"}}{}".to_string()),
        Ok(vec![
            Token::CurlyBracket(ParenthesisType::Close),
            Token::CurlyBracket(ParenthesisType::Close),
            Token::CurlyBracket(ParenthesisType::Open),
            Token::CurlyBracket(ParenthesisType::Close),
        ])
    );
}

#[test]
fn curly_and_normal_mixed() {
    assert_eq!(
        lex(&"[}}{[]]}]".to_string()),
        Ok(vec![
            Token::Bracket(ParenthesisType::Open),
            Token::CurlyBracket(ParenthesisType::Close),
            Token::CurlyBracket(ParenthesisType::Close),
            Token::CurlyBracket(ParenthesisType::Open),
            Token::Bracket(ParenthesisType::Open),
            Token::Bracket(ParenthesisType::Close),
            Token::Bracket(ParenthesisType::Close),
            Token::CurlyBracket(ParenthesisType::Close),
            Token::Bracket(ParenthesisType::Close),
        ])
    );
}

#[test]
fn element_delimiter() {
    assert_eq!(lex(&",".to_string()), Ok(vec![Token::ElementDelimiter]));
}

#[test]
fn element_delimiter_multiple() {
    assert_eq!(
        lex(&",,,,".to_string()),
        Ok(vec![
            Token::ElementDelimiter,
            Token::ElementDelimiter,
            Token::ElementDelimiter,
            Token::ElementDelimiter,
        ])
    );
}

#[test]
fn key_delimiter() {
    assert_eq!(lex(&":".to_string()), Ok(vec![Token::KeyDelimiter]));
}

#[test]
fn key_delimiter_multiple() {
    assert_eq!(
        lex(&":::".to_string()),
        Ok(vec![
            Token::KeyDelimiter,
            Token::KeyDelimiter,
            Token::KeyDelimiter,
        ])
    );
}

#[test]
fn number_zero() {
    assert_eq!(lex(&"0".to_string()), Ok(vec![number("0", None)]));
}

#[test]
fn number_multiple() {
    assert_eq!(
        lex(&"0 1 2".to_string()),
        Ok(vec![number("0", None), number("1", None), number("2", None)])
    );
}

#[test]
fn number_long() {
    assert_eq!(lex(&"1000000".to_string()), Ok(vec![number("1000000", None)]));
}

#[test]
fn number_no_exponent() {
    assert_eq!(lex(&"4".to_string()), Ok(vec![number("4", None)]));
}

#[test]
fn number_unsigned_exponent() {
    assert_eq!(lex(&"4E2".to_string()), Ok(vec![number("4", Some(2))]));
}

#[test]
fn number_unsigned_long_exponent() {
    assert_eq!(lex(&"4E200".to_string()), Ok(vec![number("4", Some(200))]));
}

#[test]
fn number_unsigned_padded_exponent() {
    assert_eq!(lex(&"4E000002".to_string()), Ok(vec![number("4", Some(2))]));
}

#[test]
fn number_pos_signed_padded_exponent() {
    assert_eq!(lex(&"4E+000002".to_string()), Ok(vec![number("4", Some(2))]));
}

#[test]
fn number_signed_exponent() {
    assert_eq!(lex(&"4E-2".to_string()), Ok(vec![number("4", Some(-2))]));
}

#[test]
fn number_signed_padded_exponent() {
    assert_eq!(lex(&"4E-000002".to_string()), Ok(vec![number("4", Some(-2))]));
}

#[test]
fn float() {
    assert_eq!(lex(&"14.0".to_string()), Ok(vec![number("14.0", None)]));
}

#[test]
fn float_multiple() {
    assert_eq!(
        lex(&"0.1 12.5 2.12".to_string()),
        Ok(vec![
            number("0.1", None),
            number("12.5", None),
            number("2.12", None),
        ])
    );
}

#[test]
fn float_multiple_exp() {
    assert_eq!(
        lex(&"0.1E1 12.5E-0002 2.12E213".to_string()),
        Ok(vec![
            number("0.1", Some(1)),
            number("12.5", Some(-2)),
            number("2.12", Some(213)),
        ])
    );
}

#[test]
fn float_long() {
    assert_eq!(
        lex(&"10000000000000000.0".to_string()),
        Ok(vec![number("10000000000000000.0", None)])
    );
}

#[test]
fn float_complex() {
    assert_eq!(
        lex(&"214.12498".to_string()),
        Ok(vec![number("214.12498", None)])
    );
}

#[test]
fn float_signed_complex() {
    assert_eq!(
        lex(&"-214.12498".to_string()),
        Ok(vec![number("-214.12498", None)])
    );
}

#[test]
fn float_signed_exp() {
    assert_eq!(
        lex(&"-214.12498E+001".to_string()),
        Ok(vec![number("-214.12498", Some(1))])
    );
}

#[test]
fn float_signed_negative_exp() {
    assert_eq!(
        lex(&"-214.12498E-200".to_string()),
        Ok(vec![number("-214.12498", Some(-200))])
    );
}

#[test]
fn float_unsigned_exp() {
    assert_eq!(lex(&"2.0E2".to_string()), Ok(vec![number("2.0", Some(2))]));
}

#[test]
fn invalid_float_many_decimal_points() {
    assert_eq!(lex(&"20.0.0.0".to_string()), Err(Error::InvalidNumberFormat));
}

#[test]
fn invalid_number() {
    assert_eq!(lex(&"+2".to_string()), Err(Error::InvalidNumberFormat));
}

#[test]
fn null() {
    assert_eq!(lex(&"null".to_string()), Ok(vec![Token::Null]));
}

#[test]
fn null_multiple() {
    assert_eq!(
        lex(&"null null null".to_string()),
        Ok(vec![Token::Null, Token::Null, Token::Null])
    );
}

#[test]
fn null_typo() {
    assert_eq!(lex(&"nulll".to_string()), Err(Error::UnknownKeyword));
}

#[test]
fn true_single() {
    assert_eq!(lex(&"true".to_string()), Ok(vec![Token::Boolean(true)]));
}

#[test]
fn true_multiple() {
    assert_eq!(
        lex(&"true true true".to_string()),
        Ok(vec![
            Token::Boolean(true),
            Token::Boolean(true),
            Token::Boolean(true),
        ])
    );
}

#[test]
fn true_typo() {
    assert_eq!(lex(&"treu".to_string()), Err(Error::UnknownKeyword));
}

#[test]
fn false_single() {
    assert_eq!(lex(&"false".to_string()), Ok(vec![Token::Boolean(false)]));
}

#[test]
fn false_multiple() {
    assert_eq!(
        lex(&"false false false".to_string()),
        Ok(vec![
            Token::Boolean(false),
            Token::Boolean(false),
            Token::Boolean(false),
        ])
    );
}

#[test]
fn false_typo() {
    assert_eq!(lex(&"fales".to_string()), Err(Error::UnknownKeyword));
}

#[test]
fn mixed_easy() {
    assert_eq!(
        lex(&"false true".to_string()),
        Ok(vec![Token::Boolean(false), Token::Boolean(true)])
    );
}

#[test]
fn mixed_complex() {
    assert_eq!(
        lex(&"false true false true false".to_string()),
        Ok(vec![
            Token::Boolean(false),
            Token::Boolean(true),
            Token::Boolean(false),
            Token::Boolean(true),
            Token::Boolean(false),
        ])
    );
}

#[test]
fn mixed_typo() {
    assert_eq!(
        lex(&"false treu false true false".to_string()),
        Err(Error::UnknownKeyword)
    );
}

#[test]
fn string() {
    assert_eq!(
        lex(&r#""foo""#.to_string()),
        Ok(vec![Token::String("foo".to_string())])
    );
}

#[test]
fn string_unclosed() {
    assert_eq!(lex(&r#""foo"#.to_string()), Err(Error::UnclosedString));
}

#[test]
fn string_contains_control_chars() {
    assert_eq!(
        lex(&r#""a',b;c""#.to_string()),
        Ok(vec![Token::String("a',b;c".to_string())])
    );
}

#[test]
fn string_multiple() {
    assert_eq!(
        lex(&r#""foo" "bar""#.to_string()),
        Ok(vec![
            Token::String("foo".to_string()),
            Token::String("bar".to_string()),
        ])
    );
}

#[test]
fn string_with_spaces() {
    assert_eq!(
        lex(&r#"" foo   ""#.to_string()),
        Ok(vec![Token::String(" foo   ".to_string())])
    );
}

#[test]
fn string_multiple_with_spaces() {
    assert_eq!(
        lex(&r#"" foo   " "bar" " baz" "#.to_string()),
        Ok(vec![
            Token::String(" foo   ".to_string()),
            Token::String("bar".to_string()),
            Token::String(" baz".to_string()),
        ])
    );
}

#[test]
fn simple() {
    assert_eq!(
        lex(&r#"{"foo": "bar"}"#.to_string()),
        Ok(vec![
            Token::CurlyBracket(ParenthesisType::Open),
            Token::String("foo".to_string()),
            Token::KeyDelimiter,
            Token::String("bar".to_string()),
            Token::CurlyBracket(ParenthesisType::Close),
        ])
    );
}

#[test]
fn single_nested() {
    assert_eq!(
        lex(&r#"{"foo": "bar", "baz": [2.0, true, false, null]}"#.to_string()),
        Ok(vec![
            Token::CurlyBracket(ParenthesisType::Open),
            Token::String("foo".to_string()),
            Token::KeyDelimiter,
            Token::String("bar".to_string()),
            Token::ElementDelimiter,
            Token::String("baz".to_string()),
            Token::KeyDelimiter,
            Token::Bracket(ParenthesisType::Open),
            number("2.0", None),
            Token::ElementDelimiter,
            Token::Boolean(true),
            Token::ElementDelimiter,
            Token::Boolean(false),
            Token::ElementDelimiter,
            Token::Null,
            Token::Bracket(ParenthesisType::Close),
            Token::CurlyBracket(ParenthesisType::Close),
        ])
    );
}

#[test]
fn array() {
    assert_eq!(
        lex(&r#"["foo", "bar", "baz"]"#.to_string()),
        Ok(vec![
            Token::Bracket(ParenthesisType::Open),
            Token::String("foo".to_string()),
            Token::ElementDelimiter,
            Token::String("bar".to_string()),
            Token::ElementDelimiter,
            Token::String("baz".to_string()),
            Token::Bracket(ParenthesisType::Close),
        ])
    );
}

#[test]
fn lexer_pull_one_at_a_time() {
    let mut lexer = Lexer::from("[true".chars().collect());
    assert_eq!(
        lexer.next(),
        Some(Ok(Token::Bracket(ParenthesisType::Open)))
    );
    assert_eq!(lexer.next(), Some(Ok(Token::Boolean(true))));
    assert_eq!(lexer.next(), None);
}
