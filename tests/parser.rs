use regex_parser::parser;
use regex_parser::ast::{ParseError, AST};
use regex_parser::message::decimal_text;
use regex_parser::parser::{fold_seq, parse};

fn ch(c: char) -> AST {
    AST::Char(c)
}

fn or(a: AST, b: AST) -> AST {
    AST::Or(Box::new(a), Box::new(b))
}

fn text(v: Vec<char>) -> String {
    v.into_iter().collect()
}

#[test]
fn parse_escape() {
    assert_eq!(parser::parse_escape(0, '\\'), Ok(AST::Char('\\')));
    assert_eq!(parser::parse_escape(0, '('), Ok(AST::Char('(')));
    assert_eq!(parser::parse_escape(0, ')'), Ok(AST::Char(')')));
    assert_eq!(parser::parse_escape(0, '|'), Ok(AST::Char('|')));
    assert_eq!(parser::parse_escape(0, '+'), Ok(AST::Char('+')));
    assert_eq!(parser::parse_escape(0, '*'), Ok(AST::Char('*')));
    assert_eq!(parser::parse_escape(0, '_'), Ok(AST::Char('_')));
    assert_eq!(parser::parse_escape(0, 'a'), Err(ParseError::InvalidEscape(0, 'a')));
}

#[test]
fn fold_or() {
    assert_eq!(parser::fold_or(vec![]), None);
    assert_eq!(parser::fold_or(vec![AST::Char('a')]), Some(AST::Char('a')));
    assert_eq!(
        parser::fold_or(vec![AST::Char('a'), AST::Char('b')]),
        Some(AST::Or(Box::new(AST::Char('a')), Box::new(AST::Char('b'))))
    );
    assert_eq!(
        parser::fold_or(vec![
            AST::Char('a'),
            AST::Char('b'),
            AST::Char('c'),
            AST::Char('d')
        ]),
        Some(AST::Or(
            Box::new(AST::Char('a')),
            Box::new(AST::Or(
                Box::new(AST::Char('b')),
                Box::new(AST::Or(Box::new(AST::Char('c')), Box::new(AST::Char('d'))))
            ))
        ))
    );
}

#[test]
fn fold_seq_cases() {
    assert_eq!(fold_seq(vec![]), Err(ParseError::Empty));
    assert_eq!(fold_seq(vec![ch('a')]), Ok(ch('a')));
    assert_eq!(fold_seq(vec![ch('a'), ch('b')]), Ok(AST::Sequence(vec![ch('a'), ch('b')])));
}

#[test]
fn single_plain_characters() {
    for c in ['a', 'z', '0', '_', ' ', '.', '[', 'é', '{'] {
        assert_eq!(parse(&c.to_string()), Ok(ch(c)));
    }
}

#[test]
fn escaped_characters() {
    for c in ['\\', '(', ')', '|', '+', '*', '_'] {
        let p: String = ['\\', c].iter().collect();
        assert_eq!(parse(&p), Ok(ch(c)));
    }
    for c in ['a', '?', 'n', '.'] {
        let p: String = ['\\', c].iter().collect();
        assert_eq!(parse(&p), Err(ParseError::InvalidEscape(1, c)));
    }
}

#[test]
fn empty_pattern() {
    assert_eq!(parse(""), Err(ParseError::Empty));
}

#[test]
fn lone_quantifiers() {
    assert_eq!(parse("*"), Err(ParseError::NoPrev(0)));
    assert_eq!(parse("+"), Err(ParseError::NoPrev(0)));
    assert_eq!(parse("?"), Err(ParseError::NoPrev(0)));
    assert_eq!(parse("a|*"), Err(ParseError::NoPrev(2)));
    assert_eq!(parse("(?"), Err(ParseError::NoPrev(1)));
}

#[test]
fn unclosed_group() {
    assert_eq!(parse("("), Err(ParseError::NoRightParen));
    assert_eq!(parse("(a|(b)"), Err(ParseError::NoRightParen));
}

#[test]
fn empty_group() {
    assert_eq!(parse("()"), Err(ParseError::Empty));
    assert_eq!(parse("a(|b)"), Err(ParseError::Empty));
    assert_eq!(parse("a||b"), Err(ParseError::Empty));
    assert_eq!(parse("a|"), Err(ParseError::Empty));
}

#[test]
fn unmatched_close() {
    assert_eq!(parse(")"), Err(ParseError::NoLeftParen(0)));
    assert_eq!(parse("ab)c"), Err(ParseError::NoLeftParen(2)));
}

#[test]
fn trailing_backslash() {
    assert_eq!(parse("ab\\"), Err(ParseError::TrailingEscape(2)));
}

#[test]
fn alternation_leans_right() {
    assert_eq!(
        parse("a|b|c|d"),
        Ok(or(ch('a'), or(ch('b'), or(ch('c'), ch('d')))))
    );
}

#[test]
fn sequence_with_quantifier() {
    assert_eq!(
        parse("ab*"),
        Ok(AST::Sequence(vec![ch('a'), AST::Star(Box::new(ch('b')))]))
    );
    assert_eq!(parse("a+"), Ok(AST::Plus(Box::new(ch('a')))));
    assert_eq!(parse("a?"), Ok(AST::Question(Box::new(ch('a')))));
    assert_eq!(
        parse("a*?"),
        Ok(AST::Question(Box::new(AST::Star(Box::new(ch('a'))))))
    );
}

#[test]
fn nested_group() {
    assert_eq!(
        parse("(a|b)c"),
        Ok(AST::Sequence(vec![or(ch('a'), ch('b')), ch('c')]))
    );
    assert_eq!(
        parse("(ab)*"),
        Ok(AST::Star(Box::new(AST::Sequence(vec![ch('a'), ch('b')]))))
    );
    assert_eq!(parse("((a))"), Ok(ch('a')));
}

#[test]
fn canonical_text() {
    let t = parse("(a|b)|c\\*d").unwrap();
    assert_eq!(text(t.to_pattern()), "(a|b)|c\\*d");
    let t = parse("(ab)*(c)").unwrap();
    assert_eq!(text(t.to_pattern()), "(ab)*c");
    assert_eq!(text(ch('_').to_pattern()), "\\_");
}

#[test]
fn round_trip() {
    for p in ["a|b|c|d", "ab*", "(a|b)c", "((ab)c)+|x?", "\\(\\)\\||(a|b)|c", "a**", "((a|b)|c)d"] {
        let t = parse(p).unwrap();
        let again = parse(&text(t.to_pattern())).unwrap();
        assert_eq!(again, t);
    }
}

#[test]
fn error_messages() {
    assert_eq!(
        ParseError::InvalidEscape(12, 'x').message(),
        "ParseError: Invalid escape sequence at position 12: x"
    );
    assert_eq!(
        ParseError::NoPrev(0).message(),
        "ParseError: No previous character at position 0"
    );
    assert_eq!(ParseError::NoRightParen.message(), "ParseError: No right parenthesis");
    assert_eq!(ParseError::Empty.message(), "ParseError: Empty expression");
    assert_eq!(
        ParseError::NoLeftParen(305).message(),
        "ParseError: No left parenthesis at position 305"
    );
    assert_eq!(
        ParseError::TrailingEscape(7).message(),
        "ParseError: Nothing to escape at position 7"
    );
}

#[test]
fn decimal_numerals() {
    assert_eq!(decimal_text(0), "0");
    assert_eq!(decimal_text(9), "9");
    assert_eq!(decimal_text(10), "10");
    assert_eq!(decimal_text(1234567), "1234567");
    assert_eq!(decimal_text(usize::MAX), usize::MAX.to_string());
}
