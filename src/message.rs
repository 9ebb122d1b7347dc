//! The text that describes an error to a user.
use crate::ast::ParseError;
use vstd::prelude::*;
use vstd::string::StringExecFns;

verus! {

/// The decimal digit `d`.
pub open spec fn digit_char(d: nat) -> char {
    seq!['0', '1', '2', '3', '4', '5', '6', '7', '8', '9'][d as int]
}

/// The decimal numeral of `n`, without leading zeros.
pub open spec fn decimal(n: nat) -> Seq<char>
    decreases n,
{
    if n < 10 {
        seq![digit_char(n)]
    } else {
        decimal(n / 10).push(digit_char(n % 10))
    }
}

/// The text that describes an error to a user.
pub open spec fn message_of(e: ParseError) -> Seq<char> {
    match e {
        ParseError::InvalidEscape(pos, ch) => "ParseError: Invalid escape sequence at position "@
            + decimal(pos as nat) + ": "@ + seq![ch],
        ParseError::NoPrev(pos) => "ParseError: No previous character at position "@ + decimal(
            pos as nat,
        ),
        ParseError::NoRightParen => "ParseError: No right parenthesis"@,
        ParseError::Empty => "ParseError: Empty expression"@,
        ParseError::NoLeftParen(pos) => "ParseError: No left parenthesis at position "@ + decimal(
            pos as nat,
        ),
        ParseError::TrailingEscape(pos) => "ParseError: Nothing to escape at position "@ + decimal(
            pos as nat,
        ),
    }
}

/// Relies on `char::to_string`: the text of one character is that character.
#[verifier::external_body]
fn char_text(c: char) -> (r: String)
    ensures
        r@ == seq![c],
{
    c.to_string()
}

fn digit(d: usize) -> (c: char)
    requires
        d < 10,
    ensures
        c == digit_char(d as nat),
{
    match d {
        0 => '0',
        1 => '1',
        2 => '2',
        3 => '3',
        4 => '4',
        5 => '5',
        6 => '6',
        7 => '7',
        8 => '8',
        _ => '9',
    }
}

/// The decimal numeral of `n`.
pub fn decimal_text(n: usize) -> (r: String)
    ensures
        r@ == decimal(n as nat),
    decreases n,
{
    let last = char_text(digit(n % 10));
    if n < 10 {
        last
    } else {
        let mut r = decimal_text(n / 10);
        r.append(last.as_str());
        r
    }
}

impl ParseError {
    /// The text that describes the error to a user.
    pub fn message(&self) -> (r: String)
        ensures
            r@ == message_of(*self),
    {
        match self {
            ParseError::InvalidEscape(pos, ch) => {
                let mut r = String::from_str("ParseError: Invalid escape sequence at position ");
                r.append(decimal_text(*pos).as_str());
                r.append(": ");
                r.append(char_text(*ch).as_str());
                r
            },
            ParseError::NoPrev(pos) => {
                let mut r = String::from_str("ParseError: No previous character at position ");
                r.append(decimal_text(*pos).as_str());
                r
            },
            ParseError::NoRightParen => String::from_str("ParseError: No right parenthesis"),
            ParseError::Empty => String::from_str("ParseError: Empty expression"),
            ParseError::NoLeftParen(pos) => {
                let mut r = String::from_str("ParseError: No left parenthesis at position ");
                r.append(decimal_text(*pos).as_str());
                r
            },
            ParseError::TrailingEscape(pos) => {
                let mut r = String::from_str("ParseError: Nothing to escape at position ");
                r.append(decimal_text(*pos).as_str());
                r
            },
        }
    }
}

} // verus!
