//! The one-line descriptions of errors.
use vstd::prelude::*;
use crate::driver::{Error, ErrorView};
use crate::grammar::{Expected, ParseErrorView};
use crate::ir_gen::{CodegenError, CodegenErrorView};
use crate::lexer::{Token, TokenView};
use crate::parser::ParseError;

verus! {

/// The character of a decimal digit.
pub open spec fn digit_char(d: nat) -> char {
    if d == 0 {
        '0'
    } else if d == 1 {
        '1'
    } else if d == 2 {
        '2'
    } else if d == 3 {
        '3'
    } else if d == 4 {
        '4'
    } else if d == 5 {
        '5'
    } else if d == 6 {
        '6'
    } else if d == 7 {
        '7'
    } else if d == 8 {
        '8'
    } else {
        '9'
    }
}

/// The decimal numeral of `n`, without leading zeros.
pub open spec fn decimal(n: nat) -> Seq<char>
    decreases n,
{
    if n < 10 {
        seq![digit_char(n)]
    } else {
        decimal(n / 10).push(digit_char(n % 10))
    }
}

/// The text that describes a token.
pub open spec fn token_description(token: TokenView) -> Seq<char> {
    match token {
        TokenView::Eof => "end of input"@,
        TokenView::Def => "'def'"@,
        TokenView::Extern => "'extern'"@,
        TokenView::If => "'if'"@,
        TokenView::Then => "'then'"@,
        TokenView::Else => "'else'"@,
        TokenView::For => "'for'"@,
        TokenView::In => "'in'"@,
        TokenView::Identifier(name) => "identifier "@ + name,
        TokenView::Number(text) => "number "@ + text,
        TokenView::Char(c) => seq!['\'', c, '\''],
    }
}

/// The text that describes what the parser asked for.
pub open spec fn expected_description(expected: Expected) -> Seq<char> {
    match expected {
        Expected::Number => "number"@,
        Expected::Identifier => "identifier"@,
        Expected::Primary => "primary expression"@,
        Expected::Operator => "operator"@,
        Expected::Def => "'def'"@,
        Expected::Extern => "'extern'"@,
        Expected::If => "'if'"@,
        Expected::Then => "'then'"@,
        Expected::Else => "'else'"@,
        Expected::For => "'for'"@,
        Expected::In => "'in'"@,
        Expected::Char(c) => seq!['\'', c, '\''],
        Expected::CloseOrComma => "')' or ','"@,
    }
}

/// The description of a parse error.
pub open spec fn parse_message(error: ParseErrorView) -> Seq<char> {
    match error {
        ParseErrorView::MalformedNumber(text) => "Invalid number: "@ + text,
        ParseErrorView::Unexpected { expected, found } => "Expected "@ + expected_description(
            expected,
        ) + ", found "@ + token_description(found),
    }
}

/// The description of a code generation error.
pub open spec fn codegen_message(error: CodegenErrorView) -> Seq<char> {
    match error {
        CodegenErrorView::UnknownVariable(name) => "Unknown variable name: "@ + name,
        CodegenErrorView::UnknownFunction(name) => "Unknown function referenced: "@ + name,
        CodegenErrorView::ArgumentCount { callee, expected, actual } =>
            "Incorrect # of arguments passed to "@ + callee + ": expected "@ + decimal(expected)
                + ", found "@ + decimal(actual),
        CodegenErrorView::UnknownOperator(op) => "Unknown binary operator: "@.push(op),
        CodegenErrorView::Redefinition(name) => "Redefinition of function "@ + name,
    }
}

/// The description of an error.
pub open spec fn message(error: ErrorView) -> Seq<char> {
    match error {
        ErrorView::Parse(error) => parse_message(error),
        ErrorView::Codegen(error) => codegen_message(error),
    }
}

/// The character of the decimal digit `d`.
fn digit_of(d: usize) -> (r: char)
    requires
        d < 10,
    ensures
        r == digit_char(d as nat),
{
    if d == 0 {
        '0'
    } else if d == 1 {
        '1'
    } else if d == 2 {
        '2'
    } else if d == 3 {
        '3'
    } else if d == 4 {
        '4'
    } else if d == 5 {
        '5'
    } else if d == 6 {
        '6'
    } else if d == 7 {
        '7'
    } else if d == 8 {
        '8'
    } else {
        '9'
    }
}

/// Appends the decimal numeral of `n` to `out`.
pub fn write_decimal(out: &mut String, n: usize)
    ensures
        final(out)@ == old(out)@ + decimal(n as nat),
    decreases n,
{
    if n < 10 {
        out.push(digit_of(n));
        proof {
            assert(out@ =~= old(out)@ + decimal(n as nat));
        }
    } else {
        write_decimal(out, n / 10);
        out.push(digit_of(n % 10));
        proof {
            assert(out@ =~= old(out)@ + decimal(n as nat));
        }
    }
}

/// Appends the character `c` between quotes to `out`.
fn write_quoted(out: &mut String, c: char)
    ensures
        final(out)@ == old(out)@ + seq!['\'', c, '\''],
{
    out.push('\'');
    out.push(c);
    out.push('\'');
    proof {
        assert(out@ =~= old(out)@ + seq!['\'', c, '\'']);
    }
}

/// Appends what describes `token` to `out`.
fn write_token(out: &mut String, token: &Token)
    ensures
        final(out)@ == old(out)@ + token_description(token@),
{
    match token {
        Token::Eof => out.append("end of input"),
        Token::Def => out.append("'def'"),
        Token::Extern => out.append("'extern'"),
        Token::If => out.append("'if'"),
        Token::Then => out.append("'then'"),
        Token::Else => out.append("'else'"),
        Token::For => out.append("'for'"),
        Token::In => out.append("'in'"),
        Token::Identifier(name) => {
            out.append("identifier ");
            out.append(name.as_str());
            proof {
                assert(out@ =~= old(out)@ + ("identifier "@ + name@));
            }
        },
        Token::Number(text) => {
            out.append("number ");
            out.append(text.as_str());
            proof {
                assert(out@ =~= old(out)@ + ("number "@ + text@));
            }
        },
        Token::Char(c) => write_quoted(out, *c),
    }
}

/// Appends what describes `expected` to `out`.
fn write_expected(out: &mut String, expected: Expected)
    ensures
        final(out)@ == old(out)@ + expected_description(expected),
{
    match expected {
        Expected::Number => out.append("number"),
        Expected::Identifier => out.append("identifier"),
        Expected::Primary => out.append("primary expression"),
        Expected::Operator => out.append("operator"),
        Expected::Def => out.append("'def'"),
        Expected::Extern => out.append("'extern'"),
        Expected::If => out.append("'if'"),
        Expected::Then => out.append("'then'"),
        Expected::Else => out.append("'else'"),
        Expected::For => out.append("'for'"),
        Expected::In => out.append("'in'"),
        Expected::Char(c) => write_quoted(out, c),
        Expected::CloseOrComma => out.append("')' or ','"),
    }
}

impl ParseError {
    /// A one-line description of the error: what was expected and what was
    /// found, or the literal that denotes no number.
    pub fn message(&self) -> (r: String)
        ensures
            r@ == parse_message(self@),
    {
        let mut out = String::new();
        match self {
            ParseError::MalformedNumber(text) => {
                out.append("Invalid number: ");
                out.append(text.as_str());
                proof {
                    assert(out@ =~= parse_message(self@));
                }
            },
            ParseError::Unexpected { expected, found } => {
                out.append("Expected ");
                write_expected(&mut out, *expected);
                out.append(", found ");
                write_token(&mut out, found);
                proof {
                    assert(out@ =~= parse_message(self@));
                }
            },
        }
        out
    }
}

impl CodegenError {
    /// A one-line description of the error, with the name or the operator
    /// that it is about; for an argument count, with the count that the
    /// signature has and the count that the call has.
    pub fn message(&self) -> (r: String)
        ensures
            r@ == codegen_message(self@),
    {
        let mut out = String::new();
        match self {
            CodegenError::UnknownVariable(name) => {
                out.append("Unknown variable name: ");
                out.append(name.as_str());
                proof {
                    assert(out@ =~= codegen_message(self@));
                }
            },
            CodegenError::UnknownFunction(name) => {
                out.append("Unknown function referenced: ");
                out.append(name.as_str());
                proof {
                    assert(out@ =~= codegen_message(self@));
                }
            },
            CodegenError::ArgumentCount { callee, expected, actual } => {
                out.append("Incorrect # of arguments passed to ");
                out.append(callee.as_str());
                out.append(": expected ");
                write_decimal(&mut out, *expected);
                out.append(", found ");
                write_decimal(&mut out, *actual);
                proof {
                    assert(out@ =~= codegen_message(self@));
                }
            },
            CodegenError::UnknownOperator(op) => {
                out.append("Unknown binary operator: ");
                out.push(*op);
                proof {
                    assert(out@ =~= codegen_message(self@));
                }
            },
            CodegenError::Redefinition(name) => {
                out.append("Redefinition of function ");
                out.append(name.as_str());
                proof {
                    assert(out@ =~= codegen_message(self@));
                }
            },
        }
        out
    }
}

impl Error {
    /// A one-line description of the error.
    pub fn message(&self) -> (r: String)
        ensures
            r@ == message(self@),
    {
        match self {
            Error::Parse(error) => error.message(),
            Error::Codegen(error) => error.message(),
        }
    }
}

} // verus!
