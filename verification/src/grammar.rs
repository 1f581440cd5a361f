//! The grammar of the language, as functions from a stream of lexemes to what
//! the parser builds from it and the stream that is left.
use vstd::prelude::*;
use crate::ast::{Expr, FunctionDef, Prototype};
use crate::lexer::{Lexeme, TokenView};

verus! {

/// What the parser asked for where it found something else.
#[derive(Clone, Copy, Debug, PartialEq, Eq, Structural)]
pub enum Expected {
    Number,
    Identifier,
    /// The start of a primary expression.
    Primary,
    Operator,
    Def,
    Extern,
    If,
    Then,
    Else,
    For,
    In,
    /// This character.
    Char(char),
    /// A closing parenthesis or a comma.
    CloseOrComma,
}

/// Why parsing failed, as a mathematical value.
pub enum ParseErrorView {
    /// A numeric literal that denotes no number.
    MalformedNumber(Seq<char>),
    /// A token that the grammar does not allow where it stands.
    Unexpected { expected: Expected, found: TokenView },
}

/// The parser's place in the stream: the token it looks at, and the lexemes
/// after it. It looks at no token before the first is read and after a
/// malformed literal.
pub struct Cursor {
    pub current: Option<TokenView>,
    pub rest: Seq<Lexeme>,
}

/// What a production gives: what was built or why not, and the place in the
/// stream afterwards.
pub struct Parsed<T> {
    pub result: Result<T, ParseErrorView>,
    pub cursor: Cursor,
}

impl Cursor {
    /// The token looked at; past the end of the input it is `Eof`.
    pub open spec fn token(self) -> TokenView {
        match self.current {
            Some(token) => token,
            None => TokenView::Eof,
        }
    }

    /// How many tokens are still to be consumed.
    pub open spec fn size(self) -> nat {
        self.rest.len() + if self.current is Some && self.current != Some(TokenView::Eof) {
            1nat
        } else {
            0nat
        }
    }

    /// `self`, where it is no longer than `limit`. No production moves back
    /// in the stream, so this is `self` wherever the grammar applies it (see
    /// `soundness::lemma_within`); it is there to make the grammar
    /// well-founded.
    pub open spec fn within(self, limit: Cursor) -> Cursor {
        if self.size() <= limit.size() {
            self
        } else {
            limit
        }
    }

    /// The failure to find `expected` at the token looked at.
    pub open spec fn unexpected<T>(self, expected: Expected) -> Parsed<T> {
        Parsed {
            result: Err(ParseErrorView::Unexpected { expected, found: self.token() }),
            cursor: self,
        }
    }

    /// Success with `value`, at this place.
    pub open spec fn done<T>(self, value: T) -> Parsed<T> {
        Parsed { result: Ok(value), cursor: self }
    }
}

impl<T> Parsed<T> {
    /// The same failure, for a production that builds something else.
    pub open spec fn failed<U>(self) -> Parsed<U>
        recommends
            self.result is Err,
    {
        Parsed { result: Err(self.result->Err_0), cursor: self.cursor }
    }
}

/// Moves to the next lexeme. Past the end the token is `Eof`, and stays so.
/// A malformed literal is an error, after which no token is looked at.
pub open spec fn advance(c: Cursor) -> Parsed<()> {
    if c.rest.len() == 0 {
        Cursor { current: Some(TokenView::Eof), rest: c.rest }.done(())
    } else {
        match c.rest[0] {
            Ok(token) => Cursor { current: Some(token), rest: c.rest.drop_first() }.done(()),
            Err(error) => Parsed {
                result: Err(ParseErrorView::MalformedNumber(error.literal)),
                cursor: Cursor { current: None, rest: c.rest.drop_first() },
            },
        }
    }
}

/// How tightly a token binds as a binary operator; -1 where it is none.
pub open spec fn precedence(token: TokenView) -> int {
    match token {
        TokenView::Char(c) => if c == '<' {
            10
        } else if c == '+' || c == '-' {
            20
        } else if c == '*' || c == '/' {
            40
        } else {
            -1
        },
        _ => -1,
    }
}

/// expression ::= primary (operator primary)*, grouped by precedence.
pub open spec fn expression(c: Cursor) -> Parsed<Expr>
    decreases c.size(), 3nat,
{
    let first = primary(c);
    match first.result {
        Err(_) => first,
        Ok(lhs) => bin_op_rhs(first.cursor.within(c), 0, lhs),
    }
}

/// Folds the operators that follow `lhs` into it, as long as they bind at
/// least as tightly as `min_prec`. An operand is first extended by the
/// operators after it that bind more tightly than the one before it.
pub open spec fn bin_op_rhs(c: Cursor, min_prec: int, lhs: Expr) -> Parsed<Expr>
    decreases c.size(), 0nat,
{
    let prec = precedence(c.token());
    if prec < min_prec {
        c.done(lhs)
    } else if !(c.token() is Char) {
        c.unexpected(Expected::Operator)
    } else {
        let op = c.token()->Char_0;
        let moved = advance(c);
        if moved.result is Err {
            moved.failed()
        } else {
            let operand = primary(moved.cursor);
            match operand.result {
                Err(_) => operand,
                Ok(rhs) => {
                    let after = operand.cursor.within(moved.cursor);
                    let extended = if prec < precedence(after.token()) {
                        bin_op_rhs(after, prec + 1, rhs)
                    } else {
                        after.done(rhs)
                    };
                    match extended.result {
                        Err(_) => extended,
                        Ok(rhs) => bin_op_rhs(
                            extended.cursor.within(after),
                            min_prec,
                            Expr::BinaryOp(op, Box::new(lhs), Box::new(rhs)),
                        ),
                    }
                },
            }
        }
    }
}

/// primary ::= identifier-expression | number | parenthesized expression
///           | conditional | loop
pub open spec fn primary(c: Cursor) -> Parsed<Expr>
    decreases c.size(), 2nat,
{
    match c.token() {
        TokenView::Identifier(_) => identifier_expr(c),
        TokenView::Number(_) => number(c),
        TokenView::Char(ch) => if ch == '(' {
            paren_expr(c)
        } else {
            c.unexpected(Expected::Primary)
        },
        TokenView::If => if_expr(c),
        TokenView::For => for_expr(c),
        _ => c.unexpected(Expected::Primary),
    }
}

/// number ::= NUMBER
pub open spec fn number(c: Cursor) -> Parsed<Expr> {
    match c.token() {
        TokenView::Number(text) => {
            let moved = advance(c);
            if moved.result is Err {
                moved.failed()
            } else {
                moved.cursor.done(Expr::Number(text))
            }
        },
        _ => c.unexpected(Expected::Number),
    }
}

/// Consumes the token looked at where it is the character `ch`.
pub open spec fn expect_char(c: Cursor, ch: char) -> Parsed<()> {
    if c.token() == TokenView::Char(ch) {
        advance(c)
    } else {
        c.unexpected(Expected::Char(ch))
    }
}

/// Consumes the token looked at where it is `token`, a keyword.
pub open spec fn expect_keyword(c: Cursor, token: TokenView, expected: Expected) -> Parsed<()> {
    if c.token() == token {
        advance(c)
    } else {
        c.unexpected(expected)
    }
}

/// parenthesized ::= '(' expression ')'
pub open spec fn paren_expr(c: Cursor) -> Parsed<Expr>
    decreases c.size(), 1nat,
{
    let opened = expect_char(c, '(');
    if opened.result is Err {
        opened.failed()
    } else {
        let inner = expression(opened.cursor);
        match inner.result {
            Err(_) => inner,
            Ok(e) => {
                let closed = expect_char(inner.cursor, ')');
                if closed.result is Err {
                    closed.failed()
                } else {
                    closed.cursor.done(e)
                }
            },
        }
    }
}

/// identifier-expression ::= IDENT | IDENT '(' ')'
///                         | IDENT '(' expression (',' expression)* ')'
pub open spec fn identifier_expr(c: Cursor) -> Parsed<Expr>
    decreases c.size(), 1nat,
{
    match c.token() {
        TokenView::Identifier(name) => {
            let moved = advance(c);
            if moved.result is Err {
                moved.failed()
            } else if moved.cursor.token() != TokenView::Char('(') {
                moved.cursor.done(Expr::Variable(name))
            } else {
                let opened = advance(moved.cursor);
                if opened.result is Err {
                    opened.failed()
                } else if opened.cursor.token() == TokenView::Char(')') {
                    let closed = advance(opened.cursor);
                    if closed.result is Err {
                        closed.failed()
                    } else {
                        closed.cursor.done(Expr::Call(name, Seq::empty()))
                    }
                } else {
                    let args = call_args(opened.cursor, Seq::empty());
                    match args.result {
                        Err(_) => args.failed(),
                        Ok(list) => args.cursor.done(Expr::Call(name, list)),
                    }
                }
            }
        },
        _ => c.unexpected(Expected::Identifier),
    }
}

/// The arguments of a call after `parsed`, up to and including the closing
/// parenthesis.
pub open spec fn call_args(c: Cursor, parsed: Seq<Expr>) -> Parsed<Seq<Expr>>
    decreases c.size(), 4nat,
{
    let arg = expression(c);
    match arg.result {
        Err(_) => arg.failed(),
        Ok(e) => {
            let after = arg.cursor.within(c);
            let list = parsed.push(e);
            if after.token() == TokenView::Char(')') {
                let closed = advance(after);
                if closed.result is Err {
                    closed.failed()
                } else {
                    closed.cursor.done(list)
                }
            } else if after.token() != TokenView::Char(',') {
                after.unexpected(Expected::CloseOrComma)
            } else {
                let moved = advance(after);
                if moved.result is Err {
                    moved.failed()
                } else {
                    call_args(moved.cursor, list)
                }
            }
        },
    }
}

/// conditional ::= 'if' expression 'then' expression 'else' expression
pub open spec fn if_expr(c: Cursor) -> Parsed<Expr>
    decreases c.size(), 1nat,
{
    let opened = expect_keyword(c, TokenView::If, Expected::If);
    if opened.result is Err {
        opened.failed()
    } else {
        let condition = expression(opened.cursor);
        match condition.result {
            Err(_) => condition,
            Ok(tested) => if_branches(condition.cursor.within(opened.cursor), tested),
        }
    }
}

/// The rest of a conditional after its condition: 'then', a branch, and the
/// alternative.
pub open spec fn if_branches(c: Cursor, tested: Expr) -> Parsed<Expr>
    decreases c.size(), 5nat,
{
    let entered = expect_keyword(c, TokenView::Then, Expected::Then);
    if entered.result is Err {
        entered.failed()
    } else {
        let then_branch = expression(entered.cursor);
        match then_branch.result {
            Err(_) => then_branch,
            Ok(taken) => if_alternative(
                then_branch.cursor.within(entered.cursor),
                tested,
                taken,
            ),
        }
    }
}

/// The end of a conditional: 'else' and the other branch.
pub open spec fn if_alternative(c: Cursor, tested: Expr, taken: Expr) -> Parsed<Expr>
    decreases c.size(), 4nat,
{
    let entered = expect_keyword(c, TokenView::Else, Expected::Else);
    if entered.result is Err {
        entered.failed()
    } else {
        let else_branch = expression(entered.cursor);
        match else_branch.result {
            Err(_) => else_branch,
            Ok(other) => else_branch.cursor.done(
                Expr::If(Box::new(tested), Box::new(taken), Box::new(other)),
            ),
        }
    }
}

/// loop ::= 'for' IDENT '=' expression ',' expression (',' expression)?
///          'in' expression
pub open spec fn for_expr(c: Cursor) -> Parsed<Expr>
    decreases c.size(), 1nat,
{
    let opened = expect_keyword(c, TokenView::For, Expected::For);
    if opened.result is Err {
        opened.failed()
    } else if !(opened.cursor.token() is Identifier) {
        opened.cursor.unexpected(Expected::Identifier)
    } else {
        let name = opened.cursor.token()->Identifier_0;
        let named = advance(opened.cursor);
        if named.result is Err {
            named.failed()
        } else {
            let assigned = expect_char(named.cursor, '=');
            if assigned.result is Err {
                assigned.failed()
            } else {
                let start = expression(assigned.cursor);
                match start.result {
                    Err(_) => start,
                    Ok(first) => for_end(start.cursor.within(assigned.cursor), name, first),
                }
            }
        }
    }
}

/// The rest of a loop after its start value: a comma, the end condition, and
/// what follows it.
pub open spec fn for_end(c: Cursor, name: Seq<char>, first: Expr) -> Parsed<Expr>
    decreases c.size(), 6nat,
{
    let second = expect_char(c, ',');
    if second.result is Err {
        second.failed()
    } else {
        let end = expression(second.cursor);
        match end.result {
            Err(_) => end,
            Ok(last) => for_tail(end.cursor.within(second.cursor), name, first, last),
        }
    }
}

/// The rest of a loop after its end condition: the step, if there is one,
/// then 'in' and the body.
pub open spec fn for_tail(c: Cursor, name: Seq<char>, first: Expr, last: Expr) -> Parsed<Expr>
    decreases c.size(), 5nat,
{
    if c.token() == TokenView::Char(',') {
        let moved = advance(c);
        if moved.result is Err {
            moved.failed()
        } else {
            let step = expression(moved.cursor);
            match step.result {
                Err(_) => step,
                Ok(by) => for_body(
                    step.cursor.within(moved.cursor),
                    name,
                    first,
                    last,
                    Some(Box::new(by)),
                ),
            }
        }
    } else {
        for_body(c, name, first, last, None)
    }
}

/// The end of a loop: 'in' and the body.
pub open spec fn for_body(
    c: Cursor,
    name: Seq<char>,
    first: Expr,
    last: Expr,
    step: Option<Box<Expr>>,
) -> Parsed<Expr>
    decreases c.size(), 4nat,
{
    let entered = expect_keyword(c, TokenView::In, Expected::In);
    if entered.result is Err {
        entered.failed()
    } else {
        let body = expression(entered.cursor);
        match body.result {
            Err(_) => body,
            Ok(e) => body.cursor.done(
                Expr::For(name, Box::new(first), Box::new(last), step, Box::new(e)),
            ),
        }
    }
}

/// The parameter names of a signature after `parsed`: identifiers, one after
/// the other.
pub open spec fn proto_params(c: Cursor, parsed: Seq<Seq<char>>) -> Parsed<Seq<Seq<char>>>
    decreases c.size(),
{
    match c.token() {
        TokenView::Identifier(name) => {
            let moved = advance(c);
            if moved.result is Err {
                moved.failed()
            } else {
                proto_params(moved.cursor, parsed.push(name))
            }
        },
        _ => c.done(parsed),
    }
}

/// prototype ::= IDENT '(' IDENT* ')'
pub open spec fn prototype(c: Cursor) -> Parsed<Prototype> {
    match c.token() {
        TokenView::Identifier(name) => {
            let moved = advance(c);
            if moved.result is Err {
                moved.failed()
            } else {
                let opened = expect_char(moved.cursor, '(');
                if opened.result is Err {
                    opened.failed()
                } else {
                    let params = proto_params(opened.cursor, Seq::empty());
                    match params.result {
                        Err(_) => params.failed(),
                        Ok(names) => {
                            let closed = expect_char(params.cursor, ')');
                            if closed.result is Err {
                                closed.failed()
                            } else {
                                closed.cursor.done(Prototype { name, params: names })
                            }
                        },
                    }
                }
            }
        },
        _ => c.unexpected(Expected::Identifier),
    }
}

/// definition ::= 'def' prototype expression
pub open spec fn definition(c: Cursor) -> Parsed<FunctionDef> {
    let opened = expect_keyword(c, TokenView::Def, Expected::Def);
    if opened.result is Err {
        opened.failed()
    } else {
        let proto = prototype(opened.cursor);
        match proto.result {
            Err(_) => proto.failed(),
            Ok(signature) => {
                let body = expression(proto.cursor);
                match body.result {
                    Err(_) => body.failed(),
                    Ok(e) => body.cursor.done(FunctionDef { proto: signature, body: e }),
                }
            },
        }
    }
}

/// external ::= 'extern' prototype
pub open spec fn external(c: Cursor) -> Parsed<Prototype> {
    let opened = expect_keyword(c, TokenView::Extern, Expected::Extern);
    if opened.result is Err {
        opened.failed()
    } else {
        prototype(opened.cursor)
    }
}

/// The signature of the function that wraps an expression at top level: no
/// name, no parameters.
pub open spec fn anonymous() -> Prototype {
    Prototype { name: Seq::empty(), params: Seq::empty() }
}

/// top-level expression ::= expression, as the body of an anonymous function
pub open spec fn top_level_expr(c: Cursor) -> Parsed<FunctionDef> {
    let body = expression(c);
    match body.result {
        Err(_) => body.failed(),
        Ok(e) => body.cursor.done(FunctionDef { proto: anonymous(), body: e }),
    }
}

} // verus!
