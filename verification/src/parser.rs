//! The parser: recursive descent with one token of lookahead, and
//! precedence climbing for binary operators.
use vstd::prelude::*;
pub use crate::ast::{ExprAST, FunctionAST, PrototypeAST};
use crate::grammar;
use crate::grammar::{Cursor, Expected, ParseErrorView, Parsed};
use crate::lexer::{
    Lexer, Token, TokenView, lemma_lex_advances, lemma_skip_trivia_bounds, lex_at, lexemes,
};

verus! {

/// Why parsing failed.
#[derive(Debug, PartialEq)]
pub enum ParseError {
    /// A numeric literal that denotes no number, with its text.
    MalformedNumber(String),
    /// A token that the grammar does not allow where it stands.
    Unexpected { expected: Expected, found: Token },
}

impl View for ParseError {
    type V = ParseErrorView;

    open spec fn view(&self) -> ParseErrorView {
        match self {
            ParseError::MalformedNumber(text) => ParseErrorView::MalformedNumber(text@),
            ParseError::Unexpected { expected, found } => ParseErrorView::Unexpected {
                expected: *expected,
                found: found@,
            },
        }
    }
}

/// What a parsing function returns.
pub type ParseResult<T> = Result<T, ParseError>;

/// How tightly `token` binds as a binary operator; -1 where it is none.
pub fn get_token_precedence(token: &Token) -> (r: i32)
    ensures
        r == grammar::precedence(token@),
        -1 <= r <= 40,
{
    match token {
        Token::Char(c) => {
            if *c == '<' {
                10
            } else if *c == '+' || *c == '-' {
                20
            } else if *c == '*' || *c == '/' {
                40
            } else {
                -1
            }
        },
        _ => -1,
    }
}

/// Whether two tokens are the same.
pub fn same_token(a: &Token, b: &Token) -> (r: bool)
    ensures
        r == (a@ == b@),
{
    match (a, b) {
        (Token::Eof, Token::Eof) => true,
        (Token::Def, Token::Def) => true,
        (Token::Extern, Token::Extern) => true,
        (Token::If, Token::If) => true,
        (Token::Then, Token::Then) => true,
        (Token::Else, Token::Else) => true,
        (Token::For, Token::For) => true,
        (Token::In, Token::In) => true,
        (Token::Identifier(x), Token::Identifier(y)) => *x == *y,
        (Token::Number(x), Token::Number(y)) => *x == *y,
        (Token::Char(x), Token::Char(y)) => *x == *y,
        _ => false,
    }
}

/// Parses one top-level unit at a time off a lexer.
pub struct Parser {
    lexer: Lexer,
    current_token: Option<Token>,
}

impl View for Parser {
    type V = Cursor;

    closed spec fn view(&self) -> Cursor {
        Cursor {
            current: match self.current_token {
                Some(token) => Some(token@),
                None => None,
            },
            rest: self.lexer.remaining(),
        }
    }
}

impl Parser {
    /// The lexer is within its input.
    pub closed spec fn well_formed(&self) -> bool {
        self.lexer.well_formed()
    }

    /// Whether the parser looks at a token.
    pub open spec fn has_token(&self) -> bool {
        self@.current is Some
    }

    /// What a parsing function owes: `self` is the parser afterwards,
    /// `before` its place in the stream at the call, `r` what the function
    /// returned and `out` what the grammar gives from `before`.
    pub open spec fn meets<T: View>(&self, before: Cursor, r: ParseResult<T>, out: Parsed<T::V>)
        -> bool {
        &&& self.well_formed()
        &&& self@ == out.cursor
        &&& self@.size() <= before.size()
        &&& match r {
            Ok(value) => out.result == Ok::<T::V, ParseErrorView>(value@) && self.has_token(),
            Err(error) => out.result == Err::<T::V, ParseErrorView>(error@),
        }
    }

    /// A parser on `lexer`. It looks at no token until `get_next_token` has
    /// read the first.
    pub fn new(lexer: Lexer) -> (r: Parser)
        requires
            lexer.well_formed(),
        ensures
            r.well_formed(),
            r@ == (Cursor { current: None, rest: lexer.remaining() }),
    {
        Parser { lexer, current_token: None }
    }

    /// The token looked at.
    pub fn current_token(&self) -> (r: &Token)
        requires
            self.has_token(),
        ensures
            r@ == self@.token(),
    {
        self.current_token.as_ref().unwrap()
    }

    /// Whether the token looked at is the character `c`.
    fn at_char(&self, c: char) -> (r: bool)
        requires
            self.has_token(),
        ensures
            r == (self@.token() == TokenView::Char(c)),
    {
        self.current_token().is_char(c)
    }

    /// Whether the token looked at is an identifier.
    fn at_identifier(&self) -> (r: bool)
        requires
            self.has_token(),
        ensures
            r == (self@.token() is Identifier),
    {
        match self.current_token() {
            Token::Identifier(_) => true,
            _ => false,
        }
    }

    /// The failure to find `expected` at the token looked at.
    fn unexpected(&self, expected: Expected) -> (r: ParseError)
        requires
            self.has_token(),
        ensures
            r@ == (ParseErrorView::Unexpected { expected, found: self@.token() }),
    {
        ParseError::Unexpected { expected, found: self.current_token().clone() }
    }

    /// Discards the token looked at and reads the next one. On a malformed
    /// literal it fails and looks at no token.
    #[verifier::rlimit(50)]
    pub fn get_next_token(&mut self) -> (r: ParseResult<()>)
        requires
            old(self).well_formed(),
        ensures
            final(self).well_formed(),
            final(self)@ == grammar::advance(old(self)@).cursor,
            match r {
                Ok(_) => grammar::advance(old(self)@).result is Ok && final(self).has_token(),
                Err(error) => grammar::advance(old(self)@).result == Err::<(), ParseErrorView>(
                    error@,
                ),
            },
            old(self)@.token() != TokenView::Eof ==> final(self)@.size() < old(self)@.size(),
            final(self)@.size() <= old(self)@.size(),
    {
        let ghost input = self.lexer.input();
        let ghost from = self.lexer.position();
        proof {
            lemma_lex_advances(input, from);
            lemma_skip_trivia_bounds(input, input.len(), false);
        }
        match self.lexer.gettok() {
            Ok(token) => {
                proof {
                    let step = lex_at(input, from);
                    if token@ == TokenView::Eof {
                        assert(lexemes(input, from) =~= Seq::empty());
                        assert(lexemes(input, step.next) =~= Seq::empty());
                    } else {
                        assert(lexemes(input, from) =~= seq![step.lexeme] + lexemes(
                            input,
                            step.next,
                        ));
                        assert(lexemes(input, from).drop_first() =~= lexemes(input, step.next));
                    }
                }
                self.current_token = Some(token);
                Ok(())
            },
            Err(error) => {
                proof {
                    let step = lex_at(input, from);
                    assert(lexemes(input, from) =~= seq![step.lexeme] + lexemes(input, step.next));
                    assert(lexemes(input, from).drop_first() =~= lexemes(input, step.next));
                }
                self.current_token = None;
                Err(ParseError::MalformedNumber(error.literal))
            },
        }
    }

    /// Drops the token looked at without reading the next one, so that the
    /// parser looks at no token.
    pub fn discard_token(&mut self)
        requires
            old(self).well_formed(),
        ensures
            final(self).well_formed(),
            final(self)@ == (Cursor { current: None, rest: old(self)@.rest }),
    {
        self.current_token = None;
    }

    /// Whether the parser looks at a token.
    pub fn looks_at_token(&self) -> (r: bool)
        ensures
            r == self.has_token(),
    {
        self.current_token.is_some()
    }

    /// Consumes the token looked at where it is the character `c`.
    fn expect_char(&mut self, c: char) -> (r: ParseResult<()>)
        requires
            old(self).well_formed(),
            old(self).has_token(),
        ensures
            final(self).meets(old(self)@, r, grammar::expect_char(old(self)@, c)),
            r is Ok ==> final(self)@.size() < old(self)@.size(),
    {
        if !self.at_char(c) {
            return Err(self.unexpected(Expected::Char(c)));
        }
        self.get_next_token()
    }

    /// Consumes the token looked at where it is `keyword`.
    fn expect_keyword(&mut self, keyword: Token, expected: Expected) -> (r: ParseResult<()>)
        requires
            old(self).well_formed(),
            old(self).has_token(),
            keyword@ != TokenView::Eof,
        ensures
            final(self).meets(
                old(self)@,
                r,
                grammar::expect_keyword(old(self)@, keyword@, expected),
            ),
            r is Ok ==> final(self)@.size() < old(self)@.size(),
    {
        if !same_token(self.current_token(), &keyword) {
            return Err(self.unexpected(expected));
        }
        self.get_next_token()
    }

    /// Parses a numeric literal.
    fn parse_number(&mut self) -> (r: ParseResult<ExprAST>)
        requires
            old(self).well_formed(),
            old(self).has_token(),
        ensures
            final(self).meets(old(self)@, r, grammar::number(old(self)@)),
    {
        let text = match self.current_token() {
            Token::Number(text) => text.clone(),
            _ => {
                return Err(self.unexpected(Expected::Number));
            },
        };
        match self.get_next_token() {
            Ok(_) => Ok(ExprAST::Number(text)),
            Err(error) => Err(error),
        }
    }

    /// Parses an expression in parentheses.
    fn parse_paren_expr(&mut self) -> (r: ParseResult<ExprAST>)
        requires
            old(self).well_formed(),
            old(self).has_token(),
        ensures
            final(self).meets(old(self)@, r, grammar::paren_expr(old(self)@)),
        decreases old(self)@.size(), 1nat,
    {
        match self.expect_char('(') {
            Ok(_) => {},
            Err(error) => {
                return Err(error);
            },
        }
        let expr = match self.parse_expression() {
            Ok(expr) => expr,
            Err(error) => {
                return Err(error);
            },
        };
        match self.expect_char(')') {
            Ok(_) => Ok(expr),
            Err(error) => Err(error),
        }
    }

    /// Parses a variable reference or a call.
    #[verifier::loop_isolation(false)]
    #[verifier::rlimit(50)]
    fn parse_identifier_expr(&mut self) -> (r: ParseResult<ExprAST>)
        requires
            old(self).well_formed(),
            old(self).has_token(),
        ensures
            final(self).meets(old(self)@, r, grammar::identifier_expr(old(self)@)),
        decreases old(self)@.size(), 1nat,
    {
        let identifier = match self.current_token() {
            Token::Identifier(name) => name.clone(),
            _ => {
                return Err(self.unexpected(Expected::Identifier));
            },
        };
        match self.get_next_token() {
            Ok(_) => {},
            Err(error) => {
                return Err(error);
            },
        }
        if !self.at_char('(') {
            return Ok(ExprAST::Variable(identifier));
        }
        match self.get_next_token() {
            Ok(_) => {},
            Err(error) => {
                return Err(error);
            },
        }
        let mut args: Vec<ExprAST> = Vec::new();
        if self.at_char(')') {
            match self.get_next_token() {
                Ok(_) => {},
                Err(error) => {
                    return Err(error);
                },
            }
            let call = ExprAST::Call(identifier, args);
            proof {
                assert(call@->Call_1 =~= Seq::<crate::ast::Expr>::empty());
            }
            return Ok(call);
        }
        let ghost start = self@;
        let ghost target = grammar::call_args(start, Seq::empty());
        let ghost list: Seq<crate::ast::Expr> = Seq::empty();
        loop
            invariant
                self.well_formed(),
                self.has_token(),
                self@.size() <= start.size(),
                start.size() < old(self)@.size(),
                list.len() == args.len(),
                forall|i: int| 0 <= i < args.len() ==> list[i] == args[i]@,
                grammar::call_args(self@, list) == target,
            decreases self@.size(),
        {
            let ghost here = self@;
            let arg = match self.parse_expression() {
                Ok(arg) => arg,
                Err(error) => {
                    return Err(error);
                },
            };
            proof {
                list = list.push(arg@);
            }
            args.push(arg);
            if self.at_char(')') {
                break ;
            }
            if !self.at_char(',') {
                return Err(self.unexpected(Expected::CloseOrComma));
            }
            match self.get_next_token() {
                Ok(_) => {},
                Err(error) => {
                    return Err(error);
                },
            }
        }
        match self.get_next_token() {
            Ok(_) => {},
            Err(error) => {
                return Err(error);
            },
        }
        let call = ExprAST::Call(identifier, args);
        proof {
            assert(call@->Call_1 =~= list);
        }
        Ok(call)
    }

    /// Parses a conditional.
    fn parse_if_expr(&mut self) -> (r: ParseResult<ExprAST>)
        requires
            old(self).well_formed(),
            old(self).has_token(),
        ensures
            final(self).meets(old(self)@, r, grammar::if_expr(old(self)@)),
        decreases old(self)@.size(), 1nat,
    {
        match self.expect_keyword(Token::If, Expected::If) {
            Ok(_) => {},
            Err(error) => {
                return Err(error);
            },
        }
        let condition = match self.parse_expression() {
            Ok(expr) => expr,
            Err(error) => {
                return Err(error);
            },
        };
        self.parse_if_branches(condition)
    }

    /// Parses the rest of a conditional after its condition.
    fn parse_if_branches(&mut self, condition: ExprAST) -> (r: ParseResult<ExprAST>)
        requires
            old(self).well_formed(),
            old(self).has_token(),
        ensures
            final(self).meets(old(self)@, r, grammar::if_branches(old(self)@, condition@)),
        decreases old(self)@.size(), 5nat,
    {
        match self.expect_keyword(Token::Then, Expected::Then) {
            Ok(_) => {},
            Err(error) => {
                return Err(error);
            },
        }
        let then_branch = match self.parse_expression() {
            Ok(expr) => expr,
            Err(error) => {
                return Err(error);
            },
        };
        self.parse_if_alternative(condition, then_branch)
    }

    /// Parses the end of a conditional: `else` and the other branch.
    fn parse_if_alternative(&mut self, condition: ExprAST, then_branch: ExprAST) -> (r:
        ParseResult<ExprAST>)
        requires
            old(self).well_formed(),
            old(self).has_token(),
        ensures
            final(self).meets(
                old(self)@,
                r,
                grammar::if_alternative(old(self)@, condition@, then_branch@),
            ),
        decreases old(self)@.size(), 4nat,
    {
        match self.expect_keyword(Token::Else, Expected::Else) {
            Ok(_) => {},
            Err(error) => {
                return Err(error);
            },
        }
        let else_branch = match self.parse_expression() {
            Ok(expr) => expr,
            Err(error) => {
                return Err(error);
            },
        };
        Ok(
            ExprAST::If {
                condition: Box::new(condition),
                then_branch: Box::new(then_branch),
                else_branch: Box::new(else_branch),
            },
        )
    }

    /// Parses a loop.
    #[verifier::rlimit(50)]
    fn parse_for_expr(&mut self) -> (r: ParseResult<ExprAST>)
        requires
            old(self).well_formed(),
            old(self).has_token(),
        ensures
            final(self).meets(old(self)@, r, grammar::for_expr(old(self)@)),
        decreases old(self)@.size(), 1nat,
    {
        match self.expect_keyword(Token::For, Expected::For) {
            Ok(_) => {},
            Err(error) => {
                return Err(error);
            },
        }
        let variable_name = match self.current_token() {
            Token::Identifier(name) => name.clone(),
            _ => {
                return Err(self.unexpected(Expected::Identifier));
            },
        };
        match self.get_next_token() {
            Ok(_) => {},
            Err(error) => {
                return Err(error);
            },
        }
        match self.expect_char('=') {
            Ok(_) => {},
            Err(error) => {
                return Err(error);
            },
        }
        let start = match self.parse_expression() {
            Ok(expr) => expr,
            Err(error) => {
                return Err(error);
            },
        };
        self.parse_for_end(variable_name, start)
    }

    /// Parses the rest of a loop after its start value.
    fn parse_for_end(&mut self, variable_name: String, start: ExprAST) -> (r: ParseResult<
        ExprAST,
    >)
        requires
            old(self).well_formed(),
            old(self).has_token(),
        ensures
            final(self).meets(old(self)@, r, grammar::for_end(old(self)@, variable_name@, start@)),
        decreases old(self)@.size(), 6nat,
    {
        match self.expect_char(',') {
            Ok(_) => {},
            Err(error) => {
                return Err(error);
            },
        }
        let end = match self.parse_expression() {
            Ok(expr) => expr,
            Err(error) => {
                return Err(error);
            },
        };
        self.parse_for_tail(variable_name, start, end)
    }

    /// Parses the rest of a loop after its end condition: the step, if there
    /// is one, then `in` and the body.
    fn parse_for_tail(&mut self, variable_name: String, start: ExprAST, end: ExprAST) -> (r:
        ParseResult<ExprAST>)
        requires
            old(self).well_formed(),
            old(self).has_token(),
        ensures
            final(self).meets(
                old(self)@,
                r,
                grammar::for_tail(old(self)@, variable_name@, start@, end@),
            ),
        decreases old(self)@.size(), 5nat,
    {
        if self.at_char(',') {
            match self.get_next_token() {
                Ok(_) => {},
                Err(error) => {
                    return Err(error);
                },
            }
            let step = match self.parse_expression() {
                Ok(expr) => expr,
                Err(error) => {
                    return Err(error);
                },
            };
            self.parse_for_body(variable_name, start, end, Some(Box::new(step)))
        } else {
            self.parse_for_body(variable_name, start, end, None)
        }
    }

    /// Parses the end of a loop: `in` and the body.
    fn parse_for_body(
        &mut self,
        variable_name: String,
        start: ExprAST,
        end: ExprAST,
        step: Option<Box<ExprAST>>,
    ) -> (r: ParseResult<ExprAST>)
        requires
            old(self).well_formed(),
            old(self).has_token(),
        ensures
            final(self).meets(
                old(self)@,
                r,
                grammar::for_body(
                    old(self)@,
                    variable_name@,
                    start@,
                    end@,
                    match step {
                        Some(s) => Some(Box::new(s@)),
                        None => None,
                    },
                ),
            ),
        decreases old(self)@.size(), 4nat,
    {
        match self.expect_keyword(Token::In, Expected::In) {
            Ok(_) => {},
            Err(error) => {
                return Err(error);
            },
        }
        let body = match self.parse_expression() {
            Ok(expr) => expr,
            Err(error) => {
                return Err(error);
            },
        };
        Ok(
            ExprAST::For {
                variable_name,
                start: Box::new(start),
                end: Box::new(end),
                step,
                body: Box::new(body),
            },
        )
    }

    /// Parses an expression: a primary, then the binary operators after it.
    pub fn parse_expression(&mut self) -> (r: ParseResult<ExprAST>)
        requires
            old(self).well_formed(),
            old(self).has_token(),
        ensures
            final(self).meets(old(self)@, r, grammar::expression(old(self)@)),
        decreases old(self)@.size(), 3nat,
    {
        let lhs = match self.parse_primary() {
            Ok(expr) => expr,
            Err(error) => {
                return Err(error);
            },
        };
        self.parse_bin_op_rhs(0, lhs)
    }

    /// Folds the operators after `lhs` that bind at least as tightly as
    /// `expr_prec` into it.
    #[verifier::loop_isolation(false)]
    #[verifier::rlimit(50)]
    fn parse_bin_op_rhs(&mut self, expr_prec: i32, lhs: ExprAST) -> (r: ParseResult<ExprAST>)
        requires
            old(self).well_formed(),
            old(self).has_token(),
            expr_prec <= 41,
        ensures
            final(self).meets(old(self)@, r, grammar::bin_op_rhs(old(self)@, expr_prec as int, lhs@)),
        decreases old(self)@.size(), 0nat,
    {
        let ghost target = grammar::bin_op_rhs(old(self)@, expr_prec as int, lhs@);
        let mut lhs = lhs;
        loop
            invariant
                self.well_formed(),
                self.has_token(),
                self@.size() <= old(self)@.size(),
                expr_prec <= 41,
                grammar::bin_op_rhs(self@, expr_prec as int, lhs@) == target,
            decreases self@.size(),
        {
            let token_prec = get_token_precedence(self.current_token());
            if token_prec < expr_prec {
                return Ok(lhs);
            }
            let bin_op = match self.current_token() {
                Token::Char(c) => *c,
                _ => {
                    return Err(self.unexpected(Expected::Operator));
                },
            };
            match self.get_next_token() {
                Ok(_) => {},
                Err(error) => {
                    return Err(error);
                },
            }
            let mut rhs = match self.parse_primary() {
                Ok(expr) => expr,
                Err(error) => {
                    return Err(error);
                },
            };
            let next_prec = get_token_precedence(self.current_token());
            if token_prec < next_prec {
                rhs = match self.parse_bin_op_rhs(token_prec + 1, rhs) {
                    Ok(expr) => expr,
                    Err(error) => {
                        return Err(error);
                    },
                };
            }
            lhs = ExprAST::BinaryOp(bin_op, Box::new(lhs), Box::new(rhs));
        }
    }

    /// Parses a primary expression.
    fn parse_primary(&mut self) -> (r: ParseResult<ExprAST>)
        requires
            old(self).well_formed(),
            old(self).has_token(),
        ensures
            final(self).meets(old(self)@, r, grammar::primary(old(self)@)),
        decreases old(self)@.size(), 2nat,
    {
        let kind: u8 = match self.current_token() {
            Token::Identifier(_) => 0,
            Token::Number(_) => 1,
            Token::Char(c) => if *c == '(' {
                2
            } else {
                5
            },
            Token::If => 3,
            Token::For => 4,
            _ => 5,
        };
        if kind == 0 {
            self.parse_identifier_expr()
        } else if kind == 1 {
            self.parse_number()
        } else if kind == 2 {
            self.parse_paren_expr()
        } else if kind == 3 {
            self.parse_if_expr()
        } else if kind == 4 {
            self.parse_for_expr()
        } else {
            Err(self.unexpected(Expected::Primary))
        }
    }

    /// Parses a function signature.
    #[verifier::loop_isolation(false)]
    #[verifier::rlimit(50)]
    pub fn parse_prototype(&mut self) -> (r: ParseResult<PrototypeAST>)
        requires
            old(self).well_formed(),
            old(self).has_token(),
        ensures
            final(self).meets(old(self)@, r, grammar::prototype(old(self)@)),
    {
        let name = match self.current_token() {
            Token::Identifier(name) => name.clone(),
            _ => {
                return Err(self.unexpected(Expected::Identifier));
            },
        };
        match self.get_next_token() {
            Ok(_) => {},
            Err(error) => {
                return Err(error);
            },
        }
        match self.expect_char('(') {
            Ok(_) => {},
            Err(error) => {
                return Err(error);
            },
        }
        let mut args: Vec<String> = Vec::new();
        let ghost start = self@;
        let ghost list: Seq<Seq<char>> = Seq::empty();
        while self.at_identifier()
            invariant
                self.well_formed(),
                self.has_token(),
                self@.size() <= start.size(),
                list.len() == args.len(),
                forall|i: int| 0 <= i < args.len() ==> list[i] == args[i]@,
                grammar::proto_params(self@, list) == grammar::proto_params(start, Seq::empty()),
            decreases self@.size(),
        {
            let param = match self.current_token() {
                Token::Identifier(param) => param.clone(),
                _ => vstd::pervasive::unreached(),
            };
            proof {
                list = list.push(param@);
            }
            args.push(param);
            match self.get_next_token() {
                Ok(_) => {},
                Err(error) => {
                    return Err(error);
                },
            }
        }
        match self.expect_char(')') {
            Ok(_) => {},
            Err(error) => {
                return Err(error);
            },
        }
        let proto = PrototypeAST(name, args);
        proof {
            assert(proto@.params =~= list);
        }
        Ok(proto)
    }

    /// Parses a function definition: `def`, a signature and a body.
    pub fn parse_definition(&mut self) -> (r: ParseResult<FunctionAST>)
        requires
            old(self).well_formed(),
            old(self).has_token(),
            old(self)@.token() == TokenView::Def,
        ensures
            final(self).meets(old(self)@, r, grammar::definition(old(self)@)),
    {
        match self.expect_keyword(Token::Def, Expected::Def) {
            Ok(_) => {},
            Err(error) => {
                return Err(error);
            },
        }
        let proto = match self.parse_prototype() {
            Ok(proto) => proto,
            Err(error) => {
                return Err(error);
            },
        };
        match self.parse_expression() {
            Ok(body) => Ok(FunctionAST(proto, body)),
            Err(error) => Err(error),
        }
    }

    /// Parses an external declaration: `extern` and a signature.
    pub fn parse_external(&mut self) -> (r: ParseResult<PrototypeAST>)
        requires
            old(self).well_formed(),
            old(self).has_token(),
            old(self)@.token() == TokenView::Extern,
        ensures
            final(self).meets(old(self)@, r, grammar::external(old(self)@)),
    {
        match self.expect_keyword(Token::Extern, Expected::Extern) {
            Ok(_) => {},
            Err(error) => {
                return Err(error);
            },
        }
        self.parse_prototype()
    }

    /// Parses an expression at top level, as the body of a function without
    /// name and parameters.
    pub fn parse_top_level_expr(&mut self) -> (r: ParseResult<FunctionAST>)
        requires
            old(self).well_formed(),
            old(self).has_token(),
        ensures
            final(self).meets(old(self)@, r, grammar::top_level_expr(old(self)@)),
    {
        let proto = PrototypeAST(String::new(), Vec::new());
        proof {
            assert(proto@.params =~= Seq::empty());
        }
        match self.parse_expression() {
            Ok(body) => Ok(FunctionAST(proto, body)),
            Err(error) => Err(error),
        }
    }
}

} // verus!
