//! The canonical form of an expression, in which every operation,
//! conditional and loop stands in parentheses; and the proof that parsing
//! it gives the expression back.
use vstd::prelude::*;
use crate::ast::Expr;
use crate::grammar::{
    Cursor, advance, bin_op_rhs, call_args, expect_char, expect_keyword, expression, for_body,
    for_end, for_expr, for_tail, identifier_expr, if_alternative, if_branches, if_expr, number,
    paren_expr, precedence, primary,
};
use crate::lexer::{Lexeme, TokenView};

verus! {

/// Whether the parser can give `e`: each operator of a binary operation is
/// one that the grammar has a precedence for.
pub open spec fn parseable(e: Expr) -> bool
    decreases e,
{
    match e {
        Expr::Number(_) => true,
        Expr::Variable(_) => true,
        Expr::BinaryOp(op, lhs, rhs) => {
            &&& precedence(TokenView::Char(op)) >= 0
            &&& parseable(*lhs)
            &&& parseable(*rhs)
        },
        Expr::Call(_, args) => forall|i: int|
            0 <= i < args.len() ==> parseable(#[trigger] args[i]),
        Expr::If(condition, then_branch, else_branch) => {
            &&& parseable(*condition)
            &&& parseable(*then_branch)
            &&& parseable(*else_branch)
        },
        Expr::For(_, start, end, step, body) => {
            &&& parseable(*start)
            &&& parseable(*end)
            &&& match step {
                Some(s) => parseable(*s),
                None => true,
            }
            &&& parseable(*body)
        },
    }
}

/// The tokens of `e` in canonical form, followed by `rest`.
pub open spec fn tokens_onto(e: Expr, rest: Seq<TokenView>) -> Seq<TokenView>
    decreases e, 0nat,
{
    match e {
        Expr::Number(text) => seq![TokenView::Number(text)] + rest,
        Expr::Variable(name) => seq![TokenView::Identifier(name)] + rest,
        Expr::BinaryOp(op, lhs, rhs) => seq![TokenView::Char('(')] + tokens_onto(
            *lhs,
            seq![TokenView::Char(op)] + tokens_onto(*rhs, seq![TokenView::Char(')')] + rest),
        ),
        Expr::Call(callee, args) => seq![TokenView::Identifier(callee)] + (seq![
            TokenView::Char('('),
        ] + args_onto(args, 0, seq![TokenView::Char(')')] + rest)),
        Expr::If(condition, then_branch, else_branch) => seq![TokenView::Char('(')] + (seq![
            TokenView::If,
        ] + tokens_onto(
            *condition,
            seq![TokenView::Then] + tokens_onto(
                *then_branch,
                seq![TokenView::Else] + tokens_onto(
                    *else_branch,
                    seq![TokenView::Char(')')] + rest,
                ),
            ),
        )),
        Expr::For(variable_name, start, end, step, body) => {
            let tail = seq![TokenView::In] + tokens_onto(*body, seq![TokenView::Char(')')] + rest);
            let stepped = match step {
                Some(s) => seq![TokenView::Char(',')] + tokens_onto(*s, tail),
                None => tail,
            };
            seq![TokenView::Char('(')] + (seq![TokenView::For] + (seq![
                TokenView::Identifier(variable_name),
            ] + (seq![TokenView::Char('=')] + tokens_onto(
                *start,
                seq![TokenView::Char(',')] + tokens_onto(*end, stepped),
            ))))
        },
    }
}

/// The tokens of the arguments from position `from` on, with commas between
/// them, followed by `rest`.
pub open spec fn args_onto(args: Seq<Expr>, from: nat, rest: Seq<TokenView>) -> Seq<TokenView>
    decreases args, args.len() - from,
{
    if from >= args.len() {
        rest
    } else if from + 1 == args.len() {
        tokens_onto(args[from as int], rest)
    } else {
        tokens_onto(
            args[from as int],
            seq![TokenView::Char(',')] + args_onto(args, from + 1, rest),
        )
    }
}

/// The tokens of `e` in canonical form.
pub open spec fn tokens(e: Expr) -> Seq<TokenView> {
    tokens_onto(e, Seq::empty())
}

/// A stream that holds `tokens` and no malformed literal.
pub open spec fn stream(tokens: Seq<TokenView>) -> Seq<Lexeme> {
    Seq::new(tokens.len(), |i: int| Ok(tokens[i]))
}

/// The parser's place at the start of `tokens`: it looks at the first of
/// them, or at `Eof` where there is none.
pub open spec fn cursor_at(tokens: Seq<TokenView>) -> Cursor {
    if tokens.len() == 0 {
        Cursor { current: Some(TokenView::Eof), rest: Seq::empty() }
    } else {
        Cursor { current: Some(tokens[0]), rest: stream(tokens.drop_first()) }
    }
}

/// The first of `tokens`, or `Eof` where there is none.
pub open spec fn first_token(tokens: Seq<TokenView>) -> TokenView {
    cursor_at(tokens).token()
}

/// Whether, after an expression, `tokens` leave it as it is: they start
/// neither with an operator nor with an opening parenthesis.
pub open spec fn ends_expression(tokens: Seq<TokenView>) -> bool {
    &&& precedence(first_token(tokens)) < 0
    &&& first_token(tokens) != TokenView::Char('(')
}

/// Moving on from the first of some tokens leaves the parser at the rest.
pub proof fn lemma_advance(token: TokenView, rest: Seq<TokenView>)
    ensures
        advance(cursor_at(seq![token] + rest)) == cursor_at(rest).done(()),
        cursor_at(seq![token] + rest).token() == token,
        cursor_at(seq![token] + rest).size() >= cursor_at(rest).size(),
        token != TokenView::Eof ==> cursor_at(seq![token] + rest).size() == rest.len() + 1,
        cursor_at(rest).size() <= rest.len(),
{
    let all = seq![token] + rest;
    assert(all.drop_first() =~= rest);
    if rest.len() > 0 {
        assert(stream(rest).drop_first() =~= stream(rest.drop_first()));
    } else {
        assert(stream(rest) =~= Seq::empty());
    }
}

/// The canonical form of an expression starts with a number, an identifier
/// or an opening parenthesis.
#[verifier::rlimit(50)]
pub proof fn lemma_first_token(e: Expr, rest: Seq<TokenView>)
    ensures
        tokens_onto(e, rest).len() > rest.len(),
        ({
            let first = tokens_onto(e, rest)[0];
            first is Number || first is Identifier || first == TokenView::Char('(')
        }),
        cursor_at(tokens_onto(e, rest)).size() == tokens_onto(e, rest).len(),
        cursor_at(rest).size() <= rest.len(),
    decreases e, 0nat,
{
    match e {
        Expr::Number(_) => {},
        Expr::Variable(_) => {},
        Expr::BinaryOp(op, lhs, rhs) => {
            let inner = seq![TokenView::Char(')')] + rest;
            lemma_first_token(*rhs, inner);
            lemma_first_token(*lhs, seq![TokenView::Char(op)] + tokens_onto(*rhs, inner));
        },
        Expr::Call(callee, args) => {
            lemma_args_length(args, 0, seq![TokenView::Char(')')] + rest);
        },
        Expr::If(condition, then_branch, else_branch) => {
            let third = seq![TokenView::Char(')')] + rest;
            lemma_first_token(*else_branch, third);
            let second = seq![TokenView::Else] + tokens_onto(*else_branch, third);
            lemma_first_token(*then_branch, second);
            let first = seq![TokenView::Then] + tokens_onto(*then_branch, second);
            lemma_first_token(*condition, first);
        },
        Expr::For(variable_name, start, end, step, body) => {
            let last = seq![TokenView::Char(')')] + rest;
            lemma_first_token(*body, last);
            let tail = seq![TokenView::In] + tokens_onto(*body, last);
            let stepped = match step {
                Some(s) => seq![TokenView::Char(',')] + tokens_onto(*s, tail),
                None => tail,
            };
            if let Some(s) = step {
                lemma_first_token(*s, tail);
            }
            lemma_first_token(*end, stepped);
            lemma_first_token(*start, seq![TokenView::Char(',')] + tokens_onto(*end, stepped));
        },
    }
}

/// The canonical form of some arguments is at least as long as what follows.
pub proof fn lemma_args_length(args: Seq<Expr>, from: nat, rest: Seq<TokenView>)
    ensures
        args_onto(args, from, rest).len() >= rest.len(),
        from < args.len() ==> args_onto(args, from, rest).len() > rest.len(),
        from < args.len() ==> ({
            let first = args_onto(args, from, rest)[0];
            first is Number || first is Identifier || first == TokenView::Char('(')
        }),
    decreases args, args.len() - from,
{
    if from >= args.len() {
    } else if from + 1 == args.len() {
        lemma_first_token(args[from as int], rest);
    } else {
        lemma_args_length(args, from + 1, rest);
        lemma_first_token(
            args[from as int],
            seq![TokenView::Char(',')] + args_onto(args, from + 1, rest),
        );
    }
}

/// A closing parenthesis or a comma ends an expression, and so do the
/// keywords that follow one.
pub(crate) proof fn lemma_enders(rest: Seq<TokenView>)
    ensures
        ends_expression(seq![TokenView::Char(')')] + rest),
        ends_expression(seq![TokenView::Char(',')] + rest),
        ends_expression(seq![TokenView::Then] + rest),
        ends_expression(seq![TokenView::Else] + rest),
        ends_expression(seq![TokenView::In] + rest),
{
    lemma_advance(TokenView::Char(')'), rest);
    lemma_advance(TokenView::Char(','), rest);
    lemma_advance(TokenView::Then, rest);
    lemma_advance(TokenView::Else, rest);
    lemma_advance(TokenView::In, rest);
}

/// Where no operator follows a primary, the primary is the expression.
pub(crate) proof fn lemma_expression_of_primary(c: Cursor, e: Expr, after: Cursor)
    requires
        primary(c) == after.done(e),
        after.size() <= c.size(),
        precedence(after.token()) < 0,
    ensures
        expression(c) == after.done(e),
{
    assert(bin_op_rhs(after, 0, e) == after.done(e));
}

/// An expression between parentheses is a primary.
pub(crate) proof fn lemma_parenthesized(inner: Seq<TokenView>, e: Expr, rest: Seq<TokenView>)
    requires
        expression(cursor_at(inner)) == cursor_at(seq![TokenView::Char(')')] + rest).done(e),
    ensures
        primary(cursor_at(seq![TokenView::Char('(')] + inner)) == cursor_at(rest).done(e),
{
    lemma_advance(TokenView::Char('('), inner);
    lemma_advance(TokenView::Char(')'), rest);
    let c = cursor_at(seq![TokenView::Char('(')] + inner);
    assert(expect_char(c, '(') == cursor_at(inner).done(()));
    assert(paren_expr(c) == cursor_at(rest).done(e));
}

/// Two primaries with an operator between them, followed by a token that
/// is no operator, are one binary operation.
pub(crate) proof fn lemma_binary(
    left: Seq<TokenView>,
    op: char,
    right: Seq<TokenView>,
    after: Cursor,
    lhs: Expr,
    rhs: Expr,
)
    requires
        precedence(TokenView::Char(op)) >= 0,
        primary(cursor_at(left)) == cursor_at(seq![TokenView::Char(op)] + right).done(lhs),
        cursor_at(seq![TokenView::Char(op)] + right).size() <= cursor_at(left).size(),
        primary(cursor_at(right)) == after.done(rhs),
        after.size() <= cursor_at(right).size(),
        precedence(after.token()) < 0,
    ensures
        expression(cursor_at(left)) == after.done(
            Expr::BinaryOp(op, Box::new(lhs), Box::new(rhs)),
        ),
{
    let whole = Expr::BinaryOp(op, Box::new(lhs), Box::new(rhs));
    let middle = cursor_at(seq![TokenView::Char(op)] + right);
    lemma_advance(TokenView::Char(op), right);
    assert(bin_op_rhs(after, 0, whole) == after.done(whole));
    assert(bin_op_rhs(middle, 0, lhs) == after.done(whole));
}

/// A condition and two branches between the keywords are one conditional.
pub(crate) proof fn lemma_conditional(
    first: Seq<TokenView>,
    second: Seq<TokenView>,
    third: Seq<TokenView>,
    after: Cursor,
    condition: Expr,
    then_branch: Expr,
    else_branch: Expr,
)
    requires
        expression(cursor_at(first)) == cursor_at(seq![TokenView::Then] + second).done(condition),
        cursor_at(seq![TokenView::Then] + second).size() <= cursor_at(first).size(),
        expression(cursor_at(second)) == cursor_at(seq![TokenView::Else] + third).done(
            then_branch,
        ),
        cursor_at(seq![TokenView::Else] + third).size() <= cursor_at(second).size(),
        expression(cursor_at(third)) == after.done(else_branch),
        precedence(after.token()) < 0,
        after.size() <= cursor_at(third).size(),
    ensures
        expression(cursor_at(seq![TokenView::If] + first)) == after.done(
            Expr::If(Box::new(condition), Box::new(then_branch), Box::new(else_branch)),
        ),
{
    let whole = Expr::If(Box::new(condition), Box::new(then_branch), Box::new(else_branch));
    let start = cursor_at(seq![TokenView::If] + first);
    lemma_advance(TokenView::If, first);
    lemma_advance(TokenView::Then, second);
    lemma_advance(TokenView::Else, third);
    assert(if_alternative(cursor_at(seq![TokenView::Else] + third), condition, then_branch)
        == after.done(whole));
    assert(if_branches(cursor_at(seq![TokenView::Then] + second), condition) == after.done(whole));
    assert(expect_keyword(start, TokenView::If, crate::grammar::Expected::If) == cursor_at(
        first,
    ).done(()));
    assert(if_expr(start) == after.done(whole));
    assert(primary(start) == after.done(whole));
    lemma_expression_of_primary(start, whole, after);
}

/// 'in' and a body end a loop.
pub(crate) proof fn lemma_loop_body(
    last: Seq<TokenView>,
    after: Cursor,
    name: Seq<char>,
    start: Expr,
    end: Expr,
    step: Option<Box<Expr>>,
    body: Expr,
)
    requires
        expression(cursor_at(last)) == after.done(body),
    ensures
        for_body(cursor_at(seq![TokenView::In] + last), name, start, end, step) == after.done(
            Expr::For(name, Box::new(start), Box::new(end), step, Box::new(body)),
        ),
{
    lemma_advance(TokenView::In, last);
}

/// A step, where there is one, comes before the end of a loop.
pub(crate) proof fn lemma_loop_tail(
    stepped: Seq<TokenView>,
    tail: Seq<TokenView>,
    done: crate::grammar::Parsed<Expr>,
    name: Seq<char>,
    start: Expr,
    end: Expr,
    step: Option<Box<Expr>>,
)
    requires
        first_token(tail) == TokenView::In,
        for_body(cursor_at(tail), name, start, end, step) == done,
        match step {
            Some(s) => exists|third: Seq<TokenView>|
                {
                    &&& stepped == seq![TokenView::Char(',')] + third
                    &&& #[trigger] expression(cursor_at(third)) == cursor_at(tail).done(*s)
                    &&& cursor_at(tail).size() <= cursor_at(third).size()
                },
            None => stepped == tail,
        },
    ensures
        for_tail(cursor_at(stepped), name, start, end) == done,
{
    match step {
        Some(s) => {
            let third = choose|third: Seq<TokenView>|
                {
                    &&& stepped == seq![TokenView::Char(',')] + third
                    &&& #[trigger] expression(cursor_at(third)) == cursor_at(tail).done(*s)
                    &&& cursor_at(tail).size() <= cursor_at(third).size()
                };
            lemma_advance(TokenView::Char(','), third);
        },
        None => {},
    }
}

/// The head of a loop: 'for', the variable, '=', the start value, a comma
/// and the end condition, before the rest of the loop.
pub(crate) proof fn lemma_loop_head(
    first: Seq<TokenView>,
    second: Seq<TokenView>,
    stepped: Seq<TokenView>,
    done: crate::grammar::Parsed<Expr>,
    name: Seq<char>,
    start: Expr,
    end: Expr,
)
    requires
        expression(cursor_at(first)) == cursor_at(seq![TokenView::Char(',')] + second).done(start),
        cursor_at(seq![TokenView::Char(',')] + second).size() <= cursor_at(first).size(),
        expression(cursor_at(second)) == cursor_at(stepped).done(end),
        cursor_at(stepped).size() <= cursor_at(second).size(),
        for_tail(cursor_at(stepped), name, start, end) == done,
    ensures
        primary(
            cursor_at(
                seq![TokenView::For] + (seq![TokenView::Identifier(name)] + (seq![
                    TokenView::Char('='),
                ] + first)),
            ),
        ) == done,
{
    let assigned = seq![TokenView::Char('=')] + first;
    let named = seq![TokenView::Identifier(name)] + assigned;
    let opened = seq![TokenView::For] + named;
    let comma = seq![TokenView::Char(',')] + second;
    lemma_advance(TokenView::For, named);
    lemma_advance(TokenView::Identifier(name), assigned);
    lemma_advance(TokenView::Char('='), first);
    lemma_advance(TokenView::Char(','), second);
    assert(for_end(cursor_at(comma), name, start) == done);
    assert(expect_keyword(cursor_at(opened), TokenView::For, crate::grammar::Expected::For)
        == cursor_at(named).done(()));
    assert(expect_char(cursor_at(assigned), '=') == cursor_at(first).done(()));
    assert(for_expr(cursor_at(opened)) == done);
}

/// Parsing the canonical form of an expression as a primary gives the
/// expression back and leaves what followed, unless that starts with an
/// opening parenthesis.
pub proof fn lemma_primary_round_trip(e: Expr, rest: Seq<TokenView>)
    requires
        parseable(e),
        first_token(rest) != TokenView::Char('('),
    ensures
        primary(cursor_at(tokens_onto(e, rest))) == cursor_at(rest).done(e),
    decreases e, 1nat,
{
    match e {
        Expr::Number(text) => {
            lemma_advance(TokenView::Number(text), rest);
        },
        Expr::Variable(name) => {
            lemma_advance(TokenView::Identifier(name), rest);
        },
        Expr::BinaryOp(op, lhs, rhs) => {
            lemma_binary_round_trip(e, rest);
        },
        Expr::Call(callee, args) => {
            lemma_call_round_trip(e, rest);
        },
        Expr::If(condition, then_branch, else_branch) => {
            lemma_if_round_trip(e, rest);
        },
        Expr::For(variable_name, start, end, step, body) => {
            lemma_for_round_trip(e, rest);
        },
    }
}

/// `lemma_primary_round_trip` for a binary operation.
proof fn lemma_binary_round_trip(e: Expr, rest: Seq<TokenView>)
    requires
        parseable(e),
        e is BinaryOp,
    ensures
        primary(cursor_at(tokens_onto(e, rest))) == cursor_at(rest).done(e),
    decreases e, 0nat,
{
    let op = e->BinaryOp_0;
    let lhs = *e->BinaryOp_1;
    let rhs = *e->BinaryOp_2;
    let close = seq![TokenView::Char(')')] + rest;
    let right = tokens_onto(rhs, close);
    let middle = seq![TokenView::Char(op)] + right;
    let left = tokens_onto(lhs, middle);
    lemma_advance(TokenView::Char(op), right);
    lemma_enders(rest);
    lemma_first_token(lhs, middle);
    lemma_first_token(rhs, close);
    lemma_primary_round_trip(lhs, middle);
    lemma_primary_round_trip(rhs, close);
    lemma_binary(left, op, right, cursor_at(close), lhs, rhs);
    lemma_parenthesized(left, e, rest);
}

/// `lemma_primary_round_trip` for a call.
proof fn lemma_call_round_trip(e: Expr, rest: Seq<TokenView>)
    requires
        parseable(e),
        e is Call,
    ensures
        primary(cursor_at(tokens_onto(e, rest))) == cursor_at(rest).done(e),
    decreases e, 0nat,
{
    let callee = e->Call_0;
    let args = e->Call_1;
    let close = seq![TokenView::Char(')')] + rest;
    let listed = args_onto(args, 0, close);
    let opened = seq![TokenView::Char('(')] + listed;
    let start = cursor_at(seq![TokenView::Identifier(callee)] + opened);
    lemma_advance(TokenView::Identifier(callee), opened);
    lemma_advance(TokenView::Char('('), listed);
    lemma_advance(TokenView::Char(')'), rest);
    if args.len() == 0 {
        assert(args =~= Seq::empty());
        assert(identifier_expr(start) == cursor_at(rest).done(e));
    } else {
        lemma_args_length(args, 0, close);
        assert(args.take(0) =~= Seq::empty());
        lemma_args_round_trip(args, 0, rest);
        assert(cursor_at(listed).token() == listed[0]);
        assert(identifier_expr(start) == cursor_at(rest).done(e));
    }
}

/// `lemma_primary_round_trip` for a conditional.
#[verifier::rlimit(50)]
proof fn lemma_if_round_trip(e: Expr, rest: Seq<TokenView>)
    requires
        parseable(e),
        e is If,
    ensures
        primary(cursor_at(tokens_onto(e, rest))) == cursor_at(rest).done(e),
    decreases e, 0nat,
{
    let condition = *e->If_0;
    let then_branch = *e->If_1;
    let else_branch = *e->If_2;
    let close = seq![TokenView::Char(')')] + rest;
    let third = tokens_onto(else_branch, close);
    let otherwise = seq![TokenView::Else] + third;
    let second = tokens_onto(then_branch, otherwise);
    let taken = seq![TokenView::Then] + second;
    let first = tokens_onto(condition, taken);
    lemma_enders(rest);
    lemma_enders(second);
    lemma_enders(third);
    lemma_advance(TokenView::Then, second);
    lemma_advance(TokenView::Else, third);
    lemma_first_token(condition, taken);
    lemma_first_token(then_branch, otherwise);
    lemma_first_token(else_branch, close);
    lemma_expression_round_trip(condition, taken);
    lemma_expression_round_trip(then_branch, otherwise);
    lemma_expression_round_trip(else_branch, close);
    lemma_conditional(
        first,
        second,
        third,
        cursor_at(close),
        condition,
        then_branch,
        else_branch,
    );
    lemma_parenthesized(seq![TokenView::If] + first, e, rest);
}

/// `lemma_primary_round_trip` for a loop.
#[verifier::rlimit(50)]
proof fn lemma_for_round_trip(e: Expr, rest: Seq<TokenView>)
    requires
        parseable(e),
        e is For,
    ensures
        primary(cursor_at(tokens_onto(e, rest))) == cursor_at(rest).done(e),
    decreases e, 0nat,
{
    let variable_name = e->For_0;
    let start = *e->For_1;
    let end = *e->For_2;
    let step = e->For_3;
    let body = *e->For_4;
    let close = seq![TokenView::Char(')')] + rest;
    let last = tokens_onto(body, close);
    let tail = seq![TokenView::In] + last;
    let stepped = match step {
        Some(s) => seq![TokenView::Char(',')] + tokens_onto(*s, tail),
        None => tail,
    };
    let second = tokens_onto(end, stepped);
    let comma = seq![TokenView::Char(',')] + second;
    let first = tokens_onto(start, comma);
    let inner = seq![TokenView::For] + (seq![TokenView::Identifier(variable_name)] + (seq![
        TokenView::Char('='),
    ] + first));
    let at_close = cursor_at(close);
    let done = at_close.done(e);
    lemma_enders(rest);
    lemma_enders(second);
    lemma_enders(last);
    lemma_advance(TokenView::In, last);
    lemma_advance(TokenView::Char(','), second);
    lemma_first_token(body, close);
    lemma_first_token(end, stepped);
    lemma_first_token(start, comma);
    lemma_expression_round_trip(body, close);
    lemma_loop_body(last, at_close, variable_name, start, end, step, body);
    match step {
        Some(s) => {
            let third = tokens_onto(*s, tail);
            lemma_advance(TokenView::Char(','), third);
            lemma_enders(third);
            lemma_first_token(*s, tail);
            lemma_expression_round_trip(*s, tail);
        },
        None => {},
    }
    lemma_loop_tail(stepped, tail, done, variable_name, start, end, step);
    lemma_expression_round_trip(end, stepped);
    lemma_expression_round_trip(start, comma);
    lemma_loop_head(first, second, stepped, done, variable_name, start, end);
    lemma_expression_of_primary(cursor_at(inner), e, at_close);
    lemma_parenthesized(inner, e, rest);
}

/// Parsing the canonical form of an expression gives the expression back
/// and leaves what followed, where that ends an expression.
pub proof fn lemma_expression_round_trip(e: Expr, rest: Seq<TokenView>)
    requires
        parseable(e),
        ends_expression(rest),
    ensures
        expression(cursor_at(tokens_onto(e, rest))) == cursor_at(rest).done(e),
    decreases e, 2nat,
{
    lemma_primary_round_trip(e, rest);
    lemma_first_token(e, rest);
    lemma_expression_of_primary(cursor_at(tokens_onto(e, rest)), e, cursor_at(rest));
}

/// Parsing the canonical form of the arguments from position `from` on, up
/// to the closing parenthesis, completes the arguments before them.
pub proof fn lemma_args_round_trip(args: Seq<Expr>, from: nat, rest: Seq<TokenView>)
    requires
        forall|i: int| 0 <= i < args.len() ==> parseable(#[trigger] args[i]),
        from < args.len(),
    ensures
        call_args(
            cursor_at(args_onto(args, from, seq![TokenView::Char(')')] + rest)),
            args.take(from as int),
        ) == cursor_at(rest).done(args),
    decreases args, args.len() - from,
{
    let close = seq![TokenView::Char(')')] + rest;
    let arg = args[from as int];
    lemma_advance(TokenView::Char(')'), rest);
    lemma_enders(rest);
    assert(args.take(from as int).push(arg) =~= args.take(from as int + 1));
    if from + 1 == args.len() {
        lemma_first_token(arg, close);
        lemma_expression_round_trip(arg, close);
        assert(args.take(from as int + 1) =~= args);
    } else {
        let others = args_onto(args, from + 1, close);
        let comma = seq![TokenView::Char(',')] + others;
        lemma_advance(TokenView::Char(','), others);
        lemma_enders(others);
        lemma_first_token(arg, comma);
        lemma_expression_round_trip(arg, comma);
        lemma_args_round_trip(args, from + 1, rest);
    }
}

/// Parsing the canonical form of an expression gives the expression back,
/// with nothing left over.
pub proof fn lemma_round_trip(e: Expr)
    requires
        parseable(e),
    ensures
        expression(cursor_at(tokens(e))) == cursor_at(Seq::empty()).done(e),
{
    lemma_expression_round_trip(e, Seq::empty());
}

/// Of two operators in a row, the one that binds more tightly takes the
/// operand between them; where they bind alike, the first does.
///
/// Three operands in canonical form with two operators between them parse
/// as `(a op1 b) op2 c` where `op1` binds at least as tightly as `op2`, and
/// as `a op1 (b op2 c)` where `op2` binds more tightly.
#[verifier::rlimit(50)]
pub proof fn lemma_precedence(
    a: Expr,
    op1: char,
    b: Expr,
    op2: char,
    c: Expr,
    rest: Seq<TokenView>,
)
    requires
        parseable(a),
        parseable(b),
        parseable(c),
        precedence(TokenView::Char(op1)) >= 0,
        precedence(TokenView::Char(op2)) >= 0,
        ends_expression(rest),
    ensures
        expression(
            cursor_at(
                tokens_onto(
                    a,
                    seq![TokenView::Char(op1)] + tokens_onto(
                        b,
                        seq![TokenView::Char(op2)] + tokens_onto(c, rest),
                    ),
                ),
            ),
        ) == cursor_at(rest).done(
            if precedence(TokenView::Char(op1)) >= precedence(TokenView::Char(op2)) {
                Expr::BinaryOp(
                    op2,
                    Box::new(Expr::BinaryOp(op1, Box::new(a), Box::new(b))),
                    Box::new(c),
                )
            } else {
                Expr::BinaryOp(
                    op1,
                    Box::new(a),
                    Box::new(Expr::BinaryOp(op2, Box::new(b), Box::new(c))),
                )
            },
        ),
{
    let third = tokens_onto(c, rest);
    let second_sign = seq![TokenView::Char(op2)] + third;
    let second = tokens_onto(b, second_sign);
    let first_sign = seq![TokenView::Char(op1)] + second;
    let first = tokens_onto(a, first_sign);
    let p1 = precedence(TokenView::Char(op1));
    let p2 = precedence(TokenView::Char(op2));
    let c0 = cursor_at(first);
    let c1 = cursor_at(first_sign);
    let c2 = cursor_at(second_sign);
    let c3 = cursor_at(rest);
    lemma_advance(TokenView::Char(op1), second);
    lemma_advance(TokenView::Char(op2), third);
    lemma_first_token(a, first_sign);
    lemma_first_token(b, second_sign);
    lemma_first_token(c, rest);
    lemma_primary_round_trip(a, first_sign);
    lemma_primary_round_trip(b, second_sign);
    lemma_primary_round_trip(c, rest);
    let ab = Expr::BinaryOp(op1, Box::new(a), Box::new(b));
    let bc = Expr::BinaryOp(op2, Box::new(b), Box::new(c));
    if p1 >= p2 {
        let whole = Expr::BinaryOp(op2, Box::new(ab), Box::new(c));
        assert(bin_op_rhs(c3, 0, whole) == c3.done(whole));
        assert(bin_op_rhs(c2, 0, ab) == c3.done(whole));
        assert(bin_op_rhs(c1, 0, a) == c3.done(whole));
    } else {
        let whole = Expr::BinaryOp(op1, Box::new(a), Box::new(bc));
        assert(bin_op_rhs(c3, p1 + 1, bc) == c3.done(bc));
        assert(bin_op_rhs(c2, p1 + 1, b) == c3.done(bc));
        assert(bin_op_rhs(c3, 0, whole) == c3.done(whole));
        assert(bin_op_rhs(c1, 0, a) == c3.done(whole));
    }
}

} // verus!
