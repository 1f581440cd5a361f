//! What every production of the grammar guarantees: it never moves back in
//! the stream, it consumes at least one token where it builds an expression,
//! and what it builds is an expression that the parser can give.
use vstd::prelude::*;
use crate::ast::Expr;
use crate::grammar::{
    Cursor, Expected, Parsed, advance, bin_op_rhs, call_args, definition, expect_char,
    expect_keyword, expression, external, for_body, for_end, for_expr, for_tail,
    identifier_expr, if_alternative, if_branches, if_expr, paren_expr, precedence, primary,
    proto_params, prototype, top_level_expr,
};
use crate::lexer::TokenView;
use crate::printer::{cursor_at, lemma_round_trip, parseable, tokens};
use crate::source::{
    lemma_lexemes_writable, lemma_source_round_trip, source, start_of, writable, writable_stream,
    writable_token,
};

verus! {

/// Whether the stream at `c` came from the lexer: each of its tokens is one
/// that the lexer gives for its own text.
pub open spec fn lexed(c: Cursor) -> bool {
    &&& match c.current {
        Some(token) => token == TokenView::Eof || writable_token(token),
        None => true,
    }
    &&& writable_stream(c.rest)
}

/// Whether `e` may have been built from a stream: the parser can give it,
/// and it is writable where the stream came from the lexer, which `clean`
/// says.
pub open spec fn built(e: Expr, clean: bool) -> bool {
    &&& parseable(e)
    &&& clean ==> writable(e)
}

/// `out`, which a production gave from `c`, is no longer than `c`, and came
/// from the lexer where `clean` says that `c` did. Where the production
/// succeeded, the parser looks at a token, and the expression is one that
/// the parser can give, and writable where the stream came from the lexer.
/// With `strict`, success has consumed a token.
pub open spec fn sound(out: Parsed<Expr>, c: Cursor, strict: bool, clean: bool) -> bool {
    &&& out.cursor.size() <= c.size()
    &&& out.cursor.rest.len() <= c.rest.len()
    &&& clean ==> lexed(out.cursor)
    &&& out.result is Ok ==> {
        &&& built(out.result->Ok_0, clean)
        &&& out.cursor.current is Some
        &&& strict ==> out.cursor.size() < c.size()
    }
}

/// Moving on never lengthens the stream, and shortens it unless the parser
/// looked at the end of the input. Afterwards the parser looks at a token,
/// unless it met a malformed literal.
pub proof fn lemma_advance_shortens(c: Cursor)
    ensures
        advance(c).cursor.size() <= c.size(),
        advance(c).cursor.rest.len() <= c.rest.len(),
        c.token() != TokenView::Eof ==> advance(c).cursor.size() < c.size(),
        advance(c).result is Ok ==> advance(c).cursor.current is Some,
        lexed(c) ==> lexed(advance(c).cursor),
{
    if lexed(c) && c.rest.len() > 0 {
        let rest = c.rest.drop_first();
        assert(writable_stream(rest)) by {
            assert forall|i: int| 0 <= i < rest.len() implies match #[trigger] rest[i] {
                Ok(token) => writable_token(token),
                Err(_) => true,
            } by {
                assert(rest[i] == c.rest[i + 1]);
            }
        }
        assert(match c.rest[0] {
            Ok(token) => writable_token(token),
            Err(_) => true,
        });
    }
}

/// `sound` for `expect_char` and `expect_keyword`: success has consumed the
/// token asked for.
pub proof fn lemma_expect_shortens(c: Cursor, ch: char, token: TokenView, expected: Expected)
    requires
        token != TokenView::Eof,
    ensures
        expect_char(c, ch).cursor.size() <= c.size(),
        expect_char(c, ch).cursor.rest.len() <= c.rest.len(),
        expect_char(c, ch).result is Ok ==> expect_char(c, ch).cursor.current is Some
            && expect_char(c, ch).cursor.size() < c.size(),
        expect_keyword(c, token, expected).cursor.size() <= c.size(),
        expect_keyword(c, token, expected).cursor.rest.len() <= c.rest.len(),
        expect_keyword(c, token, expected).result is Ok ==> expect_keyword(
            c,
            token,
            expected,
        ).cursor.current is Some && expect_keyword(c, token, expected).cursor.size() < c.size(),
        lexed(c) ==> lexed(expect_char(c, ch).cursor) && lexed(
            expect_keyword(c, token, expected).cursor,
        ),
{
    lemma_advance_shortens(c);
}

/// What `expression` guarantees.
pub proof fn lemma_expression_sound(c: Cursor, clean: bool)
    requires
        clean ==> lexed(c),
    ensures
        sound(expression(c), c, true, clean),
    decreases c.size(), 3nat,
{
    lemma_primary_sound(c, clean);
    let first = primary(c);
    if let Ok(lhs) = first.result {
        lemma_bin_op_rhs_sound(first.cursor, 0, lhs, clean);
    }
}

/// What `bin_op_rhs` guarantees, for a left operand that the parser can give
/// and a threshold that is a precedence.
#[verifier::rlimit(50)]
pub proof fn lemma_bin_op_rhs_sound(c: Cursor, min_prec: int, lhs: Expr, clean: bool)
    requires
        clean ==> lexed(c),
        built(lhs, clean),
        c.current is Some,
        min_prec >= 0,
    ensures
        sound(bin_op_rhs(c, min_prec, lhs), c, false, clean),
    decreases c.size(), 0nat,
{
    let prec = precedence(c.token());
    if prec >= min_prec && c.token() is Char {
        let op = c.token()->Char_0;
        let moved = advance(c);
        lemma_advance_shortens(c);
        if moved.result is Ok {
            lemma_primary_sound(moved.cursor, clean);
            let operand = primary(moved.cursor);
            if let Ok(rhs) = operand.result {
                let after = operand.cursor;
                let extended = if prec < precedence(after.token()) {
                    bin_op_rhs(after, prec + 1, rhs)
                } else {
                    after.done(rhs)
                };
                if prec < precedence(after.token()) {
                    lemma_bin_op_rhs_sound(after, prec + 1, rhs, clean);
                }
                if let Ok(folded) = extended.result {
                    lemma_bin_op_rhs_sound(
                        extended.cursor,
                        min_prec,
                        Expr::BinaryOp(op, Box::new(lhs), Box::new(folded)),
                        clean,
                    );
                }
            }
        }
    }
}

/// What `primary` guarantees.
pub proof fn lemma_primary_sound(c: Cursor, clean: bool)
    requires
        clean ==> lexed(c),
    ensures
        sound(primary(c), c, true, clean),
    decreases c.size(), 2nat,
{
    match c.token() {
        TokenView::Identifier(_) => {
            lemma_identifier_expr_sound(c, clean);
        },
        TokenView::Number(_) => {
            lemma_advance_shortens(c);
        },
        TokenView::Char(ch) => {
            if ch == '(' {
                lemma_paren_expr_sound(c, clean);
            }
        },
        TokenView::If => {
            lemma_if_expr_sound(c, clean);
        },
        TokenView::For => {
            lemma_for_expr_sound(c, clean);
        },
        _ => {},
    }
}

/// What `paren_expr` guarantees.
pub proof fn lemma_paren_expr_sound(c: Cursor, clean: bool)
    requires
        clean ==> lexed(c),
    ensures
        sound(paren_expr(c), c, true, clean),
    decreases c.size(), 1nat,
{
    let opened = expect_char(c, '(');
    lemma_expect_shortens(c, '(', TokenView::If, Expected::If);
    if opened.result is Ok {
        lemma_expression_sound(opened.cursor, clean);
        let inner = expression(opened.cursor);
        if inner.result is Ok {
            lemma_expect_shortens(inner.cursor, ')', TokenView::If, Expected::If);
        }
    }
}

/// What `identifier_expr` guarantees.
pub proof fn lemma_identifier_expr_sound(c: Cursor, clean: bool)
    requires
        clean ==> lexed(c),
    ensures
        sound(identifier_expr(c), c, true, clean),
    decreases c.size(), 1nat,
{
    if let TokenView::Identifier(name) = c.token() {
        let moved = advance(c);
        lemma_advance_shortens(c);
        if moved.result is Ok && moved.cursor.token() == TokenView::Char('(') {
            let opened = advance(moved.cursor);
            lemma_advance_shortens(moved.cursor);
            if opened.result is Ok {
                if opened.cursor.token() == TokenView::Char(')') {
                    lemma_advance_shortens(opened.cursor);
                } else {
                    lemma_call_args_sound(opened.cursor, Seq::empty(), clean);
                }
            }
        }
    }
}

/// What `call_args` guarantees, after arguments that the parser can give:
/// it never moves back, and on success the parser looks at a token and
/// can give every argument.
pub proof fn lemma_call_args_sound(c: Cursor, parsed: Seq<Expr>, clean: bool)
    requires
        clean ==> lexed(c),
        forall|i: int| 0 <= i < parsed.len() ==> built(#[trigger] parsed[i], clean),
    ensures
        call_args(c, parsed).cursor.size() <= c.size(),
        call_args(c, parsed).cursor.rest.len() <= c.rest.len(),
        clean ==> lexed(call_args(c, parsed).cursor),
        call_args(c, parsed).result is Ok ==> {
            let list = call_args(c, parsed).result->Ok_0;
            &&& call_args(c, parsed).cursor.current is Some
            &&& forall|i: int| 0 <= i < list.len() ==> built(#[trigger] list[i], clean)
        },
    decreases c.size(), 4nat,
{
    lemma_expression_sound(c, clean);
    let arg = expression(c);
    if let Ok(e) = arg.result {
        let after = arg.cursor;
        let list = parsed.push(e);
        assert forall|i: int| 0 <= i < list.len() implies built(#[trigger] list[i], clean) by {
            if i < parsed.len() {
                assert(list[i] == parsed[i]);
            }
        }
        lemma_advance_shortens(after);
        if after.token() == TokenView::Char(',') {
            let moved = advance(after);
            if moved.result is Ok {
                lemma_call_args_sound(moved.cursor, list, clean);
            }
        }
    }
}

/// What `if_expr` guarantees.
pub proof fn lemma_if_expr_sound(c: Cursor, clean: bool)
    requires
        clean ==> lexed(c),
    ensures
        sound(if_expr(c), c, true, clean),
    decreases c.size(), 1nat,
{
    let opened = expect_keyword(c, TokenView::If, Expected::If);
    lemma_expect_shortens(c, '(', TokenView::If, Expected::If);
    if opened.result is Ok {
        lemma_expression_sound(opened.cursor, clean);
        let condition = expression(opened.cursor);
        if let Ok(tested) = condition.result {
            lemma_if_branches_sound(condition.cursor, tested, clean);
        }
    }
}

/// What `if_branches` guarantees, after a condition that the parser can
/// give.
pub proof fn lemma_if_branches_sound(c: Cursor, tested: Expr, clean: bool)
    requires
        clean ==> lexed(c),
        built(tested, clean),
    ensures
        sound(if_branches(c, tested), c, true, clean),
    decreases c.size(), 5nat,
{
    let entered = expect_keyword(c, TokenView::Then, Expected::Then);
    lemma_expect_shortens(c, '(', TokenView::Then, Expected::Then);
    if entered.result is Ok {
        lemma_expression_sound(entered.cursor, clean);
        let then_branch = expression(entered.cursor);
        if let Ok(taken) = then_branch.result {
            lemma_if_alternative_sound(then_branch.cursor, tested, taken, clean);
        }
    }
}

/// What `if_alternative` guarantees, after a condition and a branch that
/// the parser can give.
pub proof fn lemma_if_alternative_sound(c: Cursor, tested: Expr, taken: Expr, clean: bool)
    requires
        clean ==> lexed(c),
        built(tested, clean),
        built(taken, clean),
    ensures
        sound(if_alternative(c, tested, taken), c, true, clean),
    decreases c.size(), 4nat,
{
    let entered = expect_keyword(c, TokenView::Else, Expected::Else);
    lemma_expect_shortens(c, '(', TokenView::Else, Expected::Else);
    if entered.result is Ok {
        lemma_expression_sound(entered.cursor, clean);
    }
}

/// What `for_expr` guarantees.
pub proof fn lemma_for_expr_sound(c: Cursor, clean: bool)
    requires
        clean ==> lexed(c),
    ensures
        sound(for_expr(c), c, true, clean),
    decreases c.size(), 1nat,
{
    let opened = expect_keyword(c, TokenView::For, Expected::For);
    lemma_expect_shortens(c, '(', TokenView::For, Expected::For);
    if opened.result is Ok && opened.cursor.token() is Identifier {
        let name = opened.cursor.token()->Identifier_0;
        let named = advance(opened.cursor);
        lemma_advance_shortens(opened.cursor);
        if named.result is Ok {
            let assigned = expect_char(named.cursor, '=');
            lemma_expect_shortens(named.cursor, '=', TokenView::For, Expected::For);
            if assigned.result is Ok {
                lemma_expression_sound(assigned.cursor, clean);
                let start = expression(assigned.cursor);
                if let Ok(first) = start.result {
                    lemma_for_end_sound(start.cursor, name, first, clean);
                }
            }
        }
    }
}

/// What `for_end` guarantees, after a start value that the parser can give.
pub proof fn lemma_for_end_sound(c: Cursor, name: Seq<char>, first: Expr, clean: bool)
    requires
        clean ==> lexed(c),
        clean ==> crate::source::is_identifier(name),
        built(first, clean),
    ensures
        sound(for_end(c, name, first), c, true, clean),
    decreases c.size(), 6nat,
{
    let second = expect_char(c, ',');
    lemma_expect_shortens(c, ',', TokenView::For, Expected::For);
    if second.result is Ok {
        lemma_expression_sound(second.cursor, clean);
        let end = expression(second.cursor);
        if let Ok(last) = end.result {
            lemma_for_tail_sound(end.cursor, name, first, last, clean);
        }
    }
}

/// What `for_tail` guarantees, after a start value and an end condition
/// that the parser can give.
pub proof fn lemma_for_tail_sound(c: Cursor, name: Seq<char>, first: Expr, last: Expr, clean: bool)
    requires
        clean ==> lexed(c),
        clean ==> crate::source::is_identifier(name),
        built(first, clean),
        built(last, clean),
    ensures
        sound(for_tail(c, name, first, last), c, true, clean),
    decreases c.size(), 5nat,
{
    if c.token() == TokenView::Char(',') {
        let moved = advance(c);
        lemma_advance_shortens(c);
        if moved.result is Ok {
            lemma_expression_sound(moved.cursor, clean);
            let step = expression(moved.cursor);
            if let Ok(by) = step.result {
                lemma_for_body_sound(step.cursor, name, first, last, Some(Box::new(by)), clean);
            }
        }
    } else {
        lemma_for_body_sound(c, name, first, last, None, clean);
    }
}

/// What `for_body` guarantees, after a start value, an end condition and a
/// step that the parser can give.
pub proof fn lemma_for_body_sound(
    c: Cursor,
    name: Seq<char>,
    first: Expr,
    last: Expr,
    step: Option<Box<Expr>>,
    clean: bool,
)
    requires
        clean ==> lexed(c),
        clean ==> crate::source::is_identifier(name),
        built(first, clean),
        built(last, clean),
        match step {
            Some(s) => built(*s, clean),
            None => true,
        },
    ensures
        sound(for_body(c, name, first, last, step), c, true, clean),
    decreases c.size(), 4nat,
{
    let entered = expect_keyword(c, TokenView::In, Expected::In);
    lemma_expect_shortens(c, '(', TokenView::In, Expected::In);
    if entered.result is Ok {
        lemma_expression_sound(entered.cursor, clean);
    }
}

/// The grammar never has to cut a cursor short: what a primary or an
/// expression leaves is within what it started from.
pub proof fn lemma_within(c: Cursor)
    ensures
        primary(c).cursor.within(c) == primary(c).cursor,
        expression(c).cursor.within(c) == expression(c).cursor,
{
    lemma_primary_sound(c, false);
    lemma_expression_sound(c, false);
}

/// `out`, which a production gave from `c`, is no longer than `c`, and
/// shorter where it succeeded; the parser then looks at a token.
pub open spec fn shortens<T>(out: Parsed<T>, c: Cursor) -> bool {
    &&& out.cursor.size() <= c.size()
    &&& out.cursor.rest.len() <= c.rest.len()
    &&& out.result is Ok ==> out.cursor.current is Some && out.cursor.size() < c.size()
}

/// What `proto_params` guarantees: it never moves back.
pub proof fn lemma_proto_params_shortens(c: Cursor, parsed: Seq<Seq<char>>)
    requires
        c.current is Some,
    ensures
        proto_params(c, parsed).cursor.size() <= c.size(),
        proto_params(c, parsed).cursor.rest.len() <= c.rest.len(),
        proto_params(c, parsed).result is Ok ==> proto_params(c, parsed).cursor.current is Some,
    decreases c.size(),
{
    if let TokenView::Identifier(name) = c.token() {
        lemma_advance_shortens(c);
        let moved = advance(c);
        if moved.result is Ok {
            lemma_proto_params_shortens(moved.cursor, parsed.push(name));
        }
    }
}

/// What `prototype` guarantees.
pub proof fn lemma_prototype_shortens(c: Cursor)
    ensures
        shortens(prototype(c), c),
{
    if let TokenView::Identifier(name) = c.token() {
        lemma_advance_shortens(c);
        let moved = advance(c);
        if moved.result is Ok {
            lemma_expect_shortens(moved.cursor, '(', TokenView::If, Expected::If);
            let opened = expect_char(moved.cursor, '(');
            if opened.result is Ok {
                lemma_proto_params_shortens(opened.cursor, Seq::empty());
                let params = proto_params(opened.cursor, Seq::empty());
                if params.result is Ok {
                    lemma_expect_shortens(params.cursor, ')', TokenView::If, Expected::If);
                }
            }
        }
    }
}

/// What the three top-level productions guarantee.
pub proof fn lemma_units_shorten(c: Cursor)
    ensures
        shortens(definition(c), c),
        shortens(external(c), c),
        shortens(top_level_expr(c), c),
{
    lemma_expect_shortens(c, '(', TokenView::Def, Expected::Def);
    lemma_expect_shortens(c, '(', TokenView::Extern, Expected::Extern);
    let opened = expect_keyword(c, TokenView::Def, Expected::Def);
    if opened.result is Ok {
        lemma_prototype_shortens(opened.cursor);
        let proto = prototype(opened.cursor);
        if proto.result is Ok {
            lemma_expression_sound(proto.cursor, false);
        }
    }
    let declared = expect_keyword(c, TokenView::Extern, Expected::Extern);
    if declared.result is Ok {
        lemma_prototype_shortens(declared.cursor);
    }
    lemma_expression_sound(c, false);
}

/// Reading is idempotent over the canonical text: an expression that was
/// read from any text, written in canonical form and read again, is the same
/// expression, with nothing left over.
pub proof fn lemma_reread(text: Seq<char>)
    requires
        expression(start_of(text)).result is Ok,
    ensures
        expression(start_of(source(expression(start_of(text)).result->Ok_0))) == cursor_at(
            Seq::empty(),
        ).done(expression(start_of(text)).result->Ok_0),
{
    let unread = Cursor { current: None, rest: crate::lexer::lexemes(text, 0) };
    lemma_lexemes_writable(text, 0);
    lemma_advance_shortens(unread);
    lemma_expression_sound(start_of(text), true);
    lemma_source_round_trip(expression(start_of(text)).result->Ok_0);
}

/// Parsing is idempotent over the canonical form: an expression that was
/// parsed from any stream, written in canonical form and parsed again, is
/// the same expression, with nothing left over.
pub proof fn lemma_reparse(c: Cursor)
    requires
        expression(c).result is Ok,
    ensures
        expression(cursor_at(tokens(expression(c).result->Ok_0))) == cursor_at(
            Seq::empty(),
        ).done(expression(c).result->Ok_0),
{
    lemma_expression_sound(c, false);
    lemma_round_trip(expression(c).result->Ok_0);
}

} // verus!
