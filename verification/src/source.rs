//! The canonical text of an expression: its canonical tokens, each followed
//! by a blank; and the proof that lexing the text gives the tokens back.
use vstd::prelude::*;
use crate::ast::{Expr, ExprAST};
use crate::grammar::precedence;
use crate::lexer::{
    LexErrorView, Lexed, Lexeme, TokenView, is_alphanumeric, is_blank, is_letter, is_numeral,
    is_numeral_char, lemma_skip_trivia_bounds, lex_at, lexemes, run_end, skip_trivia, word_token,
};
use crate::printer::{args_onto, stream, tokens, tokens_onto};

verus! {

/// The text of a token.
pub open spec fn token_text(token: TokenView) -> Seq<char> {
    match token {
        TokenView::Eof => Seq::empty(),
        TokenView::Def => seq!['d', 'e', 'f'],
        TokenView::Extern => seq!['e', 'x', 't', 'e', 'r', 'n'],
        TokenView::If => seq!['i', 'f'],
        TokenView::Then => seq!['t', 'h', 'e', 'n'],
        TokenView::Else => seq!['e', 'l', 's', 'e'],
        TokenView::For => seq!['f', 'o', 'r'],
        TokenView::In => seq!['i', 'n'],
        TokenView::Identifier(name) => name,
        TokenView::Number(text) => text,
        TokenView::Char(c) => seq![c],
    }
}

/// The text of some tokens: the text of each, followed by a blank.
pub open spec fn render(tokens: Seq<TokenView>) -> Seq<char>
    decreases tokens.len(),
{
    if tokens.len() == 0 {
        Seq::empty()
    } else {
        token_text(tokens[0]) + (seq![' '] + render(tokens.drop_first()))
    }
}

/// The canonical text of `e`.
pub open spec fn source(e: Expr) -> Seq<char> {
    render(tokens(e))
}

/// Whether `name` lexes as an identifier: a letter, then letters and
/// digits, and no keyword.
pub open spec fn is_identifier(name: Seq<char>) -> bool {
    &&& name.len() > 0
    &&& is_letter(name[0])
    &&& forall|i: int| 0 <= i < name.len() ==> is_alphanumeric(#[trigger] name[i])
    &&& word_token(name) == TokenView::Identifier(name)
}

/// Whether `text` lexes as a number: digits and points, at most one point
/// and at least one digit.
pub open spec fn is_number(text: Seq<char>) -> bool {
    &&& text.len() > 0
    &&& forall|i: int| 0 <= i < text.len() ==> is_numeral_char(#[trigger] text[i])
    &&& is_numeral(text)
}

/// Whether `c` lexes as a token by itself.
pub open spec fn is_symbol(c: char) -> bool {
    !is_blank(c) && c != '#' && !is_letter(c) && !is_numeral_char(c)
}

/// Whether the lexer gives `token` for its text.
pub open spec fn writable_token(token: TokenView) -> bool {
    match token {
        TokenView::Eof => false,
        TokenView::Identifier(name) => is_identifier(name),
        TokenView::Number(text) => is_number(text),
        TokenView::Char(c) => is_symbol(c),
        _ => true,
    }
}

/// Whether the lexer gives each of `tokens` for its text.
pub open spec fn writable_tokens(tokens: Seq<TokenView>) -> bool {
    forall|i: int| 0 <= i < tokens.len() ==> writable_token(#[trigger] tokens[i])
}

/// Whether the canonical text of `e` reads as `e`: its names are
/// identifiers, its literals numerals, and its operators have a precedence.
pub open spec fn writable(e: Expr) -> bool
    decreases e,
{
    match e {
        Expr::Number(text) => is_number(text),
        Expr::Variable(name) => is_identifier(name),
        Expr::BinaryOp(op, lhs, rhs) => {
            &&& precedence(TokenView::Char(op)) >= 0
            &&& writable(*lhs)
            &&& writable(*rhs)
        },
        Expr::Call(callee, args) => {
            &&& is_identifier(callee)
            &&& forall|i: int| 0 <= i < args.len() ==> writable(#[trigger] args[i])
        },
        Expr::If(condition, then_branch, else_branch) => {
            &&& writable(*condition)
            &&& writable(*then_branch)
            &&& writable(*else_branch)
        },
        Expr::For(variable_name, start, end, step, body) => {
            &&& is_identifier(variable_name)
            &&& writable(*start)
            &&& writable(*end)
            &&& match step {
                Some(s) => writable(*s),
                None => true,
            }
            &&& writable(*body)
        },
    }
}

/// Passing over blanks and comments does the same in the middle of a text
/// as at its start.
pub(crate) proof fn lemma_skip_trivia_shift(before: Seq<char>, text: Seq<char>, from: nat, in_comment: bool)
    requires
        from <= text.len(),
    ensures
        skip_trivia(before + text, before.len() + from, in_comment) == before.len() + skip_trivia(
            text,
            from,
            in_comment,
        ),
    decreases text.len() - from,
{
    let all = before + text;
    if from < text.len() {
        assert(all[(before.len() + from) as int] == text[from as int]);
        let c = text[from as int];
        if in_comment {
            lemma_skip_trivia_shift(before, text, from + 1, c != '\n');
        } else if is_blank(c) {
            lemma_skip_trivia_shift(before, text, from + 1, false);
        } else if c == '#' {
            lemma_skip_trivia_shift(before, text, from + 1, true);
        }
    }
}

/// A run ends in the middle of a text where it ends at its start.
pub(crate) proof fn lemma_run_end_shift(
    before: Seq<char>,
    text: Seq<char>,
    from: nat,
    class: spec_fn(char) -> bool,
)
    requires
        from <= text.len(),
    ensures
        run_end(before + text, before.len() + from, class) == before.len() + run_end(
            text,
            from,
            class,
        ),
    decreases text.len() - from,
{
    let all = before + text;
    if from < text.len() {
        assert(all[(before.len() + from) as int] == text[from as int]);
        if class(text[from as int]) {
            lemma_run_end_shift(before, text, from + 1, class);
        }
    }
}

/// The lexer finds in the middle of a text what it finds at its start.
pub proof fn lemma_lex_shift(before: Seq<char>, text: Seq<char>, from: nat)
    requires
        from <= text.len(),
    ensures
        lex_at(before + text, before.len() + from).lexeme == lex_at(text, from).lexeme,
        lex_at(before + text, before.len() + from).next == before.len() + lex_at(text, from).next,
{
    let all = before + text;
    let n = before.len();
    lemma_skip_trivia_shift(before, text, from, false);
    lemma_skip_trivia_bounds(text, from, false);
    let start = skip_trivia(text, from, false);
    if start < text.len() {
        assert(all[(n + start) as int] == text[start as int]);
        let letters = |c: char| is_alphanumeric(c);
        let numerals = |c: char| is_numeral_char(c);
        lemma_run_end_shift(before, text, start + 1, letters);
        lemma_run_end_shift(before, text, start + 1, numerals);
        crate::lexer::lemma_run_end(text, start + 1, letters);
        crate::lexer::lemma_run_end(text, start + 1, numerals);
        let word_end = run_end(text, start + 1, letters);
        let numeral_end = run_end(text, start + 1, numerals);
        assert(all.subrange((n + start) as int, (n + word_end) as int) =~= text.subrange(
            start as int,
            word_end as int,
        ));
        assert(all.subrange((n + start) as int, (n + numeral_end) as int) =~= text.subrange(
            start as int,
            numeral_end as int,
        ));
    }
}

/// The lexemes from the middle of a text are those from its start.
pub proof fn lemma_lexemes_shift(before: Seq<char>, text: Seq<char>, from: nat)
    requires
        from <= text.len(),
    ensures
        lexemes(before + text, before.len() + from) == lexemes(text, from),
    decreases text.len() - from,
{
    lemma_lex_shift(before, text, from);
    crate::lexer::lemma_lex_advances(text, from);
    let step = lex_at(text, from);
    if step.lexeme != Ok::<TokenView, LexErrorView>(TokenView::Eof) {
        lemma_lexemes_shift(before, text, step.next);
    }
}

/// A run that is known to hold its class up to a position, and not at it,
/// ends there.
pub(crate) proof fn lemma_run_end_at(input: Seq<char>, from: nat, to: nat, class: spec_fn(char) -> bool)
    requires
        from <= to <= input.len(),
        forall|i: int| from <= i < to ==> class(#[trigger] input[i]),
        to < input.len() ==> !class(input[to as int]),
    ensures
        run_end(input, from, class) == to,
    decreases to - from,
{
    if from < to {
        lemma_run_end_at(input, from + 1, to, class);
    }
}

/// The lexer reads a token off its text, where a blank follows.
#[verifier::rlimit(50)]
pub proof fn lemma_lex_token(token: TokenView, rest: Seq<char>)
    requires
        writable_token(token),
    ensures
        lex_at(token_text(token) + (seq![' '] + rest), 0) == (Lexed {
            lexeme: Ok(token),
            next: token_text(token).len(),
        }),
        token_text(token).len() > 0,
{
    let text = token_text(token);
    let input = text + (seq![' '] + rest);
    let n = text.len();
    assert(n > 0);
    assert(input[n as int] == ' ');
    assert(input.subrange(0, n as int) =~= text);
    assert(input[0] == text[0]);
    let letters = |c: char| is_alphanumeric(c);
    let numerals = |c: char| is_numeral_char(c);
    match token {
        TokenView::Identifier(name) => {
            assert forall|i: int| 1 <= i < n implies letters(#[trigger] input[i]) by {
                assert(input[i] == name[i]);
            }
            lemma_run_end_at(input, 1, n, letters);
        },
        TokenView::Number(digits) => {
            assert forall|i: int| 1 <= i < n implies numerals(#[trigger] input[i]) by {
                assert(input[i] == digits[i]);
            }
            assert(is_numeral_char(digits[0]));
            lemma_run_end_at(input, 1, n, numerals);
        },
        TokenView::Char(c) => {},
        _ => {
            assert forall|i: int| 1 <= i < n implies letters(#[trigger] input[i]) by {
                assert(input[i] == text[i]);
            }
            lemma_run_end_at(input, 1, n, letters);
        },
    }
}

/// Lexing the text of some tokens gives the tokens.
#[verifier::rlimit(50)]
pub proof fn lemma_lex_render(tokens: Seq<TokenView>)
    requires
        writable_tokens(tokens),
    ensures
        lexemes(render(tokens), 0) == stream(tokens),
    decreases tokens.len(),
{
    if tokens.len() == 0 {
        assert(stream(tokens) =~= Seq::empty());
    } else {
        let first = tokens[0];
        let others = tokens.drop_first();
        let text = token_text(first);
        let tail = render(others);
        let spaced = seq![' '] + tail;
        let input = text + spaced;
        assert(writable_token(first));
        assert forall|i: int| 0 <= i < others.len() implies writable_token(
            #[trigger] others[i],
        ) by {
            assert(others[i] == tokens[i + 1]);
        }
        lemma_lex_token(first, tail);
        lemma_lex_render(others);
        // From the blank on, the lexemes are those of the tail.
        lemma_lexemes_shift(text, spaced, 0);
        lemma_lexemes_shift(seq![' '], tail, 0);
        assert(lex_at(spaced, 0) == lex_at(spaced, 1)) by {
            assert(spaced[0] == ' ');
        }
        lemma_skip_trivia_bounds(spaced, 1, false);
        assert(lexemes(spaced, 0) == lexemes(spaced, 1)) by {
            crate::lexer::lemma_lex_advances(spaced, 1);
        }
        assert(lexemes(input, text.len()) == stream(others));
        assert(lexemes(input, 0) =~= seq![Ok::<TokenView, LexErrorView>(first)] + stream(others));
        assert(stream(tokens) =~= seq![Ok::<TokenView, LexErrorView>(first)] + stream(others));
    }
}

/// Whether every token of a stream is one that the lexer gives for its text.
pub open spec fn writable_stream(stream: Seq<Lexeme>) -> bool {
    forall|i: int|
        0 <= i < stream.len() ==> match #[trigger] stream[i] {
            Ok(token) => writable_token(token),
            Err(_) => true,
        }
}

/// What the lexer finds in a text is a token that it gives for its own
/// text, the end of the input, or a malformed literal.
#[verifier::rlimit(50)]
pub proof fn lemma_lexed_writable(input: Seq<char>, from: nat)
    requires
        from <= input.len(),
    ensures
        match lex_at(input, from).lexeme {
            Ok(token) => token == TokenView::Eof || writable_token(token),
            Err(_) => true,
        },
{
    lemma_skip_trivia_bounds(input, from, false);
    crate::lexer::lemma_skip_trivia_stops(input, from, false);
    let start = skip_trivia(input, from, false);
    if start < input.len() {
        let letters = |c: char| is_alphanumeric(c);
        let numerals = |c: char| is_numeral_char(c);
        crate::lexer::lemma_run_end(input, start + 1, letters);
        crate::lexer::lemma_run_end(input, start + 1, numerals);
        let c = input[start as int];
        if is_letter(c) {
            let end = run_end(input, start + 1, letters);
            let word = input.subrange(start as int, end as int);
            assert(word[0] == c);
            assert forall|i: int| 0 <= i < word.len() implies is_alphanumeric(
                #[trigger] word[i],
            ) by {
                if i > 0 {
                    assert(letters(input[start + i]));
                }
            }
        } else if is_numeral_char(c) {
            let end = run_end(input, start + 1, numerals);
            let text = input.subrange(start as int, end as int);
            assert forall|i: int| 0 <= i < text.len() implies is_numeral_char(
                #[trigger] text[i],
            ) by {
                if i > 0 {
                    assert(numerals(input[start + i]));
                }
            }
        }
    }
}

/// The lexemes of a text are tokens that the lexer gives for their own
/// text, and malformed literals.
pub proof fn lemma_lexemes_writable(input: Seq<char>, from: nat)
    requires
        from <= input.len(),
    ensures
        writable_stream(lexemes(input, from)),
    decreases input.len() - from,
{
    let step = lex_at(input, from);
    crate::lexer::lemma_lex_advances(input, from);
    lemma_lexed_writable(input, from);
    if step.lexeme != Ok::<TokenView, LexErrorView>(TokenView::Eof) {
        lemma_lexemes_writable(input, step.next);
        let all = lexemes(input, from);
        let others = lexemes(input, step.next);
        assert(all =~= seq![step.lexeme] + others);
        assert forall|i: int| 0 <= i < all.len() implies match #[trigger] all[i] {
            Ok(token) => writable_token(token),
            Err(_) => true,
        } by {
            if i > 0 {
                assert(all[i] == others[i - 1]);
            }
        }
    }
}

/// A writable token before writable tokens makes writable tokens.
pub(crate) proof fn lemma_writable_cons(token: TokenView, rest: Seq<TokenView>)
    requires
        writable_token(token),
        writable_tokens(rest),
    ensures
        writable_tokens(seq![token] + rest),
{
    let all = seq![token] + rest;
    assert forall|i: int| 0 <= i < all.len() implies writable_token(#[trigger] all[i]) by {
        if i > 0 {
            assert(all[i] == rest[i - 1]);
        }
    }
}

/// The canonical tokens of a writable expression are writable.
#[verifier::rlimit(50)]
pub proof fn lemma_tokens_writable(e: Expr, rest: Seq<TokenView>)
    requires
        writable(e),
        writable_tokens(rest),
    ensures
        writable_tokens(tokens_onto(e, rest)),
    decreases e, 0nat,
{
    let open = TokenView::Char('(');
    let close = TokenView::Char(')');
    let comma = TokenView::Char(',');
    match e {
        Expr::Number(text) => {
            lemma_writable_cons(TokenView::Number(text), rest);
        },
        Expr::Variable(name) => {
            lemma_writable_cons(TokenView::Identifier(name), rest);
        },
        Expr::BinaryOp(op, lhs, rhs) => {
            lemma_writable_cons(close, rest);
            lemma_tokens_writable(*rhs, seq![close] + rest);
            let right = tokens_onto(*rhs, seq![close] + rest);
            lemma_writable_cons(TokenView::Char(op), right);
            lemma_tokens_writable(*lhs, seq![TokenView::Char(op)] + right);
            lemma_writable_cons(open, tokens_onto(*lhs, seq![TokenView::Char(op)] + right));
        },
        Expr::Call(callee, args) => {
            lemma_writable_cons(close, rest);
            lemma_args_writable(args, 0, seq![close] + rest);
            let listed = args_onto(args, 0, seq![close] + rest);
            lemma_writable_cons(open, listed);
            lemma_writable_cons(TokenView::Identifier(callee), seq![open] + listed);
        },
        Expr::If(condition, then_branch, else_branch) => {
            lemma_writable_cons(close, rest);
            lemma_tokens_writable(*else_branch, seq![close] + rest);
            let third = tokens_onto(*else_branch, seq![close] + rest);
            lemma_writable_cons(TokenView::Else, third);
            lemma_tokens_writable(*then_branch, seq![TokenView::Else] + third);
            let second = tokens_onto(*then_branch, seq![TokenView::Else] + third);
            lemma_writable_cons(TokenView::Then, second);
            lemma_tokens_writable(*condition, seq![TokenView::Then] + second);
            let first = tokens_onto(*condition, seq![TokenView::Then] + second);
            lemma_writable_cons(TokenView::If, first);
            lemma_writable_cons(open, seq![TokenView::If] + first);
        },
        Expr::For(variable_name, start, end, step, body) => {
            lemma_writable_cons(close, rest);
            lemma_tokens_writable(*body, seq![close] + rest);
            let last = tokens_onto(*body, seq![close] + rest);
            lemma_writable_cons(TokenView::In, last);
            let tail = seq![TokenView::In] + last;
            let stepped = match step {
                Some(s) => seq![comma] + tokens_onto(*s, tail),
                None => tail,
            };
            if let Some(s) = step {
                lemma_tokens_writable(*s, tail);
                lemma_writable_cons(comma, tokens_onto(*s, tail));
            }
            lemma_tokens_writable(*end, stepped);
            let second = tokens_onto(*end, stepped);
            lemma_writable_cons(comma, second);
            lemma_tokens_writable(*start, seq![comma] + second);
            let first = tokens_onto(*start, seq![comma] + second);
            lemma_writable_cons(TokenView::Char('='), first);
            let assigned = seq![TokenView::Char('=')] + first;
            lemma_writable_cons(TokenView::Identifier(variable_name), assigned);
            let named = seq![TokenView::Identifier(variable_name)] + assigned;
            lemma_writable_cons(TokenView::For, named);
            lemma_writable_cons(open, seq![TokenView::For] + named);
        },
    }
}

/// As `lemma_tokens_writable`, for the arguments of a call.
pub proof fn lemma_args_writable(args: Seq<Expr>, from: nat, rest: Seq<TokenView>)
    requires
        forall|i: int| 0 <= i < args.len() ==> writable(#[trigger] args[i]),
        writable_tokens(rest),
    ensures
        writable_tokens(args_onto(args, from, rest)),
    decreases args, args.len() - from,
{
    if from >= args.len() {
    } else if from + 1 == args.len() {
        lemma_tokens_writable(args[from as int], rest);
    } else {
        lemma_args_writable(args, from + 1, rest);
        let others = args_onto(args, from + 1, rest);
        lemma_writable_cons(TokenView::Char(','), others);
        lemma_tokens_writable(args[from as int], seq![TokenView::Char(',')] + others);
    }
}

/// The parser can give every writable expression.
pub proof fn lemma_writable_parseable(e: Expr)
    requires
        writable(e),
    ensures
        crate::printer::parseable(e),
    decreases e,
{
    match e {
        Expr::Number(_) => {},
        Expr::Variable(_) => {},
        Expr::BinaryOp(_, lhs, rhs) => {
            lemma_writable_parseable(*lhs);
            lemma_writable_parseable(*rhs);
        },
        Expr::Call(_, args) => {
            assert forall|i: int| 0 <= i < args.len() implies crate::printer::parseable(
                #[trigger] args[i],
            ) by {
                lemma_writable_parseable(args[i]);
            }
        },
        Expr::If(condition, then_branch, else_branch) => {
            lemma_writable_parseable(*condition);
            lemma_writable_parseable(*then_branch);
            lemma_writable_parseable(*else_branch);
        },
        Expr::For(_, start, end, step, body) => {
            lemma_writable_parseable(*start);
            lemma_writable_parseable(*end);
            if let Some(s) = step {
                lemma_writable_parseable(*s);
            }
            lemma_writable_parseable(*body);
        },
    }
}

/// Lexing the canonical text of a writable expression gives its canonical
/// tokens.
pub proof fn lemma_lex_source(e: Expr)
    requires
        writable(e),
    ensures
        lexemes(source(e), 0) == stream(tokens(e)),
{
    lemma_tokens_writable(e, Seq::empty());
    lemma_lex_render(tokens(e));
}

/// The place of a parser that has read the first token of `text`.
pub open spec fn start_of(text: Seq<char>) -> crate::grammar::Cursor {
    crate::grammar::advance(
        crate::grammar::Cursor { current: None, rest: lexemes(text, 0) },
    ).cursor
}

/// Reading a writable expression back from its canonical text gives the
/// expression, with nothing left over.
pub proof fn lemma_source_round_trip(e: Expr)
    requires
        writable(e),
    ensures
        crate::grammar::expression(start_of(source(e))) == crate::printer::cursor_at(
            Seq::empty(),
        ).done(e),
{
    lemma_lex_source(e);
    lemma_writable_parseable(e);
    crate::printer::lemma_round_trip(e);
    crate::printer::lemma_first_token(e, Seq::empty());
    let all = tokens(e);
    assert(stream(all).drop_first() =~= stream(all.drop_first()));
    assert(start_of(source(e)) == crate::printer::cursor_at(all));
}

/// The text of a token, followed by a blank.
pub open spec fn spaced(token: TokenView) -> Seq<char> {
    token_text(token) + seq![' ']
}

/// The text of one token.
pub proof fn lemma_render_one(token: TokenView)
    ensures
        render(seq![token]) == spaced(token),
{
    let one = seq![token];
    assert(one.drop_first() =~= Seq::empty());
    assert(render(one.drop_first()) =~= Seq::empty());
    assert(render(one) =~= spaced(token));
}

/// The text of tokens joined is the texts joined.
pub proof fn lemma_render_concat(a: Seq<TokenView>, b: Seq<TokenView>)
    ensures
        render(a + b) == render(a) + render(b),
    decreases a.len(),
{
    if a.len() == 0 {
        assert(a + b =~= b);
        assert(render(a) + render(b) =~= render(b));
    } else {
        lemma_render_concat(a.drop_first(), b);
        assert((a + b).drop_first() =~= a.drop_first() + b);
        assert(render(a + b) =~= render(a) + render(b));
    }
}

/// The text of a token before others.
pub(crate) proof fn lemma_render_cons(token: TokenView, rest: Seq<TokenView>)
    ensures
        render(seq![token] + rest) == spaced(token) + render(rest),
{
    lemma_render_concat(seq![token], rest);
    lemma_render_one(token);
}

/// Joining tokens is associative.
pub(crate) proof fn lemma_join(a: Seq<TokenView>, b: Seq<TokenView>, c: Seq<TokenView>)
    ensures
        a + (b + c) == (a + b) + c,
{
    assert(a + (b + c) =~= (a + b) + c);
}

/// What is appended to the tokens that follow an expression is appended to
/// the whole.
#[verifier::rlimit(50)]
pub(crate) proof fn lemma_onto_append(e: Expr, next: Seq<TokenView>, rest: Seq<TokenView>)
    ensures
        tokens_onto(e, next + rest) == tokens_onto(e, next) + rest,
    decreases e, 1nat,
{
    match e {
        Expr::Number(text) => {
            lemma_join(seq![TokenView::Number(text)], next, rest);
        },
        Expr::Variable(name) => {
            lemma_join(seq![TokenView::Identifier(name)], next, rest);
        },
        Expr::BinaryOp(op, lhs, rhs) => {
            let open = seq![TokenView::Char('(')];
            let close = seq![TokenView::Char(')')];
            let sign = seq![TokenView::Char(op)];
            lemma_join(close, next, rest);
            lemma_onto_append(*rhs, close + next, rest);
            let right = tokens_onto(*rhs, close + next);
            lemma_join(sign, right, rest);
            lemma_onto_append(*lhs, sign + right, rest);
            lemma_join(open, tokens_onto(*lhs, sign + right), rest);
        },
        Expr::Call(callee, args) => {
            let open = seq![TokenView::Char('(')];
            let close = seq![TokenView::Char(')')];
            lemma_join(close, next, rest);
            lemma_args_append(args, 0, close + next, rest);
            let listed = args_onto(args, 0, close + next);
            lemma_join(open, listed, rest);
            lemma_join(seq![TokenView::Identifier(callee)], open + listed, rest);
        },
        Expr::If(condition, then_branch, else_branch) => {
            let open = seq![TokenView::Char('(')];
            let close = seq![TokenView::Char(')')];
            lemma_join(close, next, rest);
            lemma_onto_append(*else_branch, close + next, rest);
            let third = tokens_onto(*else_branch, close + next);
            lemma_join(seq![TokenView::Else], third, rest);
            lemma_onto_append(*then_branch, seq![TokenView::Else] + third, rest);
            let second = tokens_onto(*then_branch, seq![TokenView::Else] + third);
            lemma_join(seq![TokenView::Then], second, rest);
            lemma_onto_append(*condition, seq![TokenView::Then] + second, rest);
            let first = tokens_onto(*condition, seq![TokenView::Then] + second);
            lemma_join(seq![TokenView::If], first, rest);
            lemma_join(open, seq![TokenView::If] + first, rest);
        },
        Expr::For(variable_name, start, end, step, body) => {
            lemma_for_append(e, next, rest);
        },
    }
}

/// `lemma_onto_append` for a loop.
#[verifier::rlimit(50)]
proof fn lemma_for_append(e: Expr, next: Seq<TokenView>, rest: Seq<TokenView>)
    requires
        e is For,
    ensures
        tokens_onto(e, next + rest) == tokens_onto(e, next) + rest,
    decreases e, 0nat,
{
    let variable_name = e->For_0;
    let start = *e->For_1;
    let end = *e->For_2;
    let step = e->For_3;
    let body = *e->For_4;
    let open = seq![TokenView::Char('(')];
    let close = seq![TokenView::Char(')')];
    let comma = seq![TokenView::Char(',')];
    lemma_join(close, next, rest);
    lemma_onto_append(body, close + next, rest);
    let last = tokens_onto(body, close + next);
    lemma_join(seq![TokenView::In], last, rest);
    let tail = seq![TokenView::In] + last;
    let stepped = match step {
        Some(s) => comma + tokens_onto(*s, tail),
        None => tail,
    };
    let stepped_more = match step {
        Some(s) => comma + tokens_onto(*s, tail + rest),
        None => tail + rest,
    };
    if let Some(s) = step {
        lemma_onto_append(*s, tail, rest);
        lemma_join(comma, tokens_onto(*s, tail), rest);
    }
    assert(stepped_more == stepped + rest);
    lemma_onto_append(end, stepped, rest);
    let second = tokens_onto(end, stepped);
    lemma_join(comma, second, rest);
    lemma_onto_append(start, comma + second, rest);
    let first = tokens_onto(start, comma + second);
    lemma_join(seq![TokenView::Char('=')], first, rest);
    let assigned = seq![TokenView::Char('=')] + first;
    lemma_join(seq![TokenView::Identifier(variable_name)], assigned, rest);
    let named = seq![TokenView::Identifier(variable_name)] + assigned;
    lemma_join(seq![TokenView::For], named, rest);
    lemma_join(open, seq![TokenView::For] + named, rest);
}

/// As `lemma_onto_append`, for the arguments of a call.
pub(crate) proof fn lemma_args_append(
    args: Seq<Expr>,
    from: nat,
    next: Seq<TokenView>,
    rest: Seq<TokenView>,
)
    ensures
        args_onto(args, from, next + rest) == args_onto(args, from, next) + rest,
    decreases args, args.len() - from,
{
    if from >= args.len() {
    } else if from + 1 == args.len() {
        lemma_onto_append(args[from as int], next, rest);
    } else {
        lemma_args_append(args, from + 1, next, rest);
        let others = args_onto(args, from + 1, next);
        lemma_join(seq![TokenView::Char(',')], others, rest);
        lemma_onto_append(args[from as int], seq![TokenView::Char(',')] + others, rest);
    }
}

/// The canonical tokens of an expression before others are its canonical
/// tokens, then the others.
pub proof fn lemma_tokens_flat(e: Expr, rest: Seq<TokenView>)
    ensures
        tokens_onto(e, rest) == tokens(e) + rest,
{
    assert(Seq::<TokenView>::empty() + rest =~= rest);
    lemma_onto_append(e, Seq::empty(), rest);
}

/// As `lemma_tokens_flat`, for the arguments of a call.
pub proof fn lemma_args_flat(args: Seq<Expr>, from: nat, rest: Seq<TokenView>)
    ensures
        args_onto(args, from, rest) == args_onto(args, from, Seq::empty()) + rest,
{
    assert(Seq::<TokenView>::empty() + rest =~= rest);
    lemma_args_append(args, from, Seq::empty(), rest);
}

/// The canonical text of the arguments of a call from position `from` on.
pub open spec fn args_source(args: Seq<Expr>, from: nat) -> Seq<char> {
    render(args_onto(args, from, Seq::empty()))
}

/// The canonical text of a binary operation: its operands with the
/// operator between them, in parentheses.
pub proof fn lemma_source_binary(op: char, lhs: Expr, rhs: Expr)
    ensures
        source(Expr::BinaryOp(op, Box::new(lhs), Box::new(rhs))) == spaced(TokenView::Char('('))
            + (source(lhs) + (spaced(TokenView::Char(op)) + (source(rhs) + spaced(
            TokenView::Char(')'),
        )))),
{
    let none = Seq::<TokenView>::empty();
    let close = seq![TokenView::Char(')')];
    assert(close + none =~= close);
    let right = tokens_onto(rhs, close);
    let middle = seq![TokenView::Char(op)] + right;
    let left = tokens_onto(lhs, middle);
    lemma_tokens_flat(rhs, close);
    lemma_tokens_flat(lhs, middle);
    lemma_render_cons(TokenView::Char('('), left);
    lemma_render_concat(tokens(lhs), middle);
    lemma_render_cons(TokenView::Char(op), right);
    lemma_render_concat(tokens(rhs), close);
    lemma_render_one(TokenView::Char(')'));
}

/// The canonical text of a call: the callee, then the arguments in
/// parentheses.
pub proof fn lemma_source_call(callee: Seq<char>, args: Seq<Expr>)
    ensures
        source(Expr::Call(callee, args)) == spaced(TokenView::Identifier(callee)) + (spaced(
            TokenView::Char('('),
        ) + (args_source(args, 0) + spaced(TokenView::Char(')')))),
{
    let none = Seq::<TokenView>::empty();
    let close = seq![TokenView::Char(')')];
    assert(close + none =~= close);
    let listed = args_onto(args, 0, close);
    lemma_args_flat(args, 0, close);
    lemma_render_cons(TokenView::Identifier(callee), seq![TokenView::Char('(')] + listed);
    lemma_render_cons(TokenView::Char('('), listed);
    lemma_render_concat(args_onto(args, 0, none), close);
    lemma_render_one(TokenView::Char(')'));
}

/// The canonical text of arguments: each but the last is followed by a
/// comma.
pub proof fn lemma_source_args(args: Seq<Expr>, from: nat)
    ensures
        args_source(args, from) == if from >= args.len() {
            Seq::<char>::empty()
        } else if from + 1 == args.len() {
            source(args[from as int])
        } else {
            source(args[from as int]) + (spaced(TokenView::Char(',')) + args_source(
                args,
                from + 1,
            ))
        },
{
    let none = Seq::<TokenView>::empty();
    if from >= args.len() {
    } else if from + 1 == args.len() {
    } else {
        let others = args_onto(args, from + 1, none);
        let comma = seq![TokenView::Char(',')] + others;
        lemma_tokens_flat(args[from as int], comma);
        lemma_render_concat(tokens(args[from as int]), comma);
        lemma_render_cons(TokenView::Char(','), others);
    }
}

/// The canonical text of a conditional.
pub proof fn lemma_source_if(condition: Expr, then_branch: Expr, else_branch: Expr)
    ensures
        source(Expr::If(Box::new(condition), Box::new(then_branch), Box::new(else_branch)))
            == spaced(TokenView::Char('(')) + (spaced(TokenView::If) + (source(condition) + (
            spaced(TokenView::Then) + (source(then_branch) + (spaced(TokenView::Else) + (source(
                else_branch,
            ) + spaced(TokenView::Char(')')))))))),
{
    let none = Seq::<TokenView>::empty();
    let close = seq![TokenView::Char(')')];
    assert(close + none =~= close);
    let third = tokens_onto(else_branch, close);
    let otherwise = seq![TokenView::Else] + third;
    let second = tokens_onto(then_branch, otherwise);
    let taken = seq![TokenView::Then] + second;
    let first = tokens_onto(condition, taken);
    lemma_tokens_flat(else_branch, close);
    lemma_tokens_flat(then_branch, otherwise);
    lemma_tokens_flat(condition, taken);
    lemma_render_cons(TokenView::Char('('), seq![TokenView::If] + first);
    lemma_render_cons(TokenView::If, first);
    lemma_render_concat(tokens(condition), taken);
    lemma_render_cons(TokenView::Then, second);
    lemma_render_concat(tokens(then_branch), otherwise);
    lemma_render_cons(TokenView::Else, third);
    lemma_render_concat(tokens(else_branch), close);
    lemma_render_one(TokenView::Char(')'));
}

/// The canonical text of the end of a loop: the step, where there is one,
/// then `in` and the body, and the closing parenthesis.
pub open spec fn for_tail_source(step: Option<Box<Expr>>, body: Expr) -> Seq<char> {
    let tail = spaced(TokenView::In) + (source(body) + spaced(TokenView::Char(')')));
    match step {
        Some(s) => spaced(TokenView::Char(',')) + (source(*s) + tail),
        None => tail,
    }
}

/// The canonical text of a loop.
pub proof fn lemma_source_for(
    variable_name: Seq<char>,
    start: Expr,
    end: Expr,
    step: Option<Box<Expr>>,
    body: Expr,
)
    ensures
        source(Expr::For(variable_name, Box::new(start), Box::new(end), step, Box::new(body)))
            == spaced(TokenView::Char('(')) + (spaced(TokenView::For) + (spaced(
            TokenView::Identifier(variable_name),
        ) + (spaced(TokenView::Char('=')) + (source(start) + (spaced(TokenView::Char(','))
            + (source(end) + for_tail_source(step, body))))))),
{
    let none = Seq::<TokenView>::empty();
    let close = seq![TokenView::Char(')')];
    assert(close + none =~= close);
    let last = tokens_onto(body, close);
    let tail = seq![TokenView::In] + last;
    let stepped = match step {
        Some(s) => seq![TokenView::Char(',')] + tokens_onto(*s, tail),
        None => tail,
    };
    lemma_tokens_flat(body, close);
    lemma_render_cons(TokenView::In, last);
    lemma_render_concat(tokens(body), close);
    lemma_render_one(TokenView::Char(')'));
    if let Some(s) = step {
        lemma_tokens_flat(*s, tail);
        lemma_render_cons(TokenView::Char(','), tokens_onto(*s, tail));
        lemma_render_concat(tokens(*s), tail);
    }
    assert(render(stepped) == for_tail_source(step, body));
    lemma_for_head_text(variable_name, start, end, stepped);
}

/// The canonical text of the head of a loop, before the tokens `stepped`.
proof fn lemma_for_head_text(
    variable_name: Seq<char>,
    start: Expr,
    end: Expr,
    stepped: Seq<TokenView>,
)
    ensures
        render(
            seq![TokenView::Char('(')] + (seq![TokenView::For] + (seq![
                TokenView::Identifier(variable_name),
            ] + (seq![TokenView::Char('=')] + tokens_onto(
                start,
                seq![TokenView::Char(',')] + tokens_onto(end, stepped),
            )))),
        ) == spaced(TokenView::Char('(')) + (spaced(TokenView::For) + (spaced(
            TokenView::Identifier(variable_name),
        ) + (spaced(TokenView::Char('=')) + (source(start) + (spaced(TokenView::Char(','))
            + (source(end) + render(stepped))))))),
{
    let second = tokens_onto(end, stepped);
    let comma = seq![TokenView::Char(',')] + second;
    let first = tokens_onto(start, comma);
    let assigned = seq![TokenView::Char('=')] + first;
    let named = seq![TokenView::Identifier(variable_name)] + assigned;
    let opened = seq![TokenView::For] + named;
    lemma_tokens_flat(end, stepped);
    lemma_render_concat(tokens(end), stepped);
    lemma_render_cons(TokenView::Char(','), second);
    lemma_tokens_flat(start, comma);
    lemma_render_concat(tokens(start), comma);
    lemma_render_cons(TokenView::Char('='), first);
    lemma_render_cons(TokenView::Identifier(variable_name), assigned);
    lemma_render_cons(TokenView::For, named);
    lemma_render_cons(TokenView::Char('('), opened);
}

/// Appends `text` and a blank to `out`.
fn write_text(out: &mut String, text: &str)
    ensures
        final(out)@ == old(out)@ + (text@ + seq![' ']),
{
    out.append(text);
    out.push(' ');
    proof {
        assert(out@ =~= old(out)@ + (text@ + seq![' ']));
    }
}

/// Appends the character `c` and a blank to `out`.
fn write_char(out: &mut String, c: char)
    ensures
        final(out)@ == old(out)@ + spaced(TokenView::Char(c)),
{
    out.push(c);
    out.push(' ');
    proof {
        assert(out@ =~= old(out)@ + spaced(TokenView::Char(c)));
    }
}

/// Joining is associative: what is still to be written after `written` and
/// `next` is what was to be written after `written`, less `next`.
proof fn lemma_written(written: Seq<char>, next: Seq<char>, rest: Seq<char>)
    ensures
        (written + next) + rest == written + (next + rest),
{
    assert((written + next) + rest =~= written + (next + rest));
}

/// Appends the canonical text of `expr` to `out`.
#[verifier::rlimit(50)]
pub fn write_source(expr: &ExprAST, out: &mut String)
    ensures
        final(out)@ == old(out)@ + source(expr@),
    decreases expr, 0nat,
{
    let ghost before = out@;
    let ghost open = spaced(TokenView::Char('('));
    let ghost close = spaced(TokenView::Char(')'));
    match expr {
        ExprAST::Number(text) => {
            proof {
                lemma_render_one(TokenView::Number(text@));
                assert(tokens(expr@) =~= seq![TokenView::Number(text@)]);
            }
            write_text(out, text.as_str());
        },
        ExprAST::Variable(name) => {
            proof {
                lemma_render_one(TokenView::Identifier(name@));
                assert(tokens(expr@) =~= seq![TokenView::Identifier(name@)]);
            }
            write_text(out, name.as_str());
        },
        ExprAST::BinaryOp(op, lhs, rhs) => {
            let ghost sign = spaced(TokenView::Char(*op));
            proof {
                lemma_source_binary(*op, lhs@, rhs@);
                lemma_written(before, open, source(lhs@) + (sign + (source(rhs@) + close)));
            }
            write_char(out, '(');
            proof {
                lemma_written(out@, source(lhs@), sign + (source(rhs@) + close));
            }
            write_source(lhs, out);
            proof {
                lemma_written(out@, sign, source(rhs@) + close);
            }
            write_char(out, *op);
            proof {
                lemma_written(out@, source(rhs@), close);
            }
            write_source(rhs, out);
            write_char(out, ')');
        },
        ExprAST::Call(callee, args) => {
            let ghost list = expr@->Call_1;
            let ghost name = spaced(TokenView::Identifier(callee@));
            proof {
                lemma_source_call(callee@, list);
                lemma_written(before, name, open + (args_source(list, 0) + close));
            }
            write_text(out, callee.as_str());
            proof {
                lemma_written(out@, open, args_source(list, 0) + close);
            }
            write_char(out, '(');
            proof {
                lemma_written(out@, args_source(list, 0), close);
                assert(list =~= Seq::new(args.len() as nat, |i: int| args[i]@));
            }
            write_args(args, 0, out);
            write_char(out, ')');
        },
        ExprAST::If { condition, then_branch, else_branch } => {
            let ghost first = spaced(TokenView::If);
            let ghost second = spaced(TokenView::Then);
            let ghost third = spaced(TokenView::Else);
            let ghost c = source(condition@);
            let ghost t = source(then_branch@);
            let ghost e = source(else_branch@);
            proof {
                reveal_strlit("if");
                reveal_strlit("then");
                reveal_strlit("else");
                assert("if"@ =~= token_text(TokenView::If));
                assert("then"@ =~= token_text(TokenView::Then));
                assert("else"@ =~= token_text(TokenView::Else));
                lemma_source_if(condition@, then_branch@, else_branch@);
                lemma_written(before, open, first + (c + (second + (t + (third + (e + close))))));
            }
            write_char(out, '(');
            proof {
                lemma_written(out@, first, c + (second + (t + (third + (e + close)))));
            }
            write_text(out, "if");
            proof {
                lemma_written(out@, c, second + (t + (third + (e + close))));
            }
            write_source(condition, out);
            proof {
                lemma_written(out@, second, t + (third + (e + close)));
            }
            write_text(out, "then");
            proof {
                lemma_written(out@, t, third + (e + close));
            }
            write_source(then_branch, out);
            proof {
                lemma_written(out@, third, e + close);
            }
            write_text(out, "else");
            proof {
                lemma_written(out@, e, close);
            }
            write_source(else_branch, out);
            write_char(out, ')');
        },
        ExprAST::For { variable_name, start, end, step, body } => {
            let ghost model_step = expr@->For_3;
            let ghost keyword = spaced(TokenView::For);
            let ghost name = spaced(TokenView::Identifier(variable_name@));
            let ghost equals = spaced(TokenView::Char('='));
            let ghost comma = spaced(TokenView::Char(','));
            let ghost enter = spaced(TokenView::In);
            let ghost s = source(start@);
            let ghost e = source(end@);
            let ghost b = source(body@);
            let ghost tail = for_tail_source(model_step, body@);
            proof {
                reveal_strlit("for");
                reveal_strlit("in");
                assert("for"@ =~= token_text(TokenView::For));
                assert("in"@ =~= token_text(TokenView::In));
                lemma_source_for(variable_name@, start@, end@, model_step, body@);
                lemma_written(
                    before,
                    open,
                    keyword + (name + (equals + (s + (comma + (e + tail))))),
                );
            }
            write_char(out, '(');
            proof {
                lemma_written(out@, keyword, name + (equals + (s + (comma + (e + tail)))));
            }
            write_text(out, "for");
            proof {
                lemma_written(out@, name, equals + (s + (comma + (e + tail))));
            }
            write_text(out, variable_name.as_str());
            proof {
                lemma_written(out@, equals, s + (comma + (e + tail)));
            }
            write_char(out, '=');
            proof {
                lemma_written(out@, s, comma + (e + tail));
            }
            write_source(start, out);
            proof {
                lemma_written(out@, comma, e + tail);
            }
            write_char(out, ',');
            proof {
                lemma_written(out@, e, tail);
            }
            write_source(end, out);
            match step {
                Some(by) => {
                    proof {
                        lemma_written(out@, comma, source(by@) + (enter + (b + close)));
                    }
                    write_char(out, ',');
                    proof {
                        lemma_written(out@, source(by@), enter + (b + close));
                    }
                    write_source(by, out);
                },
                None => {},
            }
            proof {
                lemma_written(out@, enter, b + close);
            }
            write_text(out, "in");
            proof {
                lemma_written(out@, b, close);
            }
            write_source(body, out);
            write_char(out, ')');
        },
    }
}

/// Appends the canonical text of the arguments from position `from` on to
/// `out`, with commas between them.
fn write_args(args: &Vec<ExprAST>, from: usize, out: &mut String)
    requires
        from <= args.len(),
    ensures
        final(out)@ == old(out)@ + args_source(
            Seq::new(args.len() as nat, |i: int| args[i]@),
            from as nat,
        ),
    decreases args, args.len() - from,
{
    let ghost list = Seq::new(args.len() as nat, |i: int| args[i]@);
    proof {
        lemma_source_args(list, from as nat);
    }
    if from >= args.len() {
        proof {
            assert(out@ =~= old(out)@ + Seq::<char>::empty());
        }
    } else if from + 1 == args.len() {
        write_source(&args[from], out);
    } else {
        let ghost comma = spaced(TokenView::Char(','));
        let ghost others = args_source(list, (from + 1) as nat);
        proof {
            lemma_written(out@, source(args[from as int]@), comma + others);
        }
        write_source(&args[from], out);
        proof {
            lemma_written(out@, comma, others);
        }
        write_char(out, ',');
        write_args(args, from + 1, out);
    }
}

impl ExprAST {
    /// The canonical text of the expression: every operation, conditional
    /// and loop in parentheses, and a blank after every token.
    pub fn to_source(&self) -> (r: String)
        ensures
            r@ == source(self@),
    {
        let mut out = String::new();
        write_source(self, &mut out);
        proof {
            assert(out@ =~= source(self@));
        }
        out
    }
}

} // verus!
