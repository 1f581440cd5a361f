//! Lexical analysis: from characters to tokens, one token per call.
use vstd::prelude::*;

verus! {

/// A lexical unit of the language.
///
/// A number carries the text of its literal, a decimal numeral with at most
/// one point and at least one digit; the value is what that numeral denotes.
#[derive(Debug, PartialEq)]
pub enum Token {
    Eof,
    Def,
    Extern,
    If,
    Then,
    Else,
    For,
    In,
    Identifier(String),
    Number(String),
    /// Any other single character: an operator or a punctuation mark.
    Char(char),
}

/// A token as a mathematical value.
pub enum TokenView {
    Eof,
    Def,
    Extern,
    If,
    Then,
    Else,
    For,
    In,
    Identifier(Seq<char>),
    Number(Seq<char>),
    Char(char),
}

impl View for Token {
    type V = TokenView;

    open spec fn view(&self) -> TokenView {
        match self {
            Token::Eof => TokenView::Eof,
            Token::Def => TokenView::Def,
            Token::Extern => TokenView::Extern,
            Token::If => TokenView::If,
            Token::Then => TokenView::Then,
            Token::Else => TokenView::Else,
            Token::For => TokenView::For,
            Token::In => TokenView::In,
            Token::Identifier(name) => TokenView::Identifier(name@),
            Token::Number(text) => TokenView::Number(text@),
            Token::Char(c) => TokenView::Char(*c),
        }
    }
}

impl Clone for Token {
    fn clone(&self) -> (r: Token)
        ensures
            r@ == self@,
    {
        match self {
            Token::Eof => Token::Eof,
            Token::Def => Token::Def,
            Token::Extern => Token::Extern,
            Token::If => Token::If,
            Token::Then => Token::Then,
            Token::Else => Token::Else,
            Token::For => Token::For,
            Token::In => Token::In,
            Token::Identifier(name) => Token::Identifier(name.clone()),
            Token::Number(text) => Token::Number(text.clone()),
            Token::Char(c) => Token::Char(*c),
        }
    }
}

impl Token {
    /// Whether the token is the single character `c`.
    pub fn is_char(&self, c: char) -> (r: bool)
        ensures
            r == (self@ == TokenView::Char(c)),
    {
        match self {
            Token::Char(d) => *d == c,
            _ => false,
        }
    }
}

/// A numeric literal that denotes no number; it carries the literal's text.
#[derive(Debug, PartialEq)]
pub struct LexError {
    pub literal: String,
}

/// A malformed literal as a mathematical value.
pub struct LexErrorView {
    pub literal: Seq<char>,
}

impl View for LexError {
    type V = LexErrorView;

    open spec fn view(&self) -> LexErrorView {
        LexErrorView { literal: self.literal@ }
    }
}

/// What the lexer finds at a position: a token, or a malformed literal.
pub type Lexeme = Result<TokenView, LexErrorView>;

/// A blank: a space, a tab or a line feed.
pub open spec fn is_blank(c: char) -> bool {
    c == ' ' || c == '\t' || c == '\n'
}

/// An ASCII letter.
pub open spec fn is_letter(c: char) -> bool {
    ('a' <= c && c <= 'z') || ('A' <= c && c <= 'Z')
}

/// An ASCII digit.
pub open spec fn is_digit(c: char) -> bool {
    '0' <= c && c <= '9'
}

/// An ASCII letter or digit.
pub open spec fn is_alphanumeric(c: char) -> bool {
    is_letter(c) || is_digit(c)
}

/// A character that a numeric literal is made of.
pub open spec fn is_numeral_char(c: char) -> bool {
    is_digit(c) || c == '.'
}

/// The first position at or after `from` that is past the blanks and the
/// comments. A comment runs from `#` to the end of its line; `in_comment`
/// says whether `from` lies in one.
pub open spec fn skip_trivia(input: Seq<char>, from: nat, in_comment: bool) -> nat
    decreases input.len() - from,
{
    if from >= input.len() {
        from
    } else if in_comment {
        skip_trivia(input, from + 1, input[from as int] != '\n')
    } else if is_blank(input[from as int]) {
        skip_trivia(input, from + 1, false)
    } else if input[from as int] == '#' {
        skip_trivia(input, from + 1, true)
    } else {
        from
    }
}

/// The first position at or after `from` whose character is not in `class`,
/// or the length of the input.
pub open spec fn run_end(input: Seq<char>, from: nat, class: spec_fn(char) -> bool) -> nat
    decreases input.len() - from,
{
    if from >= input.len() || !class(input[from as int]) {
        from
    } else {
        run_end(input, from + 1, class)
    }
}

/// How many points `text` holds.
pub open spec fn count_points(text: Seq<char>) -> nat
    decreases text.len(),
{
    if text.len() == 0 {
        0
    } else {
        count_points(text.drop_last()) + if text.last() == '.' {
            1nat
        } else {
            0nat
        }
    }
}

/// Whether `text`, made of digits and points, denotes a number: it has at
/// most one point, and at least one digit.
pub open spec fn is_numeral(text: Seq<char>) -> bool {
    count_points(text) <= 1 && count_points(text) < text.len()
}

/// The token that a word stands for: its keyword, or else an identifier.
pub open spec fn word_token(word: Seq<char>) -> TokenView {
    if word == seq!['d', 'e', 'f'] {
        TokenView::Def
    } else if word == seq!['e', 'x', 't', 'e', 'r', 'n'] {
        TokenView::Extern
    } else if word == seq!['i', 'f'] {
        TokenView::If
    } else if word == seq!['t', 'h', 'e', 'n'] {
        TokenView::Then
    } else if word == seq!['e', 'l', 's', 'e'] {
        TokenView::Else
    } else if word == seq!['f', 'o', 'r'] {
        TokenView::For
    } else if word == seq!['i', 'n'] {
        TokenView::In
    } else {
        TokenView::Identifier(word)
    }
}

/// The lexeme found from a position, and the position after it.
pub struct Lexed {
    pub lexeme: Lexeme,
    pub next: nat,
}

/// The next lexeme of `input` from `from` on.
///
/// Blanks and comments are passed over. Then a letter starts a word, which
/// runs while letters and digits follow; a digit or a point starts a numeric
/// literal, which runs while digits and points follow; any other character
/// is a token by itself. Past the last character the token is `Eof`.
pub open spec fn lex_at(input: Seq<char>, from: nat) -> Lexed {
    let start = skip_trivia(input, from, false);
    if start >= input.len() {
        Lexed { lexeme: Ok(TokenView::Eof), next: start }
    } else {
        let c = input[start as int];
        if is_letter(c) {
            let end = run_end(input, start + 1, |c: char| is_alphanumeric(c));
            Lexed { lexeme: Ok(word_token(input.subrange(start as int, end as int))), next: end }
        } else if is_numeral_char(c) {
            let end = run_end(input, start + 1, |c: char| is_numeral_char(c));
            let text = input.subrange(start as int, end as int);
            Lexed {
                lexeme: if is_numeral(text) {
                    Ok(TokenView::Number(text))
                } else {
                    Err(LexErrorView { literal: text })
                },
                next: end,
            }
        } else {
            Lexed { lexeme: Ok(TokenView::Char(c)), next: start + 1 }
        }
    }
}

/// Passing over blanks and comments never moves back nor past the end.
pub proof fn lemma_skip_trivia_bounds(input: Seq<char>, from: nat, in_comment: bool)
    requires
        from <= input.len(),
    ensures
        from <= skip_trivia(input, from, in_comment) <= input.len(),
    decreases input.len() - from,
{
    if from < input.len() {
        if in_comment {
            lemma_skip_trivia_bounds(input, from + 1, input[from as int] != '\n');
        } else if is_blank(input[from as int]) {
            lemma_skip_trivia_bounds(input, from + 1, false);
        } else if input[from as int] == '#' {
            lemma_skip_trivia_bounds(input, from + 1, true);
        }
    }
}

/// Where passing over blanks and comments stops before the end, it stops at
/// a character that is neither a blank nor the start of a comment.
pub proof fn lemma_skip_trivia_stops(input: Seq<char>, from: nat, in_comment: bool)
    requires
        from <= input.len(),
    ensures
        skip_trivia(input, from, in_comment) < input.len() ==> {
            let c = input[skip_trivia(input, from, in_comment) as int];
            !is_blank(c) && c != '#'
        },
    decreases input.len() - from,
{
    if from < input.len() {
        if in_comment {
            lemma_skip_trivia_stops(input, from + 1, input[from as int] != '\n');
        } else if is_blank(input[from as int]) {
            lemma_skip_trivia_stops(input, from + 1, false);
        } else if input[from as int] == '#' {
            lemma_skip_trivia_stops(input, from + 1, true);
        }
    }
}

/// A run ends at or after its start and within the input; every character
/// before its end is in the class, and the character at its end is not.
pub proof fn lemma_run_end(input: Seq<char>, from: nat, class: spec_fn(char) -> bool)
    requires
        from <= input.len(),
    ensures
        from <= run_end(input, from, class) <= input.len(),
        forall|i: int| from <= i < run_end(input, from, class) ==> class(#[trigger] input[i]),
        run_end(input, from, class) < input.len() ==> !class(
            input[run_end(input, from, class) as int],
        ),
    decreases input.len() - from,
{
    if from < input.len() && class(input[from as int]) {
        lemma_run_end(input, from + 1, class);
    }
}

/// Lexing moves forward: the position after a lexeme is within the input,
/// and past the start unless the token is `Eof`.
pub proof fn lemma_lex_advances(input: Seq<char>, from: nat)
    requires
        from <= input.len(),
    ensures
        from <= lex_at(input, from).next <= input.len(),
        lex_at(input, from).lexeme != Ok::<TokenView, LexErrorView>(TokenView::Eof) ==> from
            < lex_at(input, from).next,
        lex_at(input, from).lexeme == Ok::<TokenView, LexErrorView>(TokenView::Eof) ==> lex_at(
            input,
            from,
        ).next == input.len(),
{
    lemma_skip_trivia_bounds(input, from, false);
    let start = skip_trivia(input, from, false);
    if start < input.len() {
        lemma_run_end(input, start + 1, |c: char| is_alphanumeric(c));
        lemma_run_end(input, start + 1, |c: char| is_numeral_char(c));
        lemma_word_token_not_eof(
            input.subrange(
                start as int,
                run_end(input, start + 1, |c: char| is_alphanumeric(c)) as int,
            ),
        );
    }
}

/// A word is never the end of the input.
pub proof fn lemma_word_token_not_eof(word: Seq<char>)
    ensures
        word_token(word) != TokenView::Eof,
{
}

/// The lexemes of `input` from `from` to its end, `Eof` left out.
pub open spec fn lexemes(input: Seq<char>, from: nat) -> Seq<Lexeme>
    decreases input.len() - from,
{
    let step = lex_at(input, from);
    if step.lexeme == Ok::<TokenView, LexErrorView>(TokenView::Eof) || !(from < step.next
        <= input.len()) {
        Seq::empty()
    } else {
        seq![step.lexeme] + lexemes(input, step.next)
    }
}

/// Reads tokens off a sequence of characters.
pub struct Lexer {
    input: Vec<char>,
    pos: usize,
}

impl Lexer {
    /// The characters that the lexer reads.
    pub closed spec fn input(&self) -> Seq<char> {
        self.input@
    }

    /// How many characters the lexer has read.
    pub closed spec fn position(&self) -> nat {
        self.pos as nat
    }

    /// The position is within the input.
    pub open spec fn well_formed(&self) -> bool {
        self.position() <= self.input().len()
    }

    /// The lexemes that are still to come.
    pub open spec fn remaining(&self) -> Seq<Lexeme> {
        lexemes(self.input(), self.position())
    }

    /// A lexer at the start of `input`.
    pub fn new(input: Vec<char>) -> (r: Lexer)
        ensures
            r.well_formed(),
            r.input() == input@,
            r.position() == 0,
    {
        Lexer { input, pos: 0 }
    }

    /// Reads one character, if any is left.
    fn step(&mut self) -> (r: Option<char>)
        requires
            old(self).well_formed(),
        ensures
            final(self).well_formed(),
            final(self).input() == old(self).input(),
            match r {
                Some(c) => {
                    &&& old(self).position() < old(self).input().len()
                    &&& c == old(self).input()[old(self).position() as int]
                    &&& final(self).position() == old(self).position() + 1
                },
                None => {
                    &&& old(self).position() == old(self).input().len()
                    &&& final(self).position() == old(self).position()
                },
            },
    {
        if self.pos < self.input.len() {
            let c = self.input[self.pos];
            self.pos += 1;
            Some(c)
        } else {
            None
        }
    }

    /// The character that `step` would read.
    fn peek(&self) -> (r: Option<char>)
        requires
            self.well_formed(),
        ensures
            match r {
                Some(c) => self.position() < self.input().len() && c == self.input()[self.position() as int],
                None => self.position() == self.input().len(),
            },
    {
        if self.pos < self.input.len() {
            Some(self.input[self.pos])
        } else {
            None
        }
    }

    /// Passes over blanks and comments.
    #[verifier::rlimit(50)]
    fn skip(&mut self)
        requires
            old(self).well_formed(),
        ensures
            final(self).well_formed(),
            final(self).input() == old(self).input(),
            final(self).position() == skip_trivia(old(self).input(), old(self).position(), false),
    {
        let mut in_comment = false;
        loop
            invariant
                self.well_formed(),
                self.input() == old(self).input(),
                skip_trivia(self.input(), self.position(), in_comment) == skip_trivia(
                    old(self).input(),
                    old(self).position(),
                    false,
                ),
            ensures
                self.position() == skip_trivia(old(self).input(), old(self).position(), false),
            decreases self.input().len() - self.position(),
        {
            match self.peek() {
                None => {
                    break ;
                },
                Some(c) => {
                    if in_comment {
                        in_comment = c != '\n';
                    } else if c == ' ' || c == '\t' || c == '\n' {
                    } else if c == '#' {
                        in_comment = true;
                    } else {
                        break ;
                    }
                    let _ = self.step();
                },
            }
        }
    }

    /// Reads characters while they are letters or digits, and appends them
    /// to `text`.
    #[verifier::rlimit(50)]
    fn take_word(&mut self, text: &mut String)
        requires
            old(self).well_formed(),
        ensures
            final(self).well_formed(),
            final(self).input() == old(self).input(),
            final(self).position() == run_end(
                old(self).input(),
                old(self).position(),
                |c: char| is_alphanumeric(c),
            ),
            final(text)@ == old(text)@ + old(self).input().subrange(
                old(self).position() as int,
                final(self).position() as int,
            ),
    {
        let ghost class = |c: char| is_alphanumeric(c);
        let ghost first = self.position();
        proof {
            assert(text@ =~= old(text)@ + self.input().subrange(first as int, first as int));
        }
        loop
            invariant
                self.well_formed(),
                self.input() == old(self).input(),
                first == old(self).position(),
                first <= self.position(),
                class == (|c: char| is_alphanumeric(c)),
                run_end(self.input(), self.position(), class) == run_end(
                    self.input(),
                    first,
                    class,
                ),
                text@ == old(text)@ + self.input().subrange(first as int, self.position() as int),
            ensures
                self.position() == run_end(self.input(), first, class),
            decreases self.input().len() - self.position(),
        {
            match self.peek() {
                Some(c) if alphanumeric(c) => {
                    let ghost before = self.position();
                    let _ = self.step();
                    text.push(c);
                    proof {
                        assert(class(c));
                        assert(self.input().subrange(first as int, self.position() as int)
                            =~= self.input().subrange(first as int, before as int).push(c));
                    }
                },
                _ => {
                    break ;
                },
            }
        }
    }

    /// Reads characters while they are digits or points, appends them to
    /// `text`, and counts the points among them.
    #[verifier::rlimit(50)]
    fn take_numeral(&mut self, text: &mut String) -> (points: usize)
        requires
            old(self).well_formed(),
        ensures
            final(self).well_formed(),
            final(self).input() == old(self).input(),
            final(self).position() == run_end(
                old(self).input(),
                old(self).position(),
                |c: char| is_numeral_char(c),
            ),
            final(text)@ == old(text)@ + old(self).input().subrange(
                old(self).position() as int,
                final(self).position() as int,
            ),
            points == count_points(
                old(self).input().subrange(
                    old(self).position() as int,
                    final(self).position() as int,
                ),
            ),
            points <= final(self).position() - old(self).position(),
    {
        let ghost class = |c: char| is_numeral_char(c);
        let ghost first = self.position();
        let mut points: usize = 0;
        proof {
            assert(text@ =~= old(text)@ + self.input().subrange(first as int, first as int));
        }
        loop
            invariant
                self.well_formed(),
                self.input() == old(self).input(),
                first == old(self).position(),
                first <= self.position(),
                class == (|c: char| is_numeral_char(c)),
                run_end(self.input(), self.position(), class) == run_end(
                    self.input(),
                    first,
                    class,
                ),
                text@ == old(text)@ + self.input().subrange(first as int, self.position() as int),
                points == count_points(
                    self.input().subrange(first as int, self.position() as int),
                ),
                points <= self.position() - first,
            ensures
                self.position() == run_end(self.input(), first, class),
            decreases self.input().len() - self.position(),
        {
            match self.peek() {
                Some(c) if digit(c) || c == '.' => {
                    let ghost before = self.position();
                    let _ = self.step();
                    text.push(c);
                    proof {
                        assert(class(c));
                        let taken = self.input().subrange(first as int, self.position() as int);
                        assert(taken =~= self.input().subrange(first as int, before as int).push(
                            c,
                        ));
                        assert(taken.drop_last() =~= self.input().subrange(
                            first as int,
                            before as int,
                        ));
                    }
                    if c == '.' {
                        points += 1;
                    }
                },
                _ => {
                    break ;
                },
            }
        }
        points
    }

    /// Reads the next token, or fails on a numeric literal that denotes no
    /// number. Either way the lexer has moved past what it read.
    #[verifier::rlimit(50)]
    pub fn gettok(&mut self) -> (r: Result<Token, LexError>)
        requires
            old(self).well_formed(),
        ensures
            final(self).well_formed(),
            final(self).input() == old(self).input(),
            final(self).position() == lex_at(old(self).input(), old(self).position()).next,
            match r {
                Ok(token) => lex_at(old(self).input(), old(self).position()).lexeme == Ok::<
                    TokenView,
                    LexErrorView,
                >(token@),
                Err(error) => lex_at(old(self).input(), old(self).position()).lexeme == Err::<
                    TokenView,
                    LexErrorView,
                >(error@),
            },
    {
        self.skip();
        let ghost start = self.position();
        let c = match self.step() {
            Some(c) => c,
            None => {
                return Ok(Token::Eof);
            },
        };
        if letter(c) {
            let mut word = String::new();
            word.push(c);
            self.take_word(&mut word);
            proof {
                lemma_run_end(self.input(), start + 1, |c: char| is_alphanumeric(c));
                assert(word@ =~= self.input().subrange(start as int, self.position() as int));
            }
            Ok(keyword_or_identifier(word))
        } else if digit(c) || c == '.' {
            let mut text = String::new();
            text.push(c);
            let points = self.take_numeral(&mut text);
            proof {
                lemma_run_end(self.input(), start + 1, |c: char| is_numeral_char(c));
                let rest = self.input().subrange(start as int + 1, self.position() as int);
                assert(text@ =~= self.input().subrange(start as int, self.position() as int));
                assert(text@ =~= seq![c] + rest);
                lemma_count_points_concat(seq![c], rest);
                assert(seq![c].drop_last() =~= Seq::<char>::empty());
                reveal_with_fuel(count_points, 2);
            }
            let total = if c == '.' {
                points + 1
            } else {
                points
            };
            if total <= 1 && total < text.as_str().unicode_len() {
                Ok(Token::Number(text))
            } else {
                Err(LexError { literal: text })
            }
        } else {
            Ok(Token::Char(c))
        }
    }
}

/// Whether `c` is an ASCII letter.
pub fn letter(c: char) -> (r: bool)
    ensures
        r == is_letter(c),
{
    ('a' <= c && c <= 'z') || ('A' <= c && c <= 'Z')
}

/// Whether `c` is an ASCII digit.
pub fn digit(c: char) -> (r: bool)
    ensures
        r == is_digit(c),
{
    '0' <= c && c <= '9'
}

/// Whether `c` is an ASCII letter or digit.
pub fn alphanumeric(c: char) -> (r: bool)
    ensures
        r == is_alphanumeric(c),
{
    letter(c) || digit(c)
}

/// The points of two texts joined are those of the one and of the other.
pub proof fn lemma_count_points_concat(a: Seq<char>, b: Seq<char>)
    ensures
        count_points(a + b) == count_points(a) + count_points(b),
    decreases b.len(),
{
    if b.len() == 0 {
        assert(a + b =~= a);
    } else {
        lemma_count_points_concat(a, b.drop_last());
        assert((a + b).drop_last() =~= a + b.drop_last());
    }
}

/// The token that `word` stands for.
#[verifier::rlimit(50)]
fn keyword_or_identifier(word: String) -> (r: Token)
    ensures
        r@ == word_token(word@),
{
    proof {
        reveal_strlit("def");
        reveal_strlit("extern");
        reveal_strlit("if");
        reveal_strlit("then");
        reveal_strlit("else");
        reveal_strlit("for");
        reveal_strlit("in");
    }
    if is_word(&word, "def") {
        proof {
            assert(word@ =~= seq!['d', 'e', 'f']);
        }
        Token::Def
    } else if is_word(&word, "extern") {
        proof {
            assert(word@ =~= seq!['e', 'x', 't', 'e', 'r', 'n']);
        }
        Token::Extern
    } else if is_word(&word, "if") {
        proof {
            assert(word@ =~= seq!['i', 'f']);
        }
        Token::If
    } else if is_word(&word, "then") {
        proof {
            assert(word@ =~= seq!['t', 'h', 'e', 'n']);
        }
        Token::Then
    } else if is_word(&word, "else") {
        proof {
            assert(word@ =~= seq!['e', 'l', 's', 'e']);
        }
        Token::Else
    } else if is_word(&word, "for") {
        proof {
            assert(word@ =~= seq!['f', 'o', 'r']);
        }
        Token::For
    } else if is_word(&word, "in") {
        proof {
            assert(word@ =~= seq!['i', 'n']);
        }
        Token::In
    } else {
        proof {
            assert("def"@ =~= seq!['d', 'e', 'f']);
            assert("extern"@ =~= seq!['e', 'x', 't', 'e', 'r', 'n']);
            assert("if"@ =~= seq!['i', 'f']);
            assert("then"@ =~= seq!['t', 'h', 'e', 'n']);
            assert("else"@ =~= seq!['e', 'l', 's', 'e']);
            assert("for"@ =~= seq!['f', 'o', 'r']);
            assert("in"@ =~= seq!['i', 'n']);
        }
        Token::Identifier(word)
    }
}

/// Whether `word` reads as `text`.
fn is_word(word: &String, text: &str) -> (r: bool)
    ensures
        r == (word@ == text@),
{
    *word == String::from_str(text)
}

} // verus!
