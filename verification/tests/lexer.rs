use cobra_lang::lexer::{alphanumeric, digit, letter, LexError, Lexer, Token};

fn lex_all(source: &str) -> Vec<Result<Token, LexError>> {
    let mut lexer = Lexer::new(source.chars().collect());
    let mut out = Vec::new();
    loop {
        let lexeme = lexer.gettok();
        if lexeme == Ok(Token::Eof) {
            return out;
        }
        out.push(lexeme);
    }
}

fn ident(name: &str) -> Result<Token, LexError> {
    Ok(Token::Identifier(name.to_string()))
}

fn number(text: &str) -> Result<Token, LexError> {
    Ok(Token::Number(text.to_string()))
}

fn ch(c: char) -> Result<Token, LexError> {
    Ok(Token::Char(c))
}

#[test]
fn lexes_numbers_operators_identifiers_and_punctuation() {
    let tokens = lex_all("1.5 + x2 * (y, z)");
    assert_eq!(
        tokens,
        vec![
            number("1.5"),
            ch('+'),
            ident("x2"),
            ch('*'),
            ch('('),
            ident("y"),
            ch(','),
            ident("z"),
            ch(')'),
        ]
    );
    match &tokens[0] {
        Ok(Token::Number(text)) => assert_eq!(text.parse::<f64>(), Ok(1.5)),
        other => panic!("not a number: {:?}", other),
    }
}

#[test]
fn empty_input_is_end_of_input_again_and_again() {
    let mut lexer = Lexer::new(Vec::new());
    assert_eq!(lexer.gettok(), Ok(Token::Eof));
    assert_eq!(lexer.gettok(), Ok(Token::Eof));
    let mut blank = Lexer::new(" \t\n".chars().collect());
    assert_eq!(blank.gettok(), Ok(Token::Eof));
    assert_eq!(blank.gettok(), Ok(Token::Eof));
}

#[test]
fn keywords_are_told_from_identifiers() {
    assert_eq!(
        lex_all("def extern if then else for in"),
        vec![
            Ok(Token::Def),
            Ok(Token::Extern),
            Ok(Token::If),
            Ok(Token::Then),
            Ok(Token::Else),
            Ok(Token::For),
            Ok(Token::In),
        ]
    );
    assert_eq!(
        lex_all("define externs iff In fo r2d2"),
        vec![
            ident("define"),
            ident("externs"),
            ident("iff"),
            ident("In"),
            ident("fo"),
            ident("r2d2"),
        ]
    );
}

#[test]
fn comment_runs_to_the_end_of_its_line() {
    assert_eq!(lex_all("a # b c\n d"), vec![ident("a"), ident("d")]);
    assert_eq!(lex_all("# only a comment"), vec![]);
    assert_eq!(lex_all("#\n#\nx#"), vec![ident("x")]);
}

#[test]
fn any_other_character_is_a_token_by_itself() {
    assert_eq!(
        lex_all("<=>=;\r!"),
        vec![ch('<'), ch('='), ch('>'), ch('='), ch(';'), ch('\r'), ch('!')]
    );
}

#[test]
fn a_word_ends_where_letters_and_digits_end() {
    assert_eq!(lex_all("ab1+cd"), vec![ident("ab1"), ch('+'), ident("cd")]);
    assert_eq!(lex_all("1a"), vec![number("1"), ident("a")]);
    assert_eq!(lex_all("x.5"), vec![ident("x"), number(".5")]);
}

#[test]
fn numerals_have_at_most_one_point_and_at_least_one_digit() {
    assert_eq!(lex_all("1"), vec![number("1")]);
    assert_eq!(lex_all("1."), vec![number("1.")]);
    assert_eq!(lex_all(".5"), vec![number(".5")]);
    assert_eq!(lex_all("007.250"), vec![number("007.250")]);
    for malformed in ["1.2.3", ".", "..", "1..", ".1."] {
        assert_eq!(
            lex_all(malformed),
            vec![Err(LexError { literal: malformed.to_string() })],
            "{}",
            malformed
        );
        assert!(malformed.parse::<f64>().is_err(), "{}", malformed);
    }
    for numeral in ["1", "1.", ".5", "007.250", "12345678901234567890.5"] {
        assert!(numeral.parse::<f64>().is_ok(), "{}", numeral);
    }
}

#[test]
fn lexing_goes_on_after_a_malformed_numeral() {
    assert_eq!(
        lex_all("a 1.2.3 b"),
        vec![ident("a"), Err(LexError { literal: "1.2.3".to_string() }), ident("b")]
    );
}

#[test]
fn character_classes_are_the_ascii_ones() {
    for c in ['a', 'z', 'A', 'Z', 'm'] {
        assert!(letter(c) && !digit(c) && alphanumeric(c));
    }
    for c in ['0', '9', '5'] {
        assert!(!letter(c) && digit(c) && alphanumeric(c));
    }
    for c in ['_', ' ', '.', '@', '[', '`', '{', '/', ':', 'é', 'λ'] {
        assert!(!letter(c) && !digit(c) && !alphanumeric(c), "{}", c);
    }
}

#[test]
fn token_is_char_tells_the_character() {
    assert!(Token::Char('(').is_char('('));
    assert!(!Token::Char('(').is_char(')'));
    assert!(!Token::Identifier("x".to_string()).is_char('x'));
    assert_eq!(Token::Identifier("x".to_string()).clone(), Token::Identifier("x".to_string()));
}
