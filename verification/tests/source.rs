use cobra_lang::lexer::Lexer;
use cobra_lang::parser::{ExprAST, ParseError, Parser};
use cobra_lang::source::write_source;

fn parse(source: &str) -> Result<ExprAST, ParseError> {
    let mut parser = Parser::new(Lexer::new(source.chars().collect()));
    parser.get_next_token()?;
    let expr = parser.parse_expression()?;
    assert_eq!(parser.current_token(), &cobra_lang::lexer::Token::Eof, "{}", source);
    Ok(expr)
}

#[test]
fn canonical_text_parenthesizes_operations_conditionals_and_loops() {
    assert_eq!(parse("1 + 2 * 3").unwrap().to_source(), "( 1 + ( 2 * 3 ) ) ");
    assert_eq!(parse("1 * 2 + 3").unwrap().to_source(), "( ( 1 * 2 ) + 3 ) ");
    assert_eq!(parse("x").unwrap().to_source(), "x ");
    assert_eq!(parse("1.50").unwrap().to_source(), "1.50 ");
    assert_eq!(parse("f()").unwrap().to_source(), "f ( ) ");
    assert_eq!(parse("f(a)").unwrap().to_source(), "f ( a ) ");
    assert_eq!(parse("f(a,b+c , g())").unwrap().to_source(), "f ( a , ( b + c ) , g ( ) ) ");
    assert_eq!(
        parse("if a<b then 1 else 2").unwrap().to_source(),
        "( if ( a < b ) then 1 else 2 ) "
    );
    assert_eq!(
        parse("for i = 1, i < 4 in f(i)").unwrap().to_source(),
        "( for i = 1 , ( i < 4 ) in f ( i ) ) "
    );
    assert_eq!(
        parse("for i = 1, i < 4, 2 in f(i)").unwrap().to_source(),
        "( for i = 1 , ( i < 4 ) , 2 in f ( i ) ) "
    );
}

#[test]
fn text_is_appended_to_what_is_there() {
    let mut out = "y = ".to_string();
    write_source(&parse("a - 1").unwrap(), &mut out);
    assert_eq!(out, "y = ( a - 1 ) ");
}

#[test]
fn reading_the_canonical_text_gives_the_expression_back() {
    for source in [
        "1",
        "x",
        "1 + 2 * 3",
        "1 * 2 + 3",
        "a - b - c",
        "a < b + c * d - e / f",
        "(a + b) * (c - (d))",
        "f()",
        "f(x, g(y, 2.5), h())",
        "if a then b else c",
        "if a then b else c + d",
        "(if a then b else c) + d",
        "if if a then b else c then if d then e else f else g",
        "for i = 0, i < 10 in f(i)",
        "for i = 0, i < 10, 2 in for j = i, j < 3 in g(i, j)",
        "1 + for i = 1, i < 2 in i",
        "f(if a then 1 else 2, for i = 1, 2, 3 in 4) * 2",
        ".5 + 1. # with a comment\n - x1y2",
    ] {
        let first = parse(source).expect(source);
        let canonical = first.to_source();
        let second = parse(&canonical).expect(&canonical);
        assert_eq!(first, second, "{} as {}", source, canonical);
        // The canonical text is its own canonical text.
        assert_eq!(second.to_source(), canonical, "{}", source);
    }
}

#[test]
fn an_expression_that_the_parser_does_not_give_is_written_all_the_same() {
    let odd = ExprAST::BinaryOp(
        '>',
        Box::new(ExprAST::Variable("a".to_string())),
        Box::new(ExprAST::Variable("b".to_string())),
    );
    assert_eq!(odd.to_source(), "( a > b ) ");
    // `>` has no precedence, so this text does not read as an operation.
    assert!(parse("( a > b ) ").is_err());
}
