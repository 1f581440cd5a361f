use cobra_lang::grammar::Expected;
use cobra_lang::lexer::{Lexer, Token};
use cobra_lang::parser::{
    get_token_precedence, same_token, ExprAST, FunctionAST, ParseError, Parser, PrototypeAST,
};

fn parser_on(source: &str) -> Parser {
    let mut parser = Parser::new(Lexer::new(source.chars().collect()));
    parser.get_next_token().expect("the first token lexes");
    parser
}

fn parse(source: &str) -> Result<ExprAST, ParseError> {
    parser_on(source).parse_expression()
}

fn num(text: &str) -> ExprAST {
    ExprAST::Number(text.to_string())
}

fn var(name: &str) -> ExprAST {
    ExprAST::Variable(name.to_string())
}

fn bin(op: char, lhs: ExprAST, rhs: ExprAST) -> ExprAST {
    ExprAST::BinaryOp(op, Box::new(lhs), Box::new(rhs))
}

fn call(name: &str, args: Vec<ExprAST>) -> ExprAST {
    ExprAST::Call(name.to_string(), args)
}

fn unexpected(expected: Expected, found: Token) -> ParseError {
    ParseError::Unexpected { expected, found }
}

#[test]
fn multiplication_binds_tighter_than_addition() {
    assert_eq!(parse("1 + 2 * 3"), Ok(bin('+', num("1"), bin('*', num("2"), num("3")))));
    assert_eq!(parse("1 * 2 + 3"), Ok(bin('+', bin('*', num("1"), num("2")), num("3"))));
}

#[test]
fn operators_of_one_precedence_group_to_the_left() {
    assert_eq!(parse("a - b - c"), Ok(bin('-', bin('-', var("a"), var("b")), var("c"))));
    assert_eq!(parse("a - b + c"), Ok(bin('+', bin('-', var("a"), var("b")), var("c"))));
    assert_eq!(parse("a / b * c"), Ok(bin('*', bin('/', var("a"), var("b")), var("c"))));
}

#[test]
fn comparison_binds_loosest() {
    assert_eq!(
        parse("a + b < c * d"),
        Ok(bin('<', bin('+', var("a"), var("b")), bin('*', var("c"), var("d"))))
    );
    assert_eq!(
        parse("a < b + c * d - e"),
        Ok(bin(
            '<',
            var("a"),
            bin('-', bin('+', var("b"), bin('*', var("c"), var("d"))), var("e"))
        ))
    );
}

#[test]
fn precedence_table() {
    assert_eq!(get_token_precedence(&Token::Char('<')), 10);
    assert_eq!(get_token_precedence(&Token::Char('+')), 20);
    assert_eq!(get_token_precedence(&Token::Char('-')), 20);
    assert_eq!(get_token_precedence(&Token::Char('*')), 40);
    assert_eq!(get_token_precedence(&Token::Char('/')), 40);
    assert_eq!(get_token_precedence(&Token::Char('>')), -1);
    assert_eq!(get_token_precedence(&Token::Char(')')), -1);
    assert_eq!(get_token_precedence(&Token::Identifier("x".to_string())), -1);
    assert_eq!(get_token_precedence(&Token::Eof), -1);
}

#[test]
fn parentheses_group() {
    assert_eq!(parse("(1 + 2) * 3"), Ok(bin('*', bin('+', num("1"), num("2")), num("3"))));
    assert_eq!(parse("((x))"), Ok(var("x")));
}

#[test]
fn an_operator_without_precedence_ends_the_expression() {
    let mut parser = parser_on("a > b");
    assert_eq!(parser.parse_expression(), Ok(var("a")));
    assert_eq!(parser.current_token(), &Token::Char('>'));
}

#[test]
fn calls_take_any_number_of_arguments() {
    assert_eq!(parse("f()"), Ok(call("f", vec![])));
    assert_eq!(parse("f(x)"), Ok(call("f", vec![var("x")])));
    assert_eq!(
        parse("f(1, g(2), a + b)"),
        Ok(call("f", vec![num("1"), call("g", vec![num("2")]), bin('+', var("a"), var("b"))]))
    );
}

#[test]
fn conditional_has_both_branches() {
    assert_eq!(
        parse("if x < 1 then 10 else 20"),
        Ok(ExprAST::If {
            condition: Box::new(bin('<', var("x"), num("1"))),
            then_branch: Box::new(num("10")),
            else_branch: Box::new(num("20")),
        })
    );
    assert_eq!(parse("if x then 1"), Err(unexpected(Expected::Else, Token::Eof)));
    assert_eq!(parse("if x 1 else 2"), Err(unexpected(Expected::Then, Token::Number("1".to_string()))));
}

#[test]
fn the_else_branch_takes_the_operators_after_it() {
    assert_eq!(
        parse("if c then a else b + x"),
        Ok(ExprAST::If {
            condition: Box::new(var("c")),
            then_branch: Box::new(var("a")),
            else_branch: Box::new(bin('+', var("b"), var("x"))),
        })
    );
}

#[test]
fn loop_step_is_optional() {
    assert_eq!(
        parse("for i = 1, i < 4, 2 in f(i)"),
        Ok(ExprAST::For {
            variable_name: "i".to_string(),
            start: Box::new(num("1")),
            end: Box::new(bin('<', var("i"), num("4"))),
            step: Some(Box::new(num("2"))),
            body: Box::new(call("f", vec![var("i")])),
        })
    );
    assert_eq!(
        parse("for i = 1, i < 4 in i"),
        Ok(ExprAST::For {
            variable_name: "i".to_string(),
            start: Box::new(num("1")),
            end: Box::new(bin('<', var("i"), num("4"))),
            step: None,
            body: Box::new(var("i")),
        })
    );
}

#[test]
fn loop_errors_name_what_was_expected() {
    assert_eq!(parse("for 1"), Err(unexpected(Expected::Identifier, Token::Number("1".to_string()))));
    assert_eq!(parse("for i 1"), Err(unexpected(Expected::Char('='), Token::Number("1".to_string()))));
    assert_eq!(parse("for i = 1 in"), Err(unexpected(Expected::Char(','), Token::In)));
    assert_eq!(parse("for i = 1, 2 i"), Err(unexpected(Expected::In, Token::Identifier("i".to_string()))));
    assert_eq!(parse("for i = 1, 2, 3 i"), Err(unexpected(Expected::In, Token::Identifier("i".to_string()))));
}

#[test]
fn primary_errors_name_what_was_found() {
    assert_eq!(parse(")"), Err(unexpected(Expected::Primary, Token::Char(')'))));
    assert_eq!(parse(""), Err(unexpected(Expected::Primary, Token::Eof)));
    assert_eq!(parse("1 + then"), Err(unexpected(Expected::Primary, Token::Then)));
    assert_eq!(parse("(1"), Err(unexpected(Expected::Char(')'), Token::Eof)));
    assert_eq!(parse("f(1 2)"), Err(unexpected(Expected::CloseOrComma, Token::Number("2".to_string()))));
    assert_eq!(parse("f(1,)"), Err(unexpected(Expected::Primary, Token::Char(')'))));
}

#[test]
fn a_malformed_numeral_fails_the_unit() {
    assert_eq!(parse("1 + 1.2.3"), Err(ParseError::MalformedNumber("1.2.3".to_string())));
    assert_eq!(parse("x 1.2.3"), Err(ParseError::MalformedNumber("1.2.3".to_string())));
    let mut parser = Parser::new(Lexer::new("..".chars().collect()));
    assert_eq!(parser.get_next_token(), Err(ParseError::MalformedNumber("..".to_string())));
    assert!(!parser.looks_at_token());
    assert_eq!(parser.get_next_token(), Ok(()));
    assert_eq!(parser.current_token(), &Token::Eof);
}

#[test]
fn prototype_parameters_need_no_separators() {
    let mut parser = parser_on("foo(a b c) rest");
    assert_eq!(
        parser.parse_prototype(),
        Ok(PrototypeAST(
            "foo".to_string(),
            vec!["a".to_string(), "b".to_string(), "c".to_string()]
        ))
    );
    assert_eq!(parser.current_token(), &Token::Identifier("rest".to_string()));
    assert_eq!(parser_on("foo()").parse_prototype(), Ok(PrototypeAST("foo".to_string(), vec![])));
}

#[test]
fn prototype_errors() {
    assert_eq!(
        parser_on("(a)").parse_prototype(),
        Err(unexpected(Expected::Identifier, Token::Char('(')))
    );
    assert_eq!(
        parser_on("foo a").parse_prototype(),
        Err(unexpected(Expected::Char('('), Token::Identifier("a".to_string())))
    );
    assert_eq!(
        parser_on("foo(a, b)").parse_prototype(),
        Err(unexpected(Expected::Char(')'), Token::Char(',')))
    );
}

#[test]
fn definition_is_a_prototype_and_a_body() {
    assert_eq!(
        parser_on("def add(a b) a + b").parse_definition(),
        Ok(FunctionAST(
            PrototypeAST("add".to_string(), vec!["a".to_string(), "b".to_string()]),
            bin('+', var("a"), var("b"))
        ))
    );
    assert_eq!(
        parser_on("def 1").parse_definition(),
        Err(unexpected(Expected::Identifier, Token::Number("1".to_string())))
    );
}

#[test]
fn external_is_a_prototype_alone() {
    let mut parser = parser_on("extern sin(x) 1");
    assert_eq!(
        parser.parse_external(),
        Ok(PrototypeAST("sin".to_string(), vec!["x".to_string()]))
    );
    assert_eq!(parser.current_token(), &Token::Number("1".to_string()));
}

#[test]
fn top_level_expression_is_an_anonymous_function() {
    assert_eq!(
        parser_on("1 + x").parse_top_level_expr(),
        Ok(FunctionAST(PrototypeAST(String::new(), vec![]), bin('+', num("1"), var("x"))))
    );
}

#[test]
fn parsing_stops_after_the_expression() {
    let mut parser = parser_on("a + b ; c");
    assert_eq!(parser.parse_expression(), Ok(bin('+', var("a"), var("b"))));
    assert_eq!(parser.current_token(), &Token::Char(';'));
    assert_eq!(parser.get_next_token(), Ok(()));
    assert_eq!(parser.parse_expression(), Ok(var("c")));
    assert_eq!(parser.current_token(), &Token::Eof);
}

#[test]
fn a_failed_parse_looks_at_the_offending_token() {
    let mut parser = parser_on("(1 + ] 2");
    assert_eq!(parser.parse_expression(), Err(unexpected(Expected::Primary, Token::Char(']'))));
    assert_eq!(parser.current_token(), &Token::Char(']'));
    parser.discard_token();
    assert!(!parser.looks_at_token());
    assert_eq!(parser.get_next_token(), Ok(()));
    assert_eq!(parser.current_token(), &Token::Number("2".to_string()));
}

#[test]
fn same_token_compares_kind_and_payload() {
    assert!(same_token(&Token::If, &Token::If));
    assert!(!same_token(&Token::If, &Token::Then));
    assert!(same_token(&Token::Number("1".to_string()), &Token::Number("1".to_string())));
    assert!(!same_token(&Token::Number("1".to_string()), &Token::Number("1.".to_string())));
    assert!(!same_token(&Token::Number("x".to_string()), &Token::Identifier("x".to_string())));
    assert!(same_token(&Token::Char('+'), &Token::Char('+')));
    assert!(!same_token(&Token::Char('+'), &Token::Char('-')));
}
