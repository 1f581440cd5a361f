use cobra_lang::driver::Error;
use cobra_lang::grammar::Expected;
use cobra_lang::ir_gen::CodegenError;
use cobra_lang::lexer::Token;
use cobra_lang::messages::write_decimal;
use cobra_lang::parser::ParseError;

fn decimal(n: usize) -> String {
    let mut out = String::new();
    write_decimal(&mut out, n);
    out
}

#[test]
fn decimal_numerals() {
    assert_eq!(decimal(0), "0");
    assert_eq!(decimal(7), "7");
    assert_eq!(decimal(10), "10");
    assert_eq!(decimal(1234567890), "1234567890");
    assert_eq!(decimal(usize::MAX), usize::MAX.to_string());
    for n in 0..1200 {
        assert_eq!(decimal(n), n.to_string());
    }
    let mut out = "n = ".to_string();
    write_decimal(&mut out, 42);
    assert_eq!(out, "n = 42");
}

#[test]
fn code_generation_errors_describe_themselves() {
    assert_eq!(
        CodegenError::UnknownVariable("x".to_string()).message(),
        "Unknown variable name: x"
    );
    assert_eq!(
        CodegenError::UnknownFunction("foo".to_string()).message(),
        "Unknown function referenced: foo"
    );
    assert_eq!(
        CodegenError::ArgumentCount { callee: "foo".to_string(), expected: 2, actual: 3 }.message(),
        "Incorrect # of arguments passed to foo: expected 2, found 3"
    );
    assert_eq!(
        CodegenError::ArgumentCount { callee: "g".to_string(), expected: 0, actual: 12 }.message(),
        "Incorrect # of arguments passed to g: expected 0, found 12"
    );
    assert_eq!(CodegenError::UnknownOperator('^').message(), "Unknown binary operator: ^");
    assert_eq!(
        CodegenError::Redefinition("f".to_string()).message(),
        "Redefinition of function f"
    );
}

#[test]
fn parse_errors_describe_themselves() {
    assert_eq!(
        ParseError::MalformedNumber("1.2.3".to_string()).message(),
        "Invalid number: 1.2.3"
    );
    let found = |expected: Expected, found: Token| ParseError::Unexpected { expected, found }.message();
    assert_eq!(found(Expected::Primary, Token::Eof), "Expected primary expression, found end of input");
    assert_eq!(found(Expected::Char(')'), Token::Char(',')), "Expected ')', found ','");
    assert_eq!(
        found(Expected::Then, Token::Number("1".to_string())),
        "Expected 'then', found number 1"
    );
    assert_eq!(
        found(Expected::CloseOrComma, Token::Identifier("x".to_string())),
        "Expected ')' or ',', found identifier x"
    );
    assert_eq!(found(Expected::Identifier, Token::Def), "Expected identifier, found 'def'");
    assert_eq!(found(Expected::Number, Token::Extern), "Expected number, found 'extern'");
    assert_eq!(found(Expected::Operator, Token::If), "Expected operator, found 'if'");
    assert_eq!(found(Expected::Else, Token::Then), "Expected 'else', found 'then'");
    assert_eq!(found(Expected::In, Token::Else), "Expected 'in', found 'else'");
    assert_eq!(found(Expected::Def, Token::For), "Expected 'def', found 'for'");
    assert_eq!(found(Expected::Extern, Token::In), "Expected 'extern', found 'in'");
    assert_eq!(found(Expected::If, Token::Eof), "Expected 'if', found end of input");
    assert_eq!(found(Expected::For, Token::Eof), "Expected 'for', found end of input");
}

#[test]
fn an_error_of_either_kind_describes_itself() {
    assert_eq!(
        Error::Parse(ParseError::MalformedNumber("..".to_string())).message(),
        "Invalid number: .."
    );
    assert_eq!(
        Error::Codegen(CodegenError::UnknownFunction("foo".to_string())).message(),
        "Unknown function referenced: foo"
    );
}
