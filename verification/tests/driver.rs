use cobra_lang::driver::{Driver, Error, Step};
use cobra_lang::grammar::Expected;
use cobra_lang::ir_gen::CodegenError;
use cobra_lang::lexer::{Lexer, Token};
use cobra_lang::parser::{ParseError, Parser, PrototypeAST};

fn driver_on(source: &str) -> Driver {
    Driver::new(Parser::new(Lexer::new(source.chars().collect())))
}

/// What each step came to, in short.
fn outline(source: &str) -> Vec<String> {
    let mut driver = driver_on(source);
    let mut out = Vec::new();
    loop {
        assert!(out.len() < 1000, "the driver does not come to an end");
        match driver.step() {
            Step::Done => return out,
            Step::Skipped => out.push(";".to_string()),
            Step::Defined { module, function } => {
                out.push(format!("def {}", module.functions[function].name))
            }
            Step::Declared(proto) => out.push(format!("extern {}", proto.0)),
            Step::Evaluate { module, function } => {
                assert_eq!(module.functions[function].name, "");
                out.push("expr".to_string())
            }
            Step::Failed(error) => out.push(format!("{:?}", error)),
        }
    }
}

#[test]
fn empty_program_is_done_at_once() {
    let mut driver = driver_on("");
    assert_eq!(driver.step(), Step::Done);
    assert_eq!(driver.step(), Step::Done);
    assert_eq!(outline(" # nothing\n"), Vec::<String>::new());
}

#[test]
fn units_are_taken_one_per_step() {
    assert_eq!(
        outline("def f(x) x; extern g(a b); f(1) + g(1, 2); ;"),
        vec!["def f", ";", "extern g", ";", "expr", ";", ";"]
    );
    assert_eq!(outline("def f(x) x extern g(a) f(1)"), vec!["def f", "extern g", "expr"]);
}

#[test]
fn each_unit_has_a_module_of_its_own() {
    let mut driver = driver_on("def f(x) x def g(x) f(x) g(1)");
    for name in ["f", "g", ""] {
        match driver.step() {
            Step::Defined { module, function } | Step::Evaluate { module, function } => {
                assert_eq!(module.functions.len(), 1);
                assert_eq!(function, 0);
                assert_eq!(module.functions[0].name, name);
                assert!(module.functions[0].count_basic_blocks() > 0);
            }
            other => panic!("{:?}", other),
        }
    }
    assert_eq!(driver.step(), Step::Done);
}

#[test]
fn a_second_body_for_a_name_is_refused() {
    let mut driver = driver_on("def f(x) x; def f(x) x + 1; extern f(a b); def f(a b) a; f(1, 2)");
    assert!(matches!(driver.step(), Step::Defined { .. }));
    assert!(driver.is_defined(&"f".to_string()));
    assert_eq!(driver.step(), Step::Skipped);
    assert_eq!(
        driver.step(),
        Step::Failed(Error::Codegen(CodegenError::Redefinition("f".to_string())))
    );
    assert_eq!(driver.step(), Step::Skipped);
    // A declaration of the name is accepted, and shadows the signature.
    assert_eq!(
        driver.step(),
        Step::Declared(PrototypeAST("f".to_string(), vec!["a".to_string(), "b".to_string()]))
    );
    assert_eq!(driver.step(), Step::Skipped);
    assert_eq!(
        driver.step(),
        Step::Failed(Error::Codegen(CodegenError::Redefinition("f".to_string())))
    );
    assert_eq!(driver.step(), Step::Skipped);
    // Calls are resolved against the signature filed last.
    assert!(matches!(driver.step(), Step::Evaluate { .. }));
    assert_eq!(driver.step(), Step::Done);
}

#[test]
fn a_declaration_alone_allows_a_definition() {
    assert_eq!(outline("extern f(x); extern f(x y); def f(x) x"), vec![
        "extern f", ";", "extern f", ";", "def f"
    ]);
}

#[test]
fn a_definition_that_fails_may_be_given_again() {
    let mut driver = driver_on("def f(x) y; def f(x) x");
    assert_eq!(
        driver.step(),
        Step::Failed(Error::Codegen(CodegenError::UnknownVariable("y".to_string())))
    );
    assert!(!driver.is_defined(&"f".to_string()));
    assert_eq!(driver.step(), Step::Skipped);
    assert!(matches!(driver.step(), Step::Defined { .. }));
    assert!(driver.is_defined(&"f".to_string()));
}

#[test]
fn expressions_may_follow_one_another() {
    assert_eq!(outline("1; 2; 3"), vec!["expr", ";", "expr", ";", "expr"]);
}

#[test]
fn an_expression_is_compiled_against_the_signatures_on_file() {
    let mut driver = driver_on("foo(1,2); extern foo(a b); foo(1,2); foo(1,2,3)");
    assert_eq!(
        driver.step(),
        Step::Failed(Error::Codegen(CodegenError::UnknownFunction("foo".to_string())))
    );
    assert_eq!(driver.step(), Step::Skipped);
    assert!(matches!(driver.step(), Step::Declared(_)));
    assert!(driver.prototypes().contains(&"foo".to_string()));
    assert_eq!(driver.step(), Step::Skipped);
    assert!(matches!(driver.step(), Step::Evaluate { .. }));
    assert_eq!(driver.step(), Step::Skipped);
    assert_eq!(
        driver.step(),
        Step::Failed(Error::Codegen(CodegenError::ArgumentCount {
            callee: "foo".to_string(),
            expected: 2,
            actual: 3
        }))
    );
    assert_eq!(driver.step(), Step::Done);
}

#[test]
fn after_a_syntax_error_the_offending_token_is_dropped() {
    let mut driver = driver_on("def (x) 1; 2");
    assert_eq!(
        driver.step(),
        Step::Failed(Error::Parse(ParseError::Unexpected {
            expected: Expected::Identifier,
            found: Token::Char('(')
        }))
    );
    // The parenthesis is gone; `x` starts the next unit.
    assert_eq!(
        driver.step(),
        Step::Failed(Error::Codegen(CodegenError::UnknownVariable("x".to_string())))
    );
    assert_eq!(
        driver.step(),
        Step::Failed(Error::Parse(ParseError::Unexpected {
            expected: Expected::Primary,
            found: Token::Char(')')
        }))
    );
    assert!(matches!(driver.step(), Step::Evaluate { .. }));
    assert_eq!(driver.step(), Step::Skipped);
    assert!(matches!(driver.step(), Step::Evaluate { .. }));
    assert_eq!(driver.step(), Step::Done);
}

#[test]
fn a_unit_cut_short_by_the_end_of_the_input_fails_once() {
    assert_eq!(
        outline("def f(x"),
        vec![format!(
            "{:?}",
            Error::Parse(ParseError::Unexpected { expected: Expected::Char(')'), found: Token::Eof })
        )]
    );
    assert_eq!(outline("1 +").len(), 1);
    assert_eq!(outline("extern").len(), 1);
}

#[test]
fn a_malformed_numeral_fails_the_unit_it_stands_in() {
    let malformed = format!("{:?}", Error::Parse(ParseError::MalformedNumber("1.2.3".to_string())));
    assert_eq!(outline("1.2.3"), vec![malformed.clone()]);
    assert_eq!(outline("1.2.3 4"), vec![malformed.clone(), "expr".to_string()]);
    assert_eq!(outline("4 + 1.2.3; 5"), vec![malformed.clone(), ";".to_string(), "expr".to_string()]);
    assert_eq!(outline("4; 1.2.3 5"), vec![
        "expr".to_string(),
        malformed.clone(),
        "expr".to_string()
    ]);
    assert_eq!(outline("def f(x) x 1.2.3"), vec![malformed]);
}

#[test]
fn a_driver_may_start_on_a_parser_that_looks_at_a_token() {
    let mut parser = Parser::new(Lexer::new("1; def f() 2".chars().collect()));
    parser.get_next_token().unwrap();
    let mut driver = Driver::new(parser);
    assert!(matches!(driver.step(), Step::Evaluate { .. }));
    assert_eq!(driver.step(), Step::Skipped);
    assert!(matches!(driver.step(), Step::Defined { .. }));
    assert_eq!(driver.step(), Step::Done);
}

#[test]
fn run_gives_every_step_up_to_the_end() {
    let source = "def f(x) x + 1; extern g(a); f(g(2)); 1.2.3 ) def f(x) x";
    let mut stepped = driver_on(source);
    let mut one_by_one = Vec::new();
    loop {
        match stepped.step() {
            Step::Done => break,
            step => one_by_one.push(step),
        }
    }
    let mut driver = driver_on(source);
    let all = driver.run();
    assert_eq!(all, one_by_one);
    assert_eq!(all.len(), 8);
    assert!(matches!(all[0], Step::Defined { .. }));
    assert_eq!(all[1], Step::Skipped);
    assert!(matches!(all[2], Step::Declared(_)));
    assert!(matches!(all[4], Step::Evaluate { .. }));
    assert_eq!(
        all[5],
        Step::Failed(Error::Parse(ParseError::MalformedNumber("1.2.3".to_string())))
    );
    assert_eq!(
        all[7],
        Step::Failed(Error::Codegen(CodegenError::Redefinition("f".to_string())))
    );
    // At the end there is nothing more to do.
    assert_eq!(driver.run(), vec![]);
    assert_eq!(driver.step(), Step::Done);
    assert_eq!(driver_on("").run(), vec![]);
}
