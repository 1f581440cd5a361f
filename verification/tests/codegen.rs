use cobra_lang::ir::{
    BinOp, Block, BlockKind, Function, IRBuilder, Inst, Module, Terminator, Value,
};
use cobra_lang::ir_gen::{binop_for, CodegenError, IRGen};
use cobra_lang::lexer::Lexer;
use cobra_lang::parser::{ExprAST, FunctionAST, Parser, PrototypeAST};
use cobra_lang::registry::Registry;
use cobra_lang::scope::Scope;
use cobra_lang::Either;

fn parse_definition(source: &str) -> FunctionAST {
    let mut parser = Parser::new(Lexer::new(source.chars().collect()));
    parser.get_next_token().expect("the first token lexes");
    parser.parse_definition().expect("the definition parses")
}

fn parse_top_level(source: &str) -> FunctionAST {
    let mut parser = Parser::new(Lexer::new(source.chars().collect()));
    parser.get_next_token().expect("the first token lexes");
    parser.parse_top_level_expr().expect("the expression parses")
}

fn proto(name: &str, params: &[&str]) -> PrototypeAST {
    PrototypeAST(name.to_string(), params.iter().map(|p| p.to_string()).collect())
}

fn compile(protos: &mut Registry, source: &str) -> Result<Function, CodegenError> {
    let mut module = Module::new();
    let func = parse_top_level(source);
    let at = IRGen::compile(&mut module, protos, Either::Right(&func))?;
    Ok(module.functions.remove(at))
}

fn block(kind: BlockKind, insts: &[usize], terminator: Terminator) -> Block {
    Block { kind, insts: insts.to_vec(), terminator: Some(terminator) }
}

fn constant(text: &str) -> Inst {
    Inst::Const(text.to_string())
}

#[test]
fn undeclared_function_is_unknown() {
    let mut protos = Registry::new();
    assert_eq!(
        compile(&mut protos, "foo(1,2)"),
        Err(CodegenError::UnknownFunction("foo".to_string()))
    );
}

#[test]
fn argument_count_must_match_the_signature() {
    let mut protos = Registry::new();
    protos.insert(proto("foo", &["a", "b"]));
    assert_eq!(
        compile(&mut protos, "foo(1, 2, 3)"),
        Err(CodegenError::ArgumentCount { callee: "foo".to_string(), expected: 2, actual: 3 })
    );
    assert_eq!(
        compile(&mut protos, "foo(1)"),
        Err(CodegenError::ArgumentCount { callee: "foo".to_string(), expected: 2, actual: 1 })
    );
    assert!(compile(&mut protos, "foo(1, 2)").is_ok());
}

#[test]
fn unbound_name_is_an_unknown_variable() {
    let mut protos = Registry::new();
    assert_eq!(
        compile(&mut protos, "1 + x"),
        Err(CodegenError::UnknownVariable("x".to_string()))
    );
}

#[test]
fn operator_without_an_instruction_is_unknown() {
    let mut protos = Registry::new();
    let mut module = Module::new();
    let func = FunctionAST(
        proto("", &[]),
        ExprAST::BinaryOp(
            '^',
            Box::new(ExprAST::Number("1".to_string())),
            Box::new(ExprAST::Number("2".to_string())),
        ),
    );
    assert_eq!(
        IRGen::compile(&mut module, &mut protos, Either::Right(&func)),
        Err(CodegenError::UnknownOperator('^'))
    );
    assert!(module.functions.is_empty());
}

#[test]
fn operands_are_checked_before_the_operator() {
    let mut protos = Registry::new();
    let mut module = Module::new();
    let func = FunctionAST(
        proto("", &[]),
        ExprAST::BinaryOp(
            '^',
            Box::new(ExprAST::Variable("a".to_string())),
            Box::new(ExprAST::Variable("b".to_string())),
        ),
    );
    assert_eq!(
        IRGen::compile(&mut module, &mut protos, Either::Right(&func)),
        Err(CodegenError::UnknownVariable("a".to_string()))
    );
}

#[test]
fn the_first_error_from_the_left_is_reported() {
    let mut protos = Registry::new();
    protos.insert(proto("f", &["a", "b"]));
    assert_eq!(
        compile(&mut protos, "f(x, g(1))"),
        Err(CodegenError::UnknownVariable("x".to_string()))
    );
    assert_eq!(
        compile(&mut protos, "f(g(1), x)"),
        Err(CodegenError::UnknownFunction("g".to_string()))
    );
    assert_eq!(
        compile(&mut protos, "f(1, 2, x)"),
        Err(CodegenError::ArgumentCount { callee: "f".to_string(), expected: 2, actual: 3 })
    );
}

#[test]
fn operator_characters_and_their_instructions() {
    assert_eq!(binop_for('+'), Some(BinOp::Add));
    assert_eq!(binop_for('-'), Some(BinOp::Sub));
    assert_eq!(binop_for('*'), Some(BinOp::Mul));
    assert_eq!(binop_for('/'), Some(BinOp::Div));
    assert_eq!(binop_for('<'), Some(BinOp::Lt));
    assert_eq!(binop_for('>'), Some(BinOp::Gt));
    assert_eq!(binop_for('='), None);
    assert_eq!(binop_for('!'), None);
}

#[test]
fn arithmetic_lowers_left_to_right_into_the_entry_block() {
    let mut protos = Registry::new();
    let mut module = Module::new();
    let func = parse_definition("def f(a b) a * 2 + b");
    assert_eq!(IRGen::compile(&mut module, &mut protos, Either::Right(&func)), Ok(0));
    assert_eq!(
        module.functions,
        vec![Function {
            name: "f".to_string(),
            params: vec!["a".to_string(), "b".to_string()],
            insts: vec![
                constant("2"),
                Inst::Binary(BinOp::Mul, Value::Param(0), Value::Inst(0)),
                Inst::Binary(BinOp::Add, Value::Inst(1), Value::Param(1)),
            ],
            blocks: vec![block(BlockKind::Entry, &[0, 1, 2], Terminator::Ret(Value::Inst(2)))],
        }]
    );
    assert_eq!(protos.get(&"f".to_string()), Some(&proto("f", &["a", "b"])));
}

#[test]
fn call_lowers_its_arguments_then_the_call() {
    let mut protos = Registry::new();
    protos.insert(proto("g", &["x", "y"]));
    assert_eq!(
        compile(&mut protos, "g(1, 2 - 3)"),
        Ok(Function {
            name: String::new(),
            params: vec![],
            insts: vec![
                constant("1"),
                constant("2"),
                constant("3"),
                Inst::Binary(BinOp::Sub, Value::Inst(1), Value::Inst(2)),
                Inst::Call("g".to_string(), vec![Value::Inst(0), Value::Inst(3)]),
            ],
            blocks: vec![block(BlockKind::Entry, &[0, 1, 2, 3, 4], Terminator::Ret(Value::Inst(4)))],
        })
    );
}

#[test]
fn conditional_merges_the_branch_values_from_the_blocks_they_end_in() {
    let mut protos = Registry::new();
    assert_eq!(
        compile(&mut protos, "if 1 then 10 else 20"),
        Ok(Function {
            name: String::new(),
            params: vec![],
            insts: vec![
                constant("1"),
                constant("0"),
                Inst::Binary(BinOp::Gt, Value::Inst(0), Value::Inst(1)),
                constant("10"),
                constant("20"),
                Inst::Phi(vec![(Value::Inst(3), 1), (Value::Inst(4), 2)]),
            ],
            blocks: vec![
                block(BlockKind::Entry, &[0, 1, 2], Terminator::CondBr(Value::Inst(2), 1, 2)),
                block(BlockKind::Then, &[3], Terminator::Br(3)),
                block(BlockKind::Else, &[4], Terminator::Br(3)),
                block(BlockKind::IfCont, &[5], Terminator::Ret(Value::Inst(5))),
            ],
        })
    );
}

#[test]
fn nested_conditional_records_the_exit_block_of_a_branch() {
    let mut protos = Registry::new();
    let function = compile(&mut protos, "if 1 then if 2 then 3 else 4 else 5").unwrap();
    assert_eq!(function.blocks.len(), 7);
    // The outer then-branch starts in block 1 and ends in the inner
    // continuation, block 6.
    assert_eq!(function.blocks[1].kind, BlockKind::Then);
    assert_eq!(function.blocks[6].kind, BlockKind::IfCont);
    assert_eq!(function.blocks[6].terminator, Some(Terminator::Br(3)));
    let outer = function.blocks[3].insts[0];
    let inner = function.blocks[6].insts[0];
    match &function.insts[outer] {
        Inst::Phi(edges) => {
            assert_eq!(edges.len(), 2);
            assert_eq!(edges[0], (Value::Inst(inner), 6));
            assert_eq!(edges[1].1, 2);
        }
        other => panic!("not a merge: {:?}", other),
    }
    assert_eq!(function.blocks[3].terminator, Some(Terminator::Ret(Value::Inst(outer))));
}

#[test]
fn loop_has_a_merge_with_two_edges_and_the_value_zero() {
    let mut protos = Registry::new();
    assert_eq!(
        compile(&mut protos, "for i = 1, i < 4 in i"),
        Ok(Function {
            name: String::new(),
            params: vec![],
            insts: vec![
                constant("1"),
                Inst::Phi(vec![(Value::Inst(0), 0), (Value::Inst(3), 1)]),
                constant("1"),
                Inst::Binary(BinOp::Add, Value::Inst(1), Value::Inst(2)),
                constant("4"),
                Inst::Binary(BinOp::Lt, Value::Inst(3), Value::Inst(4)),
                constant("0"),
                Inst::Binary(BinOp::Gt, Value::Inst(5), Value::Inst(6)),
                constant("0"),
            ],
            blocks: vec![
                block(BlockKind::Entry, &[0], Terminator::Br(1)),
                block(
                    BlockKind::Loop,
                    &[1, 2, 3, 4, 5, 6, 7],
                    Terminator::CondBr(Value::Inst(7), 1, 2)
                ),
                block(BlockKind::AfterLoop, &[8], Terminator::Ret(Value::Inst(8))),
            ],
        })
    );
}

#[test]
fn loop_variable_shadows_and_is_restored() {
    let mut protos = Registry::new();
    let mut module = Module::new();
    let func = parse_definition("def f(i) (for i = 1, i < 3 in i) + i");
    assert_eq!(IRGen::compile(&mut module, &mut protos, Either::Right(&func)), Ok(0));
    let function = &module.functions[0];
    // After the loop the name stands for the parameter again.
    let last = function.insts.len() - 1;
    match &function.insts[last] {
        Inst::Binary(BinOp::Add, Value::Inst(_), Value::Param(0)) => {}
        other => panic!("the sum does not use the parameter: {:?}", other),
    }
    // Inside, it stood for the merge.
    assert!(matches!(function.insts[1], Inst::Phi(_)));
    assert_eq!(
        function.insts[3],
        Inst::Binary(BinOp::Add, Value::Inst(1), Value::Inst(2))
    );
}

#[test]
fn loop_variable_is_unbound_after_the_loop() {
    let mut protos = Registry::new();
    assert_eq!(
        compile(&mut protos, "(for i = 1, i < 3 in i) + i"),
        Err(CodegenError::UnknownVariable("i".to_string()))
    );
}

#[test]
fn a_body_for_a_name_that_has_one_is_a_redefinition() {
    let mut protos = Registry::new();
    let mut module = Module::new();
    let first = parse_definition("def f(x) x + 1");
    let second = parse_definition("def f(x y) x * y");
    assert_eq!(IRGen::compile(&mut module, &mut protos, Either::Right(&first)), Ok(0));
    let before = format!("{:?}", module);
    assert_eq!(
        IRGen::compile(&mut module, &mut protos, Either::Right(&second)),
        Err(CodegenError::Redefinition("f".to_string()))
    );
    assert_eq!(format!("{:?}", module), before);
    // The later signature is on file all the same.
    assert_eq!(protos.get(&"f".to_string()), Some(&proto("f", &["x", "y"])));
}

#[test]
fn a_declaration_after_a_definition_changes_nothing() {
    let mut protos = Registry::new();
    let mut module = Module::new();
    let first = parse_definition("def f(x) x + 1");
    assert_eq!(IRGen::compile(&mut module, &mut protos, Either::Right(&first)), Ok(0));
    let before = format!("{:?}", module);
    let again = proto("f", &["a", "b"]);
    assert_eq!(IRGen::compile(&mut module, &mut protos, Either::Left(&again)), Ok(0));
    assert_eq!(format!("{:?}", module), before);
    assert_eq!(
        IRGen::compile(&mut module, &mut protos, Either::Right(&first)),
        Err(CodegenError::Redefinition("f".to_string()))
    );
}

#[test]
fn a_declaration_before_a_definition_gives_way_to_it() {
    let mut protos = Registry::new();
    let mut module = Module::new();
    let other = proto("g", &[]);
    let declared = proto("f", &["a"]);
    assert_eq!(IRGen::compile(&mut module, &mut protos, Either::Left(&other)), Ok(0));
    assert_eq!(IRGen::compile(&mut module, &mut protos, Either::Left(&declared)), Ok(1));
    assert_eq!(IRGen::get_function(&module, &"f".to_string()), None);
    assert_eq!(module.get_function(&"f".to_string()), Some(1));
    assert_eq!(module.functions[1].count_basic_blocks(), 0);
    // A second declaration replaces the first.
    assert_eq!(
        IRGen::compile(&mut module, &mut protos, Either::Left(&proto("f", &["a", "b"]))),
        Ok(1)
    );
    assert_eq!(module.functions[1].params, vec!["a".to_string(), "b".to_string()]);
    let defined = parse_definition("def f(x) x");
    assert_eq!(IRGen::compile(&mut module, &mut protos, Either::Right(&defined)), Ok(1));
    assert_eq!(module.functions.len(), 2);
    assert_eq!(module.functions[1].params, vec!["x".to_string()]);
    assert_eq!(IRGen::get_function(&module, &"f".to_string()), Some(1));
    assert_eq!(IRGen::get_function(&module, &"g".to_string()), None);
    assert_eq!(IRGen::get_function(&module, &"h".to_string()), None);
}

#[test]
fn a_function_that_fails_to_compile_leaves_the_module() {
    let mut protos = Registry::new();
    let mut module = Module::new();
    assert_eq!(IRGen::compile(&mut module, &mut protos, Either::Left(&proto("g", &[]))), Ok(0));
    assert_eq!(IRGen::compile(&mut module, &mut protos, Either::Left(&proto("f", &[]))), Ok(1));
    let broken = parse_definition("def f(x) x + y");
    assert_eq!(
        IRGen::compile(&mut module, &mut protos, Either::Right(&broken)),
        Err(CodegenError::UnknownVariable("y".to_string()))
    );
    assert_eq!(module.functions.len(), 1);
    assert_eq!(module.functions[0].name, "g");
    // Nothing of it stays, so a later definition is no redefinition.
    let mended = parse_definition("def f(x) x + 1");
    assert_eq!(IRGen::compile(&mut module, &mut protos, Either::Right(&mended)), Ok(1));
}

#[test]
fn a_function_may_call_itself() {
    let mut protos = Registry::new();
    let mut module = Module::new();
    let func = parse_definition("def fact(n) if n < 2 then 1 else n * fact(n - 1)");
    assert_eq!(IRGen::compile(&mut module, &mut protos, Either::Right(&func)), Ok(0));
}

#[test]
fn a_later_parameter_shadows_an_earlier_one_of_its_name() {
    let mut protos = Registry::new();
    let mut module = Module::new();
    let func = parse_definition("def f(a a) a");
    assert_eq!(IRGen::compile(&mut module, &mut protos, Either::Right(&func)), Ok(0));
    assert_eq!(
        module.functions[0].blocks[0].terminator,
        Some(Terminator::Ret(Value::Param(1)))
    );
}

#[test]
fn generator_starts_with_the_parameters_in_scope() {
    let gen = IRGen::new(&proto("f", &["a", "b"]));
    assert_eq!(gen.named_values.get(&"a".to_string()), Some(Value::Param(0)));
    assert_eq!(gen.named_values.get(&"b".to_string()), Some(Value::Param(1)));
    assert_eq!(gen.named_values.get(&"c".to_string()), None);
    assert_eq!(gen.builder.get_insert_block(), 0);
    assert_eq!(gen.builder.count_basic_blocks(), 1);
    let protos = Registry::new();
    let (value, gen) = match gen.irgen_expr(&protos, &ExprAST::Variable("b".to_string())) {
        Ok(done) => done,
        Err(error) => panic!("{:?}", error),
    };
    assert_eq!(value, Value::Param(1));
    assert!(gen.builder.finish().insts.is_empty());
}

#[test]
fn builder_emits_into_the_insertion_block() {
    let mut builder = IRBuilder::new(Function::declare(&"f".to_string(), &vec!["x".to_string()]));
    let one = builder.build_const("1".to_string());
    assert_eq!(one, Value::Inst(0));
    let next = builder.append_basic_block(BlockKind::Loop);
    assert_eq!(next, 1);
    assert_eq!(builder.get_insert_block(), 0);
    builder.build_br(next);
    builder.position_at_end(next);
    let merge = builder.build_phi(vec![(one, 0)]);
    let sum = builder.build_binary(BinOp::Add, merge, Value::Param(0));
    builder.add_incoming(merge, sum, 1);
    let called = builder.build_call("g".to_string(), vec![sum]);
    let after = builder.append_basic_block(BlockKind::AfterLoop);
    builder.build_cond_br(called, next, after);
    builder.position_at_end(after);
    builder.build_ret(sum);
    assert_eq!(
        builder.finish(),
        Function {
            name: "f".to_string(),
            params: vec!["x".to_string()],
            insts: vec![
                constant("1"),
                Inst::Phi(vec![(Value::Inst(0), 0), (Value::Inst(2), 1)]),
                Inst::Binary(BinOp::Add, Value::Inst(1), Value::Param(0)),
                Inst::Call("g".to_string(), vec![Value::Inst(2)]),
            ],
            blocks: vec![
                block(BlockKind::Entry, &[0], Terminator::Br(1)),
                block(BlockKind::Loop, &[1, 2, 3], Terminator::CondBr(Value::Inst(3), 1, 2)),
                block(BlockKind::AfterLoop, &[], Terminator::Ret(Value::Inst(2))),
            ],
        }
    );
}

#[test]
fn registry_files_the_latest_signature_under_a_name() {
    let mut protos = Registry::new();
    let f = "f".to_string();
    assert_eq!(protos.get(&f), None);
    assert!(!protos.contains(&f));
    protos.insert(proto("f", &["a"]));
    protos.insert(proto("g", &[]));
    assert_eq!(protos.get(&f), Some(&proto("f", &["a"])));
    protos.insert(proto("f", &["a", "b"]));
    assert_eq!(protos.get(&f), Some(&proto("f", &["a", "b"])));
    assert_eq!(protos.get(&"g".to_string()), Some(&proto("g", &[])));
    assert!(protos.contains(&f));
    assert!(!protos.contains(&"h".to_string()));
}

#[test]
fn scope_is_a_stack_of_bindings() {
    let mut scope = Scope::new();
    let x = "x".to_string();
    assert_eq!(scope.get(&x), None);
    scope.unbind();
    scope.bind(x.clone(), Value::Param(0));
    scope.bind("y".to_string(), Value::Param(1));
    scope.bind(x.clone(), Value::Inst(7));
    assert_eq!(scope.get(&x), Some(Value::Inst(7)));
    scope.unbind();
    assert_eq!(scope.get(&x), Some(Value::Param(0)));
    assert_eq!(scope.get(&"y".to_string()), Some(Value::Param(1)));
    scope.unbind();
    assert_eq!(scope.get(&"y".to_string()), None);
    scope.clear();
    assert_eq!(scope.get(&x), None);
}
