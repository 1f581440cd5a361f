use cobra_lang::driver::{Driver, Step};
use cobra_lang::ir::{BinOp, Function, Inst, Terminator, Value};
use cobra_lang::lexer::Lexer;
use cobra_lang::parser::Parser;

/// A call that left the program, with its arguments.
type OutsideCall = (String, Vec<f64>);

fn truth(holds: bool) -> f64 {
    if holds {
        1.0
    } else {
        0.0
    }
}

fn read(values: &[f64], args: &[f64], value: &Value) -> f64 {
    match value {
        Value::Param(i) => args[*i],
        Value::Inst(i) => values[*i],
    }
}

/// Runs `function` instruction by instruction. A call goes to the function
/// of that name among `defined`; where there is none it is logged and gives
/// zero.
fn run(defined: &[Function], log: &mut Vec<OutsideCall>, function: &Function, args: &[f64]) -> f64 {
    let mut values = vec![0.0f64; function.insts.len()];
    let mut block = 0usize;
    let mut from: Option<usize> = None;
    loop {
        for &id in &function.blocks[block].insts {
            let value = match &function.insts[id] {
                Inst::Const(text) => text.parse::<f64>().expect("a numeral"),
                Inst::Binary(op, lhs, rhs) => {
                    let (l, r) = (read(&values, args, lhs), read(&values, args, rhs));
                    match op {
                        BinOp::Add => l + r,
                        BinOp::Sub => l - r,
                        BinOp::Mul => l * r,
                        BinOp::Div => l / r,
                        BinOp::Lt => truth(l < r),
                        BinOp::Gt => truth(l > r),
                    }
                }
                Inst::Call(callee, passed) => {
                    let passed: Vec<f64> =
                        passed.iter().map(|a| read(&values, args, a)).collect();
                    match defined.iter().find(|f| &f.name == callee) {
                        Some(target) => run(defined, log, target, &passed),
                        None => {
                            log.push((callee.clone(), passed));
                            0.0
                        }
                    }
                }
                Inst::Phi(edges) => {
                    let edge = edges
                        .iter()
                        .find(|(_, origin)| Some(*origin) == from)
                        .expect("an edge from the block that control came from");
                    read(&values, args, &edge.0)
                }
            };
            values[id] = value;
        }
        match function.blocks[block].terminator.expect("a closed block") {
            Terminator::Br(target) => {
                from = Some(block);
                block = target;
            }
            Terminator::CondBr(condition, then_block, else_block) => {
                from = Some(block);
                block = if read(&values, args, &condition) != 0.0 { then_block } else { else_block };
            }
            Terminator::Ret(value) => return read(&values, args, &value),
        }
    }
}

/// Runs a program: the values of its top-level expressions, in order, and
/// the calls that left the program.
fn evaluate(source: &str) -> (Vec<f64>, Vec<OutsideCall>) {
    let mut driver = Driver::new(Parser::new(Lexer::new(source.chars().collect())));
    let mut defined: Vec<Function> = Vec::new();
    let mut log = Vec::new();
    let mut results = Vec::new();
    let mut steps = 0;
    loop {
        steps += 1;
        assert!(steps < 10_000, "the driver does not come to an end");
        match driver.step() {
            Step::Done => return (results, log),
            Step::Skipped | Step::Declared(_) => {}
            Step::Defined { mut module, function } => {
                defined.push(module.functions.remove(function));
            }
            Step::Evaluate { mut module, function } => {
                let anonymous = module.functions.remove(function);
                results.push(run(&defined, &mut log, &anonymous, &[]));
            }
            Step::Failed(error) => panic!("{:?}", error),
        }
    }
}

fn value_of(source: &str) -> f64 {
    let (results, _) = evaluate(source);
    assert_eq!(results.len(), 1, "{}", source);
    results[0]
}

#[test]
fn condition_holds_where_it_is_greater_than_zero() {
    assert_eq!(value_of("if 1 then 10 else 20"), 10.0);
    assert_eq!(value_of("if 0 then 10 else 20"), 20.0);
    assert_eq!(value_of("if 0.5 then 10 else 20"), 10.0);
    assert_eq!(value_of("if 0 - 1 then 10 else 20"), 20.0);
    assert_eq!(value_of("if 1 < 2 then 10 else 20"), 10.0);
    assert_eq!(value_of("if 2 < 1 then 10 else 20"), 20.0);
}

#[test]
fn loop_is_zero_and_runs_while_the_next_value_meets_the_end_condition() {
    assert_eq!(value_of("for i = 1, i < 4, 1 in i"), 0.0);
    let (results, calls) = evaluate("extern putchard(c); for i = 1, i < 4, 1 in putchard(42)");
    assert_eq!(results, vec![0.0]);
    assert_eq!(
        calls,
        vec![
            ("putchard".to_string(), vec![42.0]),
            ("putchard".to_string(), vec![42.0]),
            ("putchard".to_string(), vec![42.0]),
        ]
    );
}

#[test]
fn loop_body_sees_each_value_of_the_variable() {
    let (_, calls) = evaluate("extern show(x); for i = 1, i < 4 in show(i)");
    assert_eq!(
        calls,
        vec![
            ("show".to_string(), vec![1.0]),
            ("show".to_string(), vec![2.0]),
            ("show".to_string(), vec![3.0]),
        ]
    );
    let (_, stepped) = evaluate("extern show(x); for i = 0, i < 10, 4 in show(i)");
    assert_eq!(
        stepped,
        vec![
            ("show".to_string(), vec![0.0]),
            ("show".to_string(), vec![4.0]),
            ("show".to_string(), vec![8.0]),
        ]
    );
}

#[test]
fn loop_body_runs_once_at_least() {
    let (results, calls) = evaluate("extern show(x); for i = 5, i < 4 in show(i)");
    assert_eq!(results, vec![0.0]);
    assert_eq!(calls, vec![("show".to_string(), vec![5.0])]);
}

#[test]
fn arithmetic_and_comparison() {
    assert_eq!(value_of("1 + 2 * 3"), 7.0);
    assert_eq!(value_of("(1 + 2) * 3"), 9.0);
    assert_eq!(value_of("7 / 2"), 3.5);
    assert_eq!(value_of("1 - 2 - 3"), -4.0);
    assert_eq!(value_of("1 < 2"), 1.0);
    assert_eq!(value_of("2 < 1"), 0.0);
    assert_eq!(value_of(".5 + 1."), 1.5);
}

#[test]
fn defined_functions_are_called_with_their_arguments() {
    let (results, _) = evaluate(
        "def add(a b) a + b; def twice(x) add(x, x); twice(4); add(1, twice(2)) # 5\n",
    );
    assert_eq!(results, vec![8.0, 5.0]);
}

#[test]
fn operands_and_arguments_are_evaluated_from_left_to_right() {
    let (_, calls) = evaluate("extern a(); extern b(x y); extern c(); b(a(), c()) + a()");
    let names: Vec<&str> = calls.iter().map(|(name, _)| name.as_str()).collect();
    assert_eq!(names, vec!["a", "c", "b", "a"]);
}

#[test]
fn recursion_terminates_through_the_conditional() {
    let (results, _) = evaluate(
        "def fact(n) if n < 2 then 1 else n * fact(n - 1); fact(5); \
         def fib(x) if x < 3 then 1 else fib(x - 1) + fib(x - 2); fib(10)",
    );
    assert_eq!(results, vec![120.0, 55.0]);
}

#[test]
fn nested_control_flow_merges_from_the_right_blocks() {
    assert_eq!(value_of("if 1 then (if 0 then 1 else 2) else 3"), 2.0);
    assert_eq!(value_of("if 0 then 1 else if 1 then 2 else 3"), 2.0);
    let (results, calls) = evaluate(
        "extern show(x); for i = 1, i < 3 in for j = 10, j < 12 in show(i * 100 + j)",
    );
    assert_eq!(results, vec![0.0]);
    let shown: Vec<f64> = calls.iter().map(|(_, args)| args[0]).collect();
    assert_eq!(shown, vec![110.0, 111.0, 210.0, 211.0]);
    assert_eq!(
        value_of("if (for i = 1, i < 3 in i) then 1 else 2"),
        2.0
    );
}
