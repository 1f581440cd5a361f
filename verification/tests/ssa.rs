use cobra_lang::driver::{Driver, Step};
use cobra_lang::ir::{Function, Inst, Terminator, Value};
use cobra_lang::lexer::Lexer;
use cobra_lang::parser::Parser;

fn functions_of(source: &str) -> Vec<Function> {
    let mut driver = Driver::new(Parser::new(Lexer::new(source.chars().collect())));
    let mut out = Vec::new();
    loop {
        assert!(out.len() < 1000);
        match driver.step() {
            Step::Done => return out,
            Step::Skipped | Step::Declared(_) => {}
            Step::Defined { mut module, function } | Step::Evaluate { mut module, function } => {
                assert_eq!(module.functions.len(), 1);
                out.push(module.functions.remove(function));
            }
            Step::Failed(error) => panic!("{:?}", error),
        }
    }
}

fn defines(f: &Function, v: &Value) -> bool {
    match v {
        Value::Param(i) => *i < f.params.len(),
        Value::Inst(i) => *i < f.insts.len(),
    }
}

fn defines_before(f: &Function, v: &Value, at: usize) -> bool {
    match v {
        Value::Param(i) => *i < f.params.len(),
        Value::Inst(i) => *i < at,
    }
}

fn jumps(f: &Function, from: usize, to: usize) -> bool {
    match f.blocks[from].terminator {
        Some(Terminator::Br(target)) => target == to,
        Some(Terminator::CondBr(_, a, b)) => a == to || b == to,
        _ => false,
    }
}

/// Checks by hand what every compiled function is proved to be.
fn assert_well_formed(f: &Function) {
    let blocks = f.blocks.len();
    assert!(blocks > 0);
    // Closed.
    for inst in &f.insts {
        match inst {
            Inst::Const(_) => {}
            Inst::Binary(_, l, r) => assert!(defines(f, l) && defines(f, r)),
            Inst::Call(_, args) => assert!(args.iter().all(|a| defines(f, a))),
            Inst::Phi(edges) => {
                assert!(edges.iter().all(|(v, from)| defines(f, v) && *from < blocks))
            }
        }
    }
    // Complete, and the terminators closed.
    for block in &f.blocks {
        assert!(block.insts.iter().all(|id| *id < f.insts.len()));
        match block.terminator.expect("every block ends in a terminator") {
            Terminator::Br(target) => assert!(target < blocks),
            Terminator::CondBr(c, a, b) => assert!(defines(f, &c) && a < blocks && b < blocks),
            Terminator::Ret(v) => assert!(defines(f, &v)),
        }
    }
    // Placed: every instruction is named once.
    let mut named = vec![0usize; f.insts.len()];
    for block in &f.blocks {
        for id in &block.insts {
            named[*id] += 1;
        }
    }
    assert!(named.iter().all(|count| *count == 1), "{:?}", named);
    // Merges lead their blocks and agree with the jumps.
    for (k, block) in f.blocks.iter().enumerate() {
        for (j, id) in block.insts.iter().enumerate() {
            if let Inst::Phi(edges) = &f.insts[*id] {
                assert_eq!(j, 0);
                for from in 0..blocks {
                    let edge = edges.iter().any(|(_, origin)| *origin == from);
                    assert_eq!(edge, jumps(f, from, k), "block {} to block {}", from, k);
                }
            }
        }
    }
    // Ordered.
    for (i, inst) in f.insts.iter().enumerate() {
        match inst {
            Inst::Binary(_, l, r) => {
                assert!(defines_before(f, l, i) && defines_before(f, r, i))
            }
            Inst::Call(_, args) => assert!(args.iter().all(|a| defines_before(f, a, i))),
            _ => {}
        }
    }
}

#[test]
fn compiled_functions_are_in_static_single_assignment_form() {
    let programs = [
        "1",
        "1 + 2 * 3 - 4 / 5 < 6",
        "def f(a b c) a * b + c",
        "extern g(x y); g(1, g(2, 3))",
        "if 1 then 2 else 3",
        "def f(x) if x then if x < 1 then 1 else 2 else if x < 2 then 3 else 4",
        "def f(x) (if x then 1 else 2) + (if x then 3 else 4)",
        "for i = 1, i < 4 in i",
        "for i = 1, i < 4, 2 in for j = i, j < i * 2 in i + j",
        "def f(n) for i = if n then 1 else 2, if i < n then 1 else 0, if n then 1 else 2 in \
         if i < 3 then for j = 0, j < i in j else i",
        "def fib(x) if x < 3 then 1 else fib(x - 1) + fib(x - 2)",
        "extern putchard(c); def loop(n) for i = 0, i < n in putchard(if i < 5 then 42 else 43)",
    ];
    let mut seen = 0;
    for program in programs {
        for function in functions_of(program) {
            assert_well_formed(&function);
            seen += 1;
        }
    }
    assert_eq!(seen, programs.len());
}

#[test]
fn a_loop_jumps_back_from_the_block_in_which_its_end_condition_ends() {
    let f = functions_of("for i = 1, if i < 4 then 1 else 0 in i").remove(0);
    assert_well_formed(&f);
    // The merge of the loop variable leads block 1; its second edge comes
    // from the continuation of the conditional, not from the loop block.
    let merge = f.blocks[1].insts[0];
    match &f.insts[merge] {
        Inst::Phi(edges) => {
            assert_eq!(edges.len(), 2);
            assert_eq!(edges[0].1, 0);
            let back = edges[1].1;
            assert_ne!(back, 1);
            assert!(jumps(&f, back, 1));
        }
        other => panic!("not a merge: {:?}", other),
    }
}
