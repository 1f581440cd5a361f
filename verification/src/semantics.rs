//! What programs mean: the value and the calls of an expression, and the
//! run of a function in static-single-assignment form, over an arithmetic
//! that is left open.
//!
//! Numbers are taken as codes, such as the bit patterns of floating-point
//! numbers; what a numeral denotes, what the operations give and what the
//! world answers to a call is whatever the arithmetic says.
use vstd::prelude::*;
use crate::ast::Expr;
use crate::ir::{BinOp, FuncView, InstView, TermView, ValueView};
use crate::lowering::{binop_of, one_numeral, zero_numeral};

verus! {

/// A call that a program made: the callee and the arguments.
pub struct CallEvent {
    pub callee: Seq<char>,
    pub args: Seq<int>,
}

/// The arithmetic that programs compute with.
pub struct Arith {
    /// The number that a numeral denotes.
    pub number: spec_fn(Seq<char>) -> int,
    /// What an operation gives; a comparison gives a number that is not
    /// zero where it holds.
    pub binary: spec_fn(BinOp, int, int) -> int,
    /// Whether a number is not zero.
    pub nonzero: spec_fn(int) -> bool,
    /// What a call gives, after the calls made before it.
    pub call: spec_fn(Seq<char>, Seq<int>, Seq<CallEvent>) -> int,
}

impl Arith {
    /// Whether `value` is greater than zero, as a conditional and a loop
    /// test it.
    pub open spec fn positive(self, value: int) -> bool {
        (self.nonzero)((self.binary)(BinOp::Gt, value, (self.number)(zero_numeral())))
    }
}

/// What evaluating gave: the value, the calls made so far, and how many
/// steps the compiled code takes for it.
pub struct Evaluated {
    pub value: int,
    pub trace: Seq<CallEvent>,
    pub steps: nat,
}

/// What evaluating arguments gave.
pub struct EvaluatedArgs {
    pub values: Seq<int>,
    pub trace: Seq<CallEvent>,
    pub steps: nat,
}

/// The value of the innermost binding of `name`.
pub open spec fn env_lookup(env: Seq<(Seq<char>, int)>, name: Seq<char>) -> Option<int>
    decreases env.len(),
{
    if env.len() == 0 {
        None
    } else if env.last().0 == name {
        Some(env.last().1)
    } else {
        env_lookup(env.drop_last(), name)
    }
}

/// The value of `e` where `env` binds the variables, after the calls in
/// `trace`; `None` where a name is unbound, an operator unknown, or a loop
/// has not ended after `fuel` rounds.
///
/// Operands and arguments are evaluated from left to right. A conditional
/// takes its first branch where its condition is greater than zero. A loop
/// evaluates its body and its step with the variable at its value, then its
/// end condition with the variable at the next value, and goes on while the
/// end condition is greater than zero; its value is zero.
pub open spec fn eval(
    a: Arith,
    e: Expr,
    env: Seq<(Seq<char>, int)>,
    trace: Seq<CallEvent>,
    fuel: nat,
) -> Option<Evaluated>
    decreases fuel, e, 1nat,
{
    match e {
        Expr::Number(text) => Some(Evaluated { value: (a.number)(text), trace, steps: 1 }),
        Expr::Variable(name) => match env_lookup(env, name) {
            Some(value) => Some(Evaluated { value, trace, steps: 0 }),
            None => None,
        },
        Expr::BinaryOp(op, lhs, rhs) => match eval(a, *lhs, env, trace, fuel) {
            None => None,
            Some(left) => match eval(a, *rhs, env, left.trace, fuel) {
                None => None,
                Some(right) => match binop_of(op) {
                    None => None,
                    Some(kind) => Some(
                        Evaluated {
                            value: (a.binary)(kind, left.value, right.value),
                            trace: right.trace,
                            steps: left.steps + right.steps + 1,
                        },
                    ),
                },
            },
        },
        Expr::Call(callee, args) => match eval_args(a, args, args.len(), env, trace, fuel) {
            None => None,
            Some(passed) => Some(
                Evaluated {
                    value: (a.call)(callee, passed.values, passed.trace),
                    trace: passed.trace.push(CallEvent { callee, args: passed.values }),
                    steps: passed.steps + 1,
                },
            ),
        },
        Expr::If(condition, then_branch, else_branch) => match eval(
            a,
            *condition,
            env,
            trace,
            fuel,
        ) {
            None => None,
            Some(tested) => {
                let taken = if a.positive(tested.value) {
                    eval(a, *then_branch, env, tested.trace, fuel)
                } else {
                    eval(a, *else_branch, env, tested.trace, fuel)
                };
                match taken {
                    None => None,
                    Some(branch) => Some(
                        Evaluated {
                            value: branch.value,
                            trace: branch.trace,
                            steps: tested.steps + 3 + branch.steps + 2,
                        },
                    ),
                }
            },
        },
        Expr::For(_, start, _, _, _) => match eval(a, *start, env, trace, fuel) {
            None => None,
            Some(first) => match iterate(a, e, first.value, env, first.trace, fuel) {
                None => None,
                Some(rounds) => Some(
                    Evaluated {
                        value: (a.number)(zero_numeral()),
                        trace: rounds.trace,
                        steps: first.steps + 1 + rounds.steps + 1,
                    },
                ),
            },
        },
    }
}

/// The values of the first `n` of `args`, in order.
pub open spec fn eval_args(
    a: Arith,
    args: Seq<Expr>,
    n: nat,
    env: Seq<(Seq<char>, int)>,
    trace: Seq<CallEvent>,
    fuel: nat,
) -> Option<EvaluatedArgs>
    decreases fuel, args, n,
{
    if n == 0 || n > args.len() {
        Some(EvaluatedArgs { values: Seq::empty(), trace, steps: 0 })
    } else {
        match eval_args(a, args, (n - 1) as nat, env, trace, fuel) {
            None => None,
            Some(before) => match eval(a, args[n - 1], env, before.trace, fuel) {
                None => None,
                Some(arg) => Some(
                    EvaluatedArgs {
                        values: before.values.push(arg.value),
                        trace: arg.trace,
                        steps: before.steps + arg.steps,
                    },
                ),
            },
        }
    }
}

/// The rounds of the loop `e` from the value `current` of its variable on:
/// the calls made, and the steps taken. The value that comes back is of no
/// use.
pub open spec fn iterate(
    a: Arith,
    e: Expr,
    current: int,
    env: Seq<(Seq<char>, int)>,
    trace: Seq<CallEvent>,
    fuel: nat,
) -> Option<Evaluated>
    decreases fuel, e, 0nat,
{
    match e {
        Expr::For(variable_name, _, end, step, body) => if fuel == 0 {
            None
        } else {
            let inner = env.push((variable_name, current));
            match eval(a, *body, inner, trace, fuel) {
                None => None,
                Some(done) => {
                    let stepped = match step {
                        Some(s) => eval(a, *s, inner, done.trace, fuel),
                        None => Some(
                            Evaluated {
                                value: (a.number)(one_numeral()),
                                trace: done.trace,
                                steps: 1,
                            },
                        ),
                    };
                    match stepped {
                        None => None,
                        Some(by) => {
                            let next = (a.binary)(BinOp::Add, current, by.value);
                            match eval(
                                a,
                                *end,
                                env.push((variable_name, next)),
                                by.trace,
                                fuel,
                            ) {
                                None => None,
                                Some(last) => {
                                    let round = 1 + done.steps + by.steps + 1 + last.steps + 3;
                                    if a.positive(last.value) {
                                        match iterate(
                                            a,
                                            e,
                                            next,
                                            env,
                                            last.trace,
                                            (fuel - 1) as nat,
                                        ) {
                                            None => None,
                                            Some(rest) => Some(
                                                Evaluated {
                                                    value: rest.value,
                                                    trace: rest.trace,
                                                    steps: round + rest.steps,
                                                },
                                            ),
                                        }
                                    } else {
                                        Some(
                                            Evaluated {
                                                value: last.value,
                                                trace: last.trace,
                                                steps: round as nat,
                                            },
                                        )
                                    }
                                },
                            }
                        },
                    }
                },
            }
        },
        _ => None,
    }
}

/// Where a run stands: the block, the position in it of the instruction
/// to come, the block that control came from, the values defined so far,
/// and the calls made.
pub struct State {
    pub block: nat,
    pub pos: nat,
    pub prev: nat,
    pub vals: Map<nat, int>,
    pub trace: Seq<CallEvent>,
}

/// What a run has come to.
pub enum Run {
    /// It goes on from this state.
    Going(State),
    /// It has returned this value after these calls.
    Returned(int, Seq<CallEvent>),
    /// It cannot go on: the block is open, or does not exist.
    Stuck,
}

/// The number that `value` stands for in a run with the arguments `args`.
pub open spec fn value_of(vals: Map<nat, int>, args: Seq<int>, value: ValueView) -> int {
    match value {
        ValueView::Param(i) => args[i as int],
        ValueView::Inst(i) => vals[i],
    }
}

/// The numbers that `values` stand for.
pub open spec fn values_of(vals: Map<nat, int>, args: Seq<int>, values: Seq<ValueView>) -> Seq<
    int,
> {
    Seq::new(values.len(), |i: int| value_of(vals, args, values[i]))
}

/// The value that a merge takes where control came from `prev`: that of
/// its first edge from there.
pub open spec fn edge_value(edges: Seq<(ValueView, nat)>, prev: nat) -> ValueView
    decreases edges.len(),
{
    if edges.len() == 0 {
        ValueView::Inst(0)
    } else if edges[0].1 == prev {
        edges[0].0
    } else {
        edge_value(edges.drop_first(), prev)
    }
}

/// One step of a run of `f` with the arguments `args`: the instruction at
/// the position, or the terminator past the last instruction.
pub open spec fn step(a: Arith, f: FuncView, args: Seq<int>, s: State) -> Run {
    if s.block >= f.blocks.len() {
        Run::Stuck
    } else {
        let block = f.blocks[s.block as int];
        if s.pos < block.insts.len() {
            let id = block.insts[s.pos as int];
            match f.insts[id as int] {
                InstView::Const(text) => Run::Going(
                    State { pos: s.pos + 1, vals: s.vals.insert(id, (a.number)(text)), ..s },
                ),
                InstView::Binary(op, lhs, rhs) => Run::Going(
                    State {
                        pos: s.pos + 1,
                        vals: s.vals.insert(
                            id,
                            (a.binary)(
                                op,
                                value_of(s.vals, args, lhs),
                                value_of(s.vals, args, rhs),
                            ),
                        ),
                        ..s
                    },
                ),
                InstView::Call(callee, passed) => {
                    let values = values_of(s.vals, args, passed);
                    Run::Going(
                        State {
                            pos: s.pos + 1,
                            vals: s.vals.insert(id, (a.call)(callee, values, s.trace)),
                            trace: s.trace.push(CallEvent { callee, args: values }),
                            ..s
                        },
                    )
                },
                InstView::Phi(edges) => Run::Going(
                    State {
                        pos: s.pos + 1,
                        vals: s.vals.insert(
                            id,
                            value_of(s.vals, args, edge_value(edges, s.prev)),
                        ),
                        ..s
                    },
                ),
            }
        } else {
            match block.terminator {
                Some(TermView::Br(target)) => Run::Going(
                    State { block: target, pos: 0, prev: s.block, ..s },
                ),
                Some(TermView::CondBr(condition, then_block, else_block)) => Run::Going(
                    State {
                        block: if (a.nonzero)(value_of(s.vals, args, condition)) {
                            then_block
                        } else {
                            else_block
                        },
                        pos: 0,
                        prev: s.block,
                        ..s
                    },
                ),
                Some(TermView::Ret(value)) => Run::Returned(
                    value_of(s.vals, args, value),
                    s.trace,
                ),
                None => Run::Stuck,
            }
        }
    }
}

/// What a run has come to after `n` steps from `s`.
pub open spec fn run(a: Arith, f: FuncView, args: Seq<int>, s: State, n: nat) -> Run
    decreases n,
{
    if n == 0 {
        Run::Going(s)
    } else {
        match step(a, f, args, s) {
            Run::Going(next) => run(a, f, args, next, (n - 1) as nat),
            other => other,
        }
    }
}

/// The state in which a call of a function starts.
pub open spec fn entry() -> State {
    State { block: 0, pos: 0, prev: 0, vals: Map::empty(), trace: Seq::empty() }
}

/// The bindings of the parameters `params` to the arguments `args`.
pub open spec fn param_env(params: Seq<Seq<char>>, args: Seq<int>) -> Seq<(Seq<char>, int)> {
    Seq::new(params.len(), |i: int| (params[i], args[i]))
}

} // verus!
