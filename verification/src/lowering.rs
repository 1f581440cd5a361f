//! What code generation computes: the instructions and blocks that an
//! expression lowers to, as a function of the expression and of the builder
//! that it starts from.
use vstd::prelude::*;
use crate::ast::{Expr, FunctionDef, Prototype};
use crate::ir::{
    BinOp, BlockKind, BuilderView, FuncView, InstView, TermView, ValueView, find_function,
    lemma_find_function, lemma_find_function_at,
};
use crate::ir_gen::CodegenErrorView;
use crate::scope::lookup;

verus! {

/// The numeral of the constant that conditions are compared with and that a
/// loop evaluates to.
pub open spec fn zero_numeral() -> Seq<char> {
    seq!['0']
}

/// The numeral of the step of a loop that names none.
pub open spec fn one_numeral() -> Seq<char> {
    seq!['1']
}

/// The instruction that an operator character stands for.
pub open spec fn binop_of(op: char) -> Option<BinOp> {
    if op == '+' {
        Some(BinOp::Add)
    } else if op == '-' {
        Some(BinOp::Sub)
    } else if op == '*' {
        Some(BinOp::Mul)
    } else if op == '/' {
        Some(BinOp::Div)
    } else if op == '<' {
        Some(BinOp::Lt)
    } else if op == '>' {
        Some(BinOp::Gt)
    } else {
        None
    }
}

/// What lowering gives: the value of the expression and the builder after
/// it, or the first error met.
pub type Lowered = Result<(ValueView, BuilderView), CodegenErrorView>;

impl BuilderView {
    /// Emits the test whether `value` is greater than zero: the constant
    /// zero, then the comparison, whose value is `self.truth_value()`.
    pub open spec fn emit_truth(self, value: ValueView) -> BuilderView {
        self.emit(InstView::Const(zero_numeral())).emit(
            InstView::Binary(BinOp::Gt, value, self.next_value()),
        )
    }

    /// The value that `emit_truth` defines.
    pub open spec fn truth_value(self) -> ValueView {
        ValueView::Inst(self.func.insts.len() + 1)
    }

    /// Opens a conditional on `condition`: emits the test, appends the then,
    /// else and continuation blocks, branches on the test and moves into the
    /// then block.
    pub open spec fn begin_if(self, condition: ValueView) -> BuilderView {
        let then_block = self.next_block();
        let else_block = then_block + 1;
        self.emit_truth(condition).append_block(BlockKind::Then).append_block(
            BlockKind::Else,
        ).append_block(BlockKind::IfCont).terminate(
            TermView::CondBr(self.truth_value(), then_block, else_block),
        ).position_at_end(then_block)
    }

    /// Leaves a branch of a conditional for `merge` and moves into `next`.
    pub open spec fn leave_branch(self, merge: nat, next: nat) -> BuilderView {
        self.terminate(TermView::Br(merge)).position_at_end(next)
    }

    /// Opens a loop whose variable starts at `start`: appends the loop
    /// block, jumps into it and emits the merge of the variable, with the
    /// edge from the block left.
    pub open spec fn begin_loop(self, start: ValueView) -> BuilderView {
        let loop_block = self.next_block();
        self.append_block(BlockKind::Loop).terminate(TermView::Br(loop_block)).position_at_end(
            loop_block,
        ).emit(InstView::Phi(seq![(start, self.current)]))
    }

    /// The value of the loop variable that `begin_loop` defines.
    pub open spec fn loop_variable(self) -> ValueView {
        self.next_value()
    }

    /// Closes the loop in `loop_block`: emits the test of `end`, appends the
    /// block after the loop, adds the edge that carries `next` to the merge
    /// `variable`, branches back or out on the test, moves out and emits the
    /// value of the loop, the constant zero.
    pub open spec fn end_loop(self, loop_block: nat, variable: ValueView, next: ValueView, end: ValueView)
        -> BuilderView {
        let tested = self.emit_truth(end);
        let after_block = tested.next_block();
        tested.append_block(BlockKind::AfterLoop).add_incoming(
            variable,
            next,
            self.current,
        ).terminate(
            TermView::CondBr(self.truth_value(), loop_block, after_block),
        ).position_at_end(after_block).emit(InstView::Const(zero_numeral()))
    }

    /// The value that `end_loop` defines last.
    pub open spec fn loop_value(self) -> ValueView {
        ValueView::Inst(self.func.insts.len() + 2)
    }

    /// `other` continues `self`: the same function, in which every merge of
    /// `self` is still a merge and no instruction or block is lost.
    #[verifier::opaque]
    pub open spec fn extended_by(self, other: BuilderView) -> bool {
        &&& other.well_formed()
        &&& other.func.name == self.func.name
        &&& other.func.params == self.func.params
        &&& self.func.insts.len() <= other.func.insts.len()
        &&& self.func.blocks.len() <= other.func.blocks.len()
        &&& forall|i: int|
            0 <= i < self.func.insts.len() ==> (#[trigger] other.func.insts[i] is Phi
                <==> self.func.insts[i] is Phi)
    }
}

/// The code for `e`, appended by `b` where `scope` binds the variables and
/// `protos` holds the signatures of the functions that may be called.
///
/// Operands and arguments are lowered from left to right, and the first
/// error met is the result. A conditional holds where its condition is
/// greater than zero; its value is the merge of the two branch values, each
/// paired with the block in which its branch ended. A loop binds its variable
/// to a merge of the start value and the next value while its body and step
/// are lowered, and to the next value while its end condition is; the loop
/// repeats while the end condition is greater than zero, and its value is
/// zero.
pub open spec fn lower_expr(
    e: Expr,
    b: BuilderView,
    scope: Seq<(Seq<char>, ValueView)>,
    protos: Map<Seq<char>, Prototype>,
) -> Lowered
    decreases e, 0nat,
{
    match e {
        Expr::Number(text) => Ok((b.next_value(), b.emit(InstView::Const(text)))),
        Expr::Variable(name) => match lookup(scope, name) {
            Some(value) => Ok((value, b)),
            None => Err(CodegenErrorView::UnknownVariable(name)),
        },
        Expr::BinaryOp(op, lhs, rhs) => match lower_expr(*lhs, b, scope, protos) {
            Err(error) => Err(error),
            Ok((left, b1)) => match lower_expr(*rhs, b1, scope, protos) {
                Err(error) => Err(error),
                Ok((right, b2)) => match binop_of(op) {
                    None => Err(CodegenErrorView::UnknownOperator(op)),
                    Some(kind) => Ok(
                        (b2.next_value(), b2.emit(InstView::Binary(kind, left, right))),
                    ),
                },
            },
        },
        Expr::Call(callee, args) => if !protos.contains_key(callee) {
            Err(CodegenErrorView::UnknownFunction(callee))
        } else if protos[callee].params.len() != args.len() {
            Err(
                CodegenErrorView::ArgumentCount {
                    callee,
                    expected: protos[callee].params.len(),
                    actual: args.len(),
                },
            )
        } else {
            match lower_args(args, args.len(), b, scope, protos) {
                Err(error) => Err(error),
                Ok((values, b1)) => Ok(
                    (b1.next_value(), b1.emit(InstView::Call(callee, values))),
                ),
            }
        },
        Expr::If(condition, then_branch, else_branch) => match lower_expr(
            *condition,
            b,
            scope,
            protos,
        ) {
            Err(error) => Err(error),
            Ok((tested, b1)) => {
                let else_block = b1.next_block() + 1;
                let merge_block = b1.next_block() + 2;
                match lower_expr(*then_branch, b1.begin_if(tested), scope, protos) {
                    Err(error) => Err(error),
                    Ok((then_value, b2)) => match lower_expr(
                        *else_branch,
                        b2.leave_branch(merge_block, else_block),
                        scope,
                        protos,
                    ) {
                        Err(error) => Err(error),
                        Ok((else_value, b3)) => {
                            let b4 = b3.leave_branch(merge_block, merge_block);
                            Ok(
                                (
                                    b4.next_value(),
                                    b4.emit(
                                        InstView::Phi(
                                            seq![
                                                (then_value, b2.current),
                                                (else_value, b3.current),
                                            ],
                                        ),
                                    ),
                                ),
                            )
                        },
                    },
                }
            },
        },
        Expr::For(variable_name, start, end, step, body) => match lower_expr(
            *start,
            b,
            scope,
            protos,
        ) {
            Err(error) => Err(error),
            Ok((first, b1)) => {
                let loop_block = b1.next_block();
                let variable = b1.loop_variable();
                let inner = scope.push((variable_name, variable));
                match lower_expr(*body, b1.begin_loop(first), inner, protos) {
                    Err(error) => Err(error),
                    Ok((_, b2)) => {
                        let stepped: Lowered = match step {
                            Some(s) => lower_expr(*s, b2, inner, protos),
                            None => Ok(
                                (b2.next_value(), b2.emit(InstView::Const(one_numeral()))),
                            ),
                        };
                        match stepped {
                            Err(error) => Err(error),
                            Ok((by, b3)) => {
                                let next = b3.next_value();
                                let b4 = b3.emit(InstView::Binary(BinOp::Add, variable, by));
                                match lower_expr(
                                    *end,
                                    b4,
                                    scope.push((variable_name, next)),
                                    protos,
                                ) {
                                    Err(error) => Err(error),
                                    Ok((last, b5)) => Ok(
                                        (
                                            b5.loop_value(),
                                            b5.end_loop(loop_block, variable, next, last),
                                        ),
                                    ),
                                }
                            },
                        }
                    },
                }
            },
        },
    }
}

/// The code for the first `n` of `args`, in order, and their values.
pub open spec fn lower_args(
    args: Seq<Expr>,
    n: nat,
    b: BuilderView,
    scope: Seq<(Seq<char>, ValueView)>,
    protos: Map<Seq<char>, Prototype>,
) -> Result<(Seq<ValueView>, BuilderView), CodegenErrorView>
    decreases args, n,
{
    if n == 0 || n > args.len() {
        Ok((Seq::empty(), b))
    } else {
        match lower_args(args, (n - 1) as nat, b, scope, protos) {
            Err(error) => Err(error),
            Ok((values, b1)) => match lower_expr(args[n - 1], b1, scope, protos) {
                Err(error) => Err(error),
                Ok((value, b2)) => Ok((values.push(value), b2)),
            },
        }
    }
}

/// Each single step of a builder continues it.
pub(crate) proof fn lemma_step_extends(
    b: BuilderView,
    inst: InstView,
    kind: BlockKind,
    terminator: TermView,
    block: nat,
)
    requires
        b.well_formed(),
    ensures
        b.extended_by(b),
        b.extended_by(b.emit(inst)),
        b.emit(inst).func.blocks.len() == b.func.blocks.len(),
        b.extended_by(b.append_block(kind)),
        b.extended_by(b.terminate(terminator)),
        b.terminate(terminator).func.blocks.len() == b.func.blocks.len(),
        block < b.func.blocks.len() ==> b.extended_by(b.position_at_end(block)),
{
    reveal(BuilderView::extended_by);
}

/// A builder continues itself.
pub(crate) proof fn lemma_extends_refl(b: BuilderView)
    requires
        b.well_formed(),
    ensures
        b.extended_by(b),
{
    reveal(BuilderView::extended_by);
}

/// Where `b` continues `a`, so does `b` after one more instruction.
pub(crate) proof fn lemma_emit_extends(a: BuilderView, b: BuilderView, inst: InstView)
    requires
        (a == b && b.well_formed()) || a.extended_by(b),
    ensures
        a.extended_by(b.emit(inst)),
{
    reveal(BuilderView::extended_by);
}

/// What continuation means for sizes and merges.
pub proof fn lemma_extends_facts(a: BuilderView, b: BuilderView)
    requires
        a.extended_by(b),
    ensures
        b.well_formed(),
        b.func.name == a.func.name,
        b.func.params == a.func.params,
        a.func.insts.len() <= b.func.insts.len(),
        a.func.blocks.len() <= b.func.blocks.len(),
        forall|phi: ValueView| a.is_phi(phi) ==> b.is_phi(phi),
{
    reveal(BuilderView::extended_by);
}

/// Continuation is transitive.
pub(crate) proof fn lemma_extends_trans(a: BuilderView, b: BuilderView, c: BuilderView)
    requires
        a.extended_by(b),
        b.extended_by(c),
    ensures
        a.extended_by(c),
{
    reveal(BuilderView::extended_by);
    assert forall|i: int| 0 <= i < a.func.insts.len() implies (#[trigger] c.func.insts[i] is Phi
        <==> a.func.insts[i] is Phi) by {
        assert(b.func.insts[i] is Phi <==> a.func.insts[i] is Phi);
    }
}

/// Emitting the test of a condition continues the builder.
pub(crate) proof fn lemma_emit_truth_extends(b: BuilderView, value: ValueView)
    requires
        b.well_formed(),
    ensures
        b.extended_by(b.emit_truth(value)),
        b.emit_truth(value).func.blocks.len() == b.func.blocks.len(),
        b.emit_truth(value).func.insts.len() == b.func.insts.len() + 2,
        b.emit_truth(value).current == b.current,
{
    let zero = InstView::Const(zero_numeral());
    let b1 = b.emit(zero);
    let test = InstView::Binary(BinOp::Gt, value, b.next_value());
    lemma_step_extends(b, zero, BlockKind::Entry, TermView::Br(0), 0);
    lemma_step_extends(b1, test, BlockKind::Entry, TermView::Br(0), 0);
    lemma_extends_trans(b, b1, b1.emit(test));
}

/// Opening a conditional continues the builder and adds three blocks.
pub(crate) proof fn lemma_begin_if_extends(b: BuilderView, condition: ValueView)
    requires
        b.well_formed(),
    ensures
        b.extended_by(b.begin_if(condition)),
        b.begin_if(condition).func.blocks.len() == b.func.blocks.len() + 3,
        b.begin_if(condition).current == b.next_block(),
{
    let then_block = b.next_block();
    let else_block = then_block + 1;
    let branch = TermView::CondBr(b.truth_value(), then_block, else_block);
    let b1 = b.emit_truth(condition);
    let b2 = b1.append_block(BlockKind::Then);
    let b3 = b2.append_block(BlockKind::Else);
    let b4 = b3.append_block(BlockKind::IfCont);
    let b5 = b4.terminate(branch);
    let b6 = b5.position_at_end(then_block);
    let any = InstView::Const(zero_numeral());
    lemma_emit_truth_extends(b, condition);
    lemma_step_extends(b1, any, BlockKind::Then, branch, then_block);
    lemma_step_extends(b2, any, BlockKind::Else, branch, then_block);
    lemma_step_extends(b3, any, BlockKind::IfCont, branch, then_block);
    lemma_step_extends(b4, any, BlockKind::IfCont, branch, then_block);
    lemma_step_extends(b5, any, BlockKind::IfCont, branch, then_block);
    lemma_extends_trans(b, b1, b2);
    lemma_extends_trans(b, b2, b3);
    lemma_extends_trans(b, b3, b4);
    lemma_extends_trans(b, b4, b5);
    lemma_extends_trans(b, b5, b6);
}

/// Leaving a branch continues the builder and adds no block.
pub(crate) proof fn lemma_leave_branch_extends(b: BuilderView, merge: nat, next: nat)
    requires
        b.well_formed(),
        next < b.func.blocks.len(),
    ensures
        b.extended_by(b.leave_branch(merge, next)),
        b.leave_branch(merge, next).func.blocks.len() == b.func.blocks.len(),
        b.leave_branch(merge, next).func.insts == b.func.insts,
        b.leave_branch(merge, next).current == next,
{
    let jump = TermView::Br(merge);
    let any = InstView::Const(zero_numeral());
    let b1 = b.terminate(jump);
    lemma_step_extends(b, any, BlockKind::Entry, jump, next);
    lemma_step_extends(b1, any, BlockKind::Entry, jump, next);
    lemma_extends_trans(b, b1, b1.position_at_end(next));
}

/// Opening a loop continues the builder; the loop variable is a merge.
pub(crate) proof fn lemma_begin_loop_extends(b: BuilderView, start: ValueView)
    requires
        b.well_formed(),
    ensures
        b.extended_by(b.begin_loop(start)),
        b.begin_loop(start).func.blocks.len() == b.func.blocks.len() + 1,
        b.begin_loop(start).func.insts.len() == b.func.insts.len() + 1,
        b.begin_loop(start).func.insts[b.func.insts.len() as int] is Phi,
        b.begin_loop(start).current == b.next_block(),
{
    let loop_block = b.next_block();
    let jump = TermView::Br(loop_block);
    let merge = InstView::Phi(seq![(start, b.current)]);
    let b1 = b.append_block(BlockKind::Loop);
    let b2 = b1.terminate(jump);
    let b3 = b2.position_at_end(loop_block);
    let b4 = b3.emit(merge);
    lemma_step_extends(b, merge, BlockKind::Loop, jump, loop_block);
    lemma_step_extends(b1, merge, BlockKind::Loop, jump, loop_block);
    lemma_step_extends(b2, merge, BlockKind::Loop, jump, loop_block);
    lemma_step_extends(b3, merge, BlockKind::Loop, jump, loop_block);
    lemma_extends_trans(b, b1, b2);
    lemma_extends_trans(b, b2, b3);
    lemma_extends_trans(b, b3, b4);
}

/// Closing a loop continues the builder and adds one block.
pub(crate) proof fn lemma_end_loop_extends(
    b: BuilderView,
    loop_block: nat,
    variable: ValueView,
    next: ValueView,
    end: ValueView,
)
    requires
        b.well_formed(),
        b.is_phi(variable),
    ensures
        b.extended_by(b.end_loop(loop_block, variable, next, end)),
        b.end_loop(loop_block, variable, next, end).func.blocks.len() == b.func.blocks.len() + 1,
{
    let tested = b.emit_truth(end);
    let after_block = tested.next_block();
    let branch = TermView::CondBr(b.truth_value(), loop_block, after_block);
    let zero = InstView::Const(zero_numeral());
    let b1 = tested.append_block(BlockKind::AfterLoop);
    let b2 = b1.add_incoming(variable, next, b.current);
    let b3 = b2.terminate(branch);
    let b4 = b3.position_at_end(after_block);
    let b5 = b4.emit(zero);
    lemma_emit_truth_extends(b, end);
    lemma_step_extends(tested, zero, BlockKind::AfterLoop, branch, after_block);
    lemma_extends_trans(b, tested, b1);
    assert(b1.is_phi(variable)) by {
        reveal(BuilderView::extended_by);
    }
    assert(b1.extended_by(b2)) by {
        reveal(BuilderView::extended_by);
    }
    lemma_extends_trans(b, b1, b2);
    lemma_step_extends(b2, zero, BlockKind::AfterLoop, branch, after_block);
    lemma_step_extends(b3, zero, BlockKind::AfterLoop, branch, after_block);
    lemma_step_extends(b4, zero, BlockKind::AfterLoop, branch, after_block);
    lemma_extends_trans(b, b2, b3);
    lemma_extends_trans(b, b3, b4);
    lemma_extends_trans(b, b4, b5);
}

/// Lowering only adds to a function: on success the builder that comes out
/// continues the one that went in.
#[verifier::rlimit(50)]
pub proof fn lemma_lower_extends(
    e: Expr,
    b: BuilderView,
    scope: Seq<(Seq<char>, ValueView)>,
    protos: Map<Seq<char>, Prototype>,
)
    requires
        b.well_formed(),
    ensures
        lower_expr(e, b, scope, protos) is Ok ==> b.extended_by(
            lower_expr(e, b, scope, protos)->Ok_0.1,
        ),
    decreases e, 1nat,
{
    match e {
        Expr::Number(text) => {
            lemma_emit_extends(b, b, InstView::Const(text));
        },
        Expr::Variable(_) => {
            lemma_extends_refl(b);
        },
        Expr::BinaryOp(op, lhs, rhs) => {
            lemma_lower_extends(*lhs, b, scope, protos);
            if let Ok((left, b1)) = lower_expr(*lhs, b, scope, protos) {
                lemma_extends_facts(b, b1);
                lemma_lower_extends(*rhs, b1, scope, protos);
                if let Ok((right, b2)) = lower_expr(*rhs, b1, scope, protos) {
                    lemma_extends_trans(b, b1, b2);
                    if let Some(kind) = binop_of(op) {
                        lemma_emit_extends(b, b2, InstView::Binary(kind, left, right));
                    }
                }
            }
        },
        Expr::Call(callee, args) => {
            lemma_lower_args_extends(args, args.len(), b, scope, protos);
            if let Ok((values, b1)) = lower_args(args, args.len(), b, scope, protos) {
                lemma_emit_extends(b, b1, InstView::Call(callee, values));
            }
        },
        Expr::If(condition, then_branch, else_branch) => {
            lemma_lower_if_extends(e, b, scope, protos);
        },
        Expr::For(variable_name, start, end, step, body) => {
            lemma_lower_for_extends(e, b, scope, protos);
        },
    }
}

/// `lemma_lower_extends` for a conditional.
#[verifier::rlimit(50)]
proof fn lemma_lower_if_extends(
    e: Expr,
    b: BuilderView,
    scope: Seq<(Seq<char>, ValueView)>,
    protos: Map<Seq<char>, Prototype>,
)
    requires
        b.well_formed(),
        e is If,
    ensures
        lower_expr(e, b, scope, protos) is Ok ==> b.extended_by(
            lower_expr(e, b, scope, protos)->Ok_0.1,
        ),
    decreases e, 0nat,
{
    let condition = *e->If_0;
    let then_branch = *e->If_1;
    let else_branch = *e->If_2;
    lemma_lower_extends(condition, b, scope, protos);
    if let Ok((tested, b1)) = lower_expr(condition, b, scope, protos) {
        lemma_extends_facts(b, b1);
        let else_block = b1.next_block() + 1;
        let merge_block = b1.next_block() + 2;
        let opened = b1.begin_if(tested);
        lemma_begin_if_extends(b1, tested);
        lemma_extends_trans(b, b1, opened);
        lemma_extends_facts(b1, opened);
        lemma_lower_extends(then_branch, opened, scope, protos);
        if let Ok((then_value, b2)) = lower_expr(then_branch, opened, scope, protos) {
            lemma_extends_facts(opened, b2);
            lemma_extends_trans(b, opened, b2);
            let second = b2.leave_branch(merge_block, else_block);
            lemma_leave_branch_extends(b2, merge_block, else_block);
            lemma_extends_trans(b, b2, second);
            lemma_extends_facts(b2, second);
            lemma_lower_extends(else_branch, second, scope, protos);
            if let Ok((else_value, b3)) = lower_expr(else_branch, second, scope, protos) {
                lemma_extends_facts(second, b3);
                lemma_extends_trans(b, second, b3);
                let b4 = b3.leave_branch(merge_block, merge_block);
                lemma_leave_branch_extends(b3, merge_block, merge_block);
                lemma_extends_trans(b, b3, b4);
                lemma_emit_extends(
                    b,
                    b4,
                    InstView::Phi(seq![(then_value, b2.current), (else_value, b3.current)]),
                );
            }
        }
    }
}

/// `lemma_lower_extends` for a loop.
#[verifier::rlimit(50)]
proof fn lemma_lower_for_extends(
    e: Expr,
    b: BuilderView,
    scope: Seq<(Seq<char>, ValueView)>,
    protos: Map<Seq<char>, Prototype>,
)
    requires
        b.well_formed(),
        e is For,
    ensures
        lower_expr(e, b, scope, protos) is Ok ==> b.extended_by(
            lower_expr(e, b, scope, protos)->Ok_0.1,
        ),
    decreases e, 0nat,
{
    let variable_name = e->For_0;
    let start = *e->For_1;
    let end = *e->For_2;
    let step = e->For_3;
    let body = *e->For_4;
    lemma_lower_extends(start, b, scope, protos);
    if let Ok((first, b1)) = lower_expr(start, b, scope, protos) {
        lemma_extends_facts(b, b1);
        let variable = b1.loop_variable();
        let inner = scope.push((variable_name, variable));
        let opened = b1.begin_loop(first);
        lemma_begin_loop_extends(b1, first);
        lemma_extends_trans(b, b1, opened);
        lemma_extends_facts(b1, opened);
        assert(opened.is_phi(variable));
        lemma_lower_extends(body, opened, inner, protos);
        if let Ok((_, b2)) = lower_expr(body, opened, inner, protos) {
            lemma_extends_facts(opened, b2);
            lemma_extends_trans(b, opened, b2);
            let stepped: Lowered = match step {
                Some(s) => lower_expr(*s, b2, inner, protos),
                None => Ok((b2.next_value(), b2.emit(InstView::Const(one_numeral())))),
            };
            match step {
                Some(s) => {
                    lemma_lower_extends(*s, b2, inner, protos);
                },
                None => {
                    lemma_emit_extends(b2, b2, InstView::Const(one_numeral()));
                },
            }
            if let Ok((by, b3)) = stepped {
                lemma_extends_facts(b2, b3);
                lemma_extends_trans(b, b2, b3);
                let next = b3.next_value();
                let sum = InstView::Binary(BinOp::Add, variable, by);
                let b4 = b3.emit(sum);
                lemma_emit_extends(b3, b3, sum);
                lemma_extends_facts(b3, b4);
                lemma_extends_trans(b, b3, b4);
                let outer = scope.push((variable_name, next));
                lemma_lower_extends(end, b4, outer, protos);
                if let Ok((last, b5)) = lower_expr(end, b4, outer, protos) {
                    lemma_extends_facts(b4, b5);
                    lemma_extends_trans(b, b4, b5);
                    lemma_end_loop_extends(b5, b1.next_block(), variable, next, last);
                    lemma_extends_trans(b, b5, b5.end_loop(b1.next_block(), variable, next, last));
                }
            }
        }
    }
}

/// As `lemma_lower_extends`, for the arguments of a call.
pub proof fn lemma_lower_args_extends(
    args: Seq<Expr>,
    n: nat,
    b: BuilderView,
    scope: Seq<(Seq<char>, ValueView)>,
    protos: Map<Seq<char>, Prototype>,
)
    requires
        b.well_formed(),
    ensures
        lower_args(args, n, b, scope, protos) is Ok ==> b.extended_by(
            lower_args(args, n, b, scope, protos)->Ok_0.1,
        ),
        lower_args(args, n, b, scope, protos) is Ok && n <= args.len() ==> lower_args(
            args,
            n,
            b,
            scope,
            protos,
        )->Ok_0.0.len() == n,
    decreases args, n,
{
    if n == 0 || n > args.len() {
        lemma_step_extends(b, InstView::Const(zero_numeral()), BlockKind::Entry, TermView::Br(0), 0);
    } else {
        lemma_lower_args_extends(args, (n - 1) as nat, b, scope, protos);
        if let Ok((_, b1)) = lower_args(args, (n - 1) as nat, b, scope, protos) {
            lemma_extends_facts(b, b1);
            lemma_lower_extends(args[n - 1], b1, scope, protos);
            if let Ok((_, b2)) = lower_expr(args[n - 1], b1, scope, protos) {
                lemma_extends_trans(b, b1, b2);
            }
        }
    }
}

/// An error among the first arguments is the error of all of them.
pub proof fn lemma_lower_args_error(
    args: Seq<Expr>,
    m: nat,
    n: nat,
    b: BuilderView,
    scope: Seq<(Seq<char>, ValueView)>,
    protos: Map<Seq<char>, Prototype>,
)
    requires
        m <= n <= args.len(),
        lower_args(args, m, b, scope, protos) is Err,
    ensures
        lower_args(args, n, b, scope, protos) == lower_args(args, m, b, scope, protos),
    decreases n,
{
    if m < n {
        lemma_lower_args_error(args, m, (n - 1) as nat, b, scope, protos);
    }
}

/// The scope that a body is lowered in: each parameter name bound to the
/// parameter at its position.
pub open spec fn param_scope(params: Seq<Seq<char>>) -> Seq<(Seq<char>, ValueView)> {
    Seq::new(params.len(), |i: int| (params[i], ValueView::Param(i as nat)))
}

/// The function that `f` compiles to: its body lowered into a new entry
/// block, then returned.
pub open spec fn lower_function(f: FunctionDef, protos: Map<Seq<char>, Prototype>) -> Result<
    FuncView,
    CodegenErrorView,
> {
    match lower_expr(
        f.body,
        BuilderView::start(f.proto.name, f.proto.params),
        param_scope(f.proto.params),
        protos,
    ) {
        Err(error) => Err(error),
        Ok((value, b)) => Ok(b.terminate(TermView::Ret(value)).func),
    }
}

/// The module after `p` is declared in it. A function of that name that has
/// a body stays as it is; one without gives way to the new declaration; where
/// there is none, the declaration is appended.
pub open spec fn declare_in(m: Seq<FuncView>, p: Prototype) -> Seq<FuncView> {
    let at = find_function(m, p.name);
    let declaration = FuncView::declaration(p.name, p.params);
    if at < m.len() {
        if m[at].is_defined() {
            m
        } else {
            m.update(at, declaration)
        }
    } else {
        m.push(declaration)
    }
}

/// What defining a function gives: its position or the error, and the module
/// afterwards.
pub struct Defined {
    pub result: Result<nat, CodegenErrorView>,
    pub module: Seq<FuncView>,
}

/// Defines `f` in `m`, where `protos` holds the signatures. A function of
/// that name that has a body makes it a redefinition, and the module stays as
/// it is. Otherwise the compiled function takes the place of the declaration
/// of that name, or is appended where there is none; where its body does not
/// lower, the module is left without a function of that name.
pub open spec fn define_in(m: Seq<FuncView>, protos: Map<Seq<char>, Prototype>, f: FunctionDef)
    -> Defined {
    let at = find_function(m, f.proto.name);
    if at < m.len() && m[at].is_defined() {
        Defined { result: Err(CodegenErrorView::Redefinition(f.proto.name)), module: m }
    } else {
        match lower_function(f, protos) {
            Ok(func) => Defined {
                result: Ok(at as nat),
                module: if at < m.len() {
                    m.update(at, func)
                } else {
                    m.push(func)
                },
            },
            Err(error) => Defined {
                result: Err(error),
                module: if at < m.len() {
                    m.remove(at)
                } else {
                    m
                },
            },
        }
    }
}

/// A function that compiled has the name and the parameters of its
/// signature, and a body.
pub proof fn lemma_lower_function_defined(f: FunctionDef, protos: Map<Seq<char>, Prototype>)
    ensures
        lower_function(f, protos) is Ok ==> {
            let func = lower_function(f, protos)->Ok_0;
            &&& func.name == f.proto.name
            &&& func.params == f.proto.params
            &&& func.is_defined()
        },
{
    let start = BuilderView::start(f.proto.name, f.proto.params);
    let scope = param_scope(f.proto.params);
    lemma_lower_extends(f.body, start, scope, protos);
    if let Ok((value, b)) = lower_expr(f.body, start, scope, protos) {
        lemma_extends_facts(start, b);
    }
}

/// A second body for a name is refused, whatever was declared in between.
///
/// Once `f` is defined in a module, defining any `g` of the same name there
/// is a redefinition and leaves the module as it is; and declaring a
/// signature `p` of that name leaves the module as it is too, so that the
/// body stays and a definition after the declaration is refused as well.
pub proof fn lemma_redefinition_refused(
    m: Seq<FuncView>,
    protos: Map<Seq<char>, Prototype>,
    f: FunctionDef,
    later: Map<Seq<char>, Prototype>,
    g: FunctionDef,
    p: Prototype,
)
    requires
        define_in(m, protos, f).result is Ok,
        g.proto.name == f.proto.name,
        p.name == f.proto.name,
    ensures
        define_in(define_in(m, protos, f).module, later, g) == (Defined {
            result: Err(CodegenErrorView::Redefinition(f.proto.name)),
            module: define_in(m, protos, f).module,
        }),
        declare_in(define_in(m, protos, f).module, p) == define_in(m, protos, f).module,
{
    let name = f.proto.name;
    let at = find_function(m, name);
    let after = define_in(m, protos, f).module;
    lemma_find_function(m, name);
    lemma_lower_function_defined(f, protos);
    assert forall|i: int| 0 <= i < at implies after[i].name != name by {
        assert(after[i] == m[i]);
    }
    lemma_find_function_at(after, name, at);
}

/// A declaration alone does not stand in the way of a definition: where no
/// function called as `f` has a body in `m`, defining `f` after declaring a
/// signature of its name is no redefinition.
pub proof fn lemma_declaration_allows_definition(
    m: Seq<FuncView>,
    protos: Map<Seq<char>, Prototype>,
    f: FunctionDef,
    p: Prototype,
)
    requires
        p.name == f.proto.name,
        !(find_function(m, p.name) < m.len() && m[find_function(m, p.name)].is_defined()),
    ensures
        define_in(declare_in(m, p), protos, f).result != Err::<nat, CodegenErrorView>(
            CodegenErrorView::Redefinition(f.proto.name),
        ),
        lower_function(f, protos) is Ok ==> define_in(declare_in(m, p), protos, f).result is Ok,
{
    let name = p.name;
    let at = find_function(m, name);
    let declared = declare_in(m, p);
    lemma_find_function(m, name);
    assert forall|i: int| 0 <= i < at implies declared[i].name != name by {
        assert(declared[i] == m[i]);
    }
    lemma_find_function_at(declared, name, at);
    lemma_lower_function_defined(f, protos);
    match lower_function(f, protos) {
        Ok(_) => {},
        Err(error) => {
            lemma_lower_never_redefinition(
                f.body,
                BuilderView::start(f.proto.name, f.proto.params),
                param_scope(f.proto.params),
                protos,
            );
        },
    }
}

/// Lowering an expression never fails as a redefinition.
#[verifier::rlimit(50)]
pub proof fn lemma_lower_never_redefinition(
    e: Expr,
    b: BuilderView,
    scope: Seq<(Seq<char>, ValueView)>,
    protos: Map<Seq<char>, Prototype>,
)
    ensures
        lower_expr(e, b, scope, protos) is Err ==> !(lower_expr(e, b, scope, protos)->Err_0
            is Redefinition),
    decreases e, 0nat,
{
    match e {
        Expr::Number(_) => {},
        Expr::Variable(_) => {},
        Expr::BinaryOp(op, lhs, rhs) => {
            lemma_lower_never_redefinition(*lhs, b, scope, protos);
            if let Ok((_, b1)) = lower_expr(*lhs, b, scope, protos) {
                lemma_lower_never_redefinition(*rhs, b1, scope, protos);
            }
        },
        Expr::Call(callee, args) => {
            lemma_lower_args_never_redefinition(args, args.len(), b, scope, protos);
        },
        Expr::If(condition, then_branch, else_branch) => {
            lemma_lower_never_redefinition(*condition, b, scope, protos);
            if let Ok((tested, b1)) = lower_expr(*condition, b, scope, protos) {
                let opened = b1.begin_if(tested);
                lemma_lower_never_redefinition(*then_branch, opened, scope, protos);
                if let Ok((_, b2)) = lower_expr(*then_branch, opened, scope, protos) {
                    lemma_lower_never_redefinition(
                        *else_branch,
                        b2.leave_branch(b1.next_block() + 2, b1.next_block() + 1),
                        scope,
                        protos,
                    );
                }
            }
        },
        Expr::For(variable_name, start, end, step, body) => {
            lemma_lower_never_redefinition(*start, b, scope, protos);
            if let Ok((first, b1)) = lower_expr(*start, b, scope, protos) {
                let variable = b1.loop_variable();
                let inner = scope.push((variable_name, variable));
                let opened = b1.begin_loop(first);
                lemma_lower_never_redefinition(*body, opened, inner, protos);
                if let Ok((_, b2)) = lower_expr(*body, opened, inner, protos) {
                    let stepped: Lowered = match step {
                        Some(s) => lower_expr(*s, b2, inner, protos),
                        None => Ok((b2.next_value(), b2.emit(InstView::Const(one_numeral())))),
                    };
                    if let Some(s) = step {
                        lemma_lower_never_redefinition(*s, b2, inner, protos);
                    }
                    if let Ok((by, b3)) = stepped {
                        lemma_lower_never_redefinition(
                            *end,
                            b3.emit(InstView::Binary(BinOp::Add, variable, by)),
                            scope.push((variable_name, b3.next_value())),
                            protos,
                        );
                    }
                }
            }
        },
    }
}

/// As `lemma_lower_never_redefinition`, for the arguments of a call.
pub proof fn lemma_lower_args_never_redefinition(
    args: Seq<Expr>,
    n: nat,
    b: BuilderView,
    scope: Seq<(Seq<char>, ValueView)>,
    protos: Map<Seq<char>, Prototype>,
)
    ensures
        lower_args(args, n, b, scope, protos) is Err ==> !(lower_args(
            args,
            n,
            b,
            scope,
            protos,
        )->Err_0 is Redefinition),
    decreases args, n,
{
    if n == 0 || n > args.len() {
    } else {
        lemma_lower_args_never_redefinition(args, (n - 1) as nat, b, scope, protos);
        if let Ok((_, b1)) = lower_args(args, (n - 1) as nat, b, scope, protos) {
            lemma_lower_never_redefinition(args[n - 1], b1, scope, protos);
        }
    }
}

} // verus!
