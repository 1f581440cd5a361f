//! What holds of every function that code generation gives: it refers to
//! nothing that it does not hold, and every one of its blocks is closed.
use vstd::prelude::*;
use crate::ast::{Expr, FunctionDef, Prototype};
use crate::ir::{BinOp, BlockKind, BlockView, BuilderView, FuncView, InstView, TermView, ValueView};
use crate::lowering::{
    Lowered, binop_of, define_in, lemma_begin_if_extends, lemma_begin_loop_extends, lemma_emit_extends,
    lemma_emit_truth_extends, lemma_extends_facts, lemma_lower_extends, lower_args, lower_expr,
    lower_function, one_numeral, param_scope, zero_numeral,
};
use crate::scope::lookup;

verus! {

impl FuncView {
    /// Whether `value` is a parameter of the function or the result of one
    /// of its instructions.
    pub open spec fn defines(self, value: ValueView) -> bool {
        match value {
            ValueView::Param(i) => i < self.params.len(),
            ValueView::Inst(i) => i < self.insts.len(),
        }
    }

    /// Whether `inst` uses only values and blocks of the function.
    pub open spec fn holds_inst(self, inst: InstView) -> bool {
        match inst {
            InstView::Const(_) => true,
            InstView::Binary(_, lhs, rhs) => self.defines(lhs) && self.defines(rhs),
            InstView::Call(_, args) => forall|i: int|
                0 <= i < args.len() ==> self.defines(#[trigger] args[i]),
            InstView::Phi(edges) => forall|i: int|
                0 <= i < edges.len() ==> self.defines((#[trigger] edges[i]).0) && edges[i].1
                    < self.blocks.len(),
        }
    }

    /// Whether `terminator` uses only values and blocks of the function.
    pub open spec fn holds_terminator(self, terminator: TermView) -> bool {
        match terminator {
            TermView::Br(target) => target < self.blocks.len(),
            TermView::CondBr(condition, then_block, else_block) => {
                &&& self.defines(condition)
                &&& then_block < self.blocks.len()
                &&& else_block < self.blocks.len()
            },
            TermView::Ret(value) => self.defines(value),
        }
    }

    /// Whether `block` names only instructions of the function, and ends,
    /// where it does, in a terminator that the function holds.
    pub open spec fn holds_block(self, block: BlockView) -> bool {
        &&& forall|j: int| 0 <= j < block.insts.len() ==> #[trigger] block.insts[j] < self.insts.len()
        &&& match block.terminator {
            Some(terminator) => self.holds_terminator(terminator),
            None => true,
        }
    }

    /// The function refers to nothing that it does not hold: every operand
    /// is a parameter or the result of an instruction, and every block that
    /// is jumped to or merged from exists.
    pub open spec fn closed(self) -> bool {
        &&& forall|i: int| 0 <= i < self.insts.len() ==> self.holds_inst(#[trigger] self.insts[i])
        &&& forall|k: int|
            0 <= k < self.blocks.len() ==> self.holds_block(#[trigger] self.blocks[k])
    }

    /// The function has a body, and every block of it ends in a terminator.
    pub open spec fn complete(self) -> bool {
        &&& self.blocks.len() > 0
        &&& forall|k: int| 0 <= k < self.blocks.len() ==> (#[trigger] self.blocks[k]).terminator is Some
    }

    /// `other` has the parameters of `self`, and at least its instructions
    /// and blocks in number.
    pub open spec fn grown_to(self, other: FuncView) -> bool {
        &&& other.params == self.params
        &&& self.insts.len() <= other.insts.len()
        &&& self.blocks.len() <= other.blocks.len()
    }
}

/// Whether every value bound in `scope` is one that `f` defines.
pub open spec fn scope_defined(f: FuncView, scope: Seq<(Seq<char>, ValueView)>) -> bool {
    forall|i: int| 0 <= i < scope.len() ==> f.defines((#[trigger] scope[i]).1)
}

/// What a function holds, a function grown from it holds too.
#[verifier::rlimit(50)]
pub proof fn lemma_grown(f: FuncView, g: FuncView)
    requires
        f.grown_to(g),
    ensures
        forall|value: ValueView| f.defines(value) ==> g.defines(value),
        forall|inst: InstView| f.holds_inst(inst) ==> g.holds_inst(inst),
        forall|terminator: TermView|
            f.holds_terminator(terminator) ==> g.holds_terminator(terminator),
        forall|block: BlockView| f.holds_block(block) ==> g.holds_block(block),
        forall|scope: Seq<(Seq<char>, ValueView)>|
            scope_defined(f, scope) ==> scope_defined(g, scope),
{
    assert forall|inst: InstView| f.holds_inst(inst) implies g.holds_inst(inst) by {
        match inst {
            InstView::Call(_, args) => {
                assert forall|i: int| 0 <= i < args.len() implies g.defines(#[trigger] args[i]) by {
                    assert(f.defines(args[i]));
                }
            },
            InstView::Phi(edges) => {
                assert forall|i: int| 0 <= i < edges.len() implies g.defines(
                    (#[trigger] edges[i]).0,
                ) && edges[i].1 < g.blocks.len() by {
                    assert(f.defines(edges[i].0));
                }
            },
            _ => {},
        }
    }
    assert forall|block: BlockView| f.holds_block(block) implies g.holds_block(block) by {
        assert forall|j: int| 0 <= j < block.insts.len() implies #[trigger] block.insts[j]
            < g.insts.len() by {
            assert(block.insts[j] < f.insts.len());
        }
    }
    assert forall|scope: Seq<(Seq<char>, ValueView)>| scope_defined(f, scope) implies scope_defined(
        g,
        scope,
    ) by {
        assert forall|i: int| 0 <= i < scope.len() implies g.defines((#[trigger] scope[i]).1) by {
            assert(f.defines(scope[i].1));
        }
    }
}

/// A closed function that grows by steps that keep its instructions and
/// blocks, but for those named, stays closed where those named are held.
pub(crate) proof fn lemma_closed_step(f: FuncView, g: FuncView, inst_at: int, block_at: int)
    requires
        f.closed(),
        f.grown_to(g),
        forall|i: int| 0 <= i < f.insts.len() && i != inst_at ==> g.insts[i] == f.insts[i],
        forall|k: int| 0 <= k < f.blocks.len() && k != block_at ==> g.blocks[k] == f.blocks[k],
        forall|i: int|
            (f.insts.len() <= i < g.insts.len() || i == inst_at) && 0 <= i < g.insts.len()
                ==> g.holds_inst(#[trigger] g.insts[i]),
        forall|k: int|
            (f.blocks.len() <= k < g.blocks.len() || k == block_at) && 0 <= k < g.blocks.len()
                ==> g.holds_block(#[trigger] g.blocks[k]),
    ensures
        g.closed(),
{
    lemma_grown(f, g);
    assert forall|i: int| 0 <= i < g.insts.len() implies g.holds_inst(#[trigger] g.insts[i]) by {
        if i < f.insts.len() && i != inst_at {
            assert(f.holds_inst(f.insts[i]));
        }
    }
    assert forall|k: int| 0 <= k < g.blocks.len() implies g.holds_block(#[trigger] g.blocks[k]) by {
        if k < f.blocks.len() && k != block_at {
            assert(f.holds_block(f.blocks[k]));
        }
    }
}

/// Emitting an instruction that the function holds keeps it closed, and
/// defines the value of the instruction.
pub(crate) proof fn lemma_emit_closed(b: BuilderView, inst: InstView)
    requires
        b.well_formed(),
        b.func.closed(),
        b.func.holds_inst(inst),
    ensures
        b.emit(inst).func.closed(),
        b.emit(inst).func.defines(b.next_value()),
        b.func.grown_to(b.emit(inst).func),
        b.emit(inst).well_formed(),
{
    let f = b.func;
    let g = b.emit(inst).func;
    lemma_grown(f, g);
    let block = g.blocks[b.current as int];
    assert(g.holds_block(block)) by {
        assert(f.holds_block(f.blocks[b.current as int]));
        assert forall|j: int| 0 <= j < block.insts.len() implies #[trigger] block.insts[j]
            < g.insts.len() by {
            if j < f.blocks[b.current as int].insts.len() {
                assert(block.insts[j] == f.blocks[b.current as int].insts[j]);
            }
        }
    }
    lemma_closed_step(f, g, -1, b.current as int);
}

/// Appending a block keeps a function closed.
pub(crate) proof fn lemma_append_closed(b: BuilderView, kind: BlockKind)
    requires
        b.well_formed(),
        b.func.closed(),
    ensures
        b.append_block(kind).func.closed(),
        b.func.grown_to(b.append_block(kind).func),
        b.append_block(kind).well_formed(),
{
    lemma_closed_step(b.func, b.append_block(kind).func, -1, -1);
}

/// Closing the insertion block with a terminator that the function holds
/// keeps it closed.
pub(crate) proof fn lemma_terminate_closed(b: BuilderView, terminator: TermView)
    requires
        b.well_formed(),
        b.func.closed(),
        b.func.holds_terminator(terminator),
    ensures
        b.terminate(terminator).func.closed(),
        b.func.grown_to(b.terminate(terminator).func),
        b.terminate(terminator).well_formed(),
{
    let f = b.func;
    let g = b.terminate(terminator).func;
    assert(f.holds_block(f.blocks[b.current as int]));
    lemma_closed_step(f, g, -1, b.current as int);
}

/// Adding an edge that the function holds to a merge keeps it closed.
pub(crate) proof fn lemma_add_incoming_closed(
    b: BuilderView,
    phi: ValueView,
    value: ValueView,
    block: nat,
)
    requires
        b.well_formed(),
        b.func.closed(),
        b.is_phi(phi),
        b.func.defines(value),
        block < b.func.blocks.len(),
    ensures
        b.add_incoming(phi, value, block).func.closed(),
        b.func.grown_to(b.add_incoming(phi, value, block).func),
        b.add_incoming(phi, value, block).well_formed(),
{
    let f = b.func;
    let g = b.add_incoming(phi, value, block).func;
    let at = phi->Inst_0 as int;
    let before = f.insts[at]->Phi_0;
    let after = before.push((value, block));
    assert(f.holds_inst(f.insts[at]));
    assert(g.holds_inst(g.insts[at])) by {
        assert forall|i: int| 0 <= i < after.len() implies g.defines((#[trigger] after[i]).0)
            && after[i].1 < g.blocks.len() by {
            if i < before.len() {
                assert(f.defines(before[i].0));
            }
        }
    }
    lemma_closed_step(f, g, at, -1);
}

impl BuilderView {
    /// The insertion block exists and the function is closed.
    pub open spec fn kept(self) -> bool {
        self.well_formed() && self.func.closed()
    }
}

/// Emitting the test of a value that the function defines keeps it closed.
pub(crate) proof fn lemma_emit_truth_closed(b: BuilderView, value: ValueView)
    requires
        b.kept(),
        b.func.defines(value),
    ensures
        b.emit_truth(value).kept(),
        b.emit_truth(value).func.defines(b.truth_value()),
        b.func.grown_to(b.emit_truth(value).func),
        b.emit_truth(value).func.blocks.len() == b.func.blocks.len(),
        b.emit_truth(value).current == b.current,
{
    let zero = InstView::Const(zero_numeral());
    let b1 = b.emit(zero);
    lemma_emit_closed(b, zero);
    lemma_grown(b.func, b1.func);
    lemma_emit_closed(b1, InstView::Binary(BinOp::Gt, value, b.next_value()));
}

/// Opening a conditional on a value that the function defines keeps it
/// closed.
pub(crate) proof fn lemma_begin_if_closed(b: BuilderView, condition: ValueView)
    requires
        b.kept(),
        b.func.defines(condition),
    ensures
        b.begin_if(condition).kept(),
        b.func.grown_to(b.begin_if(condition).func),
        b.begin_if(condition).func.blocks.len() == b.func.blocks.len() + 3,
{
    let then_block = b.next_block();
    let else_block = then_block + 1;
    let branch = TermView::CondBr(b.truth_value(), then_block, else_block);
    let b1 = b.emit_truth(condition);
    let b2 = b1.append_block(BlockKind::Then);
    let b3 = b2.append_block(BlockKind::Else);
    let b4 = b3.append_block(BlockKind::IfCont);
    lemma_emit_truth_closed(b, condition);
    lemma_append_closed(b1, BlockKind::Then);
    lemma_append_closed(b2, BlockKind::Else);
    lemma_append_closed(b3, BlockKind::IfCont);
    lemma_grown(b1.func, b4.func);
    lemma_terminate_closed(b4, branch);
}

/// Leaving a branch for blocks that exist keeps the function closed.
pub(crate) proof fn lemma_leave_branch_closed(b: BuilderView, merge: nat, next: nat)
    requires
        b.kept(),
        merge < b.func.blocks.len(),
        next < b.func.blocks.len(),
    ensures
        b.leave_branch(merge, next).kept(),
        b.func.grown_to(b.leave_branch(merge, next).func),
        b.leave_branch(merge, next).func.blocks.len() == b.func.blocks.len(),
{
    lemma_terminate_closed(b, TermView::Br(merge));
}

/// Opening a loop on a start value that the function defines keeps it
/// closed, and defines the loop variable.
pub(crate) proof fn lemma_begin_loop_closed(b: BuilderView, start: ValueView)
    requires
        b.kept(),
        b.func.defines(start),
    ensures
        b.begin_loop(start).kept(),
        b.func.grown_to(b.begin_loop(start).func),
        b.begin_loop(start).func.defines(b.loop_variable()),
        b.begin_loop(start).is_phi(b.loop_variable()),
{
    let loop_block = b.next_block();
    let b1 = b.append_block(BlockKind::Loop);
    let b2 = b1.terminate(TermView::Br(loop_block));
    let b3 = b2.position_at_end(loop_block);
    let merge = InstView::Phi(seq![(start, b.current)]);
    lemma_append_closed(b, BlockKind::Loop);
    lemma_terminate_closed(b1, TermView::Br(loop_block));
    lemma_grown(b.func, b3.func);
    assert(b3.func.holds_inst(merge)) by {
        let edges = seq![(start, b.current)];
        assert forall|i: int| 0 <= i < edges.len() implies b3.func.defines(
            (#[trigger] edges[i]).0,
        ) && edges[i].1 < b3.func.blocks.len() by {}
    }
    lemma_emit_closed(b3, merge);
}

/// Closing a loop with values that the function defines keeps it closed,
/// and defines the value of the loop.
pub(crate) proof fn lemma_end_loop_closed(
    b: BuilderView,
    loop_block: nat,
    variable: ValueView,
    next: ValueView,
    end: ValueView,
)
    requires
        b.kept(),
        b.is_phi(variable),
        b.func.defines(next),
        b.func.defines(end),
        loop_block < b.func.blocks.len(),
    ensures
        b.end_loop(loop_block, variable, next, end).kept(),
        b.func.grown_to(b.end_loop(loop_block, variable, next, end).func),
        b.end_loop(loop_block, variable, next, end).func.defines(b.loop_value()),
{
    let tested = b.emit_truth(end);
    let after_block = tested.next_block();
    let branch = TermView::CondBr(b.truth_value(), loop_block, after_block);
    let b1 = tested.append_block(BlockKind::AfterLoop);
    let b2 = b1.add_incoming(variable, next, b.current);
    let b3 = b2.terminate(branch);
    let b4 = b3.position_at_end(after_block);
    lemma_emit_truth_closed(b, end);
    lemma_append_closed(tested, BlockKind::AfterLoop);
    lemma_grown(b.func, b1.func);
    lemma_grown(tested.func, b1.func);
    lemma_add_incoming_closed(b1, variable, next, b.current);
    lemma_grown(b1.func, b2.func);
    lemma_terminate_closed(b2, branch);
    lemma_emit_closed(b4, InstView::Const(zero_numeral()));
}

/// What a name stands for in a scope of defined values is defined.
pub(crate) proof fn lemma_lookup_defined(f: FuncView, scope: Seq<(Seq<char>, ValueView)>, name: Seq<char>)
    requires
        scope_defined(f, scope),
    ensures
        lookup(scope, name) is Some ==> f.defines(lookup(scope, name)->Some_0),
    decreases scope.len(),
{
    if scope.len() > 0 {
        assert(f.defines(scope[scope.len() - 1].1));
        if scope.last().0 != name {
            let others = scope.drop_last();
            assert forall|i: int| 0 <= i < others.len() implies f.defines(
                (#[trigger] others[i]).1,
            ) by {
                assert(others[i] == scope[i]);
            }
            lemma_lookup_defined(f, others, name);
        }
    }
}

/// A binding of a defined value keeps a scope defined.
pub(crate) proof fn lemma_bind_defined(
    f: FuncView,
    scope: Seq<(Seq<char>, ValueView)>,
    name: Seq<char>,
    value: ValueView,
)
    requires
        scope_defined(f, scope),
        f.defines(value),
    ensures
        scope_defined(f, scope.push((name, value))),
{
    let bound = scope.push((name, value));
    assert forall|i: int| 0 <= i < bound.len() implies f.defines((#[trigger] bound[i]).1) by {
        if i < scope.len() {
            assert(bound[i] == scope[i]);
        }
    }
}

/// Lowering keeps a function closed: from a closed function and a scope of
/// values that it defines, it gives a closed function that defines the value
/// of the expression.
#[verifier::rlimit(50)]
pub proof fn lemma_lower_closed(
    e: Expr,
    b: BuilderView,
    scope: Seq<(Seq<char>, ValueView)>,
    protos: Map<Seq<char>, Prototype>,
)
    requires
        b.kept(),
        scope_defined(b.func, scope),
    ensures
        lower_expr(e, b, scope, protos) is Ok ==> {
            let (value, after) = lower_expr(e, b, scope, protos)->Ok_0;
            &&& after.kept()
            &&& after.func.defines(value)
            &&& b.func.grown_to(after.func)
        },
    decreases e, 1nat,
{
    match e {
        Expr::Number(text) => {
            lemma_emit_closed(b, InstView::Const(text));
        },
        Expr::Variable(name) => {
            lemma_lookup_defined(b.func, scope, name);
        },
        Expr::BinaryOp(op, lhs, rhs) => {
            lemma_lower_closed(*lhs, b, scope, protos);
            if let Ok((left, b1)) = lower_expr(*lhs, b, scope, protos) {
                lemma_grown(b.func, b1.func);
                lemma_lower_closed(*rhs, b1, scope, protos);
                if let Ok((right, b2)) = lower_expr(*rhs, b1, scope, protos) {
                    lemma_grown(b1.func, b2.func);
                    if let Some(kind) = binop_of(op) {
                        lemma_emit_closed(b2, InstView::Binary(kind, left, right));
                    }
                }
            }
        },
        Expr::Call(callee, args) => {
            lemma_lower_args_closed(args, args.len(), b, scope, protos);
            if let Ok((values, b1)) = lower_args(args, args.len(), b, scope, protos) {
                lemma_emit_closed(b1, InstView::Call(callee, values));
            }
        },
        Expr::If(_, _, _) => {
            lemma_lower_if_closed(e, b, scope, protos);
        },
        Expr::For(_, _, _, _, _) => {
            lemma_lower_for_closed(e, b, scope, protos);
        },
    }
}

/// `lemma_lower_closed` for a conditional.
#[verifier::rlimit(50)]
proof fn lemma_lower_if_closed(
    e: Expr,
    b: BuilderView,
    scope: Seq<(Seq<char>, ValueView)>,
    protos: Map<Seq<char>, Prototype>,
)
    requires
        b.kept(),
        scope_defined(b.func, scope),
        e is If,
    ensures
        lower_expr(e, b, scope, protos) is Ok ==> {
            let (value, after) = lower_expr(e, b, scope, protos)->Ok_0;
            &&& after.kept()
            &&& after.func.defines(value)
            &&& b.func.grown_to(after.func)
        },
    decreases e, 0nat,
{
    let condition = *e->If_0;
    let then_branch = *e->If_1;
    let else_branch = *e->If_2;
    lemma_lower_closed(condition, b, scope, protos);
    if let Ok((tested, b1)) = lower_expr(condition, b, scope, protos) {
        let else_block = b1.next_block() + 1;
        let merge_block = b1.next_block() + 2;
        let opened = b1.begin_if(tested);
        lemma_begin_if_closed(b1, tested);
        lemma_grown(b.func, opened.func);
        lemma_lower_closed(then_branch, opened, scope, protos);
        if let Ok((then_value, b2)) = lower_expr(then_branch, opened, scope, protos) {
            let second = b2.leave_branch(merge_block, else_block);
            lemma_leave_branch_closed(b2, merge_block, else_block);
            lemma_grown(b.func, second.func);
            lemma_lower_closed(else_branch, second, scope, protos);
            if let Ok((else_value, b3)) = lower_expr(else_branch, second, scope, protos) {
                let b4 = b3.leave_branch(merge_block, merge_block);
                lemma_leave_branch_closed(b3, merge_block, merge_block);
                lemma_grown(b2.func, b4.func);
                lemma_grown(b3.func, b4.func);
                let edges = seq![(then_value, b2.current), (else_value, b3.current)];
                assert(b4.func.holds_inst(InstView::Phi(edges))) by {
                    assert forall|i: int| 0 <= i < edges.len() implies b4.func.defines(
                        (#[trigger] edges[i]).0,
                    ) && edges[i].1 < b4.func.blocks.len() by {}
                }
                lemma_emit_closed(b4, InstView::Phi(edges));
            }
        }
    }
}

/// `lemma_lower_closed` for a loop.
#[verifier::rlimit(50)]
proof fn lemma_lower_for_closed(
    e: Expr,
    b: BuilderView,
    scope: Seq<(Seq<char>, ValueView)>,
    protos: Map<Seq<char>, Prototype>,
)
    requires
        b.kept(),
        scope_defined(b.func, scope),
        e is For,
    ensures
        lower_expr(e, b, scope, protos) is Ok ==> {
            let (value, after) = lower_expr(e, b, scope, protos)->Ok_0;
            &&& after.kept()
            &&& after.func.defines(value)
            &&& b.func.grown_to(after.func)
        },
    decreases e, 0nat,
{
    let variable_name = e->For_0;
    let start = *e->For_1;
    let end = *e->For_2;
    let step = e->For_3;
    let body = *e->For_4;
    lemma_lower_closed(start, b, scope, protos);
    if let Ok((first, b1)) = lower_expr(start, b, scope, protos) {
        let variable = b1.loop_variable();
        let inner = scope.push((variable_name, variable));
        let opened = b1.begin_loop(first);
        lemma_begin_loop_closed(b1, first);
        lemma_begin_loop_extends(b1, first);
        lemma_grown(b.func, opened.func);
        lemma_bind_defined(opened.func, scope, variable_name, variable);
        lemma_lower_closed(body, opened, inner, protos);
        lemma_lower_extends(body, opened, inner, protos);
        if let Ok((_, b2)) = lower_expr(body, opened, inner, protos) {
            lemma_extends_facts(opened, b2);
            lemma_grown(opened.func, b2.func);
            let stepped: Lowered = match step {
                Some(s) => lower_expr(*s, b2, inner, protos),
                None => Ok((b2.next_value(), b2.emit(InstView::Const(one_numeral())))),
            };
            match step {
                Some(s) => {
                    lemma_lower_closed(*s, b2, inner, protos);
                    lemma_lower_extends(*s, b2, inner, protos);
                },
                None => {
                    lemma_emit_closed(b2, InstView::Const(one_numeral()));
                    lemma_emit_extends(b2, b2, InstView::Const(one_numeral()));
                },
            }
            if let Ok((by, b3)) = stepped {
                lemma_extends_facts(b2, b3);
                lemma_grown(b2.func, b3.func);
                lemma_grown(b.func, b3.func);
                let next = b3.next_value();
                let sum = InstView::Binary(BinOp::Add, variable, by);
                let b4 = b3.emit(sum);
                lemma_emit_closed(b3, sum);
                lemma_emit_extends(b3, b3, sum);
                lemma_extends_facts(b3, b4);
                lemma_grown(b3.func, b4.func);
                let outer = scope.push((variable_name, next));
                lemma_bind_defined(b4.func, scope, variable_name, next);
                lemma_lower_closed(end, b4, outer, protos);
                lemma_lower_extends(end, b4, outer, protos);
                if let Ok((last, b5)) = lower_expr(end, b4, outer, protos) {
                    lemma_extends_facts(b4, b5);
                    lemma_grown(b4.func, b5.func);
                    lemma_grown(b1.func, b5.func);
                    lemma_end_loop_closed(b5, b1.next_block(), variable, next, last);
                }
            }
        }
    }
}

/// As `lemma_lower_closed`, for the arguments of a call.
pub proof fn lemma_lower_args_closed(
    args: Seq<Expr>,
    n: nat,
    b: BuilderView,
    scope: Seq<(Seq<char>, ValueView)>,
    protos: Map<Seq<char>, Prototype>,
)
    requires
        b.kept(),
        scope_defined(b.func, scope),
    ensures
        lower_args(args, n, b, scope, protos) is Ok ==> {
            let (values, after) = lower_args(args, n, b, scope, protos)->Ok_0;
            &&& after.kept()
            &&& b.func.grown_to(after.func)
            &&& forall|i: int| 0 <= i < values.len() ==> after.func.defines(#[trigger] values[i])
        },
    decreases args, n,
{
    if n == 0 || n > args.len() {
    } else {
        lemma_lower_args_closed(args, (n - 1) as nat, b, scope, protos);
        if let Ok((values, b1)) = lower_args(args, (n - 1) as nat, b, scope, protos) {
            lemma_grown(b.func, b1.func);
            lemma_lower_closed(args[n - 1], b1, scope, protos);
            if let Ok((value, b2)) = lower_expr(args[n - 1], b1, scope, protos) {
                lemma_grown(b1.func, b2.func);
                let all = values.push(value);
                assert forall|i: int| 0 <= i < all.len() implies b2.func.defines(
                    #[trigger] all[i],
                ) by {
                    if i < values.len() {
                        assert(b1.func.defines(values[i]));
                    }
                }
            }
        }
    }
}

impl BuilderView {
    /// The insertion block exists and has no terminator yet.
    pub open spec fn open(self) -> bool {
        self.well_formed() && self.func.blocks[self.current as int].terminator is None
    }

    /// `after` is `self` with one expression more. Its insertion block is
    /// open, and is that of `self` or a block that `self` has not. The
    /// instructions of `self` are as they were, and so are its blocks but for
    /// its insertion block, which has its instructions and then, at most,
    /// new ones that are no merges. The insertion block of `self`, where it
    /// was left, and the other blocks that `self` has not are closed, and jump
    /// only to blocks that `self` has not.
    pub open spec fn settled_into(self, after: BuilderView) -> bool {
        &&& self.func.blocks.len() <= after.func.blocks.len()
        &&& self.func.insts.len() <= after.func.insts.len()
        &&& after.open()
        &&& after.current == self.current || after.current >= self.func.blocks.len()
        &&& forall|i: int|
            0 <= i < self.func.insts.len() ==> #[trigger] after.func.insts[i] == self.func.insts[i]
        &&& forall|k: int|
            0 <= k < self.func.blocks.len() && k != self.current ==> #[trigger] after.func.blocks[k]
                == self.func.blocks[k]
        &&& self.resumed_in(after)
        &&& forall|k: int|
            self.func.blocks.len() <= k < after.func.blocks.len() && k != after.current ==> (
            #[trigger] after.func.blocks[k]).terminator is Some
        &&& after.current != self.current ==> after.func.blocks[self.current as int].terminator
            is Some
        &&& forall|k: int|
            0 <= k < after.func.blocks.len() && (k >= self.func.blocks.len() || k == self.current)
                ==> jumps_beyond((#[trigger] after.func.blocks[k]).terminator, self.func.blocks.len())
    }

    /// The insertion block of `self` has in `after` the instructions that it
    /// had, and then new ones that are no merges.
    pub open spec fn resumed_in(self, after: BuilderView) -> bool {
        let before = self.func.blocks[self.current as int].insts;
        let now = after.func.blocks[self.current as int].insts;
        &&& before.len() <= now.len()
        &&& forall|j: int| 0 <= j < before.len() ==> #[trigger] now[j] == before[j]
        &&& forall|j: int|
            before.len() <= j < now.len() ==> {
                &&& self.func.insts.len() <= #[trigger] now[j] < after.func.insts.len()
                &&& !(after.func.insts[now[j] as int] is Phi)
            }
    }
}

/// Whether a terminator, where there is one, jumps only to blocks from
/// position `n` on.
pub open spec fn jumps_beyond(terminator: Option<TermView>, n: nat) -> bool {
    match terminator {
        Some(TermView::Br(target)) => target >= n,
        Some(TermView::CondBr(_, then_block, else_block)) => then_block >= n && else_block >= n,
        _ => true,
    }
}

/// An instruction more leaves the blocks as they were, but for the
/// insertion block, which stays open.
pub(crate) proof fn lemma_emit_settles(b: BuilderView, inst: InstView)
    requires
        b.open(),
        !(inst is Phi),
    ensures
        b.settled_into(b.emit(inst)),
        b.settled_into(b),
{
}

/// What is settled stays settled over one expression more.
pub(crate) proof fn lemma_settled_trans(a: BuilderView, b: BuilderView, c: BuilderView)
    requires
        a.open(),
        a.settled_into(b),
        b.settled_into(c),
    ensures
        a.settled_into(c),
{
    assert forall|k: int| 0 <= k < a.func.blocks.len() && k != a.current implies
        #[trigger] c.func.blocks[k] == a.func.blocks[k] by {
        assert(b.func.blocks[k] == a.func.blocks[k]);
        assert(c.func.blocks[k] == b.func.blocks[k]);
    }
    assert forall|k: int|
        a.func.blocks.len() <= k < c.func.blocks.len() && k != c.current implies (
    #[trigger] c.func.blocks[k]).terminator is Some by {
        if k < b.func.blocks.len() {
            if k != b.current {
                assert(b.func.blocks[k].terminator is Some);
                assert(c.func.blocks[k] == b.func.blocks[k]);
            }
        }
    }
    if c.current != a.current {
        let k = a.current as int;
        if b.current != a.current {
            assert(b.func.blocks[k].terminator is Some);
            assert(c.func.blocks[k] == b.func.blocks[k]);
        }
    }
}

/// A conditional settles, where its branches do.
#[verifier::rlimit(50)]
pub(crate) proof fn lemma_if_settles(
    b: BuilderView,
    tested: ValueView,
    then_end: BuilderView,
    else_end: BuilderView,
    merge: InstView,
)
    requires
        b.open(),
        b.begin_if(tested).settled_into(then_end),
        then_end.leave_branch(b.next_block() + 2, b.next_block() + 1).settled_into(else_end),
    ensures
        b.settled_into(
            else_end.leave_branch(b.next_block() + 2, b.next_block() + 2).emit(merge),
        ),
{
    let then_block = b.next_block();
    let else_block = then_block + 1;
    let merge_block = then_block + 2;
    let opened = b.begin_if(tested);
    let second = then_end.leave_branch(merge_block, else_block);
    let joined = else_end.leave_branch(merge_block, merge_block);
    let last = joined.emit(merge);
    lemma_begin_if_extends(b, tested);
    lemma_emit_truth_extends(b, tested);
    let n = b.func.blocks.len() as int;
    // The blocks that the conditional appends are empty and open when the
    // then-branch starts.
    assert(opened.func.blocks.len() == n + 3);
    assert(opened.func.blocks[n + 1].terminator is None);
    assert(opened.func.blocks[n + 2].terminator is None);
    assert(opened.func.blocks[b.current as int].terminator is Some);
    assert forall|k: int| 0 <= k < n && k != b.current implies #[trigger] opened.func.blocks[k]
        == b.func.blocks[k] by {}
    // The then-branch leaves them as they are.
    assert(then_end.func.blocks[n + 1] == opened.func.blocks[n + 1]);
    assert(then_end.func.blocks[n + 2] == opened.func.blocks[n + 2]);
    assert(then_end.func.blocks[b.current as int] == opened.func.blocks[b.current as int]);
    assert(second.func.blocks.len() == then_end.func.blocks.len());
    assert(second.func.blocks[n + 1].terminator is None);
    assert(second.func.blocks[n].terminator is Some);
    // So does the else-branch, but for its own block.
    assert(else_end.func.blocks[n + 2] == second.func.blocks[n + 2]);
    assert(else_end.func.blocks[n] == second.func.blocks[n]);
    assert(else_end.func.blocks[b.current as int] == second.func.blocks[b.current as int]);
    assert(joined.func.blocks.len() == else_end.func.blocks.len());
    assert(last.func.blocks.len() == else_end.func.blocks.len());
    assert(last.current == merge_block);
    assert(last.func.blocks[n + 2].terminator is None);
    assert forall|k: int| 0 <= k < n && k != b.current implies #[trigger] last.func.blocks[k]
        == b.func.blocks[k] by {
        assert(then_end.func.blocks[k] == opened.func.blocks[k]);
        assert(second.func.blocks[k] == then_end.func.blocks[k]);
        assert(else_end.func.blocks[k] == second.func.blocks[k]);
        assert(joined.func.blocks[k] == else_end.func.blocks[k]);
    }
    assert forall|k: int| n <= k < last.func.blocks.len() && k != last.current implies (
    #[trigger] last.func.blocks[k]).terminator is Some by {
        if k < then_end.func.blocks.len() {
            // A block of the then-branch, or the else block.
            if k == n + 1 {
                assert(joined.func.blocks[k].terminator is Some);
            } else {
                assert(second.func.blocks[k].terminator is Some) by {
                    if k != then_end.current {
                        if k >= n + 3 {
                            assert(then_end.func.blocks[k].terminator is Some);
                        }
                    }
                }
                assert(else_end.func.blocks[k] == second.func.blocks[k]);
                assert(joined.func.blocks[k] == else_end.func.blocks[k]);
            }
        } else {
            // A block of the else-branch.
            if k != else_end.current {
                assert(else_end.func.blocks[k].terminator is Some);
            }
            assert(joined.func.blocks[k].terminator is Some);
        }
        assert(last.func.blocks[k] == joined.func.blocks[k]);
    }
    assert(last.func.blocks[b.current as int].terminator is Some) by {
        assert(joined.func.blocks[b.current as int] == else_end.func.blocks[b.current as int]);
    }
}

/// A loop settles, where what stands between its head and its end does.
#[verifier::rlimit(50)]
pub(crate) proof fn lemma_loop_settles(
    b: BuilderView,
    first: ValueView,
    end: BuilderView,
    variable: ValueView,
    next: ValueView,
    last: ValueView,
)
    requires
        b.open(),
        b.begin_loop(first).settled_into(end),
        variable == b.loop_variable(),
    ensures
        b.settled_into(end.end_loop(b.next_block(), variable, next, last)),
{
    let n = b.func.blocks.len() as int;
    let opened = b.begin_loop(first);
    let tested = end.emit_truth(last);
    let appended = tested.append_block(BlockKind::AfterLoop);
    let merged = appended.add_incoming(variable, next, end.current);
    let branched = merged.terminate(
        TermView::CondBr(end.truth_value(), b.next_block(), tested.next_block()),
    );
    let moved = branched.position_at_end(tested.next_block());
    let done = end.end_loop(b.next_block(), variable, next, last);
    lemma_begin_loop_extends(b, first);
    lemma_emit_truth_extends(end, last);
    let m = end.func.blocks.len() as int;
    assert(opened.func.blocks[b.current as int].terminator is Some);
    assert forall|k: int| 0 <= k < n && k != b.current implies #[trigger] opened.func.blocks[k]
        == b.func.blocks[k] by {}
    assert(merged.func.blocks == appended.func.blocks);
    assert(done.func.blocks.len() == m + 1);
    assert(done.current == m);
    assert(done.func.blocks[m].terminator is None);
    assert forall|k: int| 0 <= k < m && k != end.current implies #[trigger] done.func.blocks[k]
        == end.func.blocks[k] by {
        assert(tested.func.blocks[k] == end.func.blocks[k]);
        assert(appended.func.blocks[k] == tested.func.blocks[k]);
        assert(branched.func.blocks[k] == merged.func.blocks[k]);
        assert(done.func.blocks[k] == moved.func.blocks[k]);
    }
    assert(done.func.blocks[end.current as int].terminator is Some) by {
        assert(branched.func.blocks[end.current as int].terminator is Some);
        assert(done.func.blocks[end.current as int] == moved.func.blocks[end.current as int]);
    }
    assert forall|k: int| 0 <= k < n && k != b.current implies #[trigger] done.func.blocks[k]
        == b.func.blocks[k] by {
        assert(end.func.blocks[k] == opened.func.blocks[k]);
    }
    assert forall|k: int| n <= k < done.func.blocks.len() && k != done.current implies (
    #[trigger] done.func.blocks[k]).terminator is Some by {
        if k != end.current {
            if k == n {
                assert(end.func.blocks[k].terminator is Some);
            } else {
                assert(end.func.blocks[k].terminator is Some);
            }
        }
    }
    assert(done.func.blocks[b.current as int].terminator is Some) by {
        assert(end.func.blocks[b.current as int] == opened.func.blocks[b.current as int]);
    }
    // The instructions that were there are as they were: the merge that
    // gets an edge is the loop's own.
    assert(variable == ValueView::Inst(variable->Inst_0));
    assert forall|i: int| 0 <= i < b.func.insts.len() implies #[trigger] done.func.insts[i]
        == b.func.insts[i] by {
        assert(opened.func.insts[i] == b.func.insts[i]);
        assert(end.func.insts[i] == opened.func.insts[i]);
        assert(tested.func.insts[i] == end.func.insts[i]);
        assert(merged.func.insts[i] == appended.func.insts[i]);
        assert(done.func.insts[i] == moved.func.insts[i]);
    }
    assert(b.resumed_in(done)) by {
        let k = b.current as int;
        assert(opened.func.blocks[k].insts == b.func.blocks[k].insts);
        assert(end.func.blocks[k] == opened.func.blocks[k]);
        assert(done.func.blocks[k] == end.func.blocks[k]);
    }
    assert forall|k: int|
        0 <= k < done.func.blocks.len() && (k >= n || k == b.current) implies jumps_beyond(
        (#[trigger] done.func.blocks[k]).terminator,
        n as nat,
    ) by {
        if k == b.current {
            assert(done.func.blocks[k] == opened.func.blocks[k]) by {
                assert(end.func.blocks[k] == opened.func.blocks[k]);
                assert(done.func.blocks[k] == end.func.blocks[k]);
            }
        } else if k < m {
            assert(jumps_beyond(end.func.blocks[k].terminator, (n + 1) as nat));
            if k != end.current {
                assert(done.func.blocks[k] == end.func.blocks[k]);
            }
        }
    }
}

/// Lowering settles: it leaves an open insertion block, and closes every
/// other block that it makes or leaves.
#[verifier::rlimit(50)]
pub proof fn lemma_lower_settles(
    e: Expr,
    b: BuilderView,
    scope: Seq<(Seq<char>, ValueView)>,
    protos: Map<Seq<char>, Prototype>,
)
    requires
        b.open(),
    ensures
        lower_expr(e, b, scope, protos) is Ok ==> b.settled_into(
            lower_expr(e, b, scope, protos)->Ok_0.1,
        ),
    decreases e, 1nat,
{
    lemma_emit_settles(b, InstView::Const(zero_numeral()));
    match e {
        Expr::Number(text) => {
            lemma_emit_settles(b, InstView::Const(text));
        },
        Expr::Variable(_) => {},
        Expr::BinaryOp(op, lhs, rhs) => {
            lemma_lower_settles(*lhs, b, scope, protos);
            if let Ok((left, b1)) = lower_expr(*lhs, b, scope, protos) {
                lemma_lower_settles(*rhs, b1, scope, protos);
                if let Ok((right, b2)) = lower_expr(*rhs, b1, scope, protos) {
                    lemma_settled_trans(b, b1, b2);
                    if let Some(kind) = binop_of(op) {
                        let inst = InstView::Binary(kind, left, right);
                        lemma_emit_settles(b2, inst);
                        lemma_settled_trans(b, b2, b2.emit(inst));
                    }
                }
            }
        },
        Expr::Call(callee, args) => {
            lemma_lower_args_settles(args, args.len(), b, scope, protos);
            if let Ok((values, b1)) = lower_args(args, args.len(), b, scope, protos) {
                let inst = InstView::Call(callee, values);
                lemma_emit_settles(b1, inst);
                lemma_settled_trans(b, b1, b1.emit(inst));
            }
        },
        Expr::If(condition, then_branch, else_branch) => {
            lemma_lower_settles(*condition, b, scope, protos);
            if let Ok((tested, b1)) = lower_expr(*condition, b, scope, protos) {
                let else_block = b1.next_block() + 1;
                let merge_block = b1.next_block() + 2;
                let opened = b1.begin_if(tested);
                lemma_begin_if_extends(b1, tested);
                lemma_emit_truth_extends(b1, tested);
                assert(opened.open());
                lemma_lower_settles(*then_branch, opened, scope, protos);
                if let Ok((then_value, b2)) = lower_expr(*then_branch, opened, scope, protos) {
                    let second = b2.leave_branch(merge_block, else_block);
                    assert(second.open()) by {
                        assert(b2.func.blocks[else_block as int] == opened.func.blocks[
                            else_block as int
                        ]);
                    }
                    lemma_lower_settles(*else_branch, second, scope, protos);
                    if let Ok((else_value, b3)) = lower_expr(*else_branch, second, scope, protos) {
                        let merge = InstView::Phi(
                            seq![(then_value, b2.current), (else_value, b3.current)],
                        );
                        lemma_if_settles(b1, tested, b2, b3, merge);
                        lemma_settled_trans(
                            b,
                            b1,
                            b3.leave_branch(merge_block, merge_block).emit(merge),
                        );
                    }
                }
            }
        },
        Expr::For(variable_name, start, end, step, body) => {
            lemma_lower_for_settles(e, b, scope, protos);
        },
    }
}

/// `lemma_lower_settles` for a loop.
#[verifier::rlimit(50)]
proof fn lemma_lower_for_settles(
    e: Expr,
    b: BuilderView,
    scope: Seq<(Seq<char>, ValueView)>,
    protos: Map<Seq<char>, Prototype>,
)
    requires
        b.open(),
        e is For,
    ensures
        lower_expr(e, b, scope, protos) is Ok ==> b.settled_into(
            lower_expr(e, b, scope, protos)->Ok_0.1,
        ),
    decreases e, 0nat,
{
    let variable_name = e->For_0;
    let start = *e->For_1;
    let end = *e->For_2;
    let step = e->For_3;
    let body = *e->For_4;
    lemma_lower_settles(start, b, scope, protos);
    if let Ok((first, b1)) = lower_expr(start, b, scope, protos) {
        let variable = b1.loop_variable();
        let inner = scope.push((variable_name, variable));
        let opened = b1.begin_loop(first);
        lemma_begin_loop_extends(b1, first);
        assert(opened.open());
        lemma_lower_settles(body, opened, inner, protos);
        lemma_lower_extends(body, opened, inner, protos);
        if let Ok((_, b2)) = lower_expr(body, opened, inner, protos) {
            lemma_extends_facts(opened, b2);
            let stepped: Lowered = match step {
                Some(s) => lower_expr(*s, b2, inner, protos),
                None => Ok((b2.next_value(), b2.emit(InstView::Const(one_numeral())))),
            };
            match step {
                Some(s) => {
                    lemma_lower_settles(*s, b2, inner, protos);
                    lemma_lower_extends(*s, b2, inner, protos);
                },
                None => {
                    lemma_emit_settles(b2, InstView::Const(one_numeral()));
                    lemma_emit_extends(b2, b2, InstView::Const(one_numeral()));
                },
            }
            if let Ok((by, b3)) = stepped {
                lemma_extends_facts(b2, b3);
                lemma_settled_trans(opened, b2, b3);
                let next = b3.next_value();
                let sum = InstView::Binary(BinOp::Add, variable, by);
                let b4 = b3.emit(sum);
                lemma_emit_settles(b3, sum);
                lemma_emit_extends(b3, b3, sum);
                lemma_extends_facts(b3, b4);
                lemma_settled_trans(opened, b3, b4);
                let outer = scope.push((variable_name, next));
                lemma_lower_settles(end, b4, outer, protos);
                lemma_lower_extends(end, b4, outer, protos);
                if let Ok((last, b5)) = lower_expr(end, b4, outer, protos) {
                    lemma_extends_facts(b4, b5);
                    lemma_settled_trans(opened, b4, b5);
                    lemma_loop_settles(b1, first, b5, variable, next, last);
                    lemma_settled_trans(
                        b,
                        b1,
                        b5.end_loop(b1.next_block(), variable, next, last),
                    );
                }
            }
        }
    }
}

/// As `lemma_lower_settles`, for the arguments of a call.
pub proof fn lemma_lower_args_settles(
    args: Seq<Expr>,
    n: nat,
    b: BuilderView,
    scope: Seq<(Seq<char>, ValueView)>,
    protos: Map<Seq<char>, Prototype>,
)
    requires
        b.open(),
    ensures
        lower_args(args, n, b, scope, protos) is Ok ==> b.settled_into(
            lower_args(args, n, b, scope, protos)->Ok_0.1,
        ),
    decreases args, n,
{
    lemma_emit_settles(b, InstView::Const(zero_numeral()));
    if n == 0 || n > args.len() {
    } else {
        lemma_lower_args_settles(args, (n - 1) as nat, b, scope, protos);
        if let Ok((_, b1)) = lower_args(args, (n - 1) as nat, b, scope, protos) {
            lemma_lower_settles(args[n - 1], b1, scope, protos);
            if let Ok((_, b2)) = lower_expr(args[n - 1], b1, scope, protos) {
                lemma_settled_trans(b, b1, b2);
            }
        }
    }
}

/// Every function that compiles is well formed: it has the name and the
/// parameters of its signature, it uses only values that it defines and
/// blocks that it has, and every one of its blocks ends in a terminator.
pub proof fn lemma_compiled_well_formed(f: FunctionDef, protos: Map<Seq<char>, Prototype>)
    requires
        lower_function(f, protos) is Ok,
    ensures
        lower_function(f, protos)->Ok_0.name == f.proto.name,
        lower_function(f, protos)->Ok_0.params == f.proto.params,
        lower_function(f, protos)->Ok_0.closed(),
        lower_function(f, protos)->Ok_0.complete(),
{
    let start = BuilderView::start(f.proto.name, f.proto.params);
    let scope = param_scope(f.proto.params);
    assert(start.func.closed());
    assert(start.open());
    assert(scope_defined(start.func, scope));
    lemma_lower_closed(f.body, start, scope, protos);
    lemma_lower_settles(f.body, start, scope, protos);
    crate::lowering::lemma_lower_function_defined(f, protos);
    let (value, after) = lower_expr(f.body, start, scope, protos)->Ok_0;
    let done = after.terminate(TermView::Ret(value));
    lemma_terminate_closed(after, TermView::Ret(value));
    assert forall|k: int| 0 <= k < done.func.blocks.len() implies (
    #[trigger] done.func.blocks[k]).terminator is Some by {
        if k != after.current {
            assert(done.func.blocks[k] == after.func.blocks[k]);
            if k >= 1 {
                assert(after.func.blocks[k].terminator is Some);
            }
        }
    }
}

/// The function that a definition puts into a module is the one that its
/// body compiles to, and is well formed.
pub proof fn lemma_defined_well_formed(
    m: Seq<FuncView>,
    protos: Map<Seq<char>, Prototype>,
    f: FunctionDef,
)
    requires
        define_in(m, protos, f).result is Ok,
    ensures
        ({
            let at = define_in(m, protos, f).result->Ok_0 as int;
            let after = define_in(m, protos, f).module;
            &&& 0 <= at < after.len()
            &&& lower_function(f, protos) == Ok::<FuncView, crate::ir_gen::CodegenErrorView>(
                after[at],
            )
            &&& after[at].name == f.proto.name
            &&& after[at].params == f.proto.params
            &&& after[at].closed()
            &&& after[at].complete()
        }),
{
    crate::ir::lemma_find_function(m, f.proto.name);
    lemma_compiled_well_formed(f, protos);
}

} // verus!
