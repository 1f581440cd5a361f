//! The shape of the code for conditionals and loops, as it stands in the
//! function once the expression is lowered.
use vstd::prelude::*;
use crate::ast::{Expr, Prototype};
use crate::ir::{BinOp, BuilderView, InstView, TermView, ValueView};
use crate::lowering::{
    Lowered, lemma_begin_if_extends, lemma_begin_loop_extends, lemma_emit_extends,
    lemma_emit_truth_extends, lemma_extends_facts, lemma_lower_extends, lower_expr, one_numeral,
    zero_numeral,
};
use crate::wellformed::{lemma_emit_settles, lemma_lower_settles, lemma_settled_trans};

verus! {

/// A conditional branches on whether its condition is greater than zero.
///
/// Where a conditional lowers, the block in which its condition ended holds
/// the constant zero and the comparison of the condition with it, and ends
/// in a branch on that comparison to the blocks of the two branches. The
/// value of the conditional is a merge that leads the continuation block.
#[verifier::rlimit(50)]
pub proof fn lemma_conditional_shape(
    e: Expr,
    b: BuilderView,
    scope: Seq<(Seq<char>, ValueView)>,
    protos: Map<Seq<char>, Prototype>,
)
    requires
        e is If,
        b.open(),
        lower_expr(e, b, scope, protos) is Ok,
    ensures
        lower_expr(*e->If_0, b, scope, protos) is Ok,
        ({
            let (tested, tested_at) = lower_expr(*e->If_0, b, scope, protos)->Ok_0;
            let (value, after) = lower_expr(e, b, scope, protos)->Ok_0;
            let zero = tested_at.func.insts.len();
            let then_block = tested_at.func.blocks.len();
            &&& after.func.insts[zero as int] == InstView::Const(zero_numeral())
            &&& after.func.insts[zero as int + 1] == InstView::Binary(
                BinOp::Gt,
                tested,
                ValueView::Inst(zero),
            )
            &&& after.func.blocks[tested_at.current as int].terminator == Some(
                TermView::CondBr(ValueView::Inst(zero + 1), then_block, then_block + 1),
            )
            &&& after.current == then_block + 2
            &&& value == ValueView::Inst((after.func.insts.len() - 1) as nat)
            &&& after.func.insts[after.func.insts.len() - 1] is Phi
            &&& after.func.insts[after.func.insts.len() - 1]->Phi_0.len() == 2
            &&& after.func.blocks[after.current as int].insts == seq![
                (after.func.insts.len() - 1) as nat,
            ]
        }),
{
    let condition = *e->If_0;
    let then_branch = *e->If_1;
    let else_branch = *e->If_2;
    lemma_lower_settles(condition, b, scope, protos);
    let (tested, b1) = lower_expr(condition, b, scope, protos)->Ok_0;
    let n = b1.func.blocks.len() as int;
    let z = b1.func.insts.len() as int;
    let c = b1.current as int;
    let opened = b1.begin_if(tested);
    lemma_begin_if_extends(b1, tested);
    lemma_emit_truth_extends(b1, tested);
    assert(opened.open());
    assert(opened.func.insts[z] == InstView::Const(zero_numeral()));
    assert(opened.func.insts[z + 1] == InstView::Binary(BinOp::Gt, tested, ValueView::Inst(
        z as nat,
    )));
    assert(opened.func.blocks[n + 2].insts.len() == 0);
    lemma_lower_settles(then_branch, opened, scope, protos);
    let (then_value, b2) = lower_expr(then_branch, opened, scope, protos)->Ok_0;
    let second = b2.leave_branch((n + 2) as nat, (n + 1) as nat);
    assert(second.open()) by {
        assert(b2.func.blocks[n + 1] == opened.func.blocks[n + 1]);
    }
    assert(second.func.blocks[c] == opened.func.blocks[c]) by {
        assert(b2.func.blocks[c] == opened.func.blocks[c]);
    }
    assert(second.func.blocks[n + 2] == opened.func.blocks[n + 2]) by {
        assert(b2.func.blocks[n + 2] == opened.func.blocks[n + 2]);
    }
    lemma_lower_settles(else_branch, second, scope, protos);
    let (else_value, b3) = lower_expr(else_branch, second, scope, protos)->Ok_0;
    let joined = b3.leave_branch((n + 2) as nat, (n + 2) as nat);
    assert(b3.func.blocks[c] == second.func.blocks[c]);
    assert(b3.func.blocks[n + 2] == second.func.blocks[n + 2]);
    assert(b3.func.insts[z] == opened.func.insts[z]) by {
        assert(b2.func.insts[z] == opened.func.insts[z]);
    }
    assert(b3.func.insts[z + 1] == opened.func.insts[z + 1]) by {
        assert(b2.func.insts[z + 1] == opened.func.insts[z + 1]);
    }
    let merge = InstView::Phi(seq![(then_value, b2.current), (else_value, b3.current)]);
    let after = joined.emit(merge);
    assert(after.func.blocks[n + 2].insts =~= seq![b3.func.insts.len()]);
}

/// A loop evaluates to zero, whatever its body.
///
/// Where a loop lowers, its value is the constant zero, which is the one
/// instruction of the block after the loop. The block in which the end
/// condition ended holds the comparison of the end condition with zero, and
/// ends in a branch on it: back to the loop block, or on to the block after
/// the loop.
#[verifier::rlimit(50)]
pub proof fn lemma_loop_shape(
    e: Expr,
    b: BuilderView,
    scope: Seq<(Seq<char>, ValueView)>,
    protos: Map<Seq<char>, Prototype>,
)
    requires
        e is For,
        b.open(),
        lower_expr(e, b, scope, protos) is Ok,
    ensures
        lower_expr(*e->For_1, b, scope, protos) is Ok,
        ({
            let (first, first_at) = lower_expr(*e->For_1, b, scope, protos)->Ok_0;
            let (value, after) = lower_expr(e, b, scope, protos)->Ok_0;
            let last = (after.func.insts.len() - 1) as nat;
            let loop_block = first_at.func.blocks.len();
            let after_block = (after.func.blocks.len() - 1) as nat;
            &&& value == ValueView::Inst(last)
            &&& after.func.insts[last as int] == InstView::Const(zero_numeral())
            &&& after.current == after_block
            &&& after.func.blocks[after_block as int].insts == seq![last]
            &&& after.func.blocks[first_at.current as int].terminator == Some(
                TermView::Br(loop_block),
            )
            &&& after.func.insts[last - 2] == InstView::Const(zero_numeral())
            &&& after.func.insts[last - 1] is Binary
            &&& after.func.insts[last - 1]->Binary_0 == BinOp::Gt
            &&& after.func.insts[last - 1]->Binary_2 == ValueView::Inst((last - 2) as nat)
            &&& exists|from: int|
                0 <= from < after_block && #[trigger] after.func.blocks[from].terminator == Some(
                    TermView::CondBr(ValueView::Inst((last - 1) as nat), loop_block, after_block),
                )
        }),
{
    let variable_name = e->For_0;
    let start = *e->For_1;
    let end = *e->For_2;
    let step = e->For_3;
    let body = *e->For_4;
    lemma_lower_settles(start, b, scope, protos);
    lemma_lower_extends(start, b, scope, protos);
    let (first, b1) = lower_expr(start, b, scope, protos)->Ok_0;
    let n = b1.func.blocks.len() as int;
    let c = b1.current as int;
    let variable = b1.loop_variable();
    let inner = scope.push((variable_name, variable));
    let opened = b1.begin_loop(first);
    lemma_begin_loop_extends(b1, first);
    assert(opened.open());
    lemma_lower_settles(body, opened, inner, protos);
    lemma_lower_extends(body, opened, inner, protos);
    let (_, b2) = lower_expr(body, opened, inner, protos)->Ok_0;
    lemma_extends_facts(opened, b2);
    let stepped: Lowered = match step {
        Some(s) => lower_expr(*s, b2, inner, protos),
        None => Ok((b2.next_value(), b2.emit(InstView::Const(one_numeral())))),
    };
    match step {
        Some(s) => {
            lemma_lower_settles(*s, b2, inner, protos);
            lemma_lower_extends(*s, b2, inner, protos);
        },
        None => {
            lemma_emit_settles(b2, InstView::Const(one_numeral()));
            lemma_emit_extends(b2, b2, InstView::Const(one_numeral()));
        },
    }
    let (by, b3) = stepped->Ok_0;
    lemma_extends_facts(b2, b3);
    lemma_settled_trans(opened, b2, b3);
    let next = b3.next_value();
    let sum = InstView::Binary(BinOp::Add, variable, by);
    let b4 = b3.emit(sum);
    lemma_emit_settles(b3, sum);
    lemma_emit_extends(b3, b3, sum);
    lemma_extends_facts(b3, b4);
    lemma_settled_trans(opened, b3, b4);
    let outer = scope.push((variable_name, next));
    lemma_lower_settles(end, b4, outer, protos);
    lemma_lower_extends(end, b4, outer, protos);
    let (last, b5) = lower_expr(end, b4, outer, protos)->Ok_0;
    lemma_extends_facts(b4, b5);
    lemma_settled_trans(opened, b4, b5);
    lemma_emit_truth_extends(b5, last);
    let done = b5.end_loop(b1.next_block(), variable, next, last);
    let m = b5.func.blocks.len() as int;
    let k = b5.func.insts.len() as int;
    assert(b5.is_phi(variable));
    assert(done.func.insts.len() == k + 3);
    assert(done.func.blocks.len() == m + 1);
    assert(done.func.blocks[m].insts =~= seq![(k + 2) as nat]);
    assert(done.func.blocks[c] == opened.func.blocks[c]) by {
        assert(b5.func.blocks[c] == opened.func.blocks[c]);
    }
    assert(done.func.blocks[b5.current as int].terminator == Some(
        TermView::CondBr(ValueView::Inst((k + 1) as nat), n as nat, m as nat),
    ));
}

} // verus!
