//! Merges and jumps agree in every function that code generation gives: a
//! merge has an edge from a block exactly where that block jumps to the
//! block of the merge.
use vstd::prelude::*;
use crate::ast::{Expr, FunctionDef, Prototype};
use crate::ir::{BinOp, BlockKind, BuilderView, FuncView, InstView, TermView, ValueView};
use crate::lowering::{
    Lowered, binop_of, lemma_begin_if_extends, lemma_begin_loop_extends, lemma_emit_truth_extends,
    lower_args, lower_expr, lower_function, one_numeral, param_scope, zero_numeral,
};
use crate::wellformed::{
    jumps_beyond, lemma_add_incoming_closed, lemma_append_closed, lemma_begin_if_closed,
    lemma_begin_loop_closed, lemma_bind_defined, lemma_emit_closed, lemma_emit_settles,
    lemma_emit_truth_closed, lemma_grown, lemma_leave_branch_closed, lemma_lower_args_closed,
    lemma_lower_closed, lemma_lower_settles, lemma_settled_trans, lemma_terminate_closed,
    scope_defined,
};

verus! {

/// Whether a merge with the edges `edges` has one from the block `from`.
pub open spec fn has_edge(edges: Seq<(ValueView, nat)>, from: int) -> bool {
    exists|i: int| 0 <= i < edges.len() && (#[trigger] edges[i]).1 == from
}

impl FuncView {
    /// Whether the block at `from` ends in a jump to the block at `to`.
    pub open spec fn jumps(self, from: int, to: int) -> bool {
        &&& 0 <= from < self.blocks.len()
        &&& match self.blocks[from].terminator {
            Some(TermView::Br(target)) => target == to,
            Some(TermView::CondBr(_, then_block, else_block)) => then_block == to || else_block
                == to,
            _ => false,
        }
    }

    /// Whether a merge with the edges `edges` in the block at `at` has an
    /// edge from exactly the blocks that jump there.
    pub open spec fn merges_jumps(self, edges: Seq<(ValueView, nat)>, at: int) -> bool {
        forall|from: int|
            #![trigger has_edge(edges, from)]
            #![trigger self.jumps(from, at)]
            0 <= from < self.blocks.len() ==> (has_edge(edges, from) <==> self.jumps(from, at))
    }

    /// The instruction that the block at `k` names at position `j`.
    pub open spec fn listed(self, k: int, j: int) -> int {
        self.blocks[k].insts[j] as int
    }

    /// Whether `k` and `j` are a block of the function and a position in it.
    pub open spec fn lists(self, k: int, j: int) -> bool {
        0 <= k < self.blocks.len() && 0 <= j < self.blocks[k].insts.len()
    }

    /// Every merge has an edge from exactly the blocks that jump to its
    /// block.
    pub open spec fn merged(self) -> bool {
        forall|k: int, j: int|
            self.lists(k, j) ==> match self.insts[#[trigger] self.listed(k, j)] {
                InstView::Phi(edges) => self.merges_jumps(edges, k),
                _ => true,
            }
    }

    /// Every merge leads its block.
    pub open spec fn led(self) -> bool {
        forall|k: int, j: int|
            self.lists(k, j) && self.insts[#[trigger] self.listed(k, j)] is Phi ==> j == 0
    }

    /// Whether `value` is a parameter, or the result of an instruction
    /// before position `at`.
    pub open spec fn defines_before(self, value: ValueView, at: int) -> bool {
        match value {
            ValueView::Param(i) => i < self.params.len(),
            ValueView::Inst(i) => i < at,
        }
    }

    /// Every instruction but a merge uses only parameters and the results
    /// of instructions before it.
    pub open spec fn ordered(self) -> bool {
        forall|i: int|
            0 <= i < self.insts.len() ==> match #[trigger] self.insts[i] {
                InstView::Binary(_, lhs, rhs) => self.defines_before(lhs, i)
                    && self.defines_before(rhs, i),
                InstView::Call(_, args) => forall|a: int|
                    0 <= a < args.len() ==> self.defines_before(#[trigger] args[a], i),
                _ => true,
            }
    }

    /// No instruction is named twice: not by two blocks, and not twice by
    /// one.
    pub open spec fn placed(self) -> bool {
        forall|k: int, j: int, k2: int, j2: int|
            self.lists(k, j) && self.lists(k2, j2) && #[trigger] self.listed(k, j)
                == #[trigger] self.listed(k2, j2) ==> k == k2 && j == j2
    }
}

impl BuilderView {
    /// The function is closed and names no instruction twice; its merges
    /// lead their blocks and agree with its jumps; its other instructions use
    /// only what is defined before them; and the insertion block is open.
    pub open spec fn sound(self) -> bool {
        &&& self.kept()
        &&& self.open()
        &&& self.func.placed()
        &&& self.func.merged()
        &&& self.func.led()
        &&& self.func.ordered()
    }
}

/// An instruction more keeps a builder sound, where the function holds it
/// and, if it is a merge, the insertion block is empty and the merge has an
/// edge from exactly the blocks that jump there.
#[verifier::rlimit(50)]
pub(crate) proof fn lemma_emit_sound(b: BuilderView, inst: InstView)
    requires
        b.sound(),
        b.func.holds_inst(inst),
        inst is Phi ==> b.func.merges_jumps(inst->Phi_0, b.current as int),
        inst is Phi ==> b.func.blocks[b.current as int].insts.len() == 0,
    ensures
        b.emit(inst).sound(),
{
    let f = b.func;
    let g = b.emit(inst).func;
    let c = b.current as int;
    let n = f.insts.len() as int;
    lemma_emit_closed(b, inst);
    assert forall|k: int, j: int| g.lists(k, j) implies (if k == c && j == f.blocks[c].insts.len() {
        g.listed(k, j) == n
    } else {
        f.lists(k, j) && g.listed(k, j) == f.listed(k, j) && f.listed(k, j) < n
    }) by {
        if !(k == c && j == f.blocks[c].insts.len()) {
            assert(f.holds_block(f.blocks[k]));
        }
    }
    assert forall|from: int, to: int| g.jumps(from, to) == f.jumps(from, to) by {}
    assert forall|k: int, j: int| g.lists(k, j) implies match g.insts[#[trigger] g.listed(k, j)] {
        InstView::Phi(edges) => g.merges_jumps(edges, k),
        _ => true,
    } by {
        if k == c && j == f.blocks[c].insts.len() {
            if let InstView::Phi(edges) = inst {
                assert(f.merges_jumps(edges, c));
            }
        } else {
            assert(f.lists(k, j));
            let id = f.listed(k, j);
            assert(g.insts[id] == f.insts[id]);
            if let InstView::Phi(edges) = f.insts[id] {
                assert(f.merges_jumps(edges, k));
            }
        }
    }
    assert(g.led()) by {
        assert forall|k: int, j: int|
            g.lists(k, j) && g.insts[#[trigger] g.listed(k, j)] is Phi implies j == 0 by {
            if !(k == c && j == f.blocks[c].insts.len()) {
                assert(g.insts[f.listed(k, j)] == f.insts[f.listed(k, j)]);
            }
        }
    }
    assert(g.ordered()) by {
        assert forall|i: int| 0 <= i < g.insts.len() implies match #[trigger] g.insts[i] {
            InstView::Binary(_, lhs, rhs) => g.defines_before(lhs, i) && g.defines_before(rhs, i),
            InstView::Call(_, args) => forall|a: int|
                0 <= a < args.len() ==> g.defines_before(#[trigger] args[a], i),
            _ => true,
        } by {
            if i < n {
                assert(g.insts[i] == f.insts[i]);
                if let InstView::Call(_, args) = f.insts[i] {
                    assert forall|a: int| 0 <= a < args.len() implies g.defines_before(
                        #[trigger] args[a],
                        i,
                    ) by {
                        assert(f.defines_before(args[a], i));
                    }
                }
            } else {
                if let InstView::Call(_, args) = inst {
                    assert forall|a: int| 0 <= a < args.len() implies g.defines_before(
                        #[trigger] args[a],
                        i,
                    ) by {
                        assert(f.defines(args[a]));
                    }
                }
            }
        }
    }
    assert(g.placed()) by {
        assert forall|k: int, j: int, k2: int, j2: int|
            g.lists(k, j) && g.lists(k2, j2) && #[trigger] g.listed(k, j) == #[trigger] g.listed(
                k2,
                j2,
            ) implies k == k2 && j == j2 by {
            let last = f.blocks[c].insts.len() as int;
            if k == c && j == last {
                if !(k2 == c && j2 == last) {
                    assert(f.listed(k2, j2) < n);
                }
            } else if k2 == c && j2 == last {
                assert(f.listed(k, j) < n);
            } else {
                assert(f.listed(k, j) == f.listed(k2, j2));
            }
        }
    }
}

/// A block more keeps a builder sound.
#[verifier::rlimit(50)]
pub(crate) proof fn lemma_append_sound(b: BuilderView, kind: BlockKind)
    requires
        b.sound(),
    ensures
        b.append_block(kind).sound(),
        b.append_block(kind).func.blocks[b.func.blocks.len() as int].insts.len() == 0,
{
    let f = b.func;
    let g = b.append_block(kind).func;
    let n = f.blocks.len() as int;
    lemma_append_closed(b, kind);
    assert forall|k: int, j: int| g.lists(k, j) implies f.lists(k, j) && g.listed(k, j) == f.listed(
        k,
        j,
    ) by {}
    assert forall|from: int, to: int| g.jumps(from, to) == f.jumps(from, to) by {}
    assert forall|k: int, j: int| g.lists(k, j) implies match g.insts[#[trigger] g.listed(k, j)] {
        InstView::Phi(edges) => g.merges_jumps(edges, k),
        _ => true,
    } by {
        assert(f.lists(k, j));
        let id = f.listed(k, j);
        assert(f.holds_block(f.blocks[k]));
        if let InstView::Phi(edges) = f.insts[id] {
            assert(f.merges_jumps(edges, k));
            assert(f.holds_inst(f.insts[id]));
            assert(!has_edge(edges, n)) by {
                if has_edge(edges, n) {
                    let i = choose|i: int| 0 <= i < edges.len() && (#[trigger] edges[i]).1 == n;
                    assert(edges[i].1 < f.blocks.len());
                }
            }
        }
    }
    assert(g.placed()) by {
        assert forall|k: int, j: int, k2: int, j2: int|
            g.lists(k, j) && g.lists(k2, j2) && #[trigger] g.listed(k, j) == #[trigger] g.listed(
                k2,
                j2,
            ) implies k == k2 && j == j2 by {
            assert(f.listed(k, j) == f.listed(k2, j2));
        }
    }
}

/// Whether `terminator` jumps to the block at `to`.
pub open spec fn targets(terminator: TermView, to: int) -> bool {
    match terminator {
        TermView::Br(target) => target == to,
        TermView::CondBr(_, then_block, else_block) => then_block == to || else_block == to,
        TermView::Ret(_) => false,
    }
}

/// Closing the insertion block keeps the merges in agreement with the
/// jumps, where the terminator jumps only to blocks without instructions.
/// The insertion block is then closed: the builder is sound once it has
/// moved to an open block.
#[verifier::rlimit(50)]
pub(crate) proof fn lemma_terminate_sound(b: BuilderView, terminator: TermView, next: nat)
    requires
        b.sound(),
        b.func.holds_terminator(terminator),
        forall|to: int|
            0 <= to < b.func.blocks.len() && targets(terminator, to) ==> (
            #[trigger] b.func.blocks[to]).insts.len() == 0,
        next < b.func.blocks.len(),
        next != b.current,
        b.func.blocks[next as int].terminator is None,
    ensures
        b.terminate(terminator).position_at_end(next).sound(),
{
    let f = b.func;
    let g = b.terminate(terminator).func;
    let c = b.current as int;
    lemma_terminate_closed(b, terminator);
    assert forall|k: int, j: int| g.lists(k, j) implies f.lists(k, j) && g.listed(k, j) == f.listed(
        k,
        j,
    ) by {}
    assert forall|from: int, to: int|
        g.jumps(from, to) == (f.jumps(from, to) || (from == c && targets(terminator, to))) by {}
    assert forall|k: int, j: int| g.lists(k, j) implies match g.insts[#[trigger] g.listed(k, j)] {
        InstView::Phi(edges) => g.merges_jumps(edges, k),
        _ => true,
    } by {
        assert(f.lists(k, j));
        if let InstView::Phi(edges) = f.insts[f.listed(k, j)] {
            assert(f.merges_jumps(edges, k));
            assert(!targets(terminator, k)) by {
                if targets(terminator, k) {
                    assert(f.blocks[k].insts.len() == 0);
                }
            }
        }
    }
    assert(g.placed()) by {
        assert forall|k: int, j: int, k2: int, j2: int|
            g.lists(k, j) && g.lists(k2, j2) && #[trigger] g.listed(k, j) == #[trigger] g.listed(
                k2,
                j2,
            ) implies k == k2 && j == j2 by {
            assert(f.listed(k, j) == f.listed(k2, j2));
        }
    }
}

/// Emitting the test of a value that the function defines keeps a builder
/// sound.
pub(crate) proof fn lemma_emit_truth_sound(b: BuilderView, value: ValueView)
    requires
        b.sound(),
        b.func.defines(value),
    ensures
        b.emit_truth(value).sound(),
{
    let zero = InstView::Const(zero_numeral());
    lemma_emit_sound(b, zero);
    lemma_emit_closed(b, zero);
    lemma_grown(b.func, b.emit(zero).func);
    lemma_emit_sound(b.emit(zero), InstView::Binary(BinOp::Gt, value, b.next_value()));
}

/// Opening a conditional keeps a builder sound.
pub(crate) proof fn lemma_begin_if_sound(b: BuilderView, condition: ValueView)
    requires
        b.sound(),
        b.func.defines(condition),
    ensures
        b.begin_if(condition).sound(),
{
    let then_block = b.next_block();
    let else_block = then_block + 1;
    let branch = TermView::CondBr(b.truth_value(), then_block, else_block);
    let b1 = b.emit_truth(condition);
    let b2 = b1.append_block(BlockKind::Then);
    let b3 = b2.append_block(BlockKind::Else);
    let b4 = b3.append_block(BlockKind::IfCont);
    lemma_emit_truth_sound(b, condition);
    lemma_emit_truth_closed(b, condition);
    lemma_append_sound(b1, BlockKind::Then);
    lemma_append_sound(b2, BlockKind::Else);
    lemma_append_sound(b3, BlockKind::IfCont);
    lemma_append_closed(b1, BlockKind::Then);
    lemma_append_closed(b2, BlockKind::Else);
    lemma_append_closed(b3, BlockKind::IfCont);
    lemma_grown(b1.func, b4.func);
    assert forall|to: int| 0 <= to < b4.func.blocks.len() && targets(branch, to) implies (
    #[trigger] b4.func.blocks[to]).insts.len() == 0 by {}
    lemma_terminate_sound(b4, branch, then_block);
}

/// Leaving a branch for a block without instructions, and moving to an open
/// block, keeps a builder sound.
pub(crate) proof fn lemma_leave_branch_sound(b: BuilderView, merge: nat, next: nat)
    requires
        b.sound(),
        merge < b.func.blocks.len(),
        b.func.blocks[merge as int].insts.len() == 0,
        next < b.func.blocks.len(),
        next != b.current,
        b.func.blocks[next as int].terminator is None,
    ensures
        b.leave_branch(merge, next).sound(),
{
    let jump = TermView::Br(merge);
    assert forall|to: int| 0 <= to < b.func.blocks.len() && targets(jump, to) implies (
    #[trigger] b.func.blocks[to]).insts.len() == 0 by {}
    lemma_terminate_sound(b, jump, next);
}

/// A merge of two edges has an edge from the two blocks, and from no other.
pub(crate) proof fn lemma_two_edges(a: (ValueView, nat), b: (ValueView, nat), from: int)
    ensures
        has_edge(seq![a, b], from) <==> (from == a.1 || from == b.1),
{
    let edges = seq![a, b];
    if from == a.1 {
        assert(edges[0].1 == from);
    }
    if from == b.1 {
        assert(edges[1].1 == from);
    }
}

/// A merge of one edge has an edge from that block, and from no other.
pub(crate) proof fn lemma_one_edge(a: (ValueView, nat), from: int)
    ensures
        has_edge(seq![a], from) <==> from == a.1,
{
    let edges = seq![a];
    if from == a.1 {
        assert(edges[0].1 == from);
    }
}

/// One edge more is an edge from one block more.
pub(crate) proof fn lemma_more_edges(edges: Seq<(ValueView, nat)>, a: (ValueView, nat), from: int)
    ensures
        has_edge(edges.push(a), from) <==> (has_edge(edges, from) || from == a.1),
{
    let more = edges.push(a);
    if has_edge(edges, from) {
        let i = choose|i: int| 0 <= i < edges.len() && (#[trigger] edges[i]).1 == from;
        assert(more[i].1 == from);
    }
    if from == a.1 {
        assert(more[edges.len() as int].1 == from);
    }
    if has_edge(more, from) {
        let i = choose|i: int| 0 <= i < more.len() && (#[trigger] more[i]).1 == from;
        if i < edges.len() {
            assert(edges[i].1 == from);
        }
    }
}

/// Opening a loop keeps a builder sound: the merge of the loop variable has
/// its one edge from the block that jumps into the loop.
#[verifier::rlimit(50)]
pub(crate) proof fn lemma_begin_loop_sound(b: BuilderView, start: ValueView)
    requires
        b.sound(),
        b.func.defines(start),
    ensures
        b.begin_loop(start).sound(),
{
    let loop_block = b.next_block();
    let jump = TermView::Br(loop_block);
    let b1 = b.append_block(BlockKind::Loop);
    let b3 = b1.terminate(jump).position_at_end(loop_block);
    let edges = seq![(start, b.current)];
    let merge = InstView::Phi(edges);
    lemma_append_sound(b, BlockKind::Loop);
    lemma_append_closed(b, BlockKind::Loop);
    assert forall|to: int| 0 <= to < b1.func.blocks.len() && targets(jump, to) implies (
    #[trigger] b1.func.blocks[to]).insts.len() == 0 by {}
    lemma_terminate_sound(b1, jump, loop_block);
    lemma_grown(b.func, b3.func);
    assert(b3.func.holds_inst(merge)) by {
        assert forall|i: int| 0 <= i < edges.len() implies b3.func.defines(
            (#[trigger] edges[i]).0,
        ) && edges[i].1 < b3.func.blocks.len() by {}
    }
    assert(b3.func.merges_jumps(edges, loop_block as int)) by {
        assert forall|from: int|
            #![trigger has_edge(edges, from)]
            #![trigger b3.func.jumps(from, loop_block as int)]
            0 <= from < b3.func.blocks.len() implies (has_edge(edges, from) <==> b3.func.jumps(
            from,
            loop_block as int,
        )) by {
            lemma_one_edge((start, b.current), from);
            if from < b.func.blocks.len() && from != b.current {
                assert(b3.func.blocks[from] == b.func.blocks[from]);
                assert(b.func.holds_block(b.func.blocks[from]));
            }
        }
    }
    lemma_emit_sound(b3, merge);
}

/// Closing a loop keeps a builder sound, where the merge of the loop
/// variable leads the loop block and is its only merge: the edge that it
/// gets comes from the block that jumps back.
#[verifier::rlimit(50)]
pub(crate) proof fn lemma_end_loop_sound(
    b: BuilderView,
    loop_block: nat,
    variable: ValueView,
    next: ValueView,
    end: ValueView,
)
    requires
        b.sound(),
        b.is_phi(variable),
        b.func.defines(next),
        b.func.defines(end),
        b.func.lists(loop_block as int, 0),
        ValueView::Inst(b.func.listed(loop_block as int, 0) as nat) == variable,
        forall|j: int|
            1 <= j < b.func.blocks[loop_block as int].insts.len() ==> !(b.func.insts[
                #[trigger] b.func.listed(loop_block as int, j)
            ] is Phi),
    ensures
        b.end_loop(loop_block, variable, next, end).sound(),
{
    let tested = b.emit_truth(end);
    let s0 = tested.append_block(BlockKind::AfterLoop);
    let after_block = tested.next_block();
    let branch = TermView::CondBr(b.truth_value(), loop_block, after_block);
    let s1 = s0.add_incoming(variable, next, b.current);
    let s2 = s1.terminate(branch);
    let s3 = s2.position_at_end(after_block);
    let p = variable->Inst_0 as int;
    let l = loop_block as int;
    let e = b.current as int;
    let m = after_block as int;
    lemma_emit_truth_sound(b, end);
    lemma_emit_truth_closed(b, end);
    lemma_emit_truth_extends(b, end);
    lemma_append_sound(tested, BlockKind::AfterLoop);
    lemma_append_closed(tested, BlockKind::AfterLoop);
    lemma_grown(b.func, tested.func);
    lemma_grown(tested.func, s0.func);
    lemma_add_incoming_closed(s0, variable, next, b.current);
    lemma_grown(s0.func, s1.func);
    lemma_terminate_closed(s1, branch);
    let f = s0.func;
    let g = s3.func;
    // The loop block still starts with the merge, and has no other.
    assert(f.lists(l, 0) && f.listed(l, 0) == p) by {
        assert(tested.func.blocks[l].insts[0] == b.func.blocks[l].insts[0]);
    }
    assert forall|j: int| 1 <= j < f.blocks[l].insts.len() implies !(f.insts[#[trigger] f.listed(
        l,
        j,
    )] is Phi) by {
        if j < b.func.blocks[l].insts.len() {
            assert(f.listed(l, j) == b.func.listed(l, j));
            assert(b.func.holds_block(b.func.blocks[l]));
        }
    }
    assert forall|k: int, j: int| g.lists(k, j) implies f.lists(k, j) && g.listed(k, j) == f.listed(
        k,
        j,
    ) by {}
    assert forall|from: int, to: int|
        g.jumps(from, to) == (f.jumps(from, to) || (from == e && (to == l || to == m))) by {}
    let old_edges = f.insts[p]->Phi_0;
    let new_edges = old_edges.push((next, b.current));
    assert(g.insts[p] == InstView::Phi(new_edges));
    assert forall|k: int, j: int| g.lists(k, j) implies match g.insts[#[trigger] g.listed(k, j)] {
        InstView::Phi(edges) => g.merges_jumps(edges, k),
        _ => true,
    } by {
        assert(f.lists(k, j));
        let id = f.listed(k, j);
        assert(f.holds_block(f.blocks[k]));
        if id == p {
            assert(k == l && j == 0);
            assert(f.merges_jumps(old_edges, l));
            assert forall|from: int|
                #![trigger has_edge(new_edges, from)]
                #![trigger g.jumps(from, l)]
                0 <= from < g.blocks.len() implies (has_edge(new_edges, from) <==> g.jumps(
                from,
                l,
            )) by {
                lemma_more_edges(old_edges, (next, b.current), from);
                assert(has_edge(old_edges, from) <==> f.jumps(from, l));
            }
        } else {
            assert(g.insts[id] == f.insts[id]);
            if let InstView::Phi(edges) = f.insts[id] {
                assert(f.merges_jumps(edges, k));
                assert(k != m);
                if k == l {
                    assert(j != 0);
                    assert(!(f.insts[f.listed(l, j)] is Phi));
                }
            }
        }
    }
    assert(g.placed()) by {
        assert forall|k: int, j: int, k2: int, j2: int|
            g.lists(k, j) && g.lists(k2, j2) && #[trigger] g.listed(k, j) == #[trigger] g.listed(
                k2,
                j2,
            ) implies k == k2 && j == j2 by {
            assert(f.listed(k, j) == f.listed(k2, j2));
        }
    }
    assert(s3.sound());
    lemma_emit_sound(s3, InstView::Const(zero_numeral()));
}

/// Between the branches of a conditional the builder is sound, where it
/// was after the first.
pub(crate) proof fn lemma_if_second_sound(b: BuilderView, tested: ValueView, then_end: BuilderView)
    requires
        b.sound(),
        b.begin_if(tested).settled_into(then_end),
        then_end.sound(),
    ensures
        then_end.leave_branch(b.next_block() + 2, b.next_block() + 1).sound(),
{
    let n = b.func.blocks.len() as int;
    let opened = b.begin_if(tested);
    lemma_begin_if_extends(b, tested);
    lemma_emit_truth_extends(b, tested);
    assert(opened.func.blocks[n + 1].insts.len() == 0);
    assert(opened.func.blocks[n + 2].insts.len() == 0);
    assert(then_end.func.blocks[n + 1] == opened.func.blocks[n + 1]);
    assert(then_end.func.blocks[n + 2] == opened.func.blocks[n + 2]);
    lemma_leave_branch_sound(then_end, (n + 2) as nat, (n + 1) as nat);
}

/// After both branches of a conditional, the merge of their values keeps
/// the builder sound: its two edges come from the blocks in which the
/// branches ended, and no other block jumps to the block of the merge.
#[verifier::rlimit(50)]
pub(crate) proof fn lemma_if_join_sound(
    b: BuilderView,
    tested: ValueView,
    then_end: BuilderView,
    else_end: BuilderView,
    then_value: ValueView,
    else_value: ValueView,
)
    requires
        b.sound(),
        b.begin_if(tested).settled_into(then_end),
        then_end.leave_branch(b.next_block() + 2, b.next_block() + 1).settled_into(else_end),
        else_end.sound(),
        then_end.func.defines(then_value),
        else_end.func.defines(else_value),
        then_end.func.params == else_end.func.params,
        then_end.func.insts.len() <= else_end.func.insts.len(),
    ensures
        else_end.leave_branch(b.next_block() + 2, b.next_block() + 2).emit(
            InstView::Phi(seq![(then_value, then_end.current), (else_value, else_end.current)]),
        ).sound(),
{
    let n = b.func.blocks.len() as int;
    let c = b.current as int;
    let merge_block = (n + 2) as nat;
    let opened = b.begin_if(tested);
    let second = then_end.leave_branch(merge_block, (n + 1) as nat);
    let joined = else_end.leave_branch(merge_block, merge_block);
    let a1 = then_end.current as int;
    let a2 = else_end.current as int;
    let edges = seq![(then_value, then_end.current), (else_value, else_end.current)];
    lemma_begin_if_extends(b, tested);
    lemma_emit_truth_extends(b, tested);
    // The block of the merge is as it was made: empty and open.
    assert(opened.func.blocks[n + 2].insts.len() == 0);
    assert(opened.func.blocks[n + 2].terminator is None);
    assert(then_end.func.blocks[n + 2] == opened.func.blocks[n + 2]);
    assert(second.func.blocks[n + 2] == then_end.func.blocks[n + 2]);
    assert(else_end.func.blocks[n + 2] == second.func.blocks[n + 2]);
    lemma_leave_branch_sound(else_end, merge_block, merge_block);
    lemma_leave_branch_closed(else_end, merge_block, merge_block);
    let f = joined.func;
    assert(f.holds_inst(InstView::Phi(edges))) by {
        assert forall|i: int| 0 <= i < edges.len() implies f.defines((#[trigger] edges[i]).0)
            && edges[i].1 < f.blocks.len() by {}
    }
    assert(f.merges_jumps(edges, n + 2)) by {
        assert forall|from: int|
            #![trigger has_edge(edges, from)]
            #![trigger f.jumps(from, n + 2)]
            0 <= from < f.blocks.len() implies (has_edge(edges, from) <==> f.jumps(
            from,
            n + 2,
        )) by {
            lemma_two_edges((then_value, then_end.current), (else_value, else_end.current), from);
            if from == a2 {
            } else if from == a1 {
                assert(else_end.func.blocks[from] == second.func.blocks[from]);
            } else if from == n + 2 {
            } else if from < n {
                // A block that was there before the conditional.
                assert(opened.func.blocks[c].terminator == Some(
                    TermView::CondBr(b.truth_value(), n as nat, (n + 1) as nat),
                ));
                if from != c {
                    assert(opened.func.blocks[from] == b.func.blocks[from]);
                    assert(b.func.holds_block(b.func.blocks[from]));
                }
                assert(then_end.func.blocks[from] == opened.func.blocks[from]);
                assert(second.func.blocks[from] == then_end.func.blocks[from]);
                assert(else_end.func.blocks[from] == second.func.blocks[from]);
            } else if from == n + 1 || from >= second.func.blocks.len() {
                // A block of the else-branch.
                assert(jumps_beyond(
                    else_end.func.blocks[from].terminator,
                    second.func.blocks.len(),
                ));
            } else {
                // A block of the then-branch.
                assert(jumps_beyond(
                    then_end.func.blocks[from].terminator,
                    opened.func.blocks.len(),
                ));
                assert(second.func.blocks[from] == then_end.func.blocks[from]);
                assert(else_end.func.blocks[from] == second.func.blocks[from]);
            }
        }
    }
    lemma_emit_sound(joined, InstView::Phi(edges));
}

/// Lowering keeps a builder sound.
#[verifier::rlimit(50)]
pub proof fn lemma_lower_sound(
    e: Expr,
    b: BuilderView,
    scope: Seq<(Seq<char>, ValueView)>,
    protos: Map<Seq<char>, Prototype>,
)
    requires
        b.sound(),
        scope_defined(b.func, scope),
    ensures
        lower_expr(e, b, scope, protos) is Ok ==> lower_expr(e, b, scope, protos)->Ok_0.1.sound(),
    decreases e, 1nat,
{
    match e {
        Expr::Number(text) => {
            lemma_emit_sound(b, InstView::Const(text));
        },
        Expr::Variable(_) => {},
        Expr::BinaryOp(op, lhs, rhs) => {
            lemma_lower_sound(*lhs, b, scope, protos);
            lemma_lower_closed(*lhs, b, scope, protos);
            if let Ok((left, b1)) = lower_expr(*lhs, b, scope, protos) {
                lemma_grown(b.func, b1.func);
                lemma_lower_sound(*rhs, b1, scope, protos);
                lemma_lower_closed(*rhs, b1, scope, protos);
                if let Ok((right, b2)) = lower_expr(*rhs, b1, scope, protos) {
                    lemma_grown(b1.func, b2.func);
                    if let Some(kind) = binop_of(op) {
                        lemma_emit_sound(b2, InstView::Binary(kind, left, right));
                    }
                }
            }
        },
        Expr::Call(callee, args) => {
            lemma_lower_args_sound(args, args.len(), b, scope, protos);
            lemma_lower_args_closed(args, args.len(), b, scope, protos);
            if let Ok((values, b1)) = lower_args(args, args.len(), b, scope, protos) {
                lemma_emit_sound(b1, InstView::Call(callee, values));
            }
        },
        Expr::If(_, _, _) => {
            lemma_lower_if_sound(e, b, scope, protos);
        },
        Expr::For(_, _, _, _, _) => {
            lemma_lower_for_sound(e, b, scope, protos);
        },
    }
}

/// `lemma_lower_sound` for a conditional.
#[verifier::rlimit(50)]
proof fn lemma_lower_if_sound(
    e: Expr,
    b: BuilderView,
    scope: Seq<(Seq<char>, ValueView)>,
    protos: Map<Seq<char>, Prototype>,
)
    requires
        b.sound(),
        scope_defined(b.func, scope),
        e is If,
    ensures
        lower_expr(e, b, scope, protos) is Ok ==> lower_expr(e, b, scope, protos)->Ok_0.1.sound(),
    decreases e, 0nat,
{
    let condition = *e->If_0;
    let then_branch = *e->If_1;
    let else_branch = *e->If_2;
    lemma_lower_sound(condition, b, scope, protos);
    lemma_lower_closed(condition, b, scope, protos);
    if let Ok((tested, b1)) = lower_expr(condition, b, scope, protos) {
        let else_block = b1.next_block() + 1;
        let merge_block = b1.next_block() + 2;
        let opened = b1.begin_if(tested);
        lemma_begin_if_sound(b1, tested);
        lemma_begin_if_closed(b1, tested);
        lemma_grown(b.func, b1.func);
        lemma_grown(b1.func, opened.func);
        lemma_lower_sound(then_branch, opened, scope, protos);
        lemma_lower_closed(then_branch, opened, scope, protos);
        lemma_lower_settles(then_branch, opened, scope, protos);
        if let Ok((then_value, b2)) = lower_expr(then_branch, opened, scope, protos) {
            let second = b2.leave_branch(merge_block, else_block);
            lemma_if_second_sound(b1, tested, b2);
            lemma_leave_branch_closed(b2, merge_block, else_block);
            lemma_grown(opened.func, b2.func);
            lemma_grown(b2.func, second.func);
            lemma_lower_sound(else_branch, second, scope, protos);
            lemma_lower_closed(else_branch, second, scope, protos);
            lemma_lower_settles(else_branch, second, scope, protos);
            if let Ok((else_value, b3)) = lower_expr(else_branch, second, scope, protos) {
                lemma_if_join_sound(b1, tested, b2, b3, then_value, else_value);
            }
        }
    }
}

/// `lemma_lower_sound` for a loop.
#[verifier::rlimit(50)]
proof fn lemma_lower_for_sound(
    e: Expr,
    b: BuilderView,
    scope: Seq<(Seq<char>, ValueView)>,
    protos: Map<Seq<char>, Prototype>,
)
    requires
        b.sound(),
        scope_defined(b.func, scope),
        e is For,
    ensures
        lower_expr(e, b, scope, protos) is Ok ==> lower_expr(e, b, scope, protos)->Ok_0.1.sound(),
    decreases e, 0nat,
{
    let variable_name = e->For_0;
    let start = *e->For_1;
    let end = *e->For_2;
    let step = e->For_3;
    let body = *e->For_4;
    lemma_lower_sound(start, b, scope, protos);
    lemma_lower_closed(start, b, scope, protos);
    if let Ok((first, b1)) = lower_expr(start, b, scope, protos) {
        let variable = b1.loop_variable();
        let inner = scope.push((variable_name, variable));
        let opened = b1.begin_loop(first);
        lemma_begin_loop_sound(b1, first);
        lemma_begin_loop_closed(b1, first);
        lemma_begin_loop_extends(b1, first);
        lemma_grown(b.func, b1.func);
        lemma_grown(b1.func, opened.func);
        lemma_bind_defined(opened.func, scope, variable_name, variable);
        lemma_lower_sound(body, opened, inner, protos);
        lemma_lower_closed(body, opened, inner, protos);
        lemma_lower_settles(body, opened, inner, protos);
        if let Ok((_, b2)) = lower_expr(body, opened, inner, protos) {
            lemma_grown(opened.func, b2.func);
            let stepped: Lowered = match step {
                Some(s) => lower_expr(*s, b2, inner, protos),
                None => Ok((b2.next_value(), b2.emit(InstView::Const(one_numeral())))),
            };
            match step {
                Some(s) => {
                    lemma_lower_sound(*s, b2, inner, protos);
                    lemma_lower_closed(*s, b2, inner, protos);
                    lemma_lower_settles(*s, b2, inner, protos);
                },
                None => {
                    lemma_emit_sound(b2, InstView::Const(one_numeral()));
                    lemma_emit_closed(b2, InstView::Const(one_numeral()));
                    lemma_emit_settles(b2, InstView::Const(one_numeral()));
                },
            }
            if let Ok((by, b3)) = stepped {
                lemma_grown(b2.func, b3.func);
                lemma_settled_trans(opened, b2, b3);
                let next = b3.next_value();
                let sum = InstView::Binary(BinOp::Add, variable, by);
                let b4 = b3.emit(sum);
                lemma_emit_sound(b3, sum);
                lemma_emit_closed(b3, sum);
                lemma_emit_settles(b3, sum);
                lemma_grown(b3.func, b4.func);
                lemma_settled_trans(opened, b3, b4);
                let outer = scope.push((variable_name, next));
                lemma_grown(opened.func, b4.func);
                lemma_bind_defined(b4.func, scope, variable_name, next);
                lemma_lower_sound(end, b4, outer, protos);
                lemma_lower_closed(end, b4, outer, protos);
                lemma_lower_settles(end, b4, outer, protos);
                if let Ok((last, b5)) = lower_expr(end, b4, outer, protos) {
                    lemma_grown(b4.func, b5.func);
                    lemma_settled_trans(opened, b4, b5);
                    // The loop block starts with the merge of the variable
                    // and has no other merge.
                    let l = b1.next_block() as int;
                    let p = b1.func.insts.len() as int;
                    assert(opened.func.blocks[l].insts =~= seq![p as nat]);
                    assert(opened.resumed_in(b5));
                    assert(b5.func.lists(l, 0) && b5.func.listed(l, 0) == p);
                    assert(b5.func.insts[p] == opened.func.insts[p]);
                    assert forall|j: int| 1 <= j < b5.func.blocks[l].insts.len() implies !(
                    b5.func.insts[#[trigger] b5.func.listed(l, j)] is Phi) by {}
                    lemma_end_loop_sound(b5, b1.next_block(), variable, next, last);
                }
            }
        }
    }
}

/// As `lemma_lower_sound`, for the arguments of a call.
pub proof fn lemma_lower_args_sound(
    args: Seq<Expr>,
    n: nat,
    b: BuilderView,
    scope: Seq<(Seq<char>, ValueView)>,
    protos: Map<Seq<char>, Prototype>,
)
    requires
        b.sound(),
        scope_defined(b.func, scope),
    ensures
        lower_args(args, n, b, scope, protos) is Ok ==> lower_args(
            args,
            n,
            b,
            scope,
            protos,
        )->Ok_0.1.sound(),
    decreases args, n,
{
    if n == 0 || n > args.len() {
    } else {
        lemma_lower_args_sound(args, (n - 1) as nat, b, scope, protos);
        lemma_lower_args_closed(args, (n - 1) as nat, b, scope, protos);
        if let Ok((_, b1)) = lower_args(args, (n - 1) as nat, b, scope, protos) {
            lemma_grown(b.func, b1.func);
            lemma_lower_sound(args[n - 1], b1, scope, protos);
        }
    }
}

impl FuncView {
    /// The function is in static-single-assignment form: it refers to
    /// nothing that it does not hold; every block of it ends in a terminator;
    /// no instruction is named twice; every merge leads its block and has an
    /// edge from exactly the blocks that jump there; and every other
    /// instruction uses only parameters and results of instructions before
    /// it.
    pub open spec fn well_formed(self) -> bool {
        &&& self.closed()
        &&& self.complete()
        &&& self.placed()
        &&& self.led()
        &&& self.merged()
        &&& self.ordered()
    }
}

/// Every function that compiles is in static-single-assignment form.
#[verifier::rlimit(50)]
pub proof fn lemma_compiled_ssa(f: FunctionDef, protos: Map<Seq<char>, Prototype>)
    requires
        lower_function(f, protos) is Ok,
    ensures
        lower_function(f, protos)->Ok_0.well_formed(),
{
    let start = BuilderView::start(f.proto.name, f.proto.params);
    let scope = param_scope(f.proto.params);
    assert(start.func.closed());
    assert(start.sound());
    assert(scope_defined(start.func, scope));
    lemma_lower_sound(f.body, start, scope, protos);
    lemma_lower_closed(f.body, start, scope, protos);
    crate::wellformed::lemma_compiled_well_formed(f, protos);
    let (value, after) = lower_expr(f.body, start, scope, protos)->Ok_0;
    let ret = TermView::Ret(value);
    let g = after.terminate(ret).func;
    let h = after.func;
    assert(g.insts == h.insts);
    assert forall|k: int, j: int| g.lists(k, j) implies h.lists(k, j) && g.listed(k, j) == h.listed(
        k,
        j,
    ) by {}
    assert forall|from: int, to: int| g.jumps(from, to) == h.jumps(from, to) by {}
    assert forall|k: int, j: int| g.lists(k, j) implies match g.insts[#[trigger] g.listed(k, j)] {
        InstView::Phi(edges) => g.merges_jumps(edges, k),
        _ => true,
    } by {
        assert(h.lists(k, j));
        if let InstView::Phi(edges) = h.insts[h.listed(k, j)] {
            assert(h.merges_jumps(edges, k));
        }
    }
    assert forall|k: int, j: int, k2: int, j2: int|
        g.lists(k, j) && g.lists(k2, j2) && #[trigger] g.listed(k, j) == #[trigger] g.listed(
            k2,
            j2,
        ) implies k == k2 && j == j2 by {
        assert(h.listed(k, j) == h.listed(k2, j2));
    }
    assert forall|k: int, j: int|
        g.lists(k, j) && g.insts[#[trigger] g.listed(k, j)] is Phi implies j == 0 by {
        assert(h.lists(k, j));
    }
}

/// The function that a definition puts into a module is the one that its
/// body compiles to, has the name and the parameters of its signature, and is
/// in static-single-assignment form.
pub proof fn lemma_defined_ssa(m: Seq<FuncView>, protos: Map<Seq<char>, Prototype>, f: FunctionDef)
    requires
        crate::lowering::define_in(m, protos, f).result is Ok,
    ensures
        ({
            let at = crate::lowering::define_in(m, protos, f).result->Ok_0 as int;
            let after = crate::lowering::define_in(m, protos, f).module;
            &&& 0 <= at < after.len()
            &&& lower_function(f, protos) == Ok::<FuncView, crate::ir_gen::CodegenErrorView>(
                after[at],
            )
            &&& after[at].name == f.proto.name
            &&& after[at].params == f.proto.params
            &&& after[at].well_formed()
        }),
{
    crate::wellformed::lemma_defined_well_formed(m, protos, f);
    lemma_compiled_ssa(f, protos);
}

} // verus!
