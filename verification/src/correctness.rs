//! Code generation is correct: the function that an expression compiles to
//! computes the value of the expression, and makes the calls that the
//! expression makes, in every arithmetic.
use vstd::prelude::*;
use crate::ast::{Expr, FunctionDef, Prototype};
use crate::ir::{BinOp, BlockKind, BlockView, BuilderView, FuncView, InstView, TermView, ValueView};
use crate::lowering::{
    Lowered, binop_of, lemma_begin_if_extends, lemma_begin_loop_extends, lemma_emit_truth_extends,
    lower_args, lower_expr, lower_function, one_numeral, param_scope, zero_numeral,
};
use crate::merges::{
    has_edge, lemma_emit_sound, lemma_lower_args_sound, lemma_lower_sound,
};
use crate::scope::lookup;
use crate::semantics::{
    Arith, CallEvent, Evaluated, Run, State, edge_value, entry, env_lookup, eval, eval_args,
    iterate, param_env, run, step, value_of, values_of,
};
use crate::wellformed::{
    lemma_bind_defined, lemma_emit_closed, lemma_emit_settles, lemma_grown,
    lemma_lower_args_closed, lemma_lower_closed, lemma_lower_settles, lemma_settled_trans,
    scope_defined,
};

verus! {

/// Whether `b` starts with the elements of `a`.
pub open spec fn starts_with<T>(b: Seq<T>, a: Seq<T>) -> bool {
    &&& a.len() <= b.len()
    &&& forall|j: int| 0 <= j < a.len() ==> #[trigger] b[j] == a[j]
}

/// Whether the block `x` of a builder is in the block `y` of the complete
/// function: as it is where it is closed, and else as the start of it.
pub open spec fn block_embeds(x: BlockView, y: BlockView) -> bool {
    if x.terminator is Some {
        y == x
    } else {
        starts_with(y.insts, x.insts)
    }
}

/// Whether the instruction `x` of a builder is the instruction `y` of the
/// complete function: the same, or a merge with the same edges first.
pub open spec fn inst_embeds(x: InstView, y: InstView) -> bool {
    match x {
        InstView::Phi(edges) => y is Phi && starts_with(y->Phi_0, edges),
        _ => y == x,
    }
}

/// Whether `f` may be what the function of the builder `b` becomes: it has
/// the closed blocks of `b` as they are, the open blocks with more
/// instructions at most, and the instructions of `b`, merges with more edges
/// at most.
pub open spec fn embeds(b: BuilderView, f: FuncView) -> bool {
    &&& b.func.blocks.len() <= f.blocks.len()
    &&& b.func.insts.len() <= f.insts.len()
    &&& forall|k: int|
        0 <= k < b.func.blocks.len() ==> block_embeds(#[trigger] b.func.blocks[k], f.blocks[k])
    &&& forall|i: int|
        0 <= i < b.func.insts.len() ==> inst_embeds(#[trigger] b.func.insts[i], f.insts[i])
}

/// Whether the run stands where the builder does: at the end of what the
/// insertion block holds so far.
pub open spec fn at(b: BuilderView, s: State) -> bool {
    &&& s.block == b.current
    &&& s.pos == b.func.blocks[b.current as int].insts.len()
}

/// Whether the values of a run are those of the environment: name by name,
/// what the scope binds stands for what the environment binds.
pub open spec fn related(
    scope: Seq<(Seq<char>, ValueView)>,
    env: Seq<(Seq<char>, int)>,
    vals: Map<nat, int>,
    args: Seq<int>,
) -> bool {
    &&& scope.len() == env.len()
    &&& forall|i: int|
        0 <= i < scope.len() ==> (#[trigger] scope[i]).0 == env[i].0 && value_of(
            vals,
            args,
            scope[i].1,
        ) == env[i].1
}

/// Whether two runs agree on the results of the first `n` instructions.
pub open spec fn agree(before: Map<nat, int>, after: Map<nat, int>, n: nat) -> bool {
    forall|i: nat| i < n ==> #[trigger] after[i] == before[i]
}

/// What the code of an expression owes: run from `s` for the steps that
/// evaluating took, it stands where the builder `after` does, has made the
/// calls that evaluating made, holds the value that evaluating gave in
/// `value`, and has left the results of the instructions of `b` as they
/// were.
pub open spec fn simulated(
    a: Arith,
    f: FuncView,
    args: Seq<int>,
    s: State,
    b: BuilderView,
    after: BuilderView,
    value: ValueView,
    r: Evaluated,
) -> bool {
    match run(a, f, args, s, r.steps) {
        Run::Going(out) => {
            &&& at(after, out)
            &&& out.trace == r.trace
            &&& value_of(out.vals, args, value) == r.value
            &&& agree(s.vals, out.vals, b.func.insts.len())
        },
        _ => false,
    }
}

/// Runs that agree one after the other agree from the first to the last.
pub(crate) proof fn lemma_agree_trans(
    first: Map<nat, int>,
    second: Map<nat, int>,
    third: Map<nat, int>,
    n: nat,
    m: nat,
)
    requires
        agree(first, second, n),
        agree(second, third, m),
        n <= m,
    ensures
        agree(first, third, n),
{
    assert forall|i: nat| i < n implies #[trigger] third[i] == first[i] by {
        assert(second[i] == first[i]);
    }
}

/// A run of `n` and then `m` steps is a run of `n + m` steps.
pub proof fn lemma_run_add(a: Arith, f: FuncView, args: Seq<int>, s: State, n: nat, m: nat)
    ensures
        run(a, f, args, s, n + m) == match run(a, f, args, s, n) {
            Run::Going(next) => run(a, f, args, next, m),
            other => other,
        },
    decreases n,
{
    if n > 0 {
        match step(a, f, args, s) {
            Run::Going(next) => {
                lemma_run_add(a, f, args, next, (n - 1) as nat, m);
                assert((n - 1) as nat + m == (n + m - 1) as nat);
            },
            _ => {},
        }
    }
}

/// What the scope binds a name to stands for what the environment binds it
/// to.
pub(crate) proof fn lemma_lookup_related(
    scope: Seq<(Seq<char>, ValueView)>,
    env: Seq<(Seq<char>, int)>,
    vals: Map<nat, int>,
    args: Seq<int>,
    name: Seq<char>,
)
    requires
        related(scope, env, vals, args),
    ensures
        lookup(scope, name) is Some <==> env_lookup(env, name) is Some,
        lookup(scope, name) is Some ==> value_of(vals, args, lookup(scope, name)->Some_0)
            == env_lookup(env, name)->Some_0,
    decreases scope.len(),
{
    if scope.len() > 0 {
        assert(scope[scope.len() - 1].0 == env[env.len() - 1].0);
        if scope.last().0 != name {
            let s2 = scope.drop_last();
            let e2 = env.drop_last();
            assert forall|i: int| 0 <= i < s2.len() implies (#[trigger] s2[i]).0 == e2[i].0
                && value_of(vals, args, s2[i].1) == e2[i].1 by {
                assert(s2[i] == scope[i]);
            }
            lemma_lookup_related(s2, e2, vals, args, name);
        }
    }
}

/// Values that stay as they were keep a scope related.
pub(crate) proof fn lemma_related_kept(
    scope: Seq<(Seq<char>, ValueView)>,
    env: Seq<(Seq<char>, int)>,
    before: Map<nat, int>,
    after: Map<nat, int>,
    args: Seq<int>,
    f: FuncView,
)
    requires
        related(scope, env, before, args),
        scope_defined(f, scope),
        agree(before, after, f.insts.len()),
    ensures
        related(scope, env, after, args),
{
    assert forall|i: int| 0 <= i < scope.len() implies (#[trigger] scope[i]).0 == env[i].0
        && value_of(after, args, scope[i].1) == env[i].1 by {
        assert(f.defines(scope[i].1));
        if let ValueView::Inst(id) = scope[i].1 {
            assert(after[id] == before[id]);
        }
    }
}

/// One binding more keeps a scope related.
pub(crate) proof fn lemma_related_bind(
    scope: Seq<(Seq<char>, ValueView)>,
    env: Seq<(Seq<char>, int)>,
    vals: Map<nat, int>,
    args: Seq<int>,
    name: Seq<char>,
    value: ValueView,
)
    requires
        related(scope, env, vals, args),
    ensures
        related(
            scope.push((name, value)),
            env.push((name, value_of(vals, args, value))),
            vals,
            args,
        ),
{
    let s2 = scope.push((name, value));
    let e2 = env.push((name, value_of(vals, args, value)));
    assert forall|i: int| 0 <= i < s2.len() implies (#[trigger] s2[i]).0 == e2[i].0 && value_of(
        vals,
        args,
        s2[i].1,
    ) == e2[i].1 by {
        if i < scope.len() {
            assert(s2[i] == scope[i]);
        }
    }
}

/// What embeds a builder after one instruction more embeds the builder
/// before it, and holds the instruction where the run stands.
pub(crate) proof fn lemma_embeds_emit(b: BuilderView, inst: InstView, f: FuncView)
    requires
        b.open(),
        embeds(b.emit(inst), f),
    ensures
        embeds(b, f),
        b.current < f.blocks.len(),
        b.func.blocks[b.current as int].insts.len() < f.blocks[b.current as int].insts.len(),
        f.blocks[b.current as int].insts[b.func.blocks[b.current as int].insts.len() as int]
            == b.func.insts.len(),
        inst_embeds(inst, f.insts[b.func.insts.len() as int]),
{
    let g = b.emit(inst).func;
    let c = b.current as int;
    assert(block_embeds(g.blocks[c], f.blocks[c]));
    assert(g.blocks[c].insts[b.func.blocks[c].insts.len() as int] == b.func.insts.len());
    assert forall|k: int| 0 <= k < b.func.blocks.len() implies block_embeds(
        #[trigger] b.func.blocks[k],
        f.blocks[k],
    ) by {
        assert(block_embeds(g.blocks[k], f.blocks[k]));
        if k == c {
            assert forall|j: int| 0 <= j < b.func.blocks[c].insts.len() implies
                #[trigger] f.blocks[c].insts[j] == b.func.blocks[c].insts[j] by {
                assert(g.blocks[c].insts[j] == b.func.blocks[c].insts[j]);
            }
        }
    }
    assert forall|i: int| 0 <= i < b.func.insts.len() implies inst_embeds(
        #[trigger] b.func.insts[i],
        f.insts[i],
    ) by {
        assert(inst_embeds(g.insts[i], f.insts[i]));
    }
    assert(inst_embeds(g.insts[b.func.insts.len() as int], f.insts[b.func.insts.len() as int]));
}

/// What embeds a builder after one expression more embeds the builder
/// before it.
pub(crate) proof fn lemma_embeds_settled(b: BuilderView, after: BuilderView, f: FuncView)
    requires
        b.open(),
        b.settled_into(after),
        embeds(after, f),
    ensures
        embeds(b, f),
{
    let c = b.current as int;
    assert forall|k: int| 0 <= k < b.func.blocks.len() implies block_embeds(
        #[trigger] b.func.blocks[k],
        f.blocks[k],
    ) by {
        assert(block_embeds(after.func.blocks[k], f.blocks[k]));
        if k == c {
            let mine = b.func.blocks[c].insts;
            let theirs = after.func.blocks[c].insts;
            assert(b.resumed_in(after));
            assert forall|j: int| 0 <= j < mine.len() implies #[trigger] f.blocks[c].insts[j]
                == mine[j] by {
                assert(theirs[j] == mine[j]);
                if after.func.blocks[c].terminator is None {
                    assert(f.blocks[c].insts[j] == theirs[j]);
                }
            }
        } else {
            assert(after.func.blocks[k] == b.func.blocks[k]);
        }
    }
    assert forall|i: int| 0 <= i < b.func.insts.len() implies inst_embeds(
        #[trigger] b.func.insts[i],
        f.insts[i],
    ) by {
        assert(after.func.insts[i] == b.func.insts[i]);
        assert(inst_embeds(after.func.insts[i], f.insts[i]));
    }
}

/// The step at an instruction that is no merge: the run goes on behind it,
/// with its result defined.
pub(crate) proof fn lemma_step_inst(
    a: Arith,
    b: BuilderView,
    inst: InstView,
    f: FuncView,
    args: Seq<int>,
    s: State,
)
    requires
        b.open(),
        embeds(b.emit(inst), f),
        at(b, s),
        !(inst is Phi),
    ensures
        embeds(b, f),
        ({
            let id = b.func.insts.len();
            let out = run(a, f, args, s, 1);
            &&& out is Going
            &&& at(b.emit(inst), out->Going_0)
            &&& out->Going_0.prev == s.prev
            &&& agree(s.vals, out->Going_0.vals, id)
            &&& match inst {
                InstView::Const(text) => out->Going_0.vals[id] == (a.number)(text)
                    && out->Going_0.trace == s.trace,
                InstView::Binary(op, lhs, rhs) => out->Going_0.vals[id] == (a.binary)(
                    op,
                    value_of(s.vals, args, lhs),
                    value_of(s.vals, args, rhs),
                ) && out->Going_0.trace == s.trace,
                InstView::Call(callee, passed) => {
                    let values = values_of(s.vals, args, passed);
                    &&& out->Going_0.vals[id] == (a.call)(callee, values, s.trace)
                    &&& out->Going_0.trace == s.trace.push(CallEvent { callee, args: values })
                },
                InstView::Phi(_) => true,
            }
        }),
{
    lemma_embeds_emit(b, inst, f);
    let next = step(a, f, args, s);
    assert(run(a, f, args, s, 1) == next) by {
        if let Run::Going(n) = next {
            assert(run(a, f, args, n, 0) == Run::Going(n));
        }
    }
}

/// The first edge of a merge from a block is its first edge from there in
/// a merge with more edges behind.
pub(crate) proof fn lemma_edge_value_more(
    edges: Seq<(ValueView, nat)>,
    more: Seq<(ValueView, nat)>,
    prev: nat,
)
    requires
        starts_with(more, edges),
        has_edge(edges, prev as int),
    ensures
        edge_value(more, prev) == edge_value(edges, prev),
    decreases edges.len(),
{
    let i = choose|i: int| 0 <= i < edges.len() && (#[trigger] edges[i]).1 == prev;
    assert(more[0] == edges[0]);
    if edges[0].1 != prev {
        let e2 = edges.drop_first();
        let m2 = more.drop_first();
        assert(e2[i - 1] == edges[i]);
        assert forall|j: int| 0 <= j < e2.len() implies #[trigger] m2[j] == e2[j] by {
            assert(more[j + 1] == edges[j + 1]);
        }
        lemma_edge_value_more(e2, m2, prev);
    }
}

/// The step at a merge: its result is the value of its first edge from the
/// block that control came from.
pub(crate) proof fn lemma_step_merge(
    a: Arith,
    b: BuilderView,
    edges: Seq<(ValueView, nat)>,
    f: FuncView,
    args: Seq<int>,
    s: State,
)
    requires
        b.open(),
        embeds(b.emit(InstView::Phi(edges)), f),
        at(b, s),
        has_edge(edges, s.prev as int),
    ensures
        embeds(b, f),
        ({
            let id = b.func.insts.len();
            let out = run(a, f, args, s, 1);
            &&& out is Going
            &&& at(b.emit(InstView::Phi(edges)), out->Going_0)
            &&& out->Going_0.prev == s.prev
            &&& out->Going_0.trace == s.trace
            &&& agree(s.vals, out->Going_0.vals, id)
            &&& out->Going_0.vals[id] == value_of(s.vals, args, edge_value(edges, s.prev))
        }),
{
    lemma_embeds_emit(b, InstView::Phi(edges), f);
    let id = b.func.insts.len() as int;
    lemma_edge_value_more(edges, f.insts[id]->Phi_0, s.prev);
    let next = step(a, f, args, s);
    assert(run(a, f, args, s, 1) == next) by {
        if let Run::Going(n) = next {
            assert(run(a, f, args, n, 0) == Run::Going(n));
        }
    }
}

/// What embeds a builder that has left a branch embeds the builder before
/// it left, and has the block that it left closed by the jump.
pub(crate) proof fn lemma_embeds_leave(b: BuilderView, merge: nat, next: nat, f: FuncView)
    requires
        b.open(),
        next < b.func.blocks.len(),
        next != b.current,
        embeds(b.leave_branch(merge, next), f),
    ensures
        embeds(b, f),
        b.current < f.blocks.len(),
        f.blocks[b.current as int].insts == b.func.blocks[b.current as int].insts,
        f.blocks[b.current as int].terminator == Some(TermView::Br(merge)),
{
    let g = b.leave_branch(merge, next).func;
    let c = b.current as int;
    assert(block_embeds(g.blocks[c], f.blocks[c]));
    assert forall|k: int| 0 <= k < b.func.blocks.len() implies block_embeds(
        #[trigger] b.func.blocks[k],
        f.blocks[k],
    ) by {
        assert(block_embeds(g.blocks[k], f.blocks[k]));
    }
    assert forall|i: int| 0 <= i < b.func.insts.len() implies inst_embeds(
        #[trigger] b.func.insts[i],
        f.insts[i],
    ) by {
        assert(inst_embeds(g.insts[i], f.insts[i]));
    }
}

/// The step at the end of a block that a jump closes: the run goes on at
/// the start of the block jumped to.
pub(crate) proof fn lemma_step_jump(a: Arith, f: FuncView, args: Seq<int>, s: State, target: nat)
    requires
        s.block < f.blocks.len(),
        s.pos == f.blocks[s.block as int].insts.len(),
        f.blocks[s.block as int].terminator == Some(TermView::Br(target)),
    ensures
        run(a, f, args, s, 1) == Run::Going(
            State { block: target, pos: 0, prev: s.block, ..s },
        ),
{
    let next = State { block: target, pos: 0, prev: s.block, ..s };
    assert(step(a, f, args, s) == Run::Going(next));
    assert(run(a, f, args, next, 0) == Run::Going(next));
}

/// The step at the end of a block that a branch closes: the run goes on at
/// the start of the first block where the condition is not zero, and of the
/// second where it is.
pub(crate) proof fn lemma_step_branch(
    a: Arith,
    f: FuncView,
    args: Seq<int>,
    s: State,
    condition: ValueView,
    then_block: nat,
    else_block: nat,
)
    requires
        s.block < f.blocks.len(),
        s.pos == f.blocks[s.block as int].insts.len(),
        f.blocks[s.block as int].terminator == Some(
            TermView::CondBr(condition, then_block, else_block),
        ),
    ensures
        run(a, f, args, s, 1) == Run::Going(
            State {
                block: if (a.nonzero)(value_of(s.vals, args, condition)) {
                    then_block
                } else {
                    else_block
                },
                pos: 0,
                prev: s.block,
                ..s
            },
        ),
{
    let next = State {
        block: if (a.nonzero)(value_of(s.vals, args, condition)) {
            then_block
        } else {
            else_block
        },
        pos: 0,
        prev: s.block,
        ..s
    };
    assert(step(a, f, args, s) == Run::Going(next));
    assert(run(a, f, args, next, 0) == Run::Going(next));
}

/// The steps of the test of a value: the run goes on behind the constant
/// zero and the comparison, whose result says whether the value is greater
/// than zero.
pub(crate) proof fn lemma_steps_truth(
    a: Arith,
    b: BuilderView,
    value: ValueView,
    f: FuncView,
    args: Seq<int>,
    s: State,
)
    requires
        b.open(),
        b.func.defines(value),
        embeds(b.emit_truth(value), f),
        at(b, s),
    ensures
        embeds(b, f),
        ({
            let out = run(a, f, args, s, 2);
            &&& out is Going
            &&& at(b.emit_truth(value), out->Going_0)
            &&& out->Going_0.trace == s.trace
            &&& out->Going_0.prev == s.prev
            &&& agree(s.vals, out->Going_0.vals, b.func.insts.len())
            &&& (a.nonzero)(value_of(out->Going_0.vals, args, b.truth_value())) == a.positive(
                value_of(s.vals, args, value),
            )
        }),
{
    let zero = InstView::Const(zero_numeral());
    let b1 = b.emit(zero);
    let test = InstView::Binary(BinOp::Gt, value, b.next_value());
    lemma_emit_truth_extends(b, value);
    assert(b1.open());
    lemma_embeds_emit(b1, test, f);
    lemma_step_inst(a, b, zero, f, args, s);
    let s1 = run(a, f, args, s, 1)->Going_0;
    lemma_step_inst(a, b1, test, f, args, s1);
    lemma_run_add(a, f, args, s, 1, 1);
    let s2 = run(a, f, args, s1, 1)->Going_0;
    lemma_agree_trans(s.vals, s1.vals, s2.vals, b.func.insts.len(), b1.func.insts.len());
}

/// The step at a merge that leads a block of the complete function.
pub(crate) proof fn lemma_step_at_merge(
    a: Arith,
    f: FuncView,
    args: Seq<int>,
    s: State,
    id: nat,
    edges: Seq<(ValueView, nat)>,
)
    requires
        s.block < f.blocks.len(),
        s.pos < f.blocks[s.block as int].insts.len(),
        f.blocks[s.block as int].insts[s.pos as int] == id,
        f.insts[id as int] is Phi,
        starts_with(f.insts[id as int]->Phi_0, edges),
        has_edge(edges, s.prev as int),
    ensures
        run(a, f, args, s, 1) == Run::Going(
            State {
                pos: s.pos + 1,
                vals: s.vals.insert(id, value_of(s.vals, args, edge_value(edges, s.prev))),
                ..s
            },
        ),
{
    lemma_edge_value_more(edges, f.insts[id as int]->Phi_0, s.prev);
    let next = step(a, f, args, s);
    assert(run(a, f, args, s, 1) == next) by {
        if let Run::Going(n) = next {
            assert(run(a, f, args, n, 0) == Run::Going(n));
        }
    }
}

/// The builders that lowering a loop passes through.
pub struct LoopParts {
    /// The start value, and the builder behind it.
    pub first: ValueView,
    pub started: BuilderView,
    /// The builder in the loop block, behind the merge of the variable.
    pub opened: BuilderView,
    /// The builder behind the body.
    pub bodied: BuilderView,
    /// The step, and the builder behind it.
    pub by: ValueView,
    pub stepped: BuilderView,
    /// The builder behind the sum of the variable and the step.
    pub summed: BuilderView,
    /// The end condition, and the builder behind it.
    pub last: ValueView,
    pub ended: BuilderView,
}

/// The builders that lowering the loop `e` from `b` passes through.
pub open spec fn loop_parts(
    e: Expr,
    b: BuilderView,
    scope: Seq<(Seq<char>, ValueView)>,
    protos: Map<Seq<char>, Prototype>,
) -> LoopParts
    recommends
        e is For,
{
    let (first, started) = lower_expr(*e->For_1, b, scope, protos)->Ok_0;
    let variable = started.loop_variable();
    let inner = scope.push((e->For_0, variable));
    let opened = started.begin_loop(first);
    let bodied = lower_expr(*e->For_4, opened, inner, protos)->Ok_0.1;
    let step: Lowered = match e->For_3 {
        Some(s) => lower_expr(*s, bodied, inner, protos),
        None => Ok((bodied.next_value(), bodied.emit(InstView::Const(one_numeral())))),
    };
    let (by, stepped) = step->Ok_0;
    let summed = stepped.emit(InstView::Binary(BinOp::Add, variable, by));
    let outer = scope.push((e->For_0, stepped.next_value()));
    let (last, ended) = lower_expr(*e->For_2, summed, outer, protos)->Ok_0;
    LoopParts { first, started, opened, bodied, by, stepped, summed, last, ended }
}

/// The edges of the merge of a loop variable: the start value from the
/// block before the loop, and the next value from the block that jumps back.
pub open spec fn loop_edges(parts: LoopParts) -> Seq<(ValueView, nat)> {
    seq![
        (parts.first, parts.started.current),
        (parts.stepped.next_value(), parts.ended.current),
    ]
}

/// What holds of the builders of a loop, and of the function that embeds
/// the builder behind the loop.
#[verifier::rlimit(100)]
pub(crate) proof fn lemma_loop_parts(
    e: Expr,
    b: BuilderView,
    scope: Seq<(Seq<char>, ValueView)>,
    protos: Map<Seq<char>, Prototype>,
    f: FuncView,
)
    requires
        e is For,
        b.sound(),
        scope_defined(b.func, scope),
        lower_expr(e, b, scope, protos) is Ok,
        embeds(lower_expr(e, b, scope, protos)->Ok_0.1, f),
    ensures
        ({
            let parts = loop_parts(e, b, scope, protos);
            let variable = parts.started.loop_variable();
            let next = parts.stepped.next_value();
            let inner = scope.push((e->For_0, variable));
            let outer = scope.push((e->For_0, next));
            let after = lower_expr(e, b, scope, protos)->Ok_0.1;
            let l = parts.started.func.blocks.len();
            let m = parts.ended.func.blocks.len();
            let p = parts.started.func.insts.len();
            let k = parts.ended.func.insts.len();
            // The lowerings succeed.
            &&& lower_expr(*e->For_1, b, scope, protos) is Ok
            &&& lower_expr(*e->For_4, parts.opened, inner, protos) is Ok
            &&& match e->For_3 {
                Some(s) => lower_expr(*s, parts.bodied, inner, protos) == Ok::<
                    (ValueView, BuilderView),
                    crate::ir_gen::CodegenErrorView,
                >((parts.by, parts.stepped)),
                None => parts.stepped == parts.bodied.emit(InstView::Const(one_numeral()))
                    && parts.by == parts.bodied.next_value(),
            }
            &&& lower_expr(*e->For_2, parts.summed, outer, protos) is Ok
            &&& after == parts.ended.end_loop(l, variable, next, parts.last)
            &&& lower_expr(e, b, scope, protos)->Ok_0.0 == parts.ended.loop_value()
            // The builders are sound, and define what the scopes bind.
            &&& parts.started.sound() && parts.opened.sound() && parts.bodied.sound()
            &&& parts.stepped.sound() && parts.summed.sound() && parts.ended.sound()
            &&& scope_defined(parts.opened.func, inner)
            &&& scope_defined(parts.bodied.func, inner)
            &&& scope_defined(parts.summed.func, outer)
            &&& scope_defined(parts.started.func, scope)
            &&& parts.started.func.defines(parts.first)
            &&& parts.stepped.func.defines(parts.by)
            &&& parts.ended.func.defines(parts.last)
            &&& b.func.insts.len() <= p
            &&& p < parts.opened.func.insts.len()
            &&& parts.opened.func.insts.len() <= parts.bodied.func.insts.len()
            &&& parts.bodied.func.insts.len() <= parts.stepped.func.insts.len()
            &&& parts.summed.func.insts.len() == parts.stepped.func.insts.len() + 1
            &&& parts.summed.func.insts.len() <= k
            &&& variable == ValueView::Inst(p)
            &&& next == ValueView::Inst(parts.stepped.func.insts.len())
            // Where the builders stand.
            &&& parts.opened.current == l
            &&& parts.opened.func.blocks[l as int].insts.len() == 1
            &&& parts.started.current < l
            &&& parts.started.current != parts.ended.current
            &&& parts.ended.current < m
            &&& l < m
            // What the function holds of them.
            &&& embeds(parts.started, f)
            &&& embeds(parts.bodied, f)
            &&& embeds(parts.stepped, f)
            &&& embeds(parts.summed, f)
            &&& embeds(parts.ended, f)
            &&& embeds(parts.ended.emit_truth(parts.last), f)
            &&& m < f.blocks.len()
            &&& f.blocks[parts.started.current as int].insts == parts.started.func.blocks[
                parts.started.current as int
            ].insts
            &&& f.blocks[parts.started.current as int].terminator == Some(TermView::Br(l))
            &&& f.blocks[l as int].insts.len() > 0
            &&& f.blocks[l as int].insts[0] == p
            &&& f.insts[p as int] is Phi
            &&& starts_with(f.insts[p as int]->Phi_0, loop_edges(parts))
            &&& f.blocks[parts.ended.current as int].insts == parts.ended.emit_truth(
                parts.last,
            ).func.blocks[parts.ended.current as int].insts
            &&& f.blocks[parts.ended.current as int].terminator == Some(
                TermView::CondBr(parts.ended.truth_value(), l, m),
            )
            &&& f.blocks[m as int].insts.len() > 0
            &&& f.blocks[m as int].insts[0] == k + 2
            &&& f.insts[k as int + 2] == InstView::Const(zero_numeral())
            &&& after.current == m
            &&& after.func.blocks[m as int].insts.len() == 1
        }),
{
    let parts = loop_parts(e, b, scope, protos);
    let variable_name = e->For_0;
    let start = *e->For_1;
    let end = *e->For_2;
    let step = e->For_3;
    let body = *e->For_4;
    let b1 = parts.started;
    let first = parts.first;
    let variable = b1.loop_variable();
    let inner = scope.push((variable_name, variable));
    let opened = parts.opened;
    let b2 = parts.bodied;
    let b3 = parts.stepped;
    let by = parts.by;
    let next = b3.next_value();
    let sum = InstView::Binary(BinOp::Add, variable, by);
    let b4 = parts.summed;
    let outer = scope.push((variable_name, next));
    let b5 = parts.ended;
    let last = parts.last;
    let l = b1.func.blocks.len();
    let m = b5.func.blocks.len();
    let p = b1.func.insts.len();
    let k = b5.func.insts.len();
    let c1 = b1.current as int;
    let e5 = b5.current as int;
    let after = b5.end_loop(l, variable, next, last);
    // The builders.
    lemma_lower_sound(start, b, scope, protos);
    lemma_lower_closed(start, b, scope, protos);
    lemma_lower_settles(start, b, scope, protos);
    crate::merges::lemma_begin_loop_sound(b1, first);
    crate::wellformed::lemma_begin_loop_closed(b1, first);
    lemma_begin_loop_extends(b1, first);
    lemma_grown(b.func, b1.func);
    lemma_grown(b1.func, opened.func);
    lemma_bind_defined(opened.func, scope, variable_name, variable);
    lemma_lower_sound(body, opened, inner, protos);
    lemma_lower_closed(body, opened, inner, protos);
    lemma_lower_settles(body, opened, inner, protos);
    lemma_grown(opened.func, b2.func);
    match step {
        Some(s) => {
            lemma_lower_sound(*s, b2, inner, protos);
            lemma_lower_closed(*s, b2, inner, protos);
            lemma_lower_settles(*s, b2, inner, protos);
        },
        None => {
            lemma_emit_sound(b2, InstView::Const(one_numeral()));
            lemma_emit_closed(b2, InstView::Const(one_numeral()));
            lemma_emit_settles(b2, InstView::Const(one_numeral()));
        },
    }
    lemma_grown(b2.func, b3.func);
    lemma_settled_trans(opened, b2, b3);
    lemma_emit_sound(b3, sum);
    lemma_emit_closed(b3, sum);
    lemma_emit_settles(b3, sum);
    lemma_grown(b3.func, b4.func);
    lemma_settled_trans(opened, b3, b4);
    lemma_grown(opened.func, b4.func);
    lemma_bind_defined(b4.func, scope, variable_name, next);
    lemma_lower_sound(end, b4, outer, protos);
    lemma_lower_closed(end, b4, outer, protos);
    lemma_lower_settles(end, b4, outer, protos);
    lemma_grown(b4.func, b5.func);
    lemma_settled_trans(opened, b4, b5);
    lemma_emit_truth_extends(b5, last);
    assert(opened.func.blocks[l as int].insts =~= seq![p]);
    assert(b5.func.insts[p as int] == opened.func.insts[p as int]);
    assert(b5.is_phi(variable));
    assert(b5.func.blocks[c1] == opened.func.blocks[c1]);
    // What the function holds: from the end of the loop backwards.
    let tested = b5.emit_truth(last);
    let s0 = tested.append_block(BlockKind::AfterLoop);
    let s1 = s0.add_incoming(variable, next, b5.current);
    let branch = TermView::CondBr(b5.truth_value(), l, m);
    let s3 = s1.terminate(branch).position_at_end(m);
    assert(s3.open());
    lemma_embeds_emit(s3, InstView::Const(zero_numeral()), f);
    assert(block_embeds(s3.func.blocks[e5], f.blocks[e5]));
    assert(inst_embeds(s3.func.insts[p as int], f.insts[p as int]));
    assert(s3.func.insts[p as int] == InstView::Phi(
        opened.func.insts[p as int]->Phi_0.push((next, b5.current)),
    ));
    assert(opened.func.insts[p as int]->Phi_0.push((next, b5.current)) =~= loop_edges(parts));
    assert(embeds(tested, f)) by {
        assert forall|j: int| 0 <= j < tested.func.blocks.len() implies block_embeds(
            #[trigger] tested.func.blocks[j],
            f.blocks[j],
        ) by {
            assert(block_embeds(s3.func.blocks[j], f.blocks[j]));
            if j != e5 {
                assert(s3.func.blocks[j] == tested.func.blocks[j]);
            }
        }
        assert forall|i: int| 0 <= i < tested.func.insts.len() implies inst_embeds(
            #[trigger] tested.func.insts[i],
            f.insts[i],
        ) by {
            assert(inst_embeds(s3.func.insts[i], f.insts[i]));
            if i != p {
                assert(s3.func.insts[i] == tested.func.insts[i]);
            } else {
                let mine = tested.func.insts[i]->Phi_0;
                let theirs = f.insts[i]->Phi_0;
                assert forall|j: int| 0 <= j < mine.len() implies #[trigger] theirs[j]
                    == mine[j] by {
                    assert(s3.func.insts[i]->Phi_0[j] == mine[j]);
                }
            }
        }
    }
    let zero = InstView::Const(zero_numeral());
    lemma_embeds_emit(b5.emit(zero), InstView::Binary(BinOp::Gt, last, b5.next_value()), f);
    lemma_embeds_emit(b5, zero, f);
    lemma_embeds_settled(b4, b5, f);
    lemma_embeds_emit(b3, sum, f);
    match step {
        Some(s) => {
            lemma_embeds_settled(b2, b3, f);
        },
        None => {
            lemma_embeds_emit(b2, InstView::Const(one_numeral()), f);
        },
    }
    lemma_embeds_settled(opened, b2, f);
    // The head of the loop.
    assert(block_embeds(opened.func.blocks[c1], f.blocks[c1]));
    assert(block_embeds(opened.func.blocks[l as int], f.blocks[l as int]));
    assert(f.blocks[l as int].insts[0] == opened.func.blocks[l as int].insts[0]);
    assert(embeds(b1, f)) by {
        assert forall|j: int| 0 <= j < b1.func.blocks.len() implies block_embeds(
            #[trigger] b1.func.blocks[j],
            f.blocks[j],
        ) by {
            assert(block_embeds(opened.func.blocks[j], f.blocks[j]));
            if j != c1 {
                assert(opened.func.blocks[j] == b1.func.blocks[j]);
            }
        }
        assert forall|i: int| 0 <= i < b1.func.insts.len() implies inst_embeds(
            #[trigger] b1.func.insts[i],
            f.insts[i],
        ) by {
            assert(inst_embeds(opened.func.insts[i], f.insts[i]));
            assert(opened.func.insts[i] == b1.func.insts[i]);
        }
    }
}

/// What embeds a builder that has opened a conditional embeds the builder
/// behind the test, and has the block of the test closed by the branch.
pub(crate) proof fn lemma_embeds_begin_if(b: BuilderView, tested: ValueView, f: FuncView)
    requires
        b.open(),
        embeds(b.begin_if(tested), f),
    ensures
        embeds(b.emit_truth(tested), f),
        b.current < f.blocks.len(),
        f.blocks[b.current as int].insts == b.emit_truth(tested).func.blocks[
            b.current as int
        ].insts,
        f.blocks[b.current as int].terminator == Some(
            TermView::CondBr(b.truth_value(), b.next_block(), b.next_block() + 1),
        ),
{
    let t = b.emit_truth(tested);
    let g = b.begin_if(tested).func;
    let c = b.current as int;
    lemma_begin_if_extends(b, tested);
    lemma_emit_truth_extends(b, tested);
    assert(block_embeds(g.blocks[c], f.blocks[c]));
    assert(g.blocks[c].insts == t.func.blocks[c].insts);
    assert forall|k: int| 0 <= k < t.func.blocks.len() implies block_embeds(
        #[trigger] t.func.blocks[k],
        f.blocks[k],
    ) by {
        assert(block_embeds(g.blocks[k], f.blocks[k]));
        if k != c {
            assert(g.blocks[k] == t.func.blocks[k]);
        }
    }
    assert forall|i: int| 0 <= i < t.func.insts.len() implies inst_embeds(
        #[trigger] t.func.insts[i],
        f.insts[i],
    ) by {
        assert(inst_embeds(g.insts[i], f.insts[i]));
    }
}

/// `lemma_simulation` for a conditional.
#[verifier::rlimit(100)]
proof fn lemma_simulation_if(
    a: Arith,
    e: Expr,
    b: BuilderView,
    scope: Seq<(Seq<char>, ValueView)>,
    protos: Map<Seq<char>, Prototype>,
    f: FuncView,
    args: Seq<int>,
    env: Seq<(Seq<char>, int)>,
    s: State,
    fuel: nat,
)
    requires
        e is If,
        b.sound(),
        scope_defined(b.func, scope),
        lower_expr(e, b, scope, protos) is Ok,
        embeds(lower_expr(e, b, scope, protos)->Ok_0.1, f),
        eval(a, e, env, s.trace, fuel) is Some,
        at(b, s),
        related(scope, env, s.vals, args),
    ensures
        simulated(
            a,
            f,
            args,
            s,
            b,
            lower_expr(e, b, scope, protos)->Ok_0.1,
            lower_expr(e, b, scope, protos)->Ok_0.0,
            eval(a, e, env, s.trace, fuel)->Some_0,
        ),
    decreases fuel, e, 1nat,
{
    let condition = *e->If_0;
    let then_branch = *e->If_1;
    let else_branch = *e->If_2;
    let (tested, b1) = lower_expr(condition, b, scope, protos)->Ok_0;
    let n = b1.func.blocks.len();
    let c = b1.current as int;
    let tested_at = b1.emit_truth(tested);
    let opened = b1.begin_if(tested);
    let (then_value, b2) = lower_expr(then_branch, opened, scope, protos)->Ok_0;
    let second = b2.leave_branch(n + 2, n + 1);
    let (else_value, b3) = lower_expr(else_branch, second, scope, protos)->Ok_0;
    let joined = b3.leave_branch(n + 2, n + 2);
    let edges = seq![(then_value, b2.current), (else_value, b3.current)];
    let merge = InstView::Phi(edges);
    let after = joined.emit(merge);
    let rc = eval(a, condition, env, s.trace, fuel)->Some_0;
    // What the builders are.
    lemma_lower_sound(condition, b, scope, protos);
    lemma_lower_closed(condition, b, scope, protos);
    lemma_lower_settles(condition, b, scope, protos);
    crate::merges::lemma_begin_if_sound(b1, tested);
    crate::wellformed::lemma_begin_if_closed(b1, tested);
    lemma_begin_if_extends(b1, tested);
    lemma_emit_truth_extends(b1, tested);
    lemma_grown(b.func, b1.func);
    lemma_grown(b1.func, opened.func);
    lemma_lower_sound(then_branch, opened, scope, protos);
    lemma_lower_closed(then_branch, opened, scope, protos);
    lemma_lower_settles(then_branch, opened, scope, protos);
    crate::merges::lemma_if_second_sound(b1, tested, b2);
    crate::wellformed::lemma_leave_branch_closed(b2, n + 2, n + 1);
    lemma_grown(opened.func, b2.func);
    lemma_grown(b2.func, second.func);
    lemma_lower_sound(else_branch, second, scope, protos);
    lemma_lower_closed(else_branch, second, scope, protos);
    lemma_lower_settles(else_branch, second, scope, protos);
    assert(opened.func.blocks[n as int].insts.len() == 0);
    assert(opened.func.blocks[n as int + 1].insts.len() == 0);
    assert(opened.func.blocks[n as int + 2].insts.len() == 0);
    assert(opened.func.blocks[n as int + 2].terminator is None);
    assert(b2.func.blocks[n as int + 1] == opened.func.blocks[n as int + 1]);
    assert(b2.func.blocks[n as int + 2] == opened.func.blocks[n as int + 2]);
    assert(second.func.blocks[n as int + 2] == b2.func.blocks[n as int + 2]);
    assert(b3.func.blocks[n as int + 2] == second.func.blocks[n as int + 2]);
    assert(joined.open());
    assert(joined.func.blocks[n as int + 2].insts.len() == 0);
    assert(b2.current != b3.current);
    // What the function holds of them.
    lemma_embeds_emit(joined, merge, f);
    lemma_embeds_leave(b3, n + 2, n + 2, f);
    lemma_embeds_settled(second, b3, f);
    lemma_embeds_leave(b2, n + 2, n + 1, f);
    lemma_embeds_settled(opened, b2, f);
    lemma_embeds_begin_if(b1, tested, f);
    // The condition and its test.
    assert(embeds(b1, f)) by {
        lemma_embeds_emit(b1.emit(InstView::Const(zero_numeral())), InstView::Binary(
            BinOp::Gt,
            tested,
            b1.next_value(),
        ), f);
        lemma_embeds_emit(b1, InstView::Const(zero_numeral()), f);
    }
    lemma_simulation(a, condition, b, scope, protos, f, args, env, s, fuel);
    let s1 = run(a, f, args, s, rc.steps)->Going_0;
    lemma_steps_truth(a, b1, tested, f, args, s1);
    let s2 = run(a, f, args, s1, 2)->Going_0;
    lemma_step_branch(a, f, args, s2, b1.truth_value(), n, n + 1);
    let s3 = run(a, f, args, s2, 1)->Going_0;
    lemma_agree_trans(s.vals, s1.vals, s2.vals, b.func.insts.len(), b1.func.insts.len());
    lemma_related_kept(scope, env, s.vals, s3.vals, args, b.func);
    lemma_two_edges_value(then_value, b2.current, else_value, b3.current);
    if a.positive(rc.value) {
        let rt = eval(a, then_branch, env, rc.trace, fuel)->Some_0;
        lemma_simulation(a, then_branch, opened, scope, protos, f, args, env, s3, fuel);
        let s4 = run(a, f, args, s3, rt.steps)->Going_0;
        lemma_step_jump(a, f, args, s4, n + 2);
        let s5 = run(a, f, args, s4, 1)->Going_0;
        crate::merges::lemma_two_edges(
            (then_value, b2.current),
            (else_value, b3.current),
            b2.current as int,
        );
        lemma_step_merge(a, joined, edges, f, args, s5);
        let s6 = run(a, f, args, s5, 1)->Going_0;
        lemma_run_add(a, f, args, s, rc.steps, 2 + (1 + (rt.steps + (1 + 1))));
        lemma_run_add(a, f, args, s1, 2, 1 + (rt.steps + (1 + 1)));
        lemma_run_add(a, f, args, s2, 1, rt.steps + (1 + 1));
        lemma_run_add(a, f, args, s3, rt.steps, 1 + 1);
        lemma_run_add(a, f, args, s4, 1, 1);
        lemma_agree_trans(s.vals, s2.vals, s4.vals, b.func.insts.len(), opened.func.insts.len());
        lemma_agree_trans(s.vals, s4.vals, s6.vals, b.func.insts.len(), joined.func.insts.len());
        assert(b2.func.insts.len() <= joined.func.insts.len());
    } else {
        let re = eval(a, else_branch, env, rc.trace, fuel)->Some_0;
        lemma_simulation(a, else_branch, second, scope, protos, f, args, env, s3, fuel);
        let s4 = run(a, f, args, s3, re.steps)->Going_0;
        lemma_step_jump(a, f, args, s4, n + 2);
        let s5 = run(a, f, args, s4, 1)->Going_0;
        crate::merges::lemma_two_edges(
            (then_value, b2.current),
            (else_value, b3.current),
            b3.current as int,
        );
        lemma_step_merge(a, joined, edges, f, args, s5);
        let s6 = run(a, f, args, s5, 1)->Going_0;
        lemma_run_add(a, f, args, s, rc.steps, 2 + (1 + (re.steps + (1 + 1))));
        lemma_run_add(a, f, args, s1, 2, 1 + (re.steps + (1 + 1)));
        lemma_run_add(a, f, args, s2, 1, re.steps + (1 + 1));
        lemma_run_add(a, f, args, s3, re.steps, 1 + 1);
        lemma_run_add(a, f, args, s4, 1, 1);
        lemma_agree_trans(s.vals, s2.vals, s4.vals, b.func.insts.len(), second.func.insts.len());
        lemma_agree_trans(s.vals, s4.vals, s6.vals, b.func.insts.len(), joined.func.insts.len());
    }
}

/// The values of the two edges of a merge from two different blocks.
pub(crate) proof fn lemma_two_edges_value(first: ValueView, from: nat, second: ValueView, other: nat)
    requires
        from != other,
    ensures
        edge_value(seq![(first, from), (second, other)], from) == first,
        edge_value(seq![(first, from), (second, other)], other) == second,
{
    let edges = seq![(first, from), (second, other)];
    reveal_with_fuel(edge_value, 3);
    assert(edges.drop_first() =~= seq![(second, other)]);
    assert(edges.drop_first()[0].1 == other);
}

/// The code of an expression computes the expression.
///
/// Where `e` lowers from the builder `b`, and `f` is what the function
/// becomes, a run of `f` that stands where `b` does, with values that are
/// those of the environment, goes on, for the steps that evaluating `e`
/// takes, to where the builder stands after `e`; it has then made the calls
/// that evaluating makes, and holds the value of `e`.
#[verifier::rlimit(50)]
pub proof fn lemma_simulation(
    a: Arith,
    e: Expr,
    b: BuilderView,
    scope: Seq<(Seq<char>, ValueView)>,
    protos: Map<Seq<char>, Prototype>,
    f: FuncView,
    args: Seq<int>,
    env: Seq<(Seq<char>, int)>,
    s: State,
    fuel: nat,
)
    requires
        b.sound(),
        scope_defined(b.func, scope),
        lower_expr(e, b, scope, protos) is Ok,
        embeds(lower_expr(e, b, scope, protos)->Ok_0.1, f),
        eval(a, e, env, s.trace, fuel) is Some,
        at(b, s),
        related(scope, env, s.vals, args),
    ensures
        simulated(
            a,
            f,
            args,
            s,
            b,
            lower_expr(e, b, scope, protos)->Ok_0.1,
            lower_expr(e, b, scope, protos)->Ok_0.0,
            eval(a, e, env, s.trace, fuel)->Some_0,
        ),
    decreases fuel, e, 2nat,
{
    match e {
        Expr::Number(text) => {
            lemma_step_inst(a, b, InstView::Const(text), f, args, s);
        },
        Expr::Variable(name) => {
            lemma_lookup_related(scope, env, s.vals, args, name);
        },
        Expr::BinaryOp(op, lhs, rhs) => {
            let (left, b1) = lower_expr(*lhs, b, scope, protos)->Ok_0;
            let (right, b2) = lower_expr(*rhs, b1, scope, protos)->Ok_0;
            let kind = binop_of(op)->Some_0;
            let inst = InstView::Binary(kind, left, right);
            let l = eval(a, *lhs, env, s.trace, fuel)->Some_0;
            let r = eval(a, *rhs, env, l.trace, fuel)->Some_0;
            lemma_lower_sound(*lhs, b, scope, protos);
            lemma_lower_closed(*lhs, b, scope, protos);
            lemma_lower_sound(*rhs, b1, scope, protos);
            lemma_lower_closed(*rhs, b1, scope, protos);
            lemma_lower_settles(*rhs, b1, scope, protos);
            lemma_grown(b.func, b1.func);
            lemma_grown(b1.func, b2.func);
            lemma_embeds_emit(b2, inst, f);
            lemma_embeds_settled(b1, b2, f);
            lemma_simulation(a, *lhs, b, scope, protos, f, args, env, s, fuel);
            let s1 = run(a, f, args, s, l.steps)->Going_0;
            lemma_related_kept(scope, env, s.vals, s1.vals, args, b.func);
            lemma_simulation(a, *rhs, b1, scope, protos, f, args, env, s1, fuel);
            let s2 = run(a, f, args, s1, r.steps)->Going_0;
            lemma_step_inst(a, b2, inst, f, args, s2);
            lemma_run_add(a, f, args, s, l.steps, r.steps + 1);
            lemma_run_add(a, f, args, s1, r.steps, 1);
            assert(value_of(s2.vals, args, left) == l.value) by {
                if let ValueView::Inst(id) = left {
                    assert(s2.vals[id] == s1.vals[id]);
                }
            }
            let s3 = run(a, f, args, s2, 1)->Going_0;
            lemma_agree_trans(s.vals, s1.vals, s2.vals, b.func.insts.len(), b1.func.insts.len());
            lemma_agree_trans(s.vals, s2.vals, s3.vals, b.func.insts.len(), b2.func.insts.len());
        },
        Expr::Call(callee, args_list) => {
            let (values, b1) = lower_args(args_list, args_list.len(), b, scope, protos)->Ok_0;
            let inst = InstView::Call(callee, values);
            let passed = eval_args(a, args_list, args_list.len(), env, s.trace, fuel)->Some_0;
            lemma_lower_args_sound(args_list, args_list.len(), b, scope, protos);
            lemma_embeds_emit(b1, inst, f);
            lemma_simulation_args(
                a,
                args_list,
                args_list.len(),
                b,
                scope,
                protos,
                f,
                args,
                env,
                s,
                fuel,
            );
            let s1 = run(a, f, args, s, passed.steps)->Going_0;
            lemma_step_inst(a, b1, inst, f, args, s1);
            lemma_run_add(a, f, args, s, passed.steps, 1);
            lemma_lower_args_closed(args_list, args_list.len(), b, scope, protos);
            let s2 = run(a, f, args, s1, 1)->Going_0;
            lemma_agree_trans(s.vals, s1.vals, s2.vals, b.func.insts.len(), b1.func.insts.len());
        },
        Expr::If(_, _, _) => {
            lemma_simulation_if(a, e, b, scope, protos, f, args, env, s, fuel);
        },
        Expr::For(_, _, _, _, _) => {
            lemma_simulation_for(a, e, b, scope, protos, f, args, env, s, fuel);
        },
    }
}

/// As `lemma_simulation`, for the arguments of a call.
#[verifier::rlimit(50)]
pub proof fn lemma_simulation_args(
    a: Arith,
    list: Seq<Expr>,
    n: nat,
    b: BuilderView,
    scope: Seq<(Seq<char>, ValueView)>,
    protos: Map<Seq<char>, Prototype>,
    f: FuncView,
    args: Seq<int>,
    env: Seq<(Seq<char>, int)>,
    s: State,
    fuel: nat,
)
    requires
        b.sound(),
        scope_defined(b.func, scope),
        lower_args(list, n, b, scope, protos) is Ok,
        embeds(lower_args(list, n, b, scope, protos)->Ok_0.1, f),
        eval_args(a, list, n, env, s.trace, fuel) is Some,
        at(b, s),
        related(scope, env, s.vals, args),
    ensures
        ({
            let (values, after) = lower_args(list, n, b, scope, protos)->Ok_0;
            let r = eval_args(a, list, n, env, s.trace, fuel)->Some_0;
            match run(a, f, args, s, r.steps) {
                Run::Going(out) => {
                    &&& at(after, out)
                    &&& out.trace == r.trace
                    &&& values_of(out.vals, args, values) == r.values
                    &&& agree(s.vals, out.vals, b.func.insts.len())
                },
                _ => false,
            }
        }),
    decreases fuel, list, n,
{
    if n == 0 || n > list.len() {
        assert(values_of(s.vals, args, Seq::<ValueView>::empty()) =~= Seq::<int>::empty());
    } else {
        let (values, b1) = lower_args(list, (n - 1) as nat, b, scope, protos)->Ok_0;
        let (value, b2) = lower_expr(list[n - 1], b1, scope, protos)->Ok_0;
        let before = eval_args(a, list, (n - 1) as nat, env, s.trace, fuel)->Some_0;
        let arg = eval(a, list[n - 1], env, before.trace, fuel)->Some_0;
        lemma_lower_args_sound(list, (n - 1) as nat, b, scope, protos);
        lemma_lower_args_closed(list, (n - 1) as nat, b, scope, protos);
        lemma_lower_settles(list[n - 1], b1, scope, protos);
        lemma_lower_closed(list[n - 1], b1, scope, protos);
        lemma_grown(b.func, b1.func);
        lemma_embeds_settled(b1, b2, f);
        lemma_simulation_args(a, list, (n - 1) as nat, b, scope, protos, f, args, env, s, fuel);
        let s1 = run(a, f, args, s, before.steps)->Going_0;
        lemma_related_kept(scope, env, s.vals, s1.vals, args, b.func);
        lemma_simulation(a, list[n - 1], b1, scope, protos, f, args, env, s1, fuel);
        let s2 = run(a, f, args, s1, arg.steps)->Going_0;
        lemma_run_add(a, f, args, s, before.steps, arg.steps);
        lemma_agree_trans(s.vals, s1.vals, s2.vals, b.func.insts.len(), b1.func.insts.len());
        let all = values.push(value);
        assert(values_of(s2.vals, args, all) =~= before.values.push(arg.value)) by {
            assert forall|i: int| 0 <= i < values.len() implies value_of(s2.vals, args, all[i])
                == before.values[i] by {
                assert(b1.func.defines(values[i]));
                assert(value_of(s1.vals, args, values[i]) == values_of(
                    s1.vals,
                    args,
                    values,
                )[i]);
                if let ValueView::Inst(id) = values[i] {
                    assert(s2.vals[id] == s1.vals[id]);
                }
            }
        }
    }
}

/// The step at a constant of the complete function.
pub(crate) proof fn lemma_step_at_const(
    a: Arith,
    f: FuncView,
    args: Seq<int>,
    s: State,
    id: nat,
    text: Seq<char>,
)
    requires
        s.block < f.blocks.len(),
        s.pos < f.blocks[s.block as int].insts.len(),
        f.blocks[s.block as int].insts[s.pos as int] == id,
        f.insts[id as int] == InstView::Const(text),
    ensures
        run(a, f, args, s, 1) == Run::Going(
            State { pos: s.pos + 1, vals: s.vals.insert(id, (a.number)(text)), ..s },
        ),
{
    let next = step(a, f, args, s);
    assert(run(a, f, args, s, 1) == next) by {
        if let Run::Going(n) = next {
            assert(run(a, f, args, n, 0) == Run::Going(n));
        }
    }
}

/// `lemma_simulation` for a loop.
#[verifier::rlimit(100)]
proof fn lemma_simulation_for(
    a: Arith,
    e: Expr,
    b: BuilderView,
    scope: Seq<(Seq<char>, ValueView)>,
    protos: Map<Seq<char>, Prototype>,
    f: FuncView,
    args: Seq<int>,
    env: Seq<(Seq<char>, int)>,
    s: State,
    fuel: nat,
)
    requires
        e is For,
        b.sound(),
        scope_defined(b.func, scope),
        lower_expr(e, b, scope, protos) is Ok,
        embeds(lower_expr(e, b, scope, protos)->Ok_0.1, f),
        eval(a, e, env, s.trace, fuel) is Some,
        at(b, s),
        related(scope, env, s.vals, args),
    ensures
        simulated(
            a,
            f,
            args,
            s,
            b,
            lower_expr(e, b, scope, protos)->Ok_0.1,
            lower_expr(e, b, scope, protos)->Ok_0.0,
            eval(a, e, env, s.trace, fuel)->Some_0,
        ),
    decreases fuel, e, 1nat,
{
    let parts = loop_parts(e, b, scope, protos);
    let start = *e->For_1;
    let l = parts.started.func.blocks.len();
    let m = parts.ended.func.blocks.len();
    let k = parts.ended.func.insts.len();
    let p = parts.started.func.insts.len();
    lemma_loop_parts(e, b, scope, protos, f);
    let rs = eval(a, start, env, s.trace, fuel)->Some_0;
    let rounds = iterate(a, e, rs.value, env, rs.trace, fuel)->Some_0;
    lemma_simulation(a, start, b, scope, protos, f, args, env, s, fuel);
    let s1 = run(a, f, args, s, rs.steps)->Going_0;
    lemma_step_jump(a, f, args, s1, l);
    let s2 = run(a, f, args, s1, 1)->Going_0;
    lemma_two_edges_value(
        parts.first,
        parts.started.current,
        parts.stepped.next_value(),
        parts.ended.current,
    );
    lemma_related_kept(scope, env, s.vals, s2.vals, args, b.func);
    lemma_simulation_rounds(a, e, b, scope, protos, f, args, env, s2, rs.value, fuel);
    let s3 = run(a, f, args, s2, rounds.steps)->Going_0;
    lemma_step_at_const(a, f, args, s3, k + 2, zero_numeral());
    let s4 = run(a, f, args, s3, 1)->Going_0;
    lemma_run_add(a, f, args, s, rs.steps, 1 + (rounds.steps + 1));
    lemma_run_add(a, f, args, s1, 1, rounds.steps + 1);
    lemma_run_add(a, f, args, s2, rounds.steps, 1);
    lemma_agree_trans(s.vals, s2.vals, s3.vals, b.func.insts.len(), p);
    assert(agree(s3.vals, s4.vals, b.func.insts.len()));
    lemma_agree_trans(s.vals, s3.vals, s4.vals, b.func.insts.len(), b.func.insts.len());
}

/// The rounds of a loop: from the start of the loop block, with the
/// variable to take the value `current`, the run goes on, for the steps that
/// the rounds take, to the start of the block after the loop.
#[verifier::rlimit(100)]
proof fn lemma_simulation_rounds(
    a: Arith,
    e: Expr,
    b: BuilderView,
    scope: Seq<(Seq<char>, ValueView)>,
    protos: Map<Seq<char>, Prototype>,
    f: FuncView,
    args: Seq<int>,
    env: Seq<(Seq<char>, int)>,
    s: State,
    current: int,
    fuel: nat,
)
    requires
        e is For,
        b.sound(),
        scope_defined(b.func, scope),
        lower_expr(e, b, scope, protos) is Ok,
        embeds(lower_expr(e, b, scope, protos)->Ok_0.1, f),
        iterate(a, e, current, env, s.trace, fuel) is Some,
        related(scope, env, s.vals, args),
        ({
            let parts = loop_parts(e, b, scope, protos);
            &&& s.block == parts.started.func.blocks.len()
            &&& s.pos == 0
            &&& s.prev == parts.started.current || s.prev == parts.ended.current
            &&& value_of(s.vals, args, edge_value(loop_edges(parts), s.prev)) == current
        }),
    ensures
        ({
            let parts = loop_parts(e, b, scope, protos);
            let r = iterate(a, e, current, env, s.trace, fuel)->Some_0;
            match run(a, f, args, s, r.steps) {
                Run::Going(out) => {
                    &&& out.block == parts.ended.func.blocks.len()
                    &&& out.pos == 0
                    &&& out.trace == r.trace
                    &&& agree(s.vals, out.vals, parts.started.func.insts.len())
                },
                _ => false,
            }
        }),
    decreases fuel, e, 0nat,
{
    let parts = loop_parts(e, b, scope, protos);
    let variable_name = e->For_0;
    let end = *e->For_2;
    let step = e->For_3;
    let body = *e->For_4;
    let l = parts.started.func.blocks.len();
    let m = parts.ended.func.blocks.len();
    let p = parts.started.func.insts.len();
    let variable = ValueView::Inst(p);
    let next = parts.stepped.next_value();
    let next_id = parts.stepped.func.insts.len();
    let inner = scope.push((variable_name, variable));
    let outer = scope.push((variable_name, next));
    let inner_env = env.push((variable_name, current));
    let edges = loop_edges(parts);
    lemma_loop_parts(e, b, scope, protos, f);
    // The merge of the variable.
    crate::merges::lemma_two_edges(
        (parts.first, parts.started.current),
        (next, parts.ended.current),
        s.prev as int,
    );
    lemma_step_at_merge(a, f, args, s, p, edges);
    let t1 = run(a, f, args, s, 1)->Going_0;
    assert(agree(s.vals, t1.vals, p));
    lemma_related_kept(scope, env, s.vals, t1.vals, args, parts.started.func);
    lemma_related_bind(scope, env, t1.vals, args, variable_name, variable);
    // The body.
    let rb = eval(a, body, inner_env, s.trace, fuel)->Some_0;
    lemma_simulation(a, body, parts.opened, inner, protos, f, args, inner_env, t1, fuel);
    let t2 = run(a, f, args, t1, rb.steps)->Going_0;
    lemma_related_kept(inner, inner_env, t1.vals, t2.vals, args, parts.opened.func);
    // The step.
    let ry = match step {
        Some(st) => eval(a, *st, inner_env, rb.trace, fuel)->Some_0,
        None => Evaluated { value: (a.number)(one_numeral()), trace: rb.trace, steps: 1 },
    };
    match step {
        Some(st) => {
            lemma_simulation(a, *st, parts.bodied, inner, protos, f, args, inner_env, t2, fuel);
        },
        None => {
            lemma_step_inst(a, parts.bodied, InstView::Const(one_numeral()), f, args, t2);
        },
    }
    let t3 = run(a, f, args, t2, ry.steps)->Going_0;
    assert(value_of(t3.vals, args, parts.by) == ry.value);
    assert(agree(t2.vals, t3.vals, parts.bodied.func.insts.len()));
    lemma_agree_trans(
        t1.vals,
        t2.vals,
        t3.vals,
        parts.opened.func.insts.len(),
        parts.bodied.func.insts.len(),
    );
    assert(t3.vals[p] == current) by {
        assert(t3.vals[p] == t1.vals[p]);
    }
    // The next value.
    let sum = InstView::Binary(BinOp::Add, variable, parts.by);
    lemma_step_inst(a, parts.stepped, sum, f, args, t3);
    let t4 = run(a, f, args, t3, 1)->Going_0;
    let next_value = (a.binary)(BinOp::Add, current, ry.value);
    assert(t4.vals[next_id] == next_value);
    lemma_agree_trans(
        t1.vals,
        t3.vals,
        t4.vals,
        parts.opened.func.insts.len(),
        parts.stepped.func.insts.len(),
    );
    lemma_agree_trans(s.vals, t1.vals, t4.vals, p, parts.opened.func.insts.len());
    lemma_related_kept(scope, env, s.vals, t4.vals, args, parts.started.func);
    lemma_related_bind(scope, env, t4.vals, args, variable_name, next);
    let outer_env = env.push((variable_name, next_value));
    // The end condition and its test.
    let rl = eval(a, end, outer_env, ry.trace, fuel)->Some_0;
    lemma_simulation(a, end, parts.summed, outer, protos, f, args, outer_env, t4, fuel);
    let t5 = run(a, f, args, t4, rl.steps)->Going_0;
    lemma_steps_truth(a, parts.ended, parts.last, f, args, t5);
    let t6 = run(a, f, args, t5, 2)->Going_0;
    lemma_step_branch(a, f, args, t6, parts.ended.truth_value(), l, m);
    let t7 = run(a, f, args, t6, 1)->Going_0;
    lemma_agree_trans(
        t4.vals,
        t5.vals,
        t6.vals,
        parts.summed.func.insts.len(),
        parts.ended.func.insts.len(),
    );
    lemma_agree_trans(s.vals, t4.vals, t6.vals, p, parts.summed.func.insts.len());
    assert(t7.vals == t6.vals);
    let round = 1 + rb.steps + ry.steps + 1 + rl.steps + 3;
    lemma_run_add(a, f, args, s, 1, rb.steps + (ry.steps + (1 + (rl.steps + (2 + 1)))));
    lemma_run_add(a, f, args, t1, rb.steps, ry.steps + (1 + (rl.steps + (2 + 1))));
    lemma_run_add(a, f, args, t2, ry.steps, 1 + (rl.steps + (2 + 1)));
    lemma_run_add(a, f, args, t3, 1, rl.steps + (2 + 1));
    lemma_run_add(a, f, args, t4, rl.steps, 2 + 1);
    lemma_run_add(a, f, args, t5, 2, 1);
    assert(run(a, f, args, s, round as nat) == Run::Going(t7));
    if a.positive(rl.value) {
        lemma_two_edges_value(
            parts.first,
            parts.started.current,
            next,
            parts.ended.current,
        );
        assert(t7.vals[next_id] == next_value) by {
            assert(t6.vals[next_id] == t4.vals[next_id]);
        }
        lemma_related_kept(scope, env, s.vals, t7.vals, args, parts.started.func);
        let rest = iterate(a, e, next_value, env, rl.trace, (fuel - 1) as nat)->Some_0;
        lemma_simulation_rounds(
            a,
            e,
            b,
            scope,
            protos,
            f,
            args,
            env,
            t7,
            next_value,
            (fuel - 1) as nat,
        );
        let out = run(a, f, args, t7, rest.steps)->Going_0;
        lemma_run_add(a, f, args, s, round as nat, rest.steps);
        lemma_agree_trans(s.vals, t7.vals, out.vals, p, p);
    }
}

/// A function that compiles computes its body.
///
/// Where the definition `f` compiles, and evaluating its body with the
/// parameters bound to the arguments gives a value, a run of the compiled
/// function from its start returns that value, after the calls that
/// evaluating made, in one step more than evaluating took.
pub proof fn lemma_compiled_computes(
    a: Arith,
    f: FunctionDef,
    protos: Map<Seq<char>, Prototype>,
    args: Seq<int>,
    fuel: nat,
)
    requires
        lower_function(f, protos) is Ok,
        args.len() == f.proto.params.len(),
        eval(a, f.body, param_env(f.proto.params, args), Seq::empty(), fuel) is Some,
    ensures
        ({
            let r = eval(a, f.body, param_env(f.proto.params, args), Seq::empty(), fuel)->Some_0;
            run(a, lower_function(f, protos)->Ok_0, args, entry(), r.steps + 1) == Run::Returned(
                r.value,
                r.trace,
            )
        }),
{
    let start = BuilderView::start(f.proto.name, f.proto.params);
    let scope = param_scope(f.proto.params);
    let env = param_env(f.proto.params, args);
    let (value, after) = lower_expr(f.body, start, scope, protos)->Ok_0;
    let ret = TermView::Ret(value);
    let done = after.terminate(ret);
    let func = done.func;
    let r = eval(a, f.body, env, Seq::empty(), fuel)->Some_0;
    assert(start.func.closed());
    assert(start.sound());
    assert(scope_defined(start.func, scope));
    lemma_lower_sound(f.body, start, scope, protos);
    assert(embeds(after, func)) by {
        assert forall|k: int| 0 <= k < after.func.blocks.len() implies block_embeds(
            #[trigger] after.func.blocks[k],
            func.blocks[k],
        ) by {}
        assert forall|i: int| 0 <= i < after.func.insts.len() implies inst_embeds(
            #[trigger] after.func.insts[i],
            func.insts[i],
        ) by {}
    }
    assert(related(scope, env, entry().vals, args));
    lemma_simulation(a, f.body, start, scope, protos, func, args, env, entry(), fuel);
    let s1 = run(a, func, args, entry(), r.steps)->Going_0;
    assert(step(a, func, args, s1) == Run::Returned(r.value, r.trace));
    lemma_run_add(a, func, args, entry(), r.steps, 1);
}

} // verus!
