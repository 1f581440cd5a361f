//! What it takes for an expression to compile: its names are bound, its
//! operators known, and its calls those of declared functions, with as many
//! arguments as they have parameters.
use vstd::prelude::*;
use crate::ast::{Expr, FunctionDef, Prototype};
use crate::ir::{BinOp, BuilderView, InstView, ValueView};
use crate::lowering::{
    Lowered, binop_of, lower_args, lower_expr, lower_function, one_numeral, param_scope,
};
use crate::scope::lookup;

verus! {

/// Whether one of the bindings `scope` binds `name`.
pub open spec fn binds(scope: Seq<(Seq<char>, ValueView)>, name: Seq<char>) -> bool {
    exists|i: int| 0 <= i < scope.len() && (#[trigger] scope[i]).0 == name
}

/// Whether `e` is closed and well called, where `scope` binds the
/// variables and `protos` holds the signatures: every variable is bound, by
/// the scope or by a loop around it; every operator has an instruction; and
/// every call is that of a function on file, with as many arguments as the
/// signature has parameters.
pub open spec fn valid(
    e: Expr,
    scope: Seq<(Seq<char>, ValueView)>,
    protos: Map<Seq<char>, Prototype>,
) -> bool
    decreases e,
{
    match e {
        Expr::Number(_) => true,
        Expr::Variable(name) => binds(scope, name),
        Expr::BinaryOp(op, lhs, rhs) => {
            &&& valid(*lhs, scope, protos)
            &&& valid(*rhs, scope, protos)
            &&& binop_of(op) is Some
        },
        Expr::Call(callee, args) => {
            &&& protos.contains_key(callee)
            &&& protos[callee].params.len() == args.len()
            &&& forall|i: int| 0 <= i < args.len() ==> valid(#[trigger] args[i], scope, protos)
        },
        Expr::If(condition, then_branch, else_branch) => {
            &&& valid(*condition, scope, protos)
            &&& valid(*then_branch, scope, protos)
            &&& valid(*else_branch, scope, protos)
        },
        Expr::For(variable_name, start, end, step, body) => {
            let inner = scope.push((variable_name, ValueView::Inst(0)));
            &&& valid(*start, scope, protos)
            &&& valid(*body, inner, protos)
            &&& match step {
                Some(s) => valid(*s, inner, protos),
                None => true,
            }
            &&& valid(*end, inner, protos)
        },
    }
}

/// A name is looked up with success exactly where it is bound.
pub proof fn lemma_lookup_binds(scope: Seq<(Seq<char>, ValueView)>, name: Seq<char>)
    ensures
        lookup(scope, name) is Some <==> binds(scope, name),
    decreases scope.len(),
{
    if scope.len() > 0 {
        let others = scope.drop_last();
        lemma_lookup_binds(others, name);
        if scope.last().0 == name {
            assert(scope[scope.len() - 1].0 == name);
        } else {
            if binds(scope, name) {
                let i = choose|i: int| 0 <= i < scope.len() && (#[trigger] scope[i]).0 == name;
                assert(others[i].0 == name);
            }
            if binds(others, name) {
                let i = choose|i: int| 0 <= i < others.len() && (#[trigger] others[i]).0 == name;
                assert(scope[i].0 == name);
            }
        }
    }
}

/// Scopes that bind the same names, in the same order, bind a name alike.
pub open spec fn same_names(
    a: Seq<(Seq<char>, ValueView)>,
    b: Seq<(Seq<char>, ValueView)>,
) -> bool {
    &&& a.len() == b.len()
    &&& forall|i: int| 0 <= i < a.len() ==> (#[trigger] a[i]).0 == b[i].0
}

/// Whether an expression is valid depends on the names that a scope binds,
/// not on what it binds them to.
pub proof fn lemma_valid_names(
    e: Expr,
    a: Seq<(Seq<char>, ValueView)>,
    b: Seq<(Seq<char>, ValueView)>,
    protos: Map<Seq<char>, Prototype>,
)
    requires
        same_names(a, b),
    ensures
        valid(e, a, protos) == valid(e, b, protos),
    decreases e,
{
    match e {
        Expr::Number(_) => {},
        Expr::Variable(name) => {
            if binds(a, name) {
                let i = choose|i: int| 0 <= i < a.len() && (#[trigger] a[i]).0 == name;
                assert(b[i].0 == name);
            }
            if binds(b, name) {
                let i = choose|i: int| 0 <= i < b.len() && (#[trigger] b[i]).0 == name;
                assert(a[i].0 == name);
            }
        },
        Expr::BinaryOp(_, lhs, rhs) => {
            lemma_valid_names(*lhs, a, b, protos);
            lemma_valid_names(*rhs, a, b, protos);
        },
        Expr::Call(_, args) => {
            assert forall|i: int| 0 <= i < args.len() implies valid(
                #[trigger] args[i],
                a,
                protos,
            ) == valid(args[i], b, protos) by {
                lemma_valid_names(args[i], a, b, protos);
            }
        },
        Expr::If(condition, then_branch, else_branch) => {
            lemma_valid_names(*condition, a, b, protos);
            lemma_valid_names(*then_branch, a, b, protos);
            lemma_valid_names(*else_branch, a, b, protos);
        },
        Expr::For(variable_name, start, end, step, body) => {
            let a2 = a.push((variable_name, ValueView::Inst(0)));
            let b2 = b.push((variable_name, ValueView::Inst(0)));
            assert(same_names(a2, b2)) by {
                assert forall|i: int| 0 <= i < a2.len() implies (#[trigger] a2[i]).0 == b2[i].0 by {
                    if i < a.len() {
                        assert(a2[i] == a[i]);
                        assert(b2[i] == b[i]);
                    }
                }
            }
            lemma_valid_names(*start, a, b, protos);
            lemma_valid_names(*body, a2, b2, protos);
            if let Some(s) = step {
                lemma_valid_names(*s, a2, b2, protos);
            }
            lemma_valid_names(*end, a2, b2, protos);
        },
    }
}

/// One binding more, of the same name, keeps the names the same.
proof fn lemma_same_names_push(
    scope: Seq<(Seq<char>, ValueView)>,
    name: Seq<char>,
    value: ValueView,
)
    ensures
        same_names(scope.push((name, value)), scope.push((name, ValueView::Inst(0)))),
{
    let a = scope.push((name, value));
    let b = scope.push((name, ValueView::Inst(0)));
    assert forall|i: int| 0 <= i < a.len() implies (#[trigger] a[i]).0 == b[i].0 by {
        if i < scope.len() {
            assert(a[i] == scope[i]);
            assert(b[i] == scope[i]);
        }
    }
}

/// An expression lowers exactly where it is valid, from whatever builder.
pub proof fn lemma_lowers_where_valid(
    e: Expr,
    b: BuilderView,
    scope: Seq<(Seq<char>, ValueView)>,
    protos: Map<Seq<char>, Prototype>,
)
    ensures
        lower_expr(e, b, scope, protos) is Ok <==> valid(e, scope, protos),
    decreases e, 1nat,
{
    match e {
        Expr::Number(_) => {},
        Expr::Variable(name) => {
            lemma_lookup_binds(scope, name);
        },
        Expr::BinaryOp(op, lhs, rhs) => {
            lemma_lowers_where_valid(*lhs, b, scope, protos);
            if let Ok((_, b1)) = lower_expr(*lhs, b, scope, protos) {
                lemma_lowers_where_valid(*rhs, b1, scope, protos);
            }
        },
        Expr::Call(callee, args) => {
            lemma_args_lower_where_valid(args, args.len(), b, scope, protos);
        },
        Expr::If(condition, then_branch, else_branch) => {
            lemma_lowers_where_valid(*condition, b, scope, protos);
            if let Ok((tested, b1)) = lower_expr(*condition, b, scope, protos) {
                let opened = b1.begin_if(tested);
                lemma_lowers_where_valid(*then_branch, opened, scope, protos);
                if let Ok((_, b2)) = lower_expr(*then_branch, opened, scope, protos) {
                    lemma_lowers_where_valid(
                        *else_branch,
                        b2.leave_branch(b1.next_block() + 2, b1.next_block() + 1),
                        scope,
                        protos,
                    );
                }
            }
        },
        Expr::For(variable_name, start, end, step, body) => {
            let plain = scope.push((variable_name, ValueView::Inst(0)));
            lemma_lowers_where_valid(*start, b, scope, protos);
            if let Ok((first, b1)) = lower_expr(*start, b, scope, protos) {
                let variable = b1.loop_variable();
                let inner = scope.push((variable_name, variable));
                let opened = b1.begin_loop(first);
                lemma_same_names_push(scope, variable_name, variable);
                lemma_valid_names(*body, inner, plain, protos);
                lemma_lowers_where_valid(*body, opened, inner, protos);
                if let Ok((_, b2)) = lower_expr(*body, opened, inner, protos) {
                    let stepped: Lowered = match step {
                        Some(s) => lower_expr(*s, b2, inner, protos),
                        None => Ok((b2.next_value(), b2.emit(InstView::Const(one_numeral())))),
                    };
                    if let Some(s) = step {
                        lemma_valid_names(*s, inner, plain, protos);
                        lemma_lowers_where_valid(*s, b2, inner, protos);
                    }
                    if let Ok((by, b3)) = stepped {
                        let next = b3.next_value();
                        let outer = scope.push((variable_name, next));
                        lemma_same_names_push(scope, variable_name, next);
                        lemma_valid_names(*end, outer, plain, protos);
                        lemma_lowers_where_valid(
                            *end,
                            b3.emit(InstView::Binary(BinOp::Add, variable, by)),
                            outer,
                            protos,
                        );
                    }
                }
            }
        },
    }
}

/// As `lemma_lowers_where_valid`, for the first `n` arguments of a call.
pub proof fn lemma_args_lower_where_valid(
    args: Seq<Expr>,
    n: nat,
    b: BuilderView,
    scope: Seq<(Seq<char>, ValueView)>,
    protos: Map<Seq<char>, Prototype>,
)
    requires
        n <= args.len(),
    ensures
        lower_args(args, n, b, scope, protos) is Ok <==> forall|i: int|
            0 <= i < n ==> valid(#[trigger] args[i], scope, protos),
    decreases args, n,
{
    if n > 0 {
        lemma_args_lower_where_valid(args, (n - 1) as nat, b, scope, protos);
        if let Ok((_, b1)) = lower_args(args, (n - 1) as nat, b, scope, protos) {
            lemma_lowers_where_valid(args[n - 1], b1, scope, protos);
        }
    }
}

/// A definition compiles exactly where its body is valid with its
/// parameters bound.
pub proof fn lemma_compiles_where_valid(f: FunctionDef, protos: Map<Seq<char>, Prototype>)
    ensures
        lower_function(f, protos) is Ok <==> valid(f.body, param_scope(f.proto.params), protos),
{
    lemma_lowers_where_valid(
        f.body,
        BuilderView::start(f.proto.name, f.proto.params),
        param_scope(f.proto.params),
        protos,
    );
}

} // verus!
