//! Code generation: lowering an expression tree into a control-flow graph in
//! static-single-assignment form.
use vstd::prelude::*;
use crate::ast::{Expr, ExprAST, FunctionAST, Prototype, PrototypeAST};
use crate::ir::{
    BinOp, BlockKind, BuilderView, Function, IRBuilder, InstView, Module, TermView, Value,
    ValueView, edges_view, find_function, values_view,
};
use crate::lowering::{
    binop_of, declare_in, define_in, lemma_begin_if_extends, lemma_begin_loop_extends,
    lemma_emit_extends, lemma_emit_truth_extends, lemma_extends_facts,
    lemma_leave_branch_extends, lemma_lower_args_error, lemma_lower_extends, lemma_step_extends,
    lower_args, lower_expr, one_numeral, param_scope, zero_numeral,
};
use crate::registry::Registry;
use crate::scope::Scope;
use crate::Either;

verus! {

/// Why code generation failed.
#[derive(Debug, PartialEq)]
pub enum CodegenError {
    /// A name that nothing binds.
    UnknownVariable(String),
    /// A call of a function without a signature.
    UnknownFunction(String),
    /// A call whose argument count differs from the signature's.
    ArgumentCount { callee: String, expected: usize, actual: usize },
    /// A binary operator without an instruction.
    UnknownOperator(char),
    /// A second body for a function that has one.
    Redefinition(String),
}

/// Why code generation failed, as a mathematical value.
pub enum CodegenErrorView {
    UnknownVariable(Seq<char>),
    UnknownFunction(Seq<char>),
    ArgumentCount { callee: Seq<char>, expected: nat, actual: nat },
    UnknownOperator(char),
    Redefinition(Seq<char>),
}

impl View for CodegenError {
    type V = CodegenErrorView;

    open spec fn view(&self) -> CodegenErrorView {
        match self {
            CodegenError::UnknownVariable(name) => CodegenErrorView::UnknownVariable(name@),
            CodegenError::UnknownFunction(name) => CodegenErrorView::UnknownFunction(name@),
            CodegenError::ArgumentCount { callee, expected, actual } => {
                CodegenErrorView::ArgumentCount {
                    callee: callee@,
                    expected: *expected as nat,
                    actual: *actual as nat,
                }
            },
            CodegenError::UnknownOperator(op) => CodegenErrorView::UnknownOperator(*op),
            CodegenError::Redefinition(name) => CodegenErrorView::Redefinition(name@),
        }
    }
}

fn zero_text() -> (r: String)
    ensures
        r@ == zero_numeral(),
{
    let r = String::from_str("0");
    proof {
        reveal_strlit("0");
        assert(r@ =~= zero_numeral());
    }
    r
}

fn one_text() -> (r: String)
    ensures
        r@ == one_numeral(),
{
    let r = String::from_str("1");
    proof {
        reveal_strlit("1");
        assert(r@ =~= one_numeral());
    }
    r
}

/// The instruction that an operator character stands for, if it has one.
pub fn binop_for(op: char) -> (r: Option<BinOp>)
    ensures
        r == binop_of(op),
{
    if op == '+' {
        Some(BinOp::Add)
    } else if op == '-' {
        Some(BinOp::Sub)
    } else if op == '*' {
        Some(BinOp::Mul)
    } else if op == '/' {
        Some(BinOp::Div)
    } else if op == '<' {
        Some(BinOp::Lt)
    } else if op == '>' {
        Some(BinOp::Gt)
    } else {
        None
    }
}

/// The code generator for the body of one function: the builder, and the
/// values that the names in scope stand for.
pub struct IRGen {
    pub builder: IRBuilder,
    pub named_values: Scope,
}

impl IRGen {
    /// What `irgen_expr` owes for `expr`, started from `self`.
    pub open spec fn lowers(
        self,
        protos: Map<Seq<char>, Prototype>,
        expr: Expr,
        r: Result<(Value, IRGen), CodegenError>,
    ) -> bool {
        match r {
            Ok((value, gen)) => {
                &&& lower_expr(expr, self.builder@, self.named_values@, protos) == Ok::<
                    (ValueView, BuilderView),
                    CodegenErrorView,
                >((value@, gen.builder@))
                &&& gen.named_values@ == self.named_values@
                &&& gen.builder@.well_formed()
            },
            Err(error) => lower_expr(expr, self.builder@, self.named_values@, protos) == Err::<
                (ValueView, BuilderView),
                CodegenErrorView,
            >(error@),
        }
    }

    /// Lowers `expr` at the insertion point. On success gives the value of
    /// the expression and the generator to go on with; on failure the
    /// generator, and the function it was building, are gone. It succeeds
    /// exactly where every variable of `expr` is bound, every operator has
    /// an instruction, and every call is that of a function on file, with as
    /// many arguments as it has parameters.
    pub fn irgen_expr(self, protos: &Registry, expr: &ExprAST) -> (r: Result<
        (Value, IRGen),
        CodegenError,
    >)
        requires
            self.builder@.well_formed(),
        ensures
            self.lowers(protos@, expr@, r),
            r is Ok <==> crate::validity::valid(expr@, self.named_values@, protos@),
        decreases expr, 1nat,
    {
        proof {
            crate::validity::lemma_lowers_where_valid(
                expr@,
                self.builder@,
                self.named_values@,
                protos@,
            );
        }
        match expr {
            ExprAST::Number(text) => {
                let mut gen = self;
                let value = gen.builder.build_const(text.clone());
                Ok((value, gen))
            },
            ExprAST::Variable(name) => {
                match self.named_values.get(name) {
                    Some(value) => Ok((value, self)),
                    None => Err(CodegenError::UnknownVariable(name.clone())),
                }
            },
            ExprAST::BinaryOp(_, _, _) => self.irgen_binary(protos, expr),
            ExprAST::Call(_, _) => self.irgen_call(protos, expr),
            ExprAST::If { .. } => self.irgen_if(protos, expr),
            ExprAST::For { .. } => self.irgen_for(protos, expr),
        }
    }

    fn irgen_binary(self, protos: &Registry, expr: &ExprAST) -> (r: Result<
        (Value, IRGen),
        CodegenError,
    >)
        requires
            self.builder@.well_formed(),
            expr is BinaryOp,
        ensures
            self.lowers(protos@, expr@, r),
        decreases expr, 0nat,
    {
        match expr {
            ExprAST::BinaryOp(op, lhs, rhs) => {
                let (left, gen) = match self.irgen_expr(protos, lhs) {
                    Ok(done) => done,
                    Err(error) => {
                        return Err(error);
                    },
                };
                let (right, gen) = match gen.irgen_expr(protos, rhs) {
                    Ok(done) => done,
                    Err(error) => {
                        return Err(error);
                    },
                };
                match binop_for(*op) {
                    None => Err(CodegenError::UnknownOperator(*op)),
                    Some(kind) => {
                        let mut gen = gen;
                        let value = gen.builder.build_binary(kind, left, right);
                        Ok((value, gen))
                    },
                }
            },
            _ => vstd::pervasive::unreached(),
        }
    }

    #[verifier::loop_isolation(false)]
    #[verifier::rlimit(50)]
    fn irgen_call(self, protos: &Registry, expr: &ExprAST) -> (r: Result<
        (Value, IRGen),
        CodegenError,
    >)
        requires
            self.builder@.well_formed(),
            expr is Call,
        ensures
            self.lowers(protos@, expr@, r),
        decreases expr, 0nat,
    {
        match expr {
            ExprAST::Call(callee, args) => {
                let proto = match protos.get(callee) {
                    Some(proto) => proto,
                    None => {
                        return Err(CodegenError::UnknownFunction(callee.clone()));
                    },
                };
                if proto.1.len() != args.len() {
                    return Err(
                        CodegenError::ArgumentCount {
                            callee: callee.clone(),
                            expected: proto.1.len(),
                            actual: args.len(),
                        },
                    );
                }
                let ghost start = self.builder@;
                let ghost scope = self.named_values@;
                let ghost all = expr@->Call_1;
                let mut gen = self;
                let mut values: Vec<Value> = Vec::new();
                let mut i: usize = 0;
                proof {
                    assert(values_view(values@) =~= Seq::empty());
                }
                while i < args.len()
                    invariant
                        i <= args.len(),
                        all.len() == args.len(),
                        forall|j: int| 0 <= j < args.len() ==> all[j] == args[j]@,
                        gen.builder@.well_formed(),
                        gen.named_values@ == scope,
                        lower_args(all, i as nat, start, scope, protos@) == Ok::<
                            (Seq<ValueView>, BuilderView),
                            CodegenErrorView,
                        >((values_view(values@), gen.builder@)),
                    decreases args.len() - i,
                {
                    let ghost before = values@;
                    match gen.irgen_expr(protos, &args[i]) {
                        Ok((value, next)) => {
                            values.push(value);
                            gen = next;
                            proof {
                                assert(values_view(values@) =~= values_view(before).push(value@));
                            }
                        },
                        Err(error) => {
                            proof {
                                assert(lower_args(all, (i + 1) as nat, start, scope, protos@)
                                    == Err::<(Seq<ValueView>, BuilderView), CodegenErrorView>(
                                    error@,
                                ));
                                lemma_lower_args_error(
                                    all,
                                    (i + 1) as nat,
                                    all.len(),
                                    start,
                                    scope,
                                    protos@,
                                );
                            }
                            return Err(error);
                        },
                    }
                    i += 1;
                }
                let value = gen.builder.build_call(callee.clone(), values);
                Ok((value, gen))
            },
            _ => vstd::pervasive::unreached(),
        }
    }

    #[verifier::rlimit(50)]
    fn irgen_if(self, protos: &Registry, expr: &ExprAST) -> (r: Result<
        (Value, IRGen),
        CodegenError,
    >)
        requires
            self.builder@.well_formed(),
            expr is If,
        ensures
            self.lowers(protos@, expr@, r),
        decreases expr, 0nat,
    {
        match expr {
            ExprAST::If { condition, then_branch, else_branch } => {
                let ghost scope = self.named_values@;
                let (tested, mut gen) = match self.irgen_expr(protos, condition) {
                    Ok(done) => done,
                    Err(error) => {
                        return Err(error);
                    },
                };
                let ghost b1 = gen.builder@;
                let zero = gen.builder.build_const(zero_text());
                let truth = gen.builder.build_binary(BinOp::Gt, tested, zero);
                let then_block = gen.builder.append_basic_block(BlockKind::Then);
                let else_block = gen.builder.append_basic_block(BlockKind::Else);
                let merge_block = gen.builder.append_basic_block(BlockKind::IfCont);
                gen.builder.build_cond_br(truth, then_block, else_block);
                gen.builder.position_at_end(then_block);
                proof {
                    assert(gen.builder@ == b1.begin_if(tested@));
                    lemma_begin_if_extends(b1, tested@);
                }
                let ghost opened = gen.builder@;
                let (then_value, mut gen) = match gen.irgen_expr(protos, then_branch) {
                    Ok(done) => done,
                    Err(error) => {
                        return Err(error);
                    },
                };
                let ghost b2 = gen.builder@;
                proof {
                    lemma_lower_extends(then_branch@, opened, scope, protos@);
                    lemma_extends_facts(opened, b2);
                }
                let then_exit = gen.builder.get_insert_block();
                gen.builder.build_br(merge_block);
                gen.builder.position_at_end(else_block);
                let ghost second = gen.builder@;
                let (else_value, mut gen) = match gen.irgen_expr(protos, else_branch) {
                    Ok(done) => done,
                    Err(error) => {
                        return Err(error);
                    },
                };
                let ghost b3 = gen.builder@;
                proof {
                    lemma_leave_branch_extends(b2, merge_block as nat, else_block as nat);
                    lemma_lower_extends(else_branch@, second, scope, protos@);
                    lemma_extends_facts(second, b3);
                }
                let else_exit = gen.builder.get_insert_block();
                gen.builder.build_br(merge_block);
                gen.builder.position_at_end(merge_block);
                let mut incoming: Vec<(Value, usize)> = Vec::new();
                incoming.push((then_value, then_exit));
                incoming.push((else_value, else_exit));
                proof {
                    assert(edges_view(incoming@) =~= seq![
                        (then_value@, b2.current),
                        (else_value@, b3.current),
                    ]);
                }
                let value = gen.builder.build_phi(incoming);
                Ok((value, gen))
            },
            _ => vstd::pervasive::unreached(),
        }
    }

    #[verifier::rlimit(50)]
    fn irgen_for(self, protos: &Registry, expr: &ExprAST) -> (r: Result<
        (Value, IRGen),
        CodegenError,
    >)
        requires
            self.builder@.well_formed(),
            expr is For,
        ensures
            self.lowers(protos@, expr@, r),
        decreases expr, 0nat,
    {
        match expr {
            ExprAST::For { variable_name, start, end, step, body } => {
                let ghost scope = self.named_values@;
                let (first, mut gen) = match self.irgen_expr(protos, start) {
                    Ok(done) => done,
                    Err(error) => {
                        return Err(error);
                    },
                };
                let ghost b1 = gen.builder@;
                let entry = gen.builder.get_insert_block();
                let loop_block = gen.builder.append_basic_block(BlockKind::Loop);
                gen.builder.build_br(loop_block);
                gen.builder.position_at_end(loop_block);
                let mut incoming: Vec<(Value, usize)> = Vec::new();
                incoming.push((first, entry));
                proof {
                    assert(edges_view(incoming@) =~= seq![(first@, b1.current)]);
                }
                let variable = gen.builder.build_phi(incoming);
                gen.named_values.bind(variable_name.clone(), variable);
                let ghost opened = gen.builder@;
                let ghost inner = gen.named_values@;
                proof {
                    assert(opened == b1.begin_loop(first@));
                    lemma_begin_loop_extends(b1, first@);
                    assert(opened.is_phi(variable@));
                }
                let (_, gen) = match gen.irgen_expr(protos, body) {
                    Ok(done) => done,
                    Err(error) => {
                        return Err(error);
                    },
                };
                let ghost b2 = gen.builder@;
                proof {
                    lemma_lower_extends(body@, opened, inner, protos@);
                    lemma_extends_facts(opened, b2);
                }
                let (by, mut gen) = match step {
                    Some(s) => match gen.irgen_expr(protos, s) {
                        Ok(done) => done,
                        Err(error) => {
                            return Err(error);
                        },
                    },
                    None => {
                        let mut gen = gen;
                        let one = gen.builder.build_const(one_text());
                        (one, gen)
                    },
                };
                let ghost b3 = gen.builder@;
                proof {
                    match step {
                        Some(s) => {
                            lemma_lower_extends(s@, b2, inner, protos@);
                        },
                        None => {
                            lemma_emit_extends(b2, b2, InstView::Const(one_numeral()));
                        },
                    }
                    lemma_extends_facts(b2, b3);
                }
                let next = gen.builder.build_binary(BinOp::Add, variable, by);
                gen.named_values.unbind();
                gen.named_values.bind(variable_name.clone(), next);
                let ghost b4 = gen.builder@;
                let ghost outer = gen.named_values@;
                proof {
                    assert(inner.drop_last() =~= scope);
                    assert(outer == scope.push((variable_name@, next@)));
                    lemma_emit_extends(b3, b3, InstView::Binary(BinOp::Add, variable@, by@));
                    lemma_extends_facts(b3, b4);
                }
                let (last, mut gen) = match gen.irgen_expr(protos, end) {
                    Ok(done) => done,
                    Err(error) => {
                        return Err(error);
                    },
                };
                let ghost b5 = gen.builder@;
                proof {
                    lemma_lower_extends(end@, b4, outer, protos@);
                    lemma_extends_facts(b4, b5);
                    assert(outer.drop_last() =~= scope);
                }
                gen.named_values.unbind();
                let zero = gen.builder.build_const(zero_text());
                let truth = gen.builder.build_binary(BinOp::Gt, last, zero);
                let loop_end = gen.builder.get_insert_block();
                let after_block = gen.builder.append_basic_block(BlockKind::AfterLoop);
                proof {
                    lemma_emit_truth_extends(b5, last@);
                    lemma_step_extends(
                        b5.emit_truth(last@),
                        InstView::Const(zero_numeral()),
                        BlockKind::AfterLoop,
                        TermView::Br(0),
                        0,
                    );
                    lemma_extends_facts(b5, b5.emit_truth(last@));
                    lemma_extends_facts(
                        b5.emit_truth(last@),
                        b5.emit_truth(last@).append_block(BlockKind::AfterLoop),
                    );
                }
                gen.builder.add_incoming(variable, next, loop_end);
                gen.builder.build_cond_br(truth, loop_block, after_block);
                gen.builder.position_at_end(after_block);
                let value = gen.builder.build_const(zero_text());
                proof {
                    assert(gen.builder@ == b5.end_loop(b1.next_block(), variable@, next@, last@));
                }
                Ok((value, gen))
            },
            _ => vstd::pervasive::unreached(),
        }
    }

    /// Declares `proto` in `module` and gives the position of the function
    /// of that name: one scalar parameter for each parameter name.
    pub fn irgen_proto(module: &mut Module, proto: &PrototypeAST) -> (r: usize)
        ensures
            final(module)@ == declare_in(old(module)@, proto@),
            r == find_function(old(module)@, proto@.name),
            r < final(module)@.len(),
    {
        let declaration = Function::declare(&proto.0, &proto.1);
        proof {
            assert(declaration@.params =~= proto@.params);
        }
        match module.get_function(&proto.0) {
            Some(at) => {
                if module.functions[at].count_basic_blocks() == 0 {
                    module.functions[at] = declaration;
                    proof {
                        assert(module@ =~= declare_in(old(module)@, proto@));
                    }
                }
                at
            },
            None => {
                let at = module.functions.len();
                module.functions.push(declaration);
                proof {
                    assert(module@ =~= declare_in(old(module)@, proto@));
                }
                at
            },
        }
    }

    /// The position of the function called `name` that has a body, if
    /// `module` holds one.
    pub fn get_function(module: &Module, name: &String) -> (r: Option<usize>)
        ensures
            match r {
                Some(at) => {
                    &&& at == find_function(module@, name@)
                    &&& at < module@.len()
                    &&& module@[at as int].is_defined()
                },
                None => {
                    let at = find_function(module@, name@);
                    !(at < module@.len() && module@[at].is_defined())
                },
            },
    {
        match module.get_function(name) {
            Some(at) => {
                if module.functions[at].count_basic_blocks() != 0 {
                    Some(at)
                } else {
                    None
                }
            },
            None => None,
        }
    }

    /// A generator for the body of a function with the signature `proto`:
    /// an open entry block, and each parameter name in scope.
    pub fn new(proto: &PrototypeAST) -> (r: IRGen)
        ensures
            r.builder@ == BuilderView::start(proto@.name, proto@.params),
            r.builder@.well_formed(),
            r.named_values@ == param_scope(proto@.params),
    {
        let declaration = Function::declare(&proto.0, &proto.1);
        proof {
            assert(declaration@.params =~= proto@.params);
        }
        let builder = IRBuilder::new(declaration);
        let mut named_values = Scope::new();
        let mut i: usize = 0;
        while i < proto.1.len()
            invariant
                i <= proto.1.len(),
                named_values@ == param_scope(proto@.params.take(i as int)),
            decreases proto.1.len() - i,
        {
            named_values.bind(proto.1[i].clone(), Value::Param(i));
            proof {
                assert(proto@.params[i as int] == proto.1[i as int]@);
                assert(named_values@ =~= param_scope(proto@.params.take(i + 1)));
            }
            i += 1;
        }
        proof {
            assert(proto@.params.take(i as int) =~= proto@.params);
        }
        IRGen { builder, named_values }
    }

    /// Files the signature of `func`, then defines `func` in `module`.
    ///
    /// Fails as a redefinition where `module` holds a function of that name
    /// with a body, before anything is emitted. Where the body does not
    /// lower, the error is the first one met, and `module` is left without a
    /// function of that name. The function that it gives is in
    /// static-single-assignment form.
    #[verifier::rlimit(50)]
    pub fn irgen_function(module: &mut Module, fn_proto_map: &mut Registry, func: &FunctionAST)
        -> (r: Result<usize, CodegenError>)
        ensures
            final(fn_proto_map)@ == old(fn_proto_map)@.insert(func@.proto.name, func@.proto),
            final(module)@ == define_in(old(module)@, final(fn_proto_map)@, func@).module,
            match r {
                Ok(at) => {
                    &&& define_in(old(module)@, final(fn_proto_map)@, func@).result == Ok::<
                        nat,
                        CodegenErrorView,
                    >(at as nat)
                    &&& at < final(module)@.len()
                    &&& final(module)@[at as int].well_formed()
                },
                Err(error) => define_in(old(module)@, final(fn_proto_map)@, func@).result == Err::<
                    nat,
                    CodegenErrorView,
                >(error@),
            },
            r is Ok <==> {
                let at = find_function(old(module)@, func@.proto.name);
                &&& !(at < old(module)@.len() && old(module)@[at].is_defined())
                &&& crate::validity::valid(
                    func@.body,
                    param_scope(func@.proto.params),
                    final(fn_proto_map)@,
                )
            },
    {
        let proto = &func.0;
        fn_proto_map.insert(proto.clone());
        proof {
            crate::validity::lemma_compiles_where_valid(func@, fn_proto_map@);
        }
        proof {
            if define_in(old(module)@, fn_proto_map@, func@).result is Ok {
                crate::merges::lemma_defined_ssa(old(module)@, fn_proto_map@, func@);
            }
        }
        if let Some(_) = Self::get_function(module, &proto.0) {
            return Err(CodegenError::Redefinition(proto.0.clone()));
        }
        let declared = module.get_function(&proto.0);
        let gen = IRGen::new(proto);
        match gen.irgen_expr(fn_proto_map, &func.1) {
            Ok((value, done)) => {
                let mut builder = done.builder;
                builder.build_ret(value);
                let compiled = builder.finish();
                match declared {
                    Some(at) => {
                        module.functions[at] = compiled;
                        proof {
                            assert(module@ =~= define_in(
                                old(module)@,
                                fn_proto_map@,
                                func@,
                            ).module);
                        }
                        Ok(at)
                    },
                    None => {
                        let at = module.functions.len();
                        module.functions.push(compiled);
                        proof {
                            assert(module@ =~= define_in(
                                old(module)@,
                                fn_proto_map@,
                                func@,
                            ).module);
                        }
                        Ok(at)
                    },
                }
            },
            Err(error) => {
                match declared {
                    Some(at) => {
                        let _ = module.functions.remove(at);
                        proof {
                            assert(module@ =~= define_in(
                                old(module)@,
                                fn_proto_map@,
                                func@,
                            ).module);
                        }
                    },
                    None => {},
                }
                Err(error)
            },
        }
    }

    /// Compiles a signature or a function into `module`, and gives the
    /// position of the function there.
    ///
    /// A signature is declared, which never fails and leaves the signatures
    /// on file as they are. A function is defined as `irgen_function` does.
    pub fn compile(
        module: &mut Module,
        fn_proto_map: &mut Registry,
        compilee: Either<&PrototypeAST, &FunctionAST>,
    ) -> (r: Result<usize, CodegenError>)
        ensures
            match compilee {
                Either::Left(proto) => {
                    &&& final(fn_proto_map)@ == old(fn_proto_map)@
                    &&& final(module)@ == declare_in(old(module)@, proto@)
                    &&& r matches Ok(at) && at == find_function(old(module)@, proto@.name)
                },
                Either::Right(func) => {
                    let signatures = old(fn_proto_map)@.insert(func@.proto.name, func@.proto);
                    let defined = define_in(old(module)@, signatures, func@);
                    &&& final(fn_proto_map)@ == signatures
                    &&& final(module)@ == defined.module
                    &&& match r {
                        Ok(at) => {
                            &&& defined.result == Ok::<nat, CodegenErrorView>(at as nat)
                            &&& at < final(module)@.len()
                            &&& final(module)@[at as int].well_formed()
                        },
                        Err(error) => defined.result == Err::<nat, CodegenErrorView>(error@),
                    }
                },
            },
    {
        match compilee {
            Either::Left(proto) => Ok(Self::irgen_proto(module, proto)),
            Either::Right(func) => Self::irgen_function(module, fn_proto_map, func),
        }
    }
}

} // verus!
