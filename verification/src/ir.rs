//! A control-flow graph in static-single-assignment form, and the builder
//! that code generation emits it through.
//!
//! A function owns an arena of instructions, each defining one value, and a
//! list of basic blocks, each naming its instructions in order and ending in
//! at most one terminator. Every value is a scalar number; a comparison
//! defines 1 where it holds and 0 where it does not.
use vstd::prelude::*;
use crate::strings::clone_names;

verus! {

/// An SSA value: a parameter of the function, or what an instruction defines.
#[derive(Clone, Copy, Debug, PartialEq, Eq, Structural)]
pub enum Value {
    /// The parameter at this position.
    Param(usize),
    /// The result of the instruction at this position of the arena.
    Inst(usize),
}

/// A value by its position, as a mathematical value.
pub enum ValueView {
    Param(nat),
    Inst(nat),
}

impl View for Value {
    type V = ValueView;

    open spec fn view(&self) -> ValueView {
        match self {
            Value::Param(i) => ValueView::Param(*i as nat),
            Value::Inst(i) => ValueView::Inst(*i as nat),
        }
    }
}

/// The primitive two-operand instructions.
#[derive(Clone, Copy, Debug, PartialEq, Eq, Structural)]
pub enum BinOp {
    Add,
    Sub,
    Mul,
    Div,
    Lt,
    Gt,
}

/// What a basic block was created for.
#[derive(Clone, Copy, Debug, PartialEq, Eq, Structural)]
pub enum BlockKind {
    Entry,
    Then,
    Else,
    IfCont,
    Loop,
    AfterLoop,
}

/// The instruction that ends a basic block.
#[derive(Clone, Copy, Debug, PartialEq, Eq, Structural)]
pub enum Terminator {
    /// Jump to a block.
    Br(usize),
    /// Jump to the first block where the value is not zero, else to the second.
    CondBr(Value, usize, usize),
    /// Return a value from the function.
    Ret(Value),
}

/// A terminator, with blocks and values by their positions.
pub enum TermView {
    Br(nat),
    CondBr(ValueView, nat, nat),
    Ret(ValueView),
}

impl View for Terminator {
    type V = TermView;

    open spec fn view(&self) -> TermView {
        match self {
            Terminator::Br(target) => TermView::Br(*target as nat),
            Terminator::CondBr(condition, then_block, else_block) => TermView::CondBr(
                condition@,
                *then_block as nat,
                *else_block as nat,
            ),
            Terminator::Ret(value) => TermView::Ret(value@),
        }
    }
}

/// An instruction that defines a value.
#[derive(Debug, PartialEq)]
pub enum Inst {
    /// The number that a numeral denotes.
    Const(String),
    Binary(BinOp, Value, Value),
    /// A call of the named function.
    Call(String, Vec<Value>),
    /// A merge: the value paired with the block that control came from.
    Phi(Vec<(Value, usize)>),
}

/// An instruction as a mathematical value.
pub enum InstView {
    Const(Seq<char>),
    Binary(BinOp, ValueView, ValueView),
    Call(Seq<char>, Seq<ValueView>),
    Phi(Seq<(ValueView, nat)>),
}

/// The values of a vector, as mathematical values.
pub open spec fn values_view(values: Seq<Value>) -> Seq<ValueView> {
    Seq::new(values.len(), |i: int| values[i]@)
}

/// The edges of a merge, as mathematical values.
pub open spec fn edges_view(edges: Seq<(Value, usize)>) -> Seq<(ValueView, nat)> {
    Seq::new(edges.len(), |i: int| (edges[i].0@, edges[i].1 as nat))
}

impl View for Inst {
    type V = InstView;

    open spec fn view(&self) -> InstView {
        match self {
            Inst::Const(text) => InstView::Const(text@),
            Inst::Binary(op, lhs, rhs) => InstView::Binary(*op, lhs@, rhs@),
            Inst::Call(callee, args) => InstView::Call(callee@, values_view(args@)),
            Inst::Phi(incoming) => InstView::Phi(edges_view(incoming@)),
        }
    }
}

/// A basic block: instructions in order, then a terminator once it is closed.
#[derive(Debug, PartialEq)]
pub struct Block {
    pub kind: BlockKind,
    pub insts: Vec<usize>,
    pub terminator: Option<Terminator>,
}

/// A basic block as a mathematical value.
pub struct BlockView {
    pub kind: BlockKind,
    pub insts: Seq<nat>,
    pub terminator: Option<TermView>,
}

impl View for Block {
    type V = BlockView;

    open spec fn view(&self) -> BlockView {
        BlockView {
            kind: self.kind,
            insts: Seq::new(self.insts.len() as nat, |i: int| self.insts[i] as nat),
            terminator: match self.terminator {
                Some(t) => Some(t@),
                None => None,
            },
        }
    }
}

/// A function: a declaration while it has no block, a definition once it has.
#[derive(Debug, PartialEq)]
pub struct Function {
    pub name: String,
    pub params: Vec<String>,
    pub insts: Vec<Inst>,
    pub blocks: Vec<Block>,
}

/// A function as a mathematical value.
pub struct FuncView {
    pub name: Seq<char>,
    pub params: Seq<Seq<char>>,
    pub insts: Seq<InstView>,
    pub blocks: Seq<BlockView>,
}

impl View for Function {
    type V = FuncView;

    open spec fn view(&self) -> FuncView {
        FuncView {
            name: self.name@,
            params: Seq::new(self.params.len() as nat, |i: int| self.params[i]@),
            insts: Seq::new(self.insts.len() as nat, |i: int| self.insts[i]@),
            blocks: Seq::new(self.blocks.len() as nat, |i: int| self.blocks[i]@),
        }
    }
}

impl FuncView {
    /// A function without a body.
    pub open spec fn declaration(name: Seq<char>, params: Seq<Seq<char>>) -> FuncView {
        FuncView { name, params, insts: Seq::empty(), blocks: Seq::empty() }
    }

    /// Whether the function has a body.
    pub open spec fn is_defined(self) -> bool {
        self.blocks.len() > 0
    }
}

impl Function {
    /// A declaration: the name and the parameter names, no body.
    pub fn declare(name: &String, params: &Vec<String>) -> (r: Function)
        ensures
            r@ == FuncView::declaration(name@, Seq::new(params.len() as nat, |i: int| params[i]@)),
    {
        let r = Function {
            name: name.clone(),
            params: clone_names(params),
            insts: Vec::new(),
            blocks: Vec::new(),
        };
        proof {
            assert(r@.params =~= Seq::new(params.len() as nat, |i: int| params[i]@));
            assert(r@.insts =~= Seq::empty());
            assert(r@.blocks =~= Seq::empty());
        }
        r
    }

    /// The number of basic blocks; zero for a declaration.
    pub fn count_basic_blocks(&self) -> (r: usize)
        ensures
            r == self@.blocks.len(),
    {
        self.blocks.len()
    }
}

/// One unit of a program: the functions declared or defined in it.
#[derive(Debug, PartialEq)]
pub struct Module {
    pub functions: Vec<Function>,
}

impl View for Module {
    type V = Seq<FuncView>;

    open spec fn view(&self) -> Seq<FuncView> {
        Seq::new(self.functions.len() as nat, |i: int| self.functions[i]@)
    }
}

/// The position of the first function called `name`, or the length of
/// `functions` where there is none.
pub open spec fn find_function(functions: Seq<FuncView>, name: Seq<char>) -> int
    decreases functions.len(),
{
    if functions.len() == 0 {
        0
    } else if functions[0].name == name {
        0
    } else {
        1 + find_function(functions.drop_first(), name)
    }
}

/// `find_function` gives the least position that holds the name.
pub proof fn lemma_find_function(functions: Seq<FuncView>, name: Seq<char>)
    ensures
        0 <= find_function(functions, name) <= functions.len(),
        forall|i: int| 0 <= i < find_function(functions, name) ==> functions[i].name != name,
        find_function(functions, name) < functions.len() ==> functions[find_function(
            functions,
            name,
        )].name == name,
    decreases functions.len(),
{
    if functions.len() > 0 && functions[0].name != name {
        let rest = functions.drop_first();
        lemma_find_function(rest, name);
        assert forall|i: int| 0 <= i < find_function(functions, name) implies functions[i].name
            != name by {
            if i > 0 {
                assert(rest[i - 1] == functions[i]);
            }
        }
    }
}

/// A position before which no function has the name, and which holds it
/// unless it is the length, is the position that `find_function` gives.
pub proof fn lemma_find_function_at(functions: Seq<FuncView>, name: Seq<char>, at: int)
    requires
        0 <= at <= functions.len(),
        forall|i: int| 0 <= i < at ==> functions[i].name != name,
        at < functions.len() ==> functions[at].name == name,
    ensures
        find_function(functions, name) == at,
    decreases functions.len(),
{
    if functions.len() > 0 && functions[0].name != name {
        let rest = functions.drop_first();
        assert forall|i: int| 0 <= i < at - 1 implies rest[i].name != name by {
            assert(rest[i] == functions[i + 1]);
        }
        lemma_find_function_at(rest, name, at - 1);
    }
}

impl Module {
    /// An empty module.
    pub fn new() -> (r: Module)
        ensures
            r@ == Seq::<FuncView>::empty(),
    {
        let r = Module { functions: Vec::new() };
        proof {
            assert(r@ =~= Seq::<FuncView>::empty());
        }
        r
    }

    /// The position of the function called `name`, if the module has one.
    pub fn get_function(&self, name: &String) -> (r: Option<usize>)
        ensures
            match r {
                Some(i) => i == find_function(self@, name@) && i < self@.len(),
                None => find_function(self@, name@) == self@.len(),
            },
    {
        let mut i: usize = 0;
        while i < self.functions.len()
            invariant
                i <= self.functions.len(),
                forall|j: int| 0 <= j < i ==> self@[j].name != name@,
            decreases self.functions.len() - i,
        {
            if self.functions[i].name == *name {
                proof {
                    lemma_find_function(self@, name@);
                    assert(self@[i as int].name == name@);
                }
                return Some(i);
            }
            i += 1;
        }
        proof {
            lemma_find_function(self@, name@);
        }
        None
    }
}

/// The state of a builder: the function under construction and the block
/// that instructions are appended to.
pub struct BuilderView {
    pub func: FuncView,
    pub current: nat,
}

impl BuilderView {
    /// The insertion block exists.
    pub open spec fn well_formed(self) -> bool {
        self.current < self.func.blocks.len()
    }

    /// The value that the next instruction will define.
    pub open spec fn next_value(self) -> ValueView {
        ValueView::Inst(self.func.insts.len())
    }

    /// The position that the next block will have.
    pub open spec fn next_block(self) -> nat {
        self.func.blocks.len()
    }

    /// Appends an instruction to the arena and to the insertion block.
    pub open spec fn emit(self, inst: InstView) -> BuilderView {
        let block = self.func.blocks[self.current as int];
        BuilderView {
            func: FuncView {
                insts: self.func.insts.push(inst),
                blocks: self.func.blocks.update(
                    self.current as int,
                    BlockView { insts: block.insts.push(self.func.insts.len()), ..block },
                ),
                ..self.func
            },
            ..self
        }
    }

    /// Appends an empty, open block; the insertion block stays.
    pub open spec fn append_block(self, kind: BlockKind) -> BuilderView {
        BuilderView {
            func: FuncView {
                blocks: self.func.blocks.push(
                    BlockView { kind, insts: Seq::empty(), terminator: None },
                ),
                ..self.func
            },
            ..self
        }
    }

    /// Moves the insertion point to the end of `block`.
    pub open spec fn position_at_end(self, block: nat) -> BuilderView {
        BuilderView { current: block, ..self }
    }

    /// Closes the insertion block with `terminator`.
    pub open spec fn terminate(self, terminator: TermView) -> BuilderView {
        let block = self.func.blocks[self.current as int];
        BuilderView {
            func: FuncView {
                blocks: self.func.blocks.update(
                    self.current as int,
                    BlockView { terminator: Some(terminator), ..block },
                ),
                ..self.func
            },
            ..self
        }
    }

    /// Whether `phi` is a merge instruction of the function.
    pub open spec fn is_phi(self, phi: ValueView) -> bool {
        match phi {
            ValueView::Inst(i) => i < self.func.insts.len() && self.func.insts[i as int] is Phi,
            ValueView::Param(_) => false,
        }
    }

    /// Adds one incoming edge to the merge instruction `phi`.
    pub open spec fn add_incoming(self, phi: ValueView, value: ValueView, block: nat) -> BuilderView
        recommends
            self.is_phi(phi),
    {
        let i = phi->Inst_0 as int;
        BuilderView {
            func: FuncView {
                insts: self.func.insts.update(
                    i,
                    InstView::Phi(self.func.insts[i]->Phi_0.push((value, block))),
                ),
                ..self.func
            },
            ..self
        }
    }

    /// The first state of a builder for a function: one open entry block,
    /// which is the insertion block.
    pub open spec fn start(name: Seq<char>, params: Seq<Seq<char>>) -> BuilderView {
        BuilderView {
            func: FuncView {
                name,
                params,
                insts: Seq::empty(),
                blocks: seq![BlockView { kind: BlockKind::Entry, insts: Seq::empty(), terminator: None }],
            },
            current: 0,
        }
    }
}

/// Builds the body of one function. Instructions go to the end of the
/// insertion block.
pub struct IRBuilder {
    func: Function,
    block: usize,
}

impl View for IRBuilder {
    type V = BuilderView;

    closed spec fn view(&self) -> BuilderView {
        BuilderView { func: self.func@, current: self.block as nat }
    }
}

impl IRBuilder {
    /// A builder for the body of `declaration`, positioned in a new entry
    /// block.
    pub fn new(declaration: Function) -> (r: IRBuilder)
        requires
            !declaration@.is_defined(),
            declaration@.insts.len() == 0,
        ensures
            r@.well_formed(),
            r@ == BuilderView::start(declaration@.name, declaration@.params),
    {
        let mut func = declaration;
        func.blocks.push(Block { kind: BlockKind::Entry, insts: Vec::new(), terminator: None });
        let r = IRBuilder { func, block: 0 };
        proof {
            let want = BuilderView::start(declaration@.name, declaration@.params);
            assert(r@.func.blocks[0].insts =~= Seq::empty());
            assert(r@.func.params =~= want.func.params);
            assert(r@.func.insts =~= want.func.insts);
            assert(r@.func.blocks =~= want.func.blocks);
        }
        r
    }

    /// The insertion block.
    pub fn get_insert_block(&self) -> (r: usize)
        ensures
            r == self@.current,
    {
        self.block
    }

    /// The number of blocks, which is the position that the next appended
    /// block will have.
    pub fn count_basic_blocks(&self) -> (r: usize)
        ensures
            r == self@.func.blocks.len(),
    {
        self.func.blocks.len()
    }

    fn push_inst(&mut self, inst: Inst) -> (r: Value)
        requires
            old(self)@.well_formed(),
        ensures
            final(self)@.well_formed(),
            r@ == old(self)@.next_value(),
            final(self)@ == old(self)@.emit(inst@),
    {
        let id = self.func.insts.len();
        self.func.insts.push(inst);
        self.func.blocks[self.block].insts.push(id);
        proof {
            let want = old(self)@.emit(inst@);
            let at = self.block as int;
            assert(self@.func.blocks[at].insts =~= want.func.blocks[at].insts);
            assert(self@.func.params =~= want.func.params);
            assert(self@.func.insts =~= want.func.insts);
            assert(self@.func.blocks =~= want.func.blocks);
        }
        Value::Inst(id)
    }

    /// Emits the constant that `text` denotes.
    pub fn build_const(&mut self, text: String) -> (r: Value)
        requires
            old(self)@.well_formed(),
        ensures
            final(self)@.well_formed(),
            r@ == old(self)@.next_value(),
            final(self)@ == old(self)@.emit(InstView::Const(text@)),
    {
        self.push_inst(Inst::Const(text))
    }

    /// Emits an arithmetic or comparison instruction.
    pub fn build_binary(&mut self, op: BinOp, lhs: Value, rhs: Value) -> (r: Value)
        requires
            old(self)@.well_formed(),
        ensures
            final(self)@.well_formed(),
            r@ == old(self)@.next_value(),
            final(self)@ == old(self)@.emit(InstView::Binary(op, lhs@, rhs@)),
    {
        self.push_inst(Inst::Binary(op, lhs, rhs))
    }

    /// Emits a call of the function called `callee`.
    pub fn build_call(&mut self, callee: String, args: Vec<Value>) -> (r: Value)
        requires
            old(self)@.well_formed(),
        ensures
            final(self)@.well_formed(),
            r@ == old(self)@.next_value(),
            final(self)@ == old(self)@.emit(InstView::Call(callee@, values_view(args@))),
    {
        self.push_inst(Inst::Call(callee, args))
    }

    /// Emits a merge instruction with the given incoming edges.
    pub fn build_phi(&mut self, incoming: Vec<(Value, usize)>) -> (r: Value)
        requires
            old(self)@.well_formed(),
        ensures
            final(self)@.well_formed(),
            r@ == old(self)@.next_value(),
            final(self)@ == old(self)@.emit(InstView::Phi(edges_view(incoming@))),
    {
        self.push_inst(Inst::Phi(incoming))
    }

    /// Adds the edge (`value`, `block`) to the merge instruction `phi`.
    pub fn add_incoming(&mut self, phi: Value, value: Value, block: usize)
        requires
            old(self)@.well_formed(),
            old(self)@.is_phi(phi@),
        ensures
            final(self)@.well_formed(),
            final(self)@ == old(self)@.add_incoming(phi@, value@, block as nat),
    {
        match phi {
            Value::Inst(i) => {
                match &mut self.func.insts[i] {
                    Inst::Phi(incoming) => {
                        incoming.push((value, block));
                    },
                    _ => {},
                }
            },
            Value::Param(_) => {},
        }
        proof {
            let want = old(self)@.add_incoming(phi@, value@, block as nat);
            let at = phi->Inst_0 as int;
            assert(self@.func.insts[at]->Phi_0 =~= want.func.insts[at]->Phi_0);
            assert(self@.func.params =~= want.func.params);
            assert(self@.func.insts =~= want.func.insts);
            assert(self@.func.blocks =~= want.func.blocks);
        }
    }

    /// Appends an empty block to the function and gives its position.
    pub fn append_basic_block(&mut self, kind: BlockKind) -> (r: usize)
        requires
            old(self)@.well_formed(),
        ensures
            final(self)@.well_formed(),
            r == old(self)@.next_block(),
            final(self)@ == old(self)@.append_block(kind),
    {
        let id = self.func.blocks.len();
        self.func.blocks.push(Block { kind, insts: Vec::new(), terminator: None });
        proof {
            let want = old(self)@.append_block(kind);
            assert(self@.func.blocks[id as int].insts =~= Seq::empty());
            assert(self@.func.params =~= want.func.params);
            assert(self@.func.insts =~= want.func.insts);
            assert(self@.func.blocks =~= want.func.blocks);
        }
        id
    }

    /// Moves the insertion point to the end of `block`.
    pub fn position_at_end(&mut self, block: usize)
        requires
            old(self)@.well_formed(),
            block < old(self)@.func.blocks.len(),
        ensures
            final(self)@.well_formed(),
            final(self)@ == old(self)@.position_at_end(block as nat),
    {
        self.block = block;
    }

    fn set_terminator(&mut self, terminator: Terminator)
        requires
            old(self)@.well_formed(),
        ensures
            final(self)@.well_formed(),
            final(self)@ == old(self)@.terminate(terminator@),
    {
        self.func.blocks[self.block].terminator = Some(terminator);
        proof {
            let want = old(self)@.terminate(terminator@);
            let at = self.block as int;
            assert(self@.func.blocks[at].insts =~= want.func.blocks[at].insts);
            assert(self@.func.params =~= want.func.params);
            assert(self@.func.insts =~= want.func.insts);
            assert(self@.func.blocks =~= want.func.blocks);
        }
    }

    /// Ends the insertion block with a jump to `target`.
    pub fn build_br(&mut self, target: usize)
        requires
            old(self)@.well_formed(),
        ensures
            final(self)@.well_formed(),
            final(self)@ == old(self)@.terminate(TermView::Br(target as nat)),
    {
        self.set_terminator(Terminator::Br(target));
    }

    /// Ends the insertion block with a jump to `then_block` where `condition`
    /// is not zero, to `else_block` where it is.
    pub fn build_cond_br(&mut self, condition: Value, then_block: usize, else_block: usize)
        requires
            old(self)@.well_formed(),
        ensures
            final(self)@.well_formed(),
            final(self)@ == old(self)@.terminate(
                TermView::CondBr(condition@, then_block as nat, else_block as nat),
            ),
    {
        self.set_terminator(Terminator::CondBr(condition, then_block, else_block));
    }

    /// Ends the insertion block with a return of `value`.
    pub fn build_ret(&mut self, value: Value)
        requires
            old(self)@.well_formed(),
        ensures
            final(self)@.well_formed(),
            final(self)@ == old(self)@.terminate(TermView::Ret(value@)),
    {
        self.set_terminator(Terminator::Ret(value));
    }

    /// The function as built so far.
    pub fn finish(self) -> (r: Function)
        ensures
            r@ == self@.func,
    {
        self.func
    }
}

} // verus!
