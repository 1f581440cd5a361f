//! The incremental driver: one top-level unit per step, from the token
//! stream to a compiled module or an error.
//!
//! A step reads, parses and compiles one unit and says what is to be done
//! with it. Running what was compiled is left to the caller.
use vstd::prelude::*;
use crate::Either;
use crate::ast::{FunctionDef, Prototype, PrototypeAST};
use crate::grammar;
use crate::grammar::{Cursor, ParseErrorView};
use crate::ir::{FuncView, Module};
use crate::ir_gen::{CodegenError, CodegenErrorView, IRGen};
use crate::lowering::define_in;
use crate::lexer::{Token, TokenView};
use crate::parser::{ParseError, Parser};
use crate::registry::Registry;

verus! {

/// Why a unit failed.
#[derive(Debug, PartialEq)]
pub enum Error {
    Parse(ParseError),
    Codegen(CodegenError),
}

/// An error as a mathematical value.
pub enum ErrorView {
    Parse(ParseErrorView),
    Codegen(CodegenErrorView),
}

impl View for Error {
    type V = ErrorView;

    open spec fn view(&self) -> ErrorView {
        match self {
            Error::Parse(error) => ErrorView::Parse(error@),
            Error::Codegen(error) => ErrorView::Codegen(error@),
        }
    }
}

/// What one step of the driver came to.
#[derive(Debug, PartialEq)]
pub enum Step {
    /// The input is at its end.
    Done,
    /// A statement separator was passed over.
    Skipped,
    /// A function was defined. The module holds it at the given position
    /// and is to be kept by the execution engine.
    Defined { module: Module, function: usize },
    /// An external function was declared; nothing was compiled.
    Declared(PrototypeAST),
    /// An expression was compiled as a function without name and
    /// parameters. The module holds it at the given position; it is to be
    /// run once, and the module disposed of.
    Evaluate { module: Module, function: usize },
    /// The unit failed and was discarded.
    Failed(Error),
}

/// What a step came to, as a mathematical value.
pub enum StepView {
    Done,
    Skipped,
    Defined { module: Seq<FuncView>, function: nat },
    Declared(Prototype),
    Evaluate { module: Seq<FuncView>, function: nat },
    Failed(ErrorView),
}

impl View for Step {
    type V = StepView;

    open spec fn view(&self) -> StepView {
        match self {
            Step::Done => StepView::Done,
            Step::Skipped => StepView::Skipped,
            Step::Defined { module, function } => StepView::Defined {
                module: module@,
                function: *function as nat,
            },
            Step::Declared(proto) => StepView::Declared(proto@),
            Step::Evaluate { module, function } => StepView::Evaluate {
                module: module@,
                function: *function as nat,
            },
            Step::Failed(error) => StepView::Failed(error@),
        }
    }
}

/// The state of a driver: its place in the token stream, the signatures on
/// file, and the names of the functions that have a body.
pub struct DriverView {
    pub cursor: Cursor,
    pub protos: Map<Seq<char>, Prototype>,
    pub defined: Set<Seq<char>>,
}

/// What a step gives and the state it leaves.
pub struct Outcome {
    pub step: StepView,
    pub state: DriverView,
}

/// The place in the stream after the token looked at is dropped.
pub open spec fn discard(c: Cursor) -> Cursor {
    Cursor { current: None, rest: c.rest }
}

/// The failure of a unit in parsing: the token at which it failed is
/// dropped, so that the next step starts with the lexeme after it.
pub open spec fn parse_failure(d: DriverView, error: ParseErrorView, at: Cursor) -> Outcome {
    Outcome {
        step: StepView::Failed(ErrorView::Parse(error)),
        state: DriverView { cursor: discard(at), ..d },
    }
}

/// A definition: `def`, a signature and a body. The signature is filed. A
/// name that has a body already makes it a redefinition; else the function is
/// compiled into a module of its own, and its name recorded.
pub open spec fn define(d: DriverView) -> Outcome {
    let parsed = grammar::definition(d.cursor);
    match parsed.result {
        Err(error) => parse_failure(d, error, parsed.cursor),
        Ok(f) => {
            let protos = d.protos.insert(f.proto.name, f.proto);
            let state = DriverView { cursor: parsed.cursor, protos, defined: d.defined };
            if d.defined.contains(f.proto.name) {
                Outcome {
                    step: StepView::Failed(
                        ErrorView::Codegen(CodegenErrorView::Redefinition(f.proto.name)),
                    ),
                    state,
                }
            } else {
                let compiled = define_in(Seq::empty(), protos, f);
                match compiled.result {
                    Ok(at) => Outcome {
                        step: StepView::Defined { module: compiled.module, function: at },
                        state: DriverView { defined: d.defined.insert(f.proto.name), ..state },
                    },
                    Err(error) => Outcome {
                        step: StepView::Failed(ErrorView::Codegen(error)),
                        state,
                    },
                }
            }
        },
    }
}

/// A declaration: `extern` and a signature, which is filed.
pub open spec fn declare(d: DriverView) -> Outcome {
    let parsed = grammar::external(d.cursor);
    match parsed.result {
        Err(error) => parse_failure(d, error, parsed.cursor),
        Ok(proto) => Outcome {
            step: StepView::Declared(proto),
            state: DriverView {
                cursor: parsed.cursor,
                protos: d.protos.insert(proto.name, proto),
                ..d
            },
        },
    }
}

/// An expression at top level, compiled as the body of a function without
/// name and parameters, into a module of its own.
pub open spec fn evaluate(d: DriverView) -> Outcome {
    let parsed = grammar::top_level_expr(d.cursor);
    match parsed.result {
        Err(error) => parse_failure(d, error, parsed.cursor),
        Ok(f) => {
            let protos = d.protos.insert(f.proto.name, f.proto);
            let state = DriverView { cursor: parsed.cursor, protos, defined: d.defined };
            let compiled = define_in(Seq::empty(), protos, f);
            match compiled.result {
                Ok(at) => Outcome {
                    step: StepView::Evaluate { module: compiled.module, function: at },
                    state,
                },
                Err(error) => Outcome { step: StepView::Failed(ErrorView::Codegen(error)), state },
            }
        },
    }
}

/// One step from a state that looks at a token: the end of the input ends
/// the run, a semicolon is passed over, `def` starts a definition, `extern` a
/// declaration, and anything else an expression.
pub open spec fn dispatch(d: DriverView) -> Outcome {
    match d.cursor.token() {
        TokenView::Eof => Outcome { step: StepView::Done, state: d },
        TokenView::Def => define(d),
        TokenView::Extern => declare(d),
        TokenView::Char(c) => if c == ';' {
            let moved = grammar::advance(d.cursor);
            match moved.result {
                Err(error) => Outcome {
                    step: StepView::Failed(ErrorView::Parse(error)),
                    state: DriverView { cursor: moved.cursor, ..d },
                },
                Ok(_) => Outcome {
                    step: StepView::Skipped,
                    state: DriverView { cursor: moved.cursor, ..d },
                },
            }
        } else {
            evaluate(d)
        },
        _ => evaluate(d),
    }
}

/// One step of the driver. Where it looks at no token it reads one first,
/// and fails where that is a malformed literal.
pub open spec fn step(d: DriverView) -> Outcome {
    if d.cursor.current is Some {
        dispatch(d)
    } else {
        let moved = grammar::advance(d.cursor);
        match moved.result {
            Err(error) => Outcome {
                step: StepView::Failed(ErrorView::Parse(error)),
                state: DriverView { cursor: moved.cursor, ..d },
            },
            Ok(_) => dispatch(DriverView { cursor: moved.cursor, ..d }),
        }
    }
}

/// A definition of a name that has a body is refused as a redefinition,
/// whatever the body; the names that have a body stay on record.
pub proof fn lemma_driver_refuses_redefinition(d: DriverView, f: FunctionDef)
    requires
        d.cursor.token() == TokenView::Def,
        grammar::definition(d.cursor).result == Ok::<FunctionDef, ParseErrorView>(f),
        d.defined.contains(f.proto.name),
    ensures
        dispatch(d).step == StepView::Failed(
            ErrorView::Codegen(CodegenErrorView::Redefinition(f.proto.name)),
        ),
        dispatch(d).state.defined == d.defined,
{
}

/// No step forgets a name that has a body; a step that defines a function
/// records its name, and no other step records any.
pub proof fn lemma_defined_names(d: DriverView)
    ensures
        d.defined.subset_of(step(d).state.defined),
        match step(d).step {
            StepView::Defined { module, function } => step(d).state.defined == d.defined.insert(
                module[function as int].name,
            ),
            _ => step(d).state.defined == d.defined,
        },
{
    let ready = if d.cursor.current is Some {
        d
    } else {
        DriverView { cursor: grammar::advance(d.cursor).cursor, ..d }
    };
    if ready.cursor.token() == TokenView::Def {
        let parsed = grammar::definition(ready.cursor);
        if let Ok(f) = parsed.result {
            let protos = ready.protos.insert(f.proto.name, f.proto);
            if define_in(Seq::empty(), protos, f).result is Ok {
                crate::wellformed::lemma_defined_well_formed(Seq::empty(), protos, f);
            }
        }
    }
}

/// The module that a step hands over holds one function, which is in
/// static-single-assignment form. The function of an expression has no name
/// and no parameters.
pub proof fn lemma_step_module(d: DriverView)
    ensures
        match step(d).step {
            StepView::Defined { module, function } => {
                &&& module.len() == 1
                &&& function == 0
                &&& module[0].well_formed()
            },
            StepView::Evaluate { module, function } => {
                &&& module.len() == 1
                &&& function == 0
                &&& module[0].well_formed()
                &&& module[0].name.len() == 0
                &&& module[0].params.len() == 0
            },
            _ => true,
        },
{
    let ready = if d.cursor.current is Some {
        d
    } else {
        DriverView { cursor: grammar::advance(d.cursor).cursor, ..d }
    };
    let none = Seq::<FuncView>::empty();
    if ready.cursor.token() == TokenView::Def {
        let parsed = grammar::definition(ready.cursor);
        if let Ok(f) = parsed.result {
            let protos = ready.protos.insert(f.proto.name, f.proto);
            if define_in(none, protos, f).result is Ok {
                crate::merges::lemma_defined_ssa(none, protos, f);
            }
        }
    } else {
        let parsed = grammar::top_level_expr(ready.cursor);
        if let Ok(f) = parsed.result {
            let protos = ready.protos.insert(f.proto.name, f.proto);
            if define_in(none, protos, f).result is Ok {
                crate::merges::lemma_defined_ssa(none, protos, f);
            }
        }
    }
}

/// Every step but the last shortens the stream, so a run of steps comes to
/// `Done`.
pub proof fn lemma_step_shortens(d: DriverView)
    ensures
        step(d).state.cursor.size() <= d.cursor.size(),
        step(d).step != StepView::Done ==> step(d).state.cursor.size() < d.cursor.size(),
{
    lemma_advance_facts(d.cursor);
    let ready = if d.cursor.current is Some {
        d
    } else {
        DriverView { cursor: grammar::advance(d.cursor).cursor, ..d }
    };
    if d.cursor.current is Some || grammar::advance(d.cursor).result is Ok {
        lemma_advance_facts(ready.cursor);
        crate::soundness::lemma_units_shorten(ready.cursor);
    }
}

/// Moving on never lengthens the stream; it shortens it unless the parser
/// looked at the end of the input.
proof fn lemma_advance_facts(c: Cursor)
    ensures
        grammar::advance(c).cursor.size() <= c.size(),
        grammar::advance(c).cursor.rest.len() <= c.rest.len(),
        c.token() != TokenView::Eof ==> grammar::advance(c).cursor.size() < c.size(),
        c.current is None && c.rest.len() > 0 ==> grammar::advance(c).cursor.rest.len()
            < c.rest.len(),
        grammar::advance(c).result is Ok ==> grammar::advance(c).cursor.current is Some,
{
}

/// What the steps of a driver come to from the state `d` on, up to the end
/// of the input.
pub open spec fn steps(d: DriverView) -> Seq<StepView>
    decreases d.cursor.size(),
{
    if step(d).step is Done {
        Seq::empty()
    } else {
        proof {
            lemma_step_shortens(d);
        }
        seq![step(d).step] + steps(step(d).state)
    }
}

/// The state that the steps of a driver leave at the end of the input.
pub open spec fn end_state(d: DriverView) -> DriverView
    decreases d.cursor.size(),
{
    if step(d).step is Done {
        step(d).state
    } else {
        proof {
            lemma_step_shortens(d);
        }
        end_state(step(d).state)
    }
}

/// What some steps came to, as mathematical values.
pub open spec fn steps_view(steps: Seq<Step>) -> Seq<StepView> {
    Seq::new(steps.len(), |i: int| steps[i]@)
}

/// The names of a list, as a set.
pub open spec fn name_set(names: Seq<Seq<char>>) -> Set<Seq<char>> {
    Set::new(|name: Seq<char>| names.contains(name))
}

/// Reads a program unit by unit and compiles each.
pub struct Driver {
    parser: Parser,
    fn_protos: Registry,
    defined: Vec<String>,
}

impl Driver {
    /// The names of the functions that have a body, in the order in which
    /// they were defined.
    pub closed spec fn defined_names(&self) -> Seq<Seq<char>> {
        Seq::new(self.defined.len() as nat, |i: int| self.defined[i]@)
    }

    /// The parser is within its input.
    pub closed spec fn well_formed(&self) -> bool {
        self.parser.well_formed()
    }
}

impl View for Driver {
    type V = DriverView;

    closed spec fn view(&self) -> DriverView {
        DriverView {
            cursor: self.parser@,
            protos: self.fn_protos@,
            defined: name_set(self.defined_names()),
        }
    }
}

impl Driver {
    /// A driver that reads from `parser`, with no signature on file and no
    /// function defined.
    pub fn new(parser: Parser) -> (r: Driver)
        requires
            parser.well_formed(),
        ensures
            r.well_formed(),
            r@ == (DriverView {
                cursor: parser@,
                protos: Map::empty(),
                defined: Set::empty(),
            }),
    {
        let r = Driver { parser, fn_protos: Registry::new(), defined: Vec::new() };
        proof {
            assert(r@.defined =~= Set::empty());
        }
        r
    }

    /// The signatures on file.
    pub fn prototypes(&self) -> (r: &Registry)
        ensures
            r@ == self@.protos,
    {
        &self.fn_protos
    }

    /// Whether a function called `name` has a body.
    pub fn is_defined(&self, name: &String) -> (r: bool)
        ensures
            r == self@.defined.contains(name@),
    {
        let mut i: usize = 0;
        while i < self.defined.len()
            invariant
                i <= self.defined.len(),
                forall|j: int| 0 <= j < i ==> self.defined_names()[j] != name@,
            decreases self.defined.len() - i,
        {
            if self.defined[i] == *name {
                proof {
                    assert(self.defined_names()[i as int] == name@);
                }
                return true;
            }
            i += 1;
        }
        false
    }

    fn fail_parse(&mut self, error: ParseError) -> (r: Step)
        requires
            old(self).well_formed(),
        ensures
            final(self).well_formed(),
            r@ == StepView::Failed(ErrorView::Parse(error@)),
            final(self)@ == (DriverView { cursor: discard(old(self)@.cursor), ..old(self)@ }),
    {
        self.parser.discard_token();
        Step::Failed(Error::Parse(error))
    }

    #[verifier::rlimit(50)]
    fn define(&mut self) -> (r: Step)
        requires
            old(self).well_formed(),
            old(self)@.cursor.token() == TokenView::Def,
            old(self)@.cursor.current is Some,
        ensures
            final(self).well_formed(),
            r@ == define(old(self)@).step,
            final(self)@ == define(old(self)@).state,
    {
        let func = match self.parser.parse_definition() {
            Ok(func) => func,
            Err(error) => {
                return self.fail_parse(error);
            },
        };
        self.fn_protos.insert(func.0.clone());
        if self.is_defined(&func.0.0) {
            return Step::Failed(Error::Codegen(CodegenError::Redefinition(func.0.0.clone())));
        }
        let mut module = Module::new();
        proof {
            assert(self.fn_protos@.insert(func@.proto.name, func@.proto) =~= self.fn_protos@);
        }
        match IRGen::compile(&mut module, &mut self.fn_protos, Either::Right(&func)) {
            Ok(function) => {
                let ghost before = self.defined_names();
                self.defined.push(func.0.0.clone());
                proof {
                    assert(self.defined_names() =~= before.push(func@.proto.name));
                    assert(name_set(self.defined_names()) =~= name_set(before).insert(
                        func@.proto.name,
                    )) by {
                        assert forall|name: Seq<char>|
                            self.defined_names().contains(name) <==> (before.contains(name) || name
                                == func@.proto.name) by {
                            if before.contains(name) {
                                let j = choose|j: int| 0 <= j < before.len() && before[j] == name;
                                assert(self.defined_names()[j] == name);
                            }
                            if name == func@.proto.name {
                                assert(self.defined_names()[before.len() as int] == name);
                            }
                        }
                    }
                }
                Step::Defined { module, function }
            },
            Err(error) => Step::Failed(Error::Codegen(error)),
        }
    }

    fn declare(&mut self) -> (r: Step)
        requires
            old(self).well_formed(),
            old(self)@.cursor.token() == TokenView::Extern,
            old(self)@.cursor.current is Some,
        ensures
            final(self).well_formed(),
            r@ == declare(old(self)@).step,
            final(self)@ == declare(old(self)@).state,
    {
        match self.parser.parse_external() {
            Ok(proto) => {
                self.fn_protos.insert(proto.clone());
                Step::Declared(proto)
            },
            Err(error) => self.fail_parse(error),
        }
    }

    fn evaluate(&mut self) -> (r: Step)
        requires
            old(self).well_formed(),
            old(self)@.cursor.current is Some,
        ensures
            final(self).well_formed(),
            r@ == evaluate(old(self)@).step,
            final(self)@ == evaluate(old(self)@).state,
    {
        let func = match self.parser.parse_top_level_expr() {
            Ok(func) => func,
            Err(error) => {
                return self.fail_parse(error);
            },
        };
        let mut module = Module::new();
        match IRGen::compile(&mut module, &mut self.fn_protos, Either::Right(&func)) {
            Ok(function) => Step::Evaluate { module, function },
            Err(error) => Step::Failed(Error::Codegen(error)),
        }
    }

    /// Reads, parses and compiles the next unit.
    #[verifier::rlimit(50)]
    pub fn step(&mut self) -> (r: Step)
        requires
            old(self).well_formed(),
        ensures
            final(self).well_formed(),
            r@ == step(old(self)@).step,
            final(self)@ == step(old(self)@).state,
    {
        if !self.parser.looks_at_token() {
            match self.parser.get_next_token() {
                Ok(_) => {},
                Err(error) => {
                    return Step::Failed(Error::Parse(error));
                },
            }
        }
        let kind: u8 = match self.parser.current_token() {
            Token::Eof => 0,
            Token::Def => 1,
            Token::Extern => 2,
            Token::Char(c) => if *c == ';' {
                3
            } else {
                4
            },
            _ => 4,
        };
        if kind == 0 {
            Step::Done
        } else if kind == 1 {
            self.define()
        } else if kind == 2 {
            self.declare()
        } else if kind == 3 {
            match self.parser.get_next_token() {
                Ok(_) => Step::Skipped,
                Err(error) => Step::Failed(Error::Parse(error)),
            }
        } else {
            self.evaluate()
        }
    }

    /// Reads, parses and compiles every unit up to the end of the input,
    /// and gives what each step came to, in order. It comes to an end on
    /// every input.
    pub fn run(&mut self) -> (r: Vec<Step>)
        requires
            old(self).well_formed(),
        ensures
            final(self).well_formed(),
            steps_view(r@) == steps(old(self)@),
            final(self)@ == end_state(old(self)@),
    {
        let mut out: Vec<Step> = Vec::new();
        proof {
            assert(steps_view(out@) =~= Seq::<StepView>::empty());
        }
        loop
            invariant
                self.well_formed(),
                steps(old(self)@) == steps_view(out@) + steps(self@),
                end_state(old(self)@) == end_state(self@),
            ensures
                self.well_formed(),
                steps(old(self)@) == steps_view(out@),
                end_state(old(self)@) == self@,
            decreases self@.cursor.size(),
        {
            let ghost before = self@;
            let ghost done = steps_view(out@);
            proof {
                lemma_step_shortens(before);
            }
            let next = self.step();
            if let Step::Done = next {
                proof {
                    assert(done + Seq::<StepView>::empty() =~= done);
                }
                break ;
            }
            proof {
                assert(steps_view(out@.push(next)) =~= done.push(next@));
                assert(done + (seq![next@] + steps(self@)) =~= done.push(next@) + steps(self@));
            }
            out.push(next);
        }
        out
    }
}

} // verus!
