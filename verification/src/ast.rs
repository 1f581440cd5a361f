//! The abstract syntax: expressions, function signatures and definitions.
use vstd::prelude::*;
use crate::strings::clone_names;

verus! {

/// An expression as a mathematical value: what an [`ExprAST`] denotes.
pub enum Expr {
    Number(Seq<char>),
    Variable(Seq<char>),
    BinaryOp(char, Box<Expr>, Box<Expr>),
    Call(Seq<char>, Seq<Expr>),
    If(Box<Expr>, Box<Expr>, Box<Expr>),
    For(Seq<char>, Box<Expr>, Box<Expr>, Option<Box<Expr>>, Box<Expr>),
}

/// A function signature as a mathematical value.
pub struct Prototype {
    pub name: Seq<char>,
    pub params: Seq<Seq<char>>,
}

/// A function definition as a mathematical value.
pub struct FunctionDef {
    pub proto: Prototype,
    pub body: Expr,
}

/// An expression tree. Each node owns its children.
///
/// A numeric literal is kept as its text, a decimal numeral with at most one
/// point and at least one digit.
#[derive(Debug, PartialEq)]
pub enum ExprAST {
    Number(String),
    Variable(String),
    BinaryOp(char, Box<ExprAST>, Box<ExprAST>),
    Call(String, Vec<ExprAST>),
    If { condition: Box<ExprAST>, then_branch: Box<ExprAST>, else_branch: Box<ExprAST> },
    For {
        variable_name: String,
        start: Box<ExprAST>,
        end: Box<ExprAST>,
        step: Option<Box<ExprAST>>,
        body: Box<ExprAST>,
    },
}

impl ExprAST {
    /// The expression this tree denotes.
    pub open spec fn model(&self) -> Expr
        decreases self,
    {
        match self {
            ExprAST::Number(text) => Expr::Number(text@),
            ExprAST::Variable(name) => Expr::Variable(name@),
            ExprAST::BinaryOp(op, lhs, rhs) => Expr::BinaryOp(
                *op,
                Box::new(lhs.model()),
                Box::new(rhs.model()),
            ),
            ExprAST::Call(callee, args) => Expr::Call(
                callee@,
                Seq::new(
                    args.len() as nat,
                    |i: int|
                        if 0 <= i < args.len() {
                            args[i].model()
                        } else {
                            Expr::Number(Seq::empty())
                        },
                ),
            ),
            ExprAST::If { condition, then_branch, else_branch } => Expr::If(
                Box::new(condition.model()),
                Box::new(then_branch.model()),
                Box::new(else_branch.model()),
            ),
            ExprAST::For { variable_name, start, end, step, body } => Expr::For(
                variable_name@,
                Box::new(start.model()),
                Box::new(end.model()),
                match step {
                    Some(s) => Some(Box::new(s.model())),
                    None => None,
                },
                Box::new(body.model()),
            ),
        }
    }
}

impl View for ExprAST {
    type V = Expr;

    open spec fn view(&self) -> Expr {
        self.model()
    }
}

/// The name and the parameter names of a function.
#[derive(Debug, PartialEq)]
pub struct PrototypeAST(pub String, pub Vec<String>);

impl View for PrototypeAST {
    type V = Prototype;

    open spec fn view(&self) -> Prototype {
        Prototype { name: self.0@, params: Seq::new(self.1.len() as nat, |i: int| self.1[i]@) }
    }
}

/// A function definition: its signature and its body.
#[derive(Debug, PartialEq)]
pub struct FunctionAST(pub PrototypeAST, pub ExprAST);

impl View for FunctionAST {
    type V = FunctionDef;

    open spec fn view(&self) -> FunctionDef {
        FunctionDef { proto: self.0@, body: self.1@ }
    }
}

impl Clone for PrototypeAST {
    fn clone(&self) -> (r: PrototypeAST)
        ensures
            r@ == self@,
    {
        let r = PrototypeAST(self.0.clone(), clone_names(&self.1));
        proof {
            assert(r@.params =~= self@.params);
        }
        r
    }
}

} // verus!
