use vstd::prelude::*;

use crate::value::Value;

verus! {

/// The statically known shape of one call argument.
#[derive(Clone, Debug)]
pub enum Arg {
    /// A bare word such as `degrees`.
    Word(String),
    /// An expression whose value is only known at run time.
    Value,
}

impl Arg {
    pub fn is_value(&self) -> (r: bool)
        ensures
            r == (self is Value),
    {
        match self {
            Arg::Value => true,
            Arg::Word(_) => false,
        }
    }

    pub fn get_word(&self) -> (r: Option<&String>)
        ensures
            match self {
                Arg::Word(w) => r == Some(w),
                Arg::Value => r is None,
            },
    {
        match self {
            Arg::Word(w) => Some(w),
            Arg::Value => None,
        }
    }
}

/// Operators that take two values.
#[derive(Clone, Copy, Debug, PartialEq, Eq, Structural)]
pub enum BinaryOp {
    Add,
    Sub,
    Mul,
    Div,
    Mod,
    Exp,
    Eq,
    Ne,
    Lt,
    Le,
    Gt,
    Ge,
}

/// Operators that combine truthiness.
#[derive(Clone, Copy, Debug, PartialEq, Eq, Structural)]
pub enum LogicalOp {
    And,
    Or,
    Xor,
}

#[derive(Clone, Copy, Debug, PartialEq, Eq, Structural)]
pub enum UnaryOp {
    Neg,
    Abs,
}

/// An expression of the script.
#[derive(Debug)]
pub enum Expr {
    Binary(Box<Expr>, BinaryOp, Box<Expr>),
    Logical(Box<Expr>, LogicalOp, Box<Expr>),
    Unary(UnaryOp, Box<Expr>),
    Grouping(Box<Expr>),
    Literal(Value),
    /// A local variable, or a property by its name.
    Variable(String),
}

/// How the statements of a group are meant to run.
#[derive(Clone, Copy, Debug, PartialEq, Eq, Structural)]
pub enum GroupKind {
    Sequence,
    Parallel,
    Race,
}

/// One argument of a call statement.
#[derive(Debug)]
pub enum CallArg {
    Word(String),
    Value(Expr),
}

/// A statement of the script.
#[derive(Debug)]
pub enum Stmt {
    Group { name: String, kind: GroupKind, params: Vec<String>, body: Vec<Stmt> },
    Use { name: String },
    If { condition: Expr, invert: bool, then_branch: Vec<Stmt>, else_branch: Vec<Stmt> },
    While { condition: Expr, invert: bool, body: Vec<Stmt> },
    Exec { name: String, args: Vec<CallArg> },
    Var { name: String, value: Expr },
}

} // verus!
