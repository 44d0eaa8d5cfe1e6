use vstd::prelude::*;

verus! {

/// What an operand of the wrong kind should have been.
#[derive(Clone, Copy, Debug, PartialEq, Eq, Structural)]
pub enum TypeExpectation {
    /// Both operands of a numeric operator must be numbers.
    BothNumbers,
    /// The left operand of `+` is a number, so the right one must be too.
    RightNumber,
    /// The left operand of `+` is a string, so the right one must be too.
    RightString,
    /// The left operand of `+` is neither a number nor a string.
    LeftNumberOrString,
    /// Negation and absolute value take a number.
    NumberOperand,
}

/// Why integer arithmetic could not produce a result.
#[derive(Clone, Copy, Debug, PartialEq, Eq, Structural)]
pub enum ArithFault {
    Overflow,
    DivisionByZero,
    NegativeExponent,
}

/// Compile-time and run-time errors. Addresses are instruction indices.
#[derive(Clone, Debug)]
pub enum Error {
    StackUnderflow(usize),
    IndexOutOfBounds(usize),
    Type(TypeExpectation),
    Arithmetic(usize, ArithFault),
    UnregisteredCallable(usize, String),
    UnregisteredProperty(usize, String),
    UnsettableProperty(usize, String),
    DuplicateCallable(String),
    DuplicateProperty(String),
    DuplicateGroup(String),
    UnresolvedVariable(String),
    /// A group declares parameters, which no call can bind.
    UnboundParameters(String),
    InterpreterActive,
    InvalidCall(usize),
    Call(String),
}

pub open spec fn expectation_text(t: TypeExpectation) -> Seq<char> {
    match t {
        TypeExpectation::BothNumbers => "Both operands must be numbers"@,
        TypeExpectation::RightNumber => "Right operand must be a number"@,
        TypeExpectation::RightString => "Right operand must be a string"@,
        TypeExpectation::LeftNumberOrString => "Left operand must be a number or a string"@,
        TypeExpectation::NumberOperand => "Operand must be a number"@,
    }
}

impl TypeExpectation {
    pub fn message(&self) -> (r: &'static str)
        ensures
            r@ == expectation_text(*self),
    {
        match self {
            TypeExpectation::BothNumbers => "Both operands must be numbers",
            TypeExpectation::RightNumber => "Right operand must be a number",
            TypeExpectation::RightString => "Right operand must be a string",
            TypeExpectation::LeftNumberOrString => "Left operand must be a number or a string",
            TypeExpectation::NumberOperand => "Operand must be a number",
        }
    }
}

} // verus!
