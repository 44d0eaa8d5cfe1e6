use vstd::prelude::*;

use crate::value::Value;

verus! {

/// One bytecode instruction.
#[derive(Clone, Debug)]
pub enum Op {
    Push(Value),
    Pop,
    Dup,
    /// Push the local in the given slot of the current frame.
    Load(usize),
    /// Pop a value into the given slot of the current frame.
    Store(usize),
    GetProp(String),
    SetProp(String),
    Add,
    Sub,
    Mul,
    Div,
    Mod,
    Exp,
    Neg,
    Abs,
    And,
    Or,
    Xor,
    Eq,
    Ne,
    Lt,
    Le,
    Gt,
    Ge,
    Jump(usize),
    JumpIf(usize),
    JumpUnless(usize),
    /// No-op marking the entry of the group of that name.
    Label(String),
    Call(String),
    CallParallel(String),
    CallRace(String),
    /// Leave the current group: pop its frame, go back to the caller and drop
    /// what the group left on the stack.
    Return,
}

} // verus!
