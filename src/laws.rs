use vstd::prelude::*;

use crate::ast::{BinaryOp, Expr};
use crate::compiler::{binary_instr, expr_ops};
use crate::error::{Error, TypeExpectation};
use crate::interpreter::{
    binary_model, det_run, in_i64, is_binary, plain_step, report, Machine, Registry,
};
use crate::value::Value;
use crate::op::Op;
use crate::value::ValueModel;

verus! {

/// The code of `l OP r` is the code of `l`, then the code of `r`, then the
/// operator: the left operand is evaluated first.
pub proof fn lemma_left_compiled_first(
    l: Expr,
    op: BinaryOp,
    r: Expr,
    locals: Seq<Seq<char>>,
    props: Set<Seq<char>>,
)
    ensures
        expr_ops(Expr::Binary(Box::new(l), op, Box::new(r)), locals, props) == expr_ops(
            l,
            locals,
            props,
        ) + expr_ops(r, locals, props) + seq![binary_instr(op)],
{
}

/// A binary instruction on a stack that ends in `left, right` (the right
/// operand on top) replaces the two with `left OP right`.
pub proof fn lemma_operand_order(
    op: Op,
    s: Seq<ValueModel>,
    left: ValueModel,
    right: ValueModel,
    at: usize,
    m: Machine,
)
    requires
        is_binary(op),
        m.stack == s.push(left).push(right),
    ensures
        plain_step(op, at, m) == match binary_model(op, left, right, at) {
            Ok(v) => Ok(Machine { stack: s.push(v), ..m }),
            Err(e) => Err::<Machine, Error>(e),
        },
{
    assert(m.stack.subrange(0, m.stack.len() - 2) =~= s);
}

/// `a - b` is a − b, not b − a, whenever it fits.
pub proof fn lemma_subtraction(a: int, b: int, at: usize)
    requires
        in_i64(a - b),
    ensures
        binary_model(Op::Sub, ValueModel::Number(a), ValueModel::Number(b), at) == Ok::<
            ValueModel,
            Error,
        >(ValueModel::Number(a - b)),
{
}

/// `+` concatenates strings left then right, sums numbers, and with a number
/// on the left and anything else on the right names the right operand.
pub proof fn lemma_addition(s: Seq<char>, t: Seq<char>, a: int, b: int, other: ValueModel, at: usize)
    requires
        in_i64(a + b),
        !(other is Number),
    ensures
        binary_model(Op::Add, ValueModel::Text(s), ValueModel::Text(t), at) == Ok::<
            ValueModel,
            Error,
        >(ValueModel::Text(s + t)),
        binary_model(Op::Add, ValueModel::Number(a), ValueModel::Number(b), at) == Ok::<
            ValueModel,
            Error,
        >(ValueModel::Number(a + b)),
        binary_model(Op::Add, ValueModel::Number(a), other, at) == Err::<ValueModel, Error>(
            Error::Type(TypeExpectation::RightNumber),
        ),
{
}

/// Running `Push(left), Push(right), op` on a fresh interpreter stops with
/// `left OP right` alone on the stack, or returns its error at the operator
/// with the operands still there.
pub proof fn lemma_run_binary(op: Op, left: Value, right: Value, reg: Registry)
    requires
        is_binary(op),
    ensures
        det_run(
            seq![Op::Push(left), Op::Push(right), op],
            reg,
            report(seq![Op::Push(left), Op::Push(right), op], reg, 3).0,
            Machine { pc: 0, stack: Seq::empty(), frames: Seq::empty() },
            false,
            4,
        ) == match binary_model(op, left@, right@, 2) {
            Ok(v) => Some(
                (
                    Ok::<bool, Error>(true),
                    Machine { pc: 3, stack: seq![v], frames: Seq::<crate::interpreter::StackFrame>::empty() },
                ),
            ),
            Err(e) => Some(
                (
                    Err::<bool, Error>(e),
                    Machine { pc: 3, stack: seq![left@, right@], frames: Seq::<crate::interpreter::StackFrame>::empty() },
                ),
            ),
        },
{
    let code = seq![Op::Push(left), Op::Push(right), op];
    reveal_with_fuel(report, 4);
    reveal_with_fuel(det_run, 5);
    assert(report(code, reg, 3).0 =~= Seq::<Error>::empty());
    let e = Seq::<ValueModel>::empty();
    assert(e.push(left@).push(right@) =~= seq![left@, right@]);
    assert(seq![left@, right@].subrange(0, 0) =~= e);
    assert(e.push(left@) =~= seq![left@]);
    match binary_model(op, left@, right@, 2) {
        Ok(v) => {
            assert(e.push(v) =~= seq![v]);
        },
        Err(_) => {},
    }
}

} // verus!
