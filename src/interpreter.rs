use vstd::prelude::*;

use vstd::arithmetic::power::pow;

use crate::compiler::{targets_in_bounds, Callable, Program, Prop};
use crate::error::{ArithFault, Error, TypeExpectation};
use crate::op::Op;
use crate::value::{truthy_model, Value, ValueModel};

verus! {

pub open spec fn in_i64(x: int) -> bool {
    i64::MIN <= x <= i64::MAX
}

pub open spec fn abs_int(x: int) -> int {
    if x < 0 { -x } else { x }
}

/// Integer division rounding toward zero.
pub open spec fn trunc_div(a: int, b: int) -> int {
    if (a < 0) == (b < 0) {
        abs_int(a) / abs_int(b)
    } else {
        -(abs_int(a) / abs_int(b))
    }
}

/// Remainder of `trunc_div`: it takes the sign of the dividend.
pub open spec fn trunc_rem(a: int, b: int) -> int {
    if a < 0 {
        -(abs_int(a) % abs_int(b))
    } else {
        abs_int(a) % abs_int(b)
    }
}

/// A number if it fits a 64-bit signed integer, an overflow otherwise.
pub open spec fn number_result(x: int, at: usize) -> Result<ValueModel, Error> {
    if in_i64(x) {
        Ok(ValueModel::Number(x))
    } else {
        Err(Error::Arithmetic(at, ArithFault::Overflow))
    }
}

pub open spec fn is_binary(op: Op) -> bool {
    op is Add || op is Sub || op is Mul || op is Div || op is Mod || op is Exp || op is And
        || op is Or || op is Xor || op is Eq || op is Ne || op is Lt || op is Le || op is Gt
        || op is Ge
}

/// `left OP right` for an operator that only takes numbers.
pub open spec fn numeric_model(op: Op, a: int, b: int, at: usize) -> Result<ValueModel, Error> {
    match op {
        Op::Add => number_result(a + b, at),
        Op::Sub => number_result(a - b, at),
        Op::Mul => number_result(a * b, at),
        Op::Div => if b == 0 {
            Err(Error::Arithmetic(at, ArithFault::DivisionByZero))
        } else {
            number_result(trunc_div(a, b), at)
        },
        Op::Mod => if b == 0 {
            Err(Error::Arithmetic(at, ArithFault::DivisionByZero))
        } else {
            number_result(trunc_rem(a, b), at)
        },
        Op::Exp => if b < 0 {
            Err(Error::Arithmetic(at, ArithFault::NegativeExponent))
        } else {
            number_result(pow(a, b as nat), at)
        },
        Op::Lt => Ok(ValueModel::Bool(a < b)),
        Op::Le => Ok(ValueModel::Bool(a <= b)),
        Op::Gt => Ok(ValueModel::Bool(a > b)),
        _ => Ok(ValueModel::Bool(a >= b)),
    }
}

/// What a binary instruction computes from its left and right operands.
pub open spec fn binary_model(op: Op, left: ValueModel, right: ValueModel, at: usize) -> Result<
    ValueModel,
    Error,
> {
    match op {
        Op::Add => match (left, right) {
            (ValueModel::Number(a), ValueModel::Number(b)) => number_result(a + b, at),
            (ValueModel::Text(s), ValueModel::Text(t)) => Ok(ValueModel::Text(s + t)),
            (ValueModel::Number(_), _) => Err(Error::Type(TypeExpectation::RightNumber)),
            (ValueModel::Text(_), _) => Err(Error::Type(TypeExpectation::RightString)),
            _ => Err(Error::Type(TypeExpectation::LeftNumberOrString)),
        },
        Op::And => Ok(ValueModel::Bool(truthy_model(left) && truthy_model(right))),
        Op::Or => Ok(ValueModel::Bool(truthy_model(left) || truthy_model(right))),
        Op::Xor => Ok(ValueModel::Bool(truthy_model(left) != truthy_model(right))),
        Op::Eq => Ok(ValueModel::Bool(left == right)),
        Op::Ne => Ok(ValueModel::Bool(left != right)),
        _ => match (left, right) {
            (ValueModel::Number(a), ValueModel::Number(b)) => numeric_model(op, a, b, at),
            _ => Err(Error::Type(TypeExpectation::BothNumbers)),
        },
    }
}

pub open spec fn result_model(r: Result<Value, Error>) -> Result<ValueModel, Error> {
    match r {
        Ok(v) => Ok(v@),
        Err(e) => Err(e),
    }
}

proof fn lemma_pow_grows(a: int, i: nat, e: nat)
    requires
        abs_int(a) >= 2,
        i <= e,
    ensures
        abs_int(pow(a, i)) <= abs_int(pow(a, e)),
    decreases e,
{
    reveal(pow);
    if i < e {
        lemma_pow_grows(a, i, (e - 1) as nat);
        let p = pow(a, (e - 1) as nat);
        assert(pow(a, e) == a * p);
        assert(abs_int(a * p) == abs_int(a) * abs_int(p)) by (nonlinear_arith);
        assert(abs_int(a) * abs_int(p) >= abs_int(p)) by (nonlinear_arith)
            requires
                abs_int(a) >= 2,
                abs_int(p) >= 0,
        ;
    }
}

proof fn lemma_pow_small(a: int, e: nat)
    requires
        -1 <= a <= 1,
    ensures
        pow(a, e) == (if a == 0 {
            if e == 0 { 1int } else { 0int }
        } else if a == 1 || e % 2 == 0 {
            1int
        } else {
            -1int
        }),
    decreases e,
{
    reveal(pow);
    if e > 0 {
        lemma_pow_small(a, (e - 1) as nat);
        assert(pow(a, e) == a * pow(a, (e - 1) as nat));
        if a == -1 {
            assert(e % 2 == 0 <==> (e - 1) as nat % 2 == 1);
        }
    }
}

/// `a` to the power `e`, for `e >= 0`.
fn checked_power(a: i64, e: i64, at: usize) -> (r: Result<Value, Error>)
    requires
        e >= 0,
    ensures
        result_model(r) == number_result(pow(a as int, e as nat), at),
{
    if -1 <= a && a <= 1 {
        proof {
            lemma_pow_small(a as int, e as nat);
        }
        if a == 0 {
            return Ok(Value::Number(if e == 0 { 1 } else { 0 }));
        } else if a == 1 || e % 2 == 0 {
            return Ok(Value::Number(1));
        } else {
            return Ok(Value::Number(-1));
        }
    }
    let mut acc: i64 = 1;
    let mut i: i64 = 0;
    proof {
        reveal(pow);
    }
    while i < e
        invariant
            0 <= i <= e,
            abs_int(a as int) >= 2,
            acc as int == pow(a as int, i as nat),
        decreases e - i,
    {
        match acc.checked_mul(a) {
            Some(v) => {
                proof {
                    reveal(pow);
                }
                acc = v;
            },
            None => {
                proof {
                    reveal(pow);
                    let p = pow(a as int, (i + 1) as nat);
                    assert(p == a * acc);
                    if i + 1 < e {
                        lemma_pow_grows(a as int, (i + 2) as nat, e as nat);
                        assert(pow(a as int, (i + 2) as nat) == a * p);
                        assert(abs_int(a * p) == abs_int(a as int) * abs_int(p)) by (nonlinear_arith);
                        assert(abs_int(a as int) * abs_int(p) >= 2 * abs_int(p)) by (nonlinear_arith)
                            requires
                                abs_int(a as int) >= 2,
                                abs_int(p) >= 0,
                        ;
                    }
                }
                return Err(Error::Arithmetic(at, ArithFault::Overflow));
            },
        }
        i = i + 1;
    }
    Ok(Value::Number(acc))
}

/// `left + right`: a sum of numbers or a concatenation of strings.
fn add_values(left: &Value, right: &Value, at: usize) -> (r: Result<Value, Error>)
    ensures
        result_model(r) == binary_model(Op::Add, left@, right@, at),
{
    match left {
        Value::Number(a) => match right {
            Value::Number(b) => match a.checked_add(*b) {
                Some(v) => Ok(Value::Number(v)),
                None => Err(Error::Arithmetic(at, ArithFault::Overflow)),
            },
            _ => Err(Error::Type(TypeExpectation::RightNumber)),
        },
        Value::String(s) => match right {
            Value::String(t) => {
                let mut u = s.clone();
                u.append(t.as_str());
                let r = Ok(Value::String(u));
                assert(result_model(r) == binary_model(Op::Add, left@, right@, at));
                r
            },
            _ => Err(Error::Type(TypeExpectation::RightString)),
        },
        _ => Err(Error::Type(TypeExpectation::LeftNumberOrString)),
    }
}

/// Applies a binary instruction to its left and right operands.
#[verifier::rlimit(40)]
pub fn binary(op: &Op, left: &Value, right: &Value, at: usize) -> (r: Result<Value, Error>)
    requires
        is_binary(*op),
    ensures
        result_model(r) == binary_model(*op, left@, right@, at),
{
    match op {
        Op::Add => {
            assert(*op == Op::Add);
            add_values(left, right, at)
        },
        Op::And => Ok(Value::Bool(left.truthy() && right.truthy())),
        Op::Or => Ok(Value::Bool(left.truthy() || right.truthy())),
        Op::Xor => Ok(Value::Bool(left.truthy() != right.truthy())),
        Op::Eq => Ok(Value::Bool(left.equals(right))),
        Op::Ne => Ok(Value::Bool(!left.equals(right))),
        _ => {
            let (a, b) = match (left, right) {
                (Value::Number(a), Value::Number(b)) => (*a, *b),
                _ => {
                    return Err(Error::Type(TypeExpectation::BothNumbers));
                },
            };
            match op {
                Op::Sub => match a.checked_sub(b) {
                    Some(v) => Ok(Value::Number(v)),
                    None => Err(Error::Arithmetic(at, ArithFault::Overflow)),
                },
                Op::Mul => match a.checked_mul(b) {
                    Some(v) => Ok(Value::Number(v)),
                    None => Err(Error::Arithmetic(at, ArithFault::Overflow)),
                },
                Op::Div => if b == 0 {
                    Err(Error::Arithmetic(at, ArithFault::DivisionByZero))
                } else {
                    match a.checked_div(b) {
                        Some(v) => {
                            assert(v == trunc_div(a as int, b as int));
                            Ok(Value::Number(v))
                        },
                        None => Err(Error::Arithmetic(at, ArithFault::Overflow)),
                    }
                },
                Op::Mod => if b == 0 {
                    Err(Error::Arithmetic(at, ArithFault::DivisionByZero))
                } else if b == -1 {
                    assert(abs_int(a as int) % 1 == 0) by (nonlinear_arith);
                    assert(trunc_rem(a as int, b as int) == 0);
                    Ok(Value::Number(0))
                } else {
                    match a.checked_rem(b) {
                        Some(v) => {
                            if a == 0 {
                                assert(0int % abs_int(b as int) == 0) by (nonlinear_arith)
                                    requires
                                        abs_int(b as int) > 0,
                                ;
                            }
                            assert(v == trunc_rem(a as int, b as int));
                            Ok(Value::Number(v))
                        },
                        None => Err(Error::Arithmetic(at, ArithFault::Overflow)),
                    }
                },
                Op::Exp => if b < 0 {
                    Err(Error::Arithmetic(at, ArithFault::NegativeExponent))
                } else {
                    checked_power(a, b, at)
                },
                Op::Lt => Ok(Value::Bool(a < b)),
                Op::Le => Ok(Value::Bool(a <= b)),
                Op::Gt => Ok(Value::Bool(a > b)),
                _ => Ok(Value::Bool(a >= b)),
            }
        },
    }
}

/// The bookkeeping pushed when a group is called.
#[derive(Clone, Copy, Debug, PartialEq, Eq, Structural)]
pub struct StackFrame {
    pub return_addr: usize,
    pub stack_offset: usize,
}

/// What one step left the interpreter in.
#[derive(Clone, Copy, Debug, PartialEq, Eq, Structural)]
pub enum InterpreterState {
    Continue,
    Yield,
    Stop,
}

/// The mathematical state of the machine: instruction pointer, operand stack
/// and call stack.
pub struct Machine {
    pub pc: int,
    pub stack: Seq<ValueModel>,
    pub frames: Seq<StackFrame>,
}

pub open spec fn stack_view(s: Seq<Value>) -> Seq<ValueModel> {
    s.map_values(|v: Value| v@)
}

pub open spec fn machine_of(ip: usize, stack: Seq<Value>, frames: Seq<StackFrame>) -> Machine {
    Machine { pc: ip as int, stack: stack_view(stack), frames }
}

/// The base of the current frame's local window: 0 at top level.
pub open spec fn frame_base(frames: Seq<StackFrame>) -> int {
    if frames.len() == 0 {
        0
    } else {
        frames.last().stack_offset as int
    }
}

/// Instructions that touch neither properties nor callables nor groups.
pub open spec fn is_plain(op: Op) -> bool {
    !(op is GetProp || op is SetProp || op is Call || op is CallParallel || op is CallRace)
}

/// One plain instruction at address `at`, on a machine whose pointer has
/// already moved past it.
pub open spec fn plain_step(op: Op, at: usize, m: Machine) -> Result<Machine, Error> {
    let s = m.stack;
    let n = s.len();
    match op {
        Op::Push(v) => Ok(Machine { stack: s.push(v@), ..m }),
        Op::Pop => Ok(Machine { stack: if n > 0 { s.drop_last() } else { s }, ..m }),
        Op::Dup => if n == 0 {
            Err(Error::StackUnderflow(at))
        } else {
            Ok(Machine { stack: s.push(s.last()), ..m })
        },
        Op::Load(a) => if frame_base(m.frames) + a < n {
            Ok(Machine { stack: s.push(s[frame_base(m.frames) + a]), ..m })
        } else {
            Err(Error::IndexOutOfBounds(at))
        },
        Op::Store(a) => if n == 0 {
            Err(Error::StackUnderflow(at))
        } else if frame_base(m.frames) + a < n - 1 {
            Ok(Machine { stack: s.drop_last().update(frame_base(m.frames) + a, s.last()), ..m })
        } else {
            Err(Error::IndexOutOfBounds(at))
        },
        Op::Neg => if n == 0 {
            Err(Error::StackUnderflow(at))
        } else {
            match s.last() {
                ValueModel::Number(x) => match number_result(-x, at) {
                    Ok(v) => Ok(Machine { stack: s.drop_last().push(v), ..m }),
                    Err(e) => Err(e),
                },
                _ => Err(Error::Type(TypeExpectation::NumberOperand)),
            }
        },
        Op::Abs => if n == 0 {
            Err(Error::StackUnderflow(at))
        } else {
            match s.last() {
                ValueModel::Number(x) => match number_result(abs_int(x), at) {
                    Ok(v) => Ok(Machine { stack: s.drop_last().push(v), ..m }),
                    Err(e) => Err(e),
                },
                _ => Err(Error::Type(TypeExpectation::NumberOperand)),
            }
        },
        Op::Jump(a) => Ok(Machine { pc: a as int, ..m }),
        Op::JumpIf(a) => if n == 0 {
            Err(Error::StackUnderflow(at))
        } else {
            Ok(
                Machine {
                    pc: if truthy_model(s.last()) { a as int } else { m.pc },
                    stack: s.drop_last(),
                    ..m
                },
            )
        },
        Op::JumpUnless(a) => if n == 0 {
            Err(Error::StackUnderflow(at))
        } else {
            Ok(
                Machine {
                    pc: if truthy_model(s.last()) { m.pc } else { a as int },
                    stack: s.drop_last(),
                    ..m
                },
            )
        },
        Op::Return => if m.frames.len() == 0 {
            Err(Error::StackUnderflow(at))
        } else {
            let f = m.frames.last();
            Ok(
                Machine {
                    pc: f.return_addr as int,
                    stack: if f.stack_offset <= n { s.subrange(0, f.stack_offset as int) } else { s },
                    frames: m.frames.drop_last(),
                },
            )
        },
        _ => if is_binary(op) {
            if n < 2 {
                Err(Error::StackUnderflow(at))
            } else {
                match binary_model(op, s[n - 2], s[n - 1], at) {
                    Ok(v) => Ok(Machine { stack: s.subrange(0, n - 2).push(v), ..m }),
                    Err(e) => Err(e),
                }
            }
        } else {
            Ok(m)
        },
    }
}

fn current_base(frames: &Vec<StackFrame>) -> (r: usize)
    ensures
        r as int == frame_base(frames@),
{
    if frames.len() == 0 {
        0
    } else {
        frames[frames.len() - 1].stack_offset
    }
}

/// Executes one plain instruction; on an error nothing but the pointer moves.
fn exec_plain(
    op: &Op,
    at: usize,
    ip: &mut usize,
    stack: &mut Vec<Value>,
    frames: &mut Vec<StackFrame>,
) -> (r: Result<(), Error>)
    requires
        is_plain(*op),
        *old(ip) == at + 1,
    ensures
        match plain_step(*op, at, machine_of(*old(ip), old(stack)@, old(frames)@)) {
            Ok(m) => r is Ok && machine_of(*final(ip), final(stack)@, final(frames)@) == m,
            Err(e) => r == Err::<(), Error>(e) && *final(ip) == *old(ip) && final(stack)@ == old(stack)@ && final(frames)@ == old(frames)@,
        },
{
    let ghost s0 = stack_view(stack@);
    let n = stack.len();
    match op {
        Op::Push(v) => {
            stack.push(v.duplicate());
            assert(stack_view(stack@) =~= s0.push(v@));
        },
        Op::Pop => {
            if n > 0 {
                stack.pop();
                assert(stack_view(stack@) =~= s0.drop_last());
            }
        },
        Op::Dup => {
            if n == 0 {
                return Err(Error::StackUnderflow(at));
            }
            let v = stack[n - 1].duplicate();
            stack.push(v);
            assert(stack_view(stack@) =~= s0.push(s0.last()));
        },
        Op::Load(a) => {
            let base = current_base(frames);
            if base > n || *a >= n - base {
                return Err(Error::IndexOutOfBounds(at));
            }
            let i = base + *a;
            let v = stack[i].duplicate();
            stack.push(v);
            assert(stack_view(stack@) =~= s0.push(s0[i as int]));
        },
        Op::Store(a) => {
            if n == 0 {
                return Err(Error::StackUnderflow(at));
            }
            let base = current_base(frames);
            if base > n - 1 || *a >= n - 1 - base {
                return Err(Error::IndexOutOfBounds(at));
            }
            let i = base + *a;
            let v = stack.pop().unwrap();
            stack.set(i, v);
            assert(stack_view(stack@) =~= s0.drop_last().update(i as int, s0.last()));
        },
        Op::Neg | Op::Abs => {
            if n == 0 {
                return Err(Error::StackUnderflow(at));
            }
            let x = match &stack[n - 1] {
                Value::Number(x) => *x,
                _ => {
                    return Err(Error::Type(TypeExpectation::NumberOperand));
                },
            };
            let y: Option<i64> = if x == i64::MIN {
                None
            } else if matches!(op, Op::Neg) || x < 0 {
                Some(-x)
            } else {
                Some(x)
            };
            match y {
                Some(y) => {
                    stack.pop();
                    stack.push(Value::Number(y));
                    assert(stack_view(stack@) =~= s0.drop_last().push(ValueModel::Number(y as int)));
                },
                None => {
                    return Err(Error::Arithmetic(at, ArithFault::Overflow));
                },
            }
        },
        Op::Jump(a) => {
            *ip = *a;
        },
        Op::JumpIf(a) | Op::JumpUnless(a) => {
            if n == 0 {
                return Err(Error::StackUnderflow(at));
            }
            let v = stack.pop().unwrap();
            assert(stack_view(stack@) =~= s0.drop_last());
            if v.truthy() == matches!(op, Op::JumpIf(_)) {
                *ip = *a;
            }
        },
        Op::Return => {
            if frames.len() == 0 {
                return Err(Error::StackUnderflow(at));
            }
            let f = frames.pop().unwrap();
            *ip = f.return_addr;
            if f.stack_offset <= n {
                stack.truncate(f.stack_offset);
                assert(stack_view(stack@) =~= s0.subrange(0, f.stack_offset as int));
            }
        },
        Op::Label(_) => {},
        _ => {
            if n < 2 {
                return Err(Error::StackUnderflow(at));
            }
            let v = binary(op, &stack[n - 2], &stack[n - 1], at)?;
            stack.pop();
            stack.pop();
            stack.push(v);
            assert(stack_view(stack@) =~= s0.subrange(0, n - 2).push(v@));
        },
    }
    Ok(())
}

pub open spec fn names_of(v: Seq<String>) -> Seq<Seq<char>> {
    v.map_values(|s: String| s@)
}

/// The first index whose name is `n`.
pub(crate) fn position(names: &Vec<String>, n: &String) -> (r: Option<usize>)
    ensures
        match r {
            Some(i) => i < names.len() && names@[i as int]@ == n@ && forall|j: int|
                0 <= j < i ==> names@[j]@ != n@,
            None => !names_of(names@).contains(n@),
        },
{
    let mut i: usize = 0;
    while i < names.len()
        invariant
            i <= names.len(),
            forall|j: int| 0 <= j < i ==> names_of(names@)[j] != n@,
        decreases names.len() - i,
    {
        if names[i].eq(n) {
            assert forall|j: int| 0 <= j < i implies names@[j]@ != n@ by {
                assert(names_of(names@)[j] == names@[j]@);
            }
            return Some(i);
        }
        i = i + 1;
    }
    None
}

/// `code[j]` is the label of a group named `n`.
pub open spec fn labels(code: Seq<Op>, n: Seq<char>, j: int) -> bool {
    0 <= j < code.len() && code[j] is Label && code[j]->Label_0@ == n
}

pub open spec fn defines_group(code: Seq<Op>, n: Seq<char>) -> bool {
    exists|j: int| labels(code, n, j)
}

/// `a` is the entry of group `n`: its last label.
pub open spec fn is_entry(code: Seq<Op>, n: Seq<char>, a: int) -> bool {
    labels(code, n, a) && forall|j: int| a < j < code.len() ==> !labels(code, n, j)
}

/// What the verification pass checks a program against.
pub struct Registry {
    pub props: Seq<Seq<char>>,
    pub settable: Seq<bool>,
    pub callables: Seq<Seq<char>>,
}

pub open spec fn unsettable(reg: Registry, n: Seq<char>) -> bool {
    exists|i: int| 0 <= i < reg.props.len() && reg.props[i] == n && !reg.settable[i]
}

/// The external name an instruction refers to, if any.
pub open spec fn referenced_name(op: Op) -> Option<Seq<char>> {
    match op {
        Op::GetProp(n) => Some(n@),
        Op::SetProp(n) => Some(n@),
        Op::Call(n) => Some(n@),
        Op::CallParallel(n) => Some(n@),
        Op::CallRace(n) => Some(n@),
        _ => None,
    }
}

/// The problem with the instruction at `at`, if its name cannot be resolved.
pub open spec fn offence(code: Seq<Op>, reg: Registry, at: int) -> Option<Error> {
    match code[at] {
        Op::GetProp(n) => if reg.props.contains(n@) {
            None
        } else {
            Some(Error::UnregisteredProperty(at as usize, n))
        },
        Op::SetProp(n) => if !reg.props.contains(n@) {
            Some(Error::UnregisteredProperty(at as usize, n))
        } else if unsettable(reg, n@) {
            Some(Error::UnsettableProperty(at as usize, n))
        } else {
            None
        },
        Op::Call(n) => if reg.callables.contains(n@) || defines_group(code, n@) {
            None
        } else {
            Some(Error::UnregisteredCallable(at as usize, n))
        },
        Op::CallParallel(n) => if defines_group(code, n@) {
            None
        } else {
            Some(Error::InvalidCall(at as usize))
        },
        Op::CallRace(n) => if defines_group(code, n@) {
            None
        } else {
            Some(Error::InvalidCall(at as usize))
        },
        _ => None,
    }
}

/// The problems found in the first `k` instructions, and the names they
/// concern: an offending name is reported the first time it is seen only.
pub open spec fn report(code: Seq<Op>, reg: Registry, k: nat) -> (Seq<Error>, Seq<Seq<char>>)
    decreases k,
{
    if k == 0 || k > code.len() {
        (Seq::empty(), Seq::empty())
    } else {
        let (errs, seen) = report(code, reg, (k - 1) as nat);
        let at = k - 1;
        match offence(code, reg, at) {
            Some(e) => if seen.contains(referenced_name(code[at])->0) {
                (errs, seen)
            } else {
                (errs.push(e), seen.push(referenced_name(code[at])->0))
            },
            None => (errs, seen),
        }
    }
}

/// A stack machine running one program against registered capabilities.
pub struct Interpreter<C, P> {
    program: Vec<Op>,
    ip: usize,
    stack: Vec<Value>,
    call_stack: Vec<StackFrame>,
    prop_names: Vec<String>,
    props: Vec<P>,
    prop_settable: Vec<bool>,
    callable_names: Vec<String>,
    callables: Vec<C>,
    group_names: Vec<String>,
    group_addrs: Vec<usize>,
    running: bool,
    /// What the last host callable invoked returned, if one was.
    last_call: Option<bool>,
    /// What every step so far returned.
    steps: Ghost<Seq<Result<InterpreterState, Error>>>,
}

impl<C: Callable, P: Prop> Interpreter<C, P> {
    pub closed spec fn code(&self) -> Seq<Op> {
        self.program@
    }

    pub closed spec fn machine(&self) -> Machine {
        machine_of(self.ip, self.stack@, self.call_stack@)
    }

    pub closed spec fn is_running(&self) -> bool {
        self.running
    }

    /// What the last host callable invoked returned: `false` while its action
    /// had not completed.
    pub closed spec fn last_call_result(&self) -> Option<bool> {
        self.last_call
    }

    /// What every step of this interpreter returned, in order.
    pub closed spec fn step_results(&self) -> Seq<Result<InterpreterState, Error>> {
        self.steps@
    }

    pub fn last_call(&self) -> (r: Option<bool>)
        ensures
            r == self.last_call_result(),
    {
        self.last_call
    }

    pub closed spec fn registry(&self) -> Registry {
        Registry {
            props: names_of(self.prop_names@),
            settable: self.prop_settable@,
            callables: names_of(self.callable_names@),
        }
    }

    /// The problems the verification pass finds before the first step.
    pub open spec fn issues(&self) -> Seq<Error> {
        report(self.code(), self.registry(), self.code().len()).0
    }

    /// A name already taken by a property, a callable or a group.
    pub open spec fn is_taken(&self, n: Seq<char>) -> bool {
        self.registry().props.contains(n) || self.registry().callables.contains(n)
            || defines_group(self.code(), n)
    }

    pub closed spec fn wf(&self) -> bool {
        &&& self.props.len() == self.prop_names.len()
        &&& self.prop_settable.len() == self.prop_names.len()
        &&& self.callables.len() == self.callable_names.len()
        &&& self.group_addrs.len() == self.group_names.len()
        &&& forall|i: int, j: int|
            0 <= i < j < self.prop_names.len() ==> self.prop_names@[i]@ != self.prop_names@[j]@
        &&& forall|k: int|
            0 <= k < self.group_names.len() ==> is_entry(
                self.program@,
                #[trigger] self.group_names@[k]@,
                self.group_addrs@[k] as int,
            )
        &&& forall|j: int|
            0 <= j < self.program.len() && self.program@[j] is Label ==> names_of(
                self.group_names@,
            ).contains(#[trigger] self.program@[j]->Label_0@)
    }

    /// Creates an idle interpreter for `program`, with nothing registered.
    pub fn new(program: Vec<Op>) -> (r: Self)
        ensures
            r.wf(),
            r.code() == program@,
            r.machine() == (Machine { pc: 0, stack: Seq::empty(), frames: Seq::empty() }),
            !r.is_running(),
            r.registry() == (Registry {
                props: Seq::empty(),
                settable: Seq::empty(),
                callables: Seq::empty(),
            }),
    {
        let (group_names, group_addrs) = scan_groups(&program);
        let r = Interpreter {
            program,
            ip: 0,
            stack: Vec::new(),
            call_stack: Vec::new(),
            prop_names: Vec::new(),
            props: Vec::new(),
            prop_settable: Vec::new(),
            callable_names: Vec::new(),
            callables: Vec::new(),
            group_names,
            group_addrs,
            running: false,
            last_call: None,
            steps: Ghost(Seq::empty()),
        };
        assert(r.machine().stack =~= Seq::empty());
        assert(r.registry().props =~= Seq::empty());
        assert(r.registry().callables =~= Seq::empty());
        r
    }

    /// Creates an idle interpreter that owns `program` and its capabilities.
    pub fn from_program(program: Program<C, P>) -> (r: Self)
        requires
            program.wf(),
        ensures
            r.wf(),
            r.code() == program.code_view(),
            r.registry() == program.registry(),
            r.machine() == (Machine { pc: 0, stack: Seq::empty(), frames: Seq::empty() }),
            !r.is_running(),
    {
        let (code, prop_names, props, prop_settable, callable_names, callables) =
            program.into_parts();
        assert forall|i: int, j: int| 0 <= i < j < prop_names.len() implies prop_names@[i]@
            != prop_names@[j]@ by {
            assert(names_of(prop_names@)[i] != names_of(prop_names@)[j]);
        }
        let (group_names, group_addrs) = scan_groups(&code);
        let r = Interpreter {
            program: code,
            ip: 0,
            stack: Vec::new(),
            call_stack: Vec::new(),
            prop_names,
            props,
            prop_settable,
            callable_names,
            callables,
            group_names,
            group_addrs,
            running: false,
            last_call: None,
            steps: Ghost(Seq::empty()),
        };
        assert(r.machine().stack =~= Seq::empty());
        r
    }

    /// Gives the program and its capabilities back.
    pub fn into_program(self) -> (r: Program<C, P>)
        requires
            self.wf(),
        ensures
            r.wf(),
            r.code_view() == self.code(),
            r.registry() == self.registry(),
    {
        let r = Program::from_parts(
            self.program,
            self.prop_names,
            self.props,
            self.prop_settable,
            self.callable_names,
            self.callables,
        );
        r
    }

    /// Runs `program` on a fresh interpreter, for at most `fuel` steps.
    pub fn run(program: Program<C, P>, fuel: usize) -> (r: Result<bool, Error>)
        requires
            program.wf(),
        ensures
            agrees_on_result(
                det_run(
                    program.code_view(),
                    program.registry(),
                    report(program.code_view(), program.registry(), program.code_view().len()).0,
                    Machine { pc: 0, stack: Seq::empty(), frames: Seq::empty() },
                    false,
                    fuel as nat,
                ),
                r,
            ),
    {
        let mut interpreter = Self::from_program(program);
        interpreter.interpret(fuel)
    }

    fn find_group(&self, n: &String) -> (r: Option<usize>)
        requires
            self.wf(),
        ensures
            match r {
                Some(a) => is_entry(self.code(), n@, a as int),
                None => !defines_group(self.code(), n@),
            },
    {
        match position(&self.group_names, n) {
            Some(k) => {
                assert(is_entry(self.program@, self.group_names@[k as int]@, self.group_addrs@[k as int] as int));
                Some(self.group_addrs[k])
            },
            None => {
                assert forall|j: int| !labels(self.code(), n@, j) by {
                    if labels(self.code(), n@, j) {
                        assert(names_of(self.group_names@).contains(self.program@[j]->Label_0@));
                    }
                }
                None
            },
        }
    }

    fn has_group(&self, n: &String) -> (r: bool)
        requires
            self.wf(),
        ensures
            r == defines_group(self.code(), n@),
    {
        match self.find_group(n) {
            Some(a) => {
                assert(labels(self.code(), n@, a as int));
                true
            },
            None => false,
        }
    }

    fn find_prop(&self, n: &String) -> (r: Option<usize>)
        requires
            self.wf(),
        ensures
            match r {
                Some(k) => k < self.prop_names.len() && self.registry().props[k as int] == n@
                    && (unsettable(self.registry(), n@) <==> !self.prop_settable@[k as int]),
                None => !self.registry().props.contains(n@),
            },
    {
        let r = position(&self.prop_names, n);
        if let Some(k) = r {
            assert(self.registry().props[k as int] == n@);
        }
        r
    }

    /// Checks every external name of the program against what is registered.
    pub fn verify_externals(&self) -> (r: Vec<Error>)
        requires
            self.wf(),
        ensures
            r@ == self.issues(),
    {
        let mut errs: Vec<Error> = Vec::new();
        let mut seen: Vec<String> = Vec::new();
        let mut i: usize = 0;
        while i < self.program.len()
            invariant
                self.wf(),
                i <= self.program.len(),
                (errs@, names_of(seen@)) == report(self.code(), self.registry(), i as nat),
            decreases self.program.len() - i,
        {
            let ghost reg = self.registry();
            let off: Option<Error> = match &self.program[i] {
                Op::GetProp(n) => match self.find_prop(n) {
                    Some(k) => {
                        assert(reg.props.contains(n@));
                        None
                    },
                    None => Some(Error::UnregisteredProperty(i, n.clone())),
                },
                Op::SetProp(n) => match self.find_prop(n) {
                    None => Some(Error::UnregisteredProperty(i, n.clone())),
                    Some(k) => {
                        assert(reg.props.contains(n@));
                        if self.prop_settable[k] {
                            None
                        } else {
                            Some(Error::UnsettableProperty(i, n.clone()))
                        }
                    },
                },
                Op::Call(n) => {
                    let c = position(&self.callable_names, n);
                    if let Some(k) = c {
                        assert(reg.callables[k as int] == n@);
                        assert(reg.callables.contains(n@));
                    }
                    if c.is_some() || self.has_group(n) {
                        None
                    } else {
                        Some(Error::UnregisteredCallable(i, n.clone()))
                    }
                },
                Op::CallParallel(n) => if self.has_group(n) {
                    None
                } else {
                    Some(Error::InvalidCall(i))
                },
                Op::CallRace(n) => if self.has_group(n) {
                    None
                } else {
                    Some(Error::InvalidCall(i))
                },
                _ => None,
            };
            assert(off == offence(self.code(), reg, i as int));
            if let Some(e) = off {
                let n = referenced(&self.program[i]);
                let found = position(&seen, n);
                if let Some(k) = found {
                    assert(names_of(seen@)[k as int] == n@);
                } else {
                    errs.push(e);
                    seen.push(n.clone());
                    assert(names_of(seen@) =~= names_of(seen@).drop_last().push(n@));
                }
            }
            i = i + 1;
        }
        errs
    }

    /// Runs one instruction. Before the first one, the verification pass
    /// runs and its first problem, if any, is returned instead.
    pub fn step(&mut self) -> (r: Result<InterpreterState, Error>)
        requires
            old(self).wf(),
        ensures
            final(self).wf(),
            final(self).code() == old(self).code(),
            final(self).registry() == old(self).registry(),
            !old(self).is_running() && old(self).issues().len() > 0 ==> r == Err::<
                InterpreterState,
                Error,
            >(old(self).issues()[0]) && final(self).machine() == old(self).machine()
                && !final(self).is_running(),
            old(self).is_running() || old(self).issues().len() == 0 ==> step_outcome(
                old(self).code(),
                old(self).registry(),
                old(self).machine(),
                final(self).machine(),
                final(self).is_running(),
                final(self).last_call_result(),
                r,
            ),
            final(self).step_results() == old(self).step_results().push(r),
    {
        let r = self.step_inner();
        self.steps = Ghost(self.steps@.push(r));
        r
    }

    fn step_inner(&mut self) -> (r: Result<InterpreterState, Error>)
        requires
            old(self).wf(),
        ensures
            final(self).wf(),
            final(self).code() == old(self).code(),
            final(self).registry() == old(self).registry(),
            !old(self).is_running() && old(self).issues().len() > 0 ==> r == Err::<
                InterpreterState,
                Error,
            >(old(self).issues()[0]) && final(self).machine() == old(self).machine()
                && !final(self).is_running(),
            old(self).is_running() || old(self).issues().len() == 0 ==> step_outcome(
                old(self).code(),
                old(self).registry(),
                old(self).machine(),
                final(self).machine(),
                final(self).is_running(),
                final(self).last_call_result(),
                r,
            ),
            final(self).step_results() == old(self).step_results(),
    {
        if !self.running {
            let mut issues = self.verify_externals();
            if issues.len() > 0 {
                return Err(issues.remove(0));
            }
        }
        self.running = true;
        if self.ip >= self.program.len() {
            self.running = false;
            return Ok(InterpreterState::Stop);
        }
        let at = self.ip;
        self.ip = at + 1;
        let ghost reg = self.registry();
        let op = &self.program[at];
        match op {
            Op::GetProp(n) => match self.find_prop(n) {
                Some(k) => {
                    let v = self.props[k].get();
                    let ghost s0 = stack_view(self.stack@);
                    self.stack.push(v);
                    assert(stack_view(self.stack@).drop_last() =~= s0);
                    Ok(InterpreterState::Continue)
                },
                None => Err(Error::UnregisteredProperty(at, n.clone())),
            },
            Op::SetProp(n) => match self.find_prop(n) {
                Some(k) => {
                    if !self.prop_settable[k] {
                        return Err(Error::UnsettableProperty(at, n.clone()));
                    }
                    if self.stack.len() == 0 {
                        return Err(Error::StackUnderflow(at));
                    }
                    let ghost s0 = stack_view(self.stack@);
                    let v = self.stack.pop().unwrap();
                    assert(stack_view(self.stack@) =~= s0.drop_last());
                    let mut p = self.props.remove(k);
                    p.set(v);
                    self.props.insert(k, p);
                    Ok(InterpreterState::Continue)
                },
                None => Err(Error::UnregisteredProperty(at, n.clone())),
            },
            Op::Call(n) => match position(&self.callable_names, n) {
                Some(k) => {
                    assert(reg.callables[k as int] == n@);
                    let mut c = self.callables.remove(k);
                    let done = c.call();
                    self.callables.insert(k, c);
                    self.last_call = Some(done);
                    if done {
                        Ok(InterpreterState::Continue)
                    } else {
                        Ok(InterpreterState::Yield)
                    }
                },
                None => match self.find_group(n) {
                    Some(a) => {
                        self.enter_group(a, at);
                        Ok(InterpreterState::Continue)
                    },
                    None => Err(Error::UnregisteredCallable(at, n.clone())),
                },
            },
            Op::CallParallel(_) | Op::CallRace(_) => Err(Error::InvalidCall(at)),
            _ => {
                match exec_plain(op, at, &mut self.ip, &mut self.stack, &mut self.call_stack) {
                    Ok(()) => Ok(InterpreterState::Continue),
                    Err(e) => Err(e),
                }
            },
        }
    }

    /// Registers a host action under `name`, while the interpreter is idle
    /// and the name is free.
    pub fn register_callable(&mut self, name: &str, callable: C) -> (r: Result<(), Error>)
        requires
            old(self).wf(),
        ensures
            final(self).wf(),
            final(self).code() == old(self).code(),
            final(self).machine() == old(self).machine(),
            final(self).is_running() == old(self).is_running(),
            old(self).is_running() ==> r == Err::<(), Error>(Error::InterpreterActive)
                && final(self).registry() == old(self).registry(),
            !old(self).is_running() && old(self).is_taken(name@) ==> is_duplicate_callable(r, name@)
                && final(self).registry() == old(self).registry(),
            !old(self).is_running() && !old(self).is_taken(name@) ==> r is Ok
                && final(self).registry() == (Registry {
                callables: old(self).registry().callables.push(name@),
                ..old(self).registry()
            }),
    {
        let n = name.to_owned();
        if self.running {
            return Err(Error::InterpreterActive);
        }
        if self.is_name_taken(&n) {
            return Err(Error::DuplicateCallable(n));
        }
        let ghost old_names = self.callable_names@;
        self.callable_names.push(n);
        self.callables.push(callable);
        assert(names_of(self.callable_names@) =~= names_of(old_names).push(name@));
        Ok(())
    }

    /// Registers a host value under `name`, while the interpreter is idle and
    /// the name is free. Its settability is read once, here.
    pub fn register_property(&mut self, name: &str, prop: P) -> (r: Result<(), Error>)
        requires
            old(self).wf(),
        ensures
            final(self).wf(),
            final(self).code() == old(self).code(),
            final(self).machine() == old(self).machine(),
            final(self).is_running() == old(self).is_running(),
            old(self).is_running() ==> r == Err::<(), Error>(Error::InterpreterActive)
                && final(self).registry() == old(self).registry(),
            !old(self).is_running() && old(self).is_taken(name@) ==> is_duplicate_property(r, name@)
                && final(self).registry() == old(self).registry(),
            !old(self).is_running() && !old(self).is_taken(name@) ==> r is Ok
                && final(self).registry().props == old(self).registry().props.push(name@)
                && final(self).registry().settable.len() == old(self).registry().settable.len() + 1
                && final(self).registry().settable.drop_last() == old(self).registry().settable
                && final(self).registry().callables == old(self).registry().callables,
    {
        let n = name.to_owned();
        if self.running {
            return Err(Error::InterpreterActive);
        }
        if self.is_name_taken(&n) {
            return Err(Error::DuplicateProperty(n));
        }
        let settable = prop.settable();
        let ghost old_names = self.prop_names@;
        let ghost old_settable = self.prop_settable@;
        self.prop_names.push(n);
        self.props.push(prop);
        self.prop_settable.push(settable);
        assert(names_of(self.prop_names@) =~= names_of(old_names).push(name@));
        assert(self.prop_settable@.drop_last() =~= old_settable);
        assert forall|i: int, j: int|
            0 <= i < j < self.prop_names.len() implies self.prop_names@[i]@
            != self.prop_names@[j]@ by {
            if j == self.prop_names.len() - 1 && self.prop_names@[i]@ == self.prop_names@[j]@ {
                assert(names_of(old_names)[i] == name@);
            }
        }
        Ok(())
    }

    fn is_name_taken(&self, n: &String) -> (r: bool)
        requires
            self.wf(),
        ensures
            r == self.is_taken(n@),
    {
        let p = position(&self.prop_names, n);
        if let Some(k) = p {
            assert(self.registry().props[k as int] == n@);
        }
        let c = position(&self.callable_names, n);
        if let Some(k) = c {
            assert(self.registry().callables[k as int] == n@);
        }
        p.is_some() || c.is_some() || self.has_group(n)
    }

    /// Back to the start: pointer, operand stack and call stack are cleared;
    /// registrations stay.
    pub fn reset(&mut self)
        requires
            old(self).wf(),
        ensures
            final(self).wf(),
            final(self).code() == old(self).code(),
            final(self).registry() == old(self).registry(),
            final(self).machine() == (Machine { pc: 0, stack: Seq::empty(), frames: Seq::empty() }),
            !final(self).is_running(),
    {
        self.running = false;
        self.ip = 0;
        self.stack.clear();
        self.call_stack.clear();
        assert(stack_view(self.stack@) =~= Seq::empty());
    }

    /// Steps until the program stops, an error comes, or `fuel` steps have
    /// run. `Ok(true)` means the program stopped.
    pub fn interpret(&mut self, fuel: usize) -> (r: Result<bool, Error>)
        requires
            old(self).wf(),
        ensures
            final(self).wf(),
            final(self).code() == old(self).code(),
            final(self).registry() == old(self).registry(),
            r == Ok::<bool, Error>(true) ==> final(self).machine().pc >= final(self).code().len()
                && !final(self).is_running(),
            final(self).step_results().len() >= old(self).step_results().len(),
            final(self).step_results().subrange(0, old(self).step_results().len() as int) == old(
                self,
            ).step_results(),
            run_steps(
                final(self).step_results().subrange(
                    old(self).step_results().len() as int,
                    final(self).step_results().len() as int,
                ),
                fuel as nat,
                r,
            ),
            agrees(
                det_run(
                    old(self).code(),
                    old(self).registry(),
                    old(self).issues(),
                    old(self).machine(),
                    old(self).is_running(),
                    fuel as nat,
                ),
                r,
                final(self).machine(),
            ),
    {
        let ghost d0 = det_run(
            self.code(),
            self.registry(),
            self.issues(),
            self.machine(),
            self.running,
            fuel as nat,
        );
        let mut left: usize = fuel;
        while left > 0
            invariant
                self.wf(),
                self.code() == old(self).code(),
                self.registry() == old(self).registry(),
                d0 == det_run(
                    old(self).code(),
                    old(self).registry(),
                    old(self).issues(),
                    old(self).machine(),
                    old(self).is_running(),
                    fuel as nat,
                ),
                d0 is Some ==> det_run(
                    self.code(),
                    self.registry(),
                    self.issues(),
                    self.machine(),
                    self.running,
                    left as nat,
                ) == d0,
                left <= fuel,
                self.step_results().len() == old(self).step_results().len() + (fuel - left),
                self.step_results().subrange(0, old(self).step_results().len() as int) == old(
                    self,
                ).step_results(),
                forall|k: int|
                    old(self).step_results().len() <= k < self.step_results().len() ==> continues(
                        #[trigger] self.step_results()[k],
                    ),
            decreases left,
        {
            let ghost pre = *self;
            let res = self.step();
            proof {
                assert(self.step_results().subrange(0, old(self).step_results().len() as int)
                    =~= old(self).step_results());
                let new = self.step_results().subrange(
                    old(self).step_results().len() as int,
                    self.step_results().len() as int,
                );
                assert forall|k: int| 0 <= k < new.len() - 1 implies continues(#[trigger] new[k]) by {
                    assert(new[k] == self.step_results()[old(self).step_results().len() + k]);
                }
            }
            proof {
                if d0 is Some {
                    assert(det_run(
                        pre.code(),
                        pre.registry(),
                        pre.issues(),
                        pre.machine(),
                        pre.running,
                        left as nat,
                    ) == d0);
                    assert(pre.issues() == self.issues());
                }
                if d0 is Some && (pre.is_running() || pre.issues().len() == 0) {
                    lemma_det_step(
                        pre.code(),
                        pre.registry(),
                        pre.machine(),
                        self.machine(),
                        self.running,
                        self.last_call,
                        res,
                    );
                }
            }
            match res {
                Ok(InterpreterState::Stop) => {
                    assert(pre.is_running() || pre.issues().len() == 0);
                    return Ok(true);
                },
                Ok(_) => {},
                Err(e) => {
                    return Err(e);
                },
            }
            left = left - 1;
        }
        proof {
            let new = self.step_results().subrange(
                old(self).step_results().len() as int,
                self.step_results().len() as int,
            );
            assert forall|k: int| 0 <= k < new.len() implies continues(#[trigger] new[k]) by {
                assert(new[k] == self.step_results()[old(self).step_results().len() + k]);
            }
        }
        Ok(false)
    }

    fn enter_group(&mut self, a: usize, at: usize)
        requires
            old(self).wf(),
            at < usize::MAX,
        ensures
            final(self).wf(),
            final(self).code() == old(self).code(),
            final(self).registry() == old(self).registry(),
            final(self).is_running() == old(self).is_running(),
            final(self).machine() == (Machine {
                pc: a as int,
                stack: old(self).machine().stack,
                frames: old(self).machine().frames.push(
                    StackFrame { return_addr: (at + 1) as usize, stack_offset: old(self).stack.len() },
                ),
            }),
            final(self).step_results() == old(self).step_results(),
    {
        let len = self.stack.len();
        self.call_stack.push(StackFrame { return_addr: at + 1, stack_offset: len });
        self.ip = a;
    }
}

pub open spec fn is_duplicate_callable(r: Result<(), Error>, n: Seq<char>) -> bool {
    match r {
        Err(Error::DuplicateCallable(s)) => s@ == n,
        _ => false,
    }
}

pub open spec fn is_duplicate_property(r: Result<(), Error>, n: Seq<char>) -> bool {
    match r {
        Err(Error::DuplicateProperty(s)) => s@ == n,
        _ => false,
    }
}

/// The outcome of one step once the verification pass has let execution
/// begin: `m` is the machine before, `m2` and `running2` the state after,
/// `called` what the last host callable returned.
pub open spec fn step_outcome(
    code: Seq<Op>,
    reg: Registry,
    m: Machine,
    m2: Machine,
    running2: bool,
    called: Option<bool>,
    r: Result<InterpreterState, Error>,
) -> bool {
    if m.pc >= code.len() {
        r == Ok::<InterpreterState, Error>(InterpreterState::Stop) && m2 == m && !running2
    } else {
        let at = m.pc;
        let adv = Machine { pc: at + 1, ..m };
        running2 && match code[at] {
            Op::GetProp(n) => if reg.props.contains(n@) {
                r == Ok::<InterpreterState, Error>(InterpreterState::Continue) && m2.pc == adv.pc
                    && m2.frames == m.frames && m2.stack.len() == m.stack.len() + 1
                    && m2.stack.drop_last() == m.stack
            } else {
                r == Err::<InterpreterState, Error>(Error::UnregisteredProperty(at as usize, n))
                    && m2 == adv
            },
            Op::SetProp(n) => if !reg.props.contains(n@) {
                r == Err::<InterpreterState, Error>(Error::UnregisteredProperty(at as usize, n))
                    && m2 == adv
            } else if unsettable(reg, n@) {
                r == Err::<InterpreterState, Error>(Error::UnsettableProperty(at as usize, n))
                    && m2 == adv
            } else if m.stack.len() == 0 {
                r == Err::<InterpreterState, Error>(Error::StackUnderflow(at as usize)) && m2 == adv
            } else {
                r == Ok::<InterpreterState, Error>(InterpreterState::Continue) && m2 == Machine {
                    stack: m.stack.drop_last(),
                    ..adv
                }
            },
            Op::Call(n) => if reg.callables.contains(n@) {
                called is Some && r == Ok::<InterpreterState, Error>(
                    if called->0 { InterpreterState::Continue } else { InterpreterState::Yield },
                ) && m2 == adv
            } else {
                group_call(code, n@, at, m, m2, r, Error::UnregisteredCallable(at as usize, n))
            },
            Op::CallParallel(_) => r == Err::<InterpreterState, Error>(Error::InvalidCall(at as usize))
                && m2 == adv,
            Op::CallRace(_) => r == Err::<InterpreterState, Error>(Error::InvalidCall(at as usize))
                && m2 == adv,
            op => match plain_step(op, at as usize, adv) {
                Ok(m3) => r == Ok::<InterpreterState, Error>(InterpreterState::Continue) && m2 == m3,
                Err(e) => r == Err::<InterpreterState, Error>(e) && m2 == adv,
            },
        }
    }
}

/// Entering group `n` from the call at `at`; `missing` if there is no such group.
pub open spec fn group_call(
    code: Seq<Op>,
    n: Seq<char>,
    at: int,
    m: Machine,
    m2: Machine,
    r: Result<InterpreterState, Error>,
    missing: Error,
) -> bool {
    if defines_group(code, n) {
        r == Ok::<InterpreterState, Error>(InterpreterState::Continue) && is_entry(code, n, m2.pc)
            && m2.stack == m.stack && m2.frames == m.frames.push(
            StackFrame { return_addr: (at + 1) as usize, stack_offset: m.stack.len() as usize },
        )
    } else {
        r == Err::<InterpreterState, Error>(missing) && m2 == Machine { pc: at + 1, ..m }
    }
}

/// A step after which a run goes on.
pub open spec fn continues(x: Result<InterpreterState, Error>) -> bool {
    x == Ok::<InterpreterState, Error>(InterpreterState::Continue) || x == Ok::<
        InterpreterState,
        Error,
    >(InterpreterState::Yield)
}

/// `new` are the results of the steps of one run with `fuel` that returned
/// `r`: every step but the last went on; the run stops at the first `Stop`
/// or error, and returns `Ok(false)` only after `fuel` steps.
pub open spec fn run_steps(new: Seq<Result<InterpreterState, Error>>, fuel: nat, r: Result<bool, Error>) -> bool {
    &&& new.len() <= fuel
    &&& forall|k: int| 0 <= k < new.len() - 1 ==> continues(#[trigger] new[k])
    &&& match r {
        Ok(true) => new.len() > 0 && new.last() == Ok::<InterpreterState, Error>(
            InterpreterState::Stop,
        ),
        Err(e) => new.len() > 0 && new.last() == Err::<InterpreterState, Error>(e),
        Ok(false) => new.len() == fuel && forall|k: int| 0 <= k < new.len() ==> continues(
            #[trigger] new[k],
        ),
    }
}

/// `r` and `m` are what `d` says, where the program alone decides.
pub open spec fn agrees(d: Option<(Result<bool, Error>, Machine)>, r: Result<bool, Error>, m: Machine) -> bool {
    match d {
        Some((res, mm)) => r == res && m == mm,
        None => true,
    }
}

/// `r` is what `d` says, where the program alone decides.
pub open spec fn agrees_on_result(d: Option<(Result<bool, Error>, Machine)>, r: Result<bool, Error>) -> bool {
    match d {
        Some((res, _)) => r == res,
        None => true,
    }
}

/// The entry of group `n`.
pub open spec fn entry_of(code: Seq<Op>, n: Seq<char>) -> int {
    choose|a: int| is_entry(code, n, a)
}

/// One step as far as the program alone decides it: `None` where the value
/// of a property or the result of a host callable decides.
pub open spec fn det_step(code: Seq<Op>, reg: Registry, m: Machine) -> Option<
    (Result<InterpreterState, Error>, Machine),
> {
    if m.pc >= code.len() {
        Some((Ok(InterpreterState::Stop), m))
    } else {
        let at = m.pc;
        let adv = Machine { pc: at + 1, ..m };
        match code[at] {
            Op::GetProp(n) => if reg.props.contains(n@) {
                None
            } else {
                Some((Err(Error::UnregisteredProperty(at as usize, n)), adv))
            },
            Op::SetProp(n) => if !reg.props.contains(n@) {
                Some((Err(Error::UnregisteredProperty(at as usize, n)), adv))
            } else if unsettable(reg, n@) {
                Some((Err(Error::UnsettableProperty(at as usize, n)), adv))
            } else if m.stack.len() == 0 {
                Some((Err(Error::StackUnderflow(at as usize)), adv))
            } else {
                Some((Ok(InterpreterState::Continue), Machine { stack: m.stack.drop_last(), ..adv }))
            },
            Op::Call(n) => if reg.callables.contains(n@) {
                None
            } else if defines_group(code, n@) {
                Some(
                    (
                        Ok(InterpreterState::Continue),
                        Machine {
                            pc: entry_of(code, n@),
                            stack: m.stack,
                            frames: m.frames.push(
                                StackFrame {
                                    return_addr: (at + 1) as usize,
                                    stack_offset: m.stack.len() as usize,
                                },
                            ),
                        },
                    ),
                )
            } else {
                Some((Err(Error::UnregisteredCallable(at as usize, n)), adv))
            },
            Op::CallParallel(_) => Some((Err(Error::InvalidCall(at as usize)), adv)),
            Op::CallRace(_) => Some((Err(Error::InvalidCall(at as usize)), adv)),
            op => match plain_step(op, at as usize, adv) {
                Ok(m3) => Some((Ok(InterpreterState::Continue), m3)),
                Err(e) => Some((Err(e), adv)),
            },
        }
    }
}

/// Up to `fuel` steps from machine `m`, as the program alone decides them:
/// `Ok(true)` once a step stops, the first error a step returns (before
/// the first step of a run, the verification pass's first problem), or
/// `Ok(false)` when the fuel is spent. `None` where a property's value or a
/// host callable's result would decide.
pub open spec fn det_run(
    code: Seq<Op>,
    reg: Registry,
    issues: Seq<Error>,
    m: Machine,
    running: bool,
    fuel: nat,
) -> Option<(Result<bool, Error>, Machine)>
    decreases fuel,
{
    if fuel == 0 {
        Some((Ok(false), m))
    } else if !running && issues.len() > 0 {
        Some((Err(issues[0]), m))
    } else {
        match det_step(code, reg, m) {
            None => None,
            Some((Ok(InterpreterState::Stop), m2)) => Some((Ok(true), m2)),
            Some((Err(e), m2)) => Some((Err(e), m2)),
            Some((Ok(_), m2)) => det_run(code, reg, issues, m2, true, (fuel - 1) as nat),
        }
    }
}

/// A step that the program alone decides is the step `step` takes.
proof fn lemma_det_step(
    code: Seq<Op>,
    reg: Registry,
    m: Machine,
    m2: Machine,
    running2: bool,
    called: Option<bool>,
    r: Result<InterpreterState, Error>,
)
    requires
        step_outcome(code, reg, m, m2, running2, called, r),
        det_step(code, reg, m) is Some,
    ensures
        r == (det_step(code, reg, m)->0).0,
        m2 == (det_step(code, reg, m)->0).1,
        m.pc < code.len() ==> running2,
{
    if m.pc < code.len() {
        if let Op::Call(n) = code[m.pc] {
            if !reg.callables.contains(n@) && defines_group(code, n@) {
                let a = entry_of(code, n@);
                assert(is_entry(code, n@, m2.pc));
                assert(is_entry(code, n@, a));
                if a < m2.pc {
                    assert(!labels(code, n@, m2.pc));
                } else if a > m2.pc {
                    assert(!labels(code, n@, a));
                }
            }
        }
    }
}

fn referenced(op: &Op) -> (r: &String)
    requires
        referenced_name(*op) is Some,
    ensures
        referenced_name(*op) == Some(r@),
{
    match op {
        Op::GetProp(n) => n,
        Op::SetProp(n) => n,
        Op::Call(n) => n,
        Op::CallParallel(n) => n,
        Op::CallRace(n) => n,
        _ => vstd::pervasive::unreached(),
    }
}

/// `a` is the last label of `n` among the first `i` instructions.
pub open spec fn entry_before(code: Seq<Op>, n: Seq<char>, a: int, i: int) -> bool {
    a < i && labels(code, n, a) && forall|j: int| a < j < i ==> !labels(code, n, j)
}

fn scan_groups(program: &Vec<Op>) -> (r: (Vec<String>, Vec<usize>))
    ensures
        r.1.len() == r.0.len(),
        forall|k: int|
            0 <= k < r.0.len() ==> is_entry(program@, #[trigger] r.0@[k]@, r.1@[k] as int),
        forall|j: int|
            0 <= j < program.len() && program@[j] is Label ==> names_of(r.0@).contains(
                #[trigger] program@[j]->Label_0@,
            ),
{
    let mut names: Vec<String> = Vec::new();
    let mut addrs: Vec<usize> = Vec::new();
    let mut i: usize = 0;
    while i < program.len()
        invariant
            i <= program.len(),
            addrs.len() == names.len(),
            forall|a: int, b: int| 0 <= a < b < names.len() ==> names@[a]@ != names@[b]@,
            forall|k: int|
                0 <= k < names.len() ==> entry_before(
                    program@,
                    #[trigger] names@[k]@,
                    addrs@[k] as int,
                    i as int,
                ),
            forall|j: int|
                0 <= j < i && program@[j] is Label ==> names_of(names@).contains(
                    #[trigger] program@[j]->Label_0@,
                ),
        decreases program.len() - i,
    {
        let ghost names0 = names@;
        let ghost addrs0 = addrs@;
        if let Op::Label(name) = &program[i] {
            let found = position(&names, name);
            if let Some(k) = found {
                assert(names_of(names@)[k as int] == name@);
                assert(names_of(names@).contains(name@));
                assert forall|k2: int| 0 <= k2 < names.len() && k2 != k implies names@[k2]@ != name@ by {
                    if k2 < k {
                        assert(names@[k2]@ != names@[k as int]@);
                    } else {
                        assert(names@[k as int]@ != names@[k2]@);
                    }
                }
                addrs.set(k, i);
            } else {
                let ghost old_names = names@;
                names.push(name.clone());
                addrs.push(i);
                assert(names_of(names@) =~= names_of(old_names).push(name@));
                assert(names_of(names@)[names@.len() - 1] == name@);
                assert forall|j: int|
                    0 <= j <= i && program@[j] is Label implies names_of(names@).contains(
                        program@[j]->Label_0@,
                    ) by {
                    if j < i {
                        assert(names_of(old_names).contains(program@[j]->Label_0@));
                        let w = choose|w: int|
                            0 <= w < old_names.len() && names_of(old_names)[w] == program@[j]->Label_0@;
                        assert(names_of(names@)[w] == program@[j]->Label_0@);
                    }
                }
                assert forall|a: int| 0 <= a < old_names.len() implies old_names[a]@ != name@ by {
                    assert(names_of(old_names)[a] == old_names[a]@);
                }
            }
        }
        i = i + 1;
        assert forall|k: int| 0 <= k < names.len() implies entry_before(
            program@,
            #[trigger] names@[k]@,
            addrs@[k] as int,
            i as int,
        ) by {
            if k < names0.len() && addrs@[k] == addrs0[k] {
                assert(names@[k] == names0[k]);
                assert(entry_before(program@, names0[k]@, addrs0[k] as int, i - 1));
            }
            if labels(program@, names@[k]@, i - 1) {
                assert(program@[i - 1]->Label_0@ == names@[k]@);
            }
        }
    }
    (names, addrs)
}

/// Each name that cannot be resolved is reported exactly once, however many
/// instructions refer to it and in whatever role: the reported names are
/// pairwise distinct, every reported problem is that of an instruction which
/// refers to its name, and every unresolvable instruction has its name
/// reported.
pub proof fn lemma_each_name_reported_once(code: Seq<Op>, reg: Registry, k: nat)
    requires
        k <= code.len(),
    ensures
        report(code, reg, k).0.len() == report(code, reg, k).1.len(),
        forall|i: int, j: int|
            0 <= i < j < report(code, reg, k).1.len() ==> report(code, reg, k).1[i] != report(
                code,
                reg,
                k,
            ).1[j],
        forall|i: int|
            0 <= i < report(code, reg, k).0.len() ==> exists|a: int|
                0 <= a < k && #[trigger] offence(code, reg, a) == Some(
                    #[trigger] report(code, reg, k).0[i],
                )
                    && referenced_name(code[a]) == Some(report(code, reg, k).1[i]),
        forall|a: int|
            0 <= a < k && offence(code, reg, a) is Some ==> report(code, reg, k).1.contains(
                referenced_name(code[a])->0,
            ),
    decreases k,
{
    if k > 0 {
        let prev = (k - 1) as nat;
        lemma_each_name_reported_once(code, reg, prev);
        let (errs, seen) = report(code, reg, prev);
        let at = k - 1;
        let cur = report(code, reg, k);
        match offence(code, reg, at) {
            Some(e) => {
                let n = referenced_name(code[at])->0;
                if !seen.contains(n) {
                    assert(cur.1 == seen.push(n));
                    assert(cur.0 == errs.push(e));
                    assert forall|a: int|
                        0 <= a < k && offence(code, reg, a) is Some implies cur.1.contains(
                            referenced_name(code[a])->0,
                        ) by {
                        if a < at {
                            let w = choose|w: int|
                                0 <= w < seen.len() && seen[w] == referenced_name(code[a])->0;
                            assert(cur.1[w] == seen[w]);
                        } else {
                            assert(cur.1[seen.len() as int] == n);
                        }
                    }
                    assert forall|i: int|
                        0 <= i < cur.0.len() implies exists|a: int|
                        0 <= a < k && #[trigger] offence(code, reg, a) == Some(#[trigger] cur.0[i]) && referenced_name(
                            code[a],
                        ) == Some(cur.1[i]) by {
                        if i == errs.len() {
                            assert(offence(code, reg, at) == Some(cur.0[i]));
                        } else {
                            assert(cur.0[i] == errs[i]);
                        }
                    }
                }
            },
            None => {},
        }
    }
}

/// Once the pointer is past the end, a step returns `Stop` and leaves the
/// machine as it was, so every further step does the same until a reset.
pub proof fn lemma_stop_is_stable(
    code: Seq<Op>,
    reg: Registry,
    m: Machine,
    m2: Machine,
    running2: bool,
    called: Option<bool>,
    r: Result<InterpreterState, Error>,
)
    requires
        m.pc >= code.len(),
        step_outcome(code, reg, m, m2, running2, called, r),
    ensures
        r == Ok::<InterpreterState, Error>(InterpreterState::Stop),
        m2 == m,
        m2.pc >= code.len(),
        !running2,
{
}

} // verus!
