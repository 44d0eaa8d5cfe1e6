use vstd::prelude::*;

use crate::ast::{Arg, BinaryOp, CallArg, Expr, LogicalOp, Stmt, UnaryOp};
use crate::error::Error;
use crate::interpreter::{
    is_duplicate_callable, is_duplicate_property, names_of, position, referenced_name, report, Interpreter, Registry,
};
use crate::op::Op;
use crate::value::Value;

verus! {

/// A host action that scripts can invoke by name.
pub trait Callable {
    /// Runs the action for one tick; `false` means it has not completed yet.
    fn call(&mut self) -> bool;

    /// Checks the shapes of a call site's arguments at compile time.
    fn check_syntax(&self, args: &Vec<Arg>) -> Result<(), Error>;
}

/// A host value that scripts can read, and write if it is settable.
pub trait Prop {
    fn get(&self) -> Value;

    fn set(&mut self, v: Value);

    /// Fixed for the lifetime of the property.
    fn settable(&self) -> bool;
}

pub open spec fn binary_instr(op: BinaryOp) -> Op {
    match op {
        BinaryOp::Add => Op::Add,
        BinaryOp::Sub => Op::Sub,
        BinaryOp::Mul => Op::Mul,
        BinaryOp::Div => Op::Div,
        BinaryOp::Mod => Op::Mod,
        BinaryOp::Exp => Op::Exp,
        BinaryOp::Eq => Op::Eq,
        BinaryOp::Ne => Op::Ne,
        BinaryOp::Lt => Op::Lt,
        BinaryOp::Le => Op::Le,
        BinaryOp::Gt => Op::Gt,
        BinaryOp::Ge => Op::Ge,
    }
}

pub open spec fn logical_instr(op: LogicalOp) -> Op {
    match op {
        LogicalOp::And => Op::And,
        LogicalOp::Or => Op::Or,
        LogicalOp::Xor => Op::Xor,
    }
}

pub open spec fn unary_instr(op: UnaryOp) -> Op {
    match op {
        UnaryOp::Neg => Op::Neg,
        UnaryOp::Abs => Op::Abs,
    }
}

/// The code of an expression: the left operand's, then the right operand's,
/// then the operator. A variable is its local slot, else the property of that
/// name; an unresolved one emits nothing (and is a compile error).
pub open spec fn expr_ops(e: Expr, locals: Seq<Seq<char>>, props: Set<Seq<char>>) -> Seq<Op>
    decreases e,
{
    match e {
        Expr::Binary(l, op, r) => expr_ops(*l, locals, props) + expr_ops(*r, locals, props) + seq![
            binary_instr(op),
        ],
        Expr::Logical(l, op, r) => expr_ops(*l, locals, props) + expr_ops(*r, locals, props)
            + seq![logical_instr(op)],
        Expr::Unary(op, x) => expr_ops(*x, locals, props) + seq![unary_instr(op)],
        Expr::Grouping(x) => expr_ops(*x, locals, props),
        Expr::Literal(v) => seq![Op::Push(v)],
        Expr::Variable(n) => if locals.contains(n@) {
            seq![Op::Load(locals.index_of(n@) as usize)]
        } else if props.contains(n@) {
            seq![Op::GetProp(n)]
        } else {
            Seq::empty()
        },
    }
}

/// An expression that reads no variable and no property.
pub open spec fn closed_expr(e: Expr) -> bool
    decreases e,
{
    match e {
        Expr::Binary(l, _, r) => closed_expr(*l) && closed_expr(*r),
        Expr::Logical(l, _, r) => closed_expr(*l) && closed_expr(*r),
        Expr::Unary(_, x) => closed_expr(*x),
        Expr::Grouping(x) => closed_expr(*x),
        Expr::Literal(_) => true,
        Expr::Variable(_) => false,
    }
}

/// An assignment of a variable-free expression to one of `locals`.
pub open spec fn plain_var(s: Stmt, locals: Seq<Seq<char>>) -> bool {
    match s {
        Stmt::Var { name, value } => closed_expr(value) && locals.contains(name@),
        _ => false,
    }
}

/// A script of assignments of variable-free expressions to names that are
/// not properties: nothing in it can fail to resolve, and no host check is
/// asked about it.
pub open spec fn plain_script(ast: Seq<Stmt>, props: Seq<Seq<char>>) -> bool {
    forall|i: int|
        0 <= i < ast.len() ==> match #[trigger] ast[i] {
            Stmt::Var { name, value } => closed_expr(value) && !props.contains(name@),
            _ => false,
        }
}

/// An instruction that names no property, callable or group.
pub open spec fn unnamed_op(op: Op) -> bool {
    referenced_name(op) is None && !(op is Label)
}

/// The `Push(0)` that open a scope of `n` locals.
pub open spec fn scope_ops(n: nat) -> Seq<Op> {
    Seq::new(n, |i: int| Op::Push(Value::Number(0)))
}

/// The names that the first `k` statements assign, after those of `init`,
/// each once, in order of first assignment.
pub open spec fn assigned(init: Seq<Seq<char>>, ast: Seq<Stmt>, k: int) -> Seq<Seq<char>>
    decreases k,
{
    if k <= 0 {
        init
    } else {
        let a = assigned(init, ast, k - 1);
        match ast[k - 1] {
            Stmt::Var { name, .. } => if a.contains(name@) {
                a
            } else {
                a.push(name@)
            },
            _ => a,
        }
    }
}

/// The code of the first `k` assignments of a plain script: each value,
/// then a `Store` into the slot of its name.
pub open spec fn plain_ops(ast: Seq<Stmt>, locals: Seq<Seq<char>>, k: int) -> Seq<Op>
    decreases k,
{
    if k <= 0 {
        Seq::empty()
    } else {
        plain_ops(ast, locals, k - 1) + match ast[k - 1] {
            Stmt::Var { name, value } => expr_ops(value, locals, Set::empty()) + seq![
                Op::Store(locals.index_of(name@) as usize),
            ],
            _ => Seq::empty(),
        }
    }
}

/// Code that names no property, callable or group.
pub open spec fn unnamed(code: Seq<Op>) -> bool {
    forall|i: int| 0 <= i < code.len() ==> unnamed_op(#[trigger] code[i])
}

proof fn lemma_closed_unnamed(e: Expr, locals: Seq<Seq<char>>, props: Set<Seq<char>>)
    requires
        closed_expr(e),
    ensures
        unnamed(expr_ops(e, locals, props)),
    decreases e,
{
    match e {
        Expr::Binary(l, _, r) => {
            lemma_closed_unnamed(*l, locals, props);
            lemma_closed_unnamed(*r, locals, props);
            let a = expr_ops(*l, locals, props);
            let b = expr_ops(*r, locals, props);
            let all = expr_ops(e, locals, props);
            assert forall|i: int| 0 <= i < all.len() implies unnamed_op(#[trigger] all[i]) by {
                if i < a.len() {
                    assert(all[i] == a[i]);
                } else if i < a.len() + b.len() {
                    assert(all[i] == b[i - a.len()]);
                }
            }
        },
        Expr::Logical(l, _, r) => {
            lemma_closed_unnamed(*l, locals, props);
            lemma_closed_unnamed(*r, locals, props);
            let a = expr_ops(*l, locals, props);
            let b = expr_ops(*r, locals, props);
            let all = expr_ops(e, locals, props);
            assert forall|i: int| 0 <= i < all.len() implies unnamed_op(#[trigger] all[i]) by {
                if i < a.len() {
                    assert(all[i] == a[i]);
                } else if i < a.len() + b.len() {
                    assert(all[i] == b[i - a.len()]);
                }
            }
        },
        Expr::Unary(_, x) => {
            lemma_closed_unnamed(*x, locals, props);
            let a = expr_ops(*x, locals, props);
            let all = expr_ops(e, locals, props);
            assert forall|i: int| 0 <= i < all.len() implies unnamed_op(#[trigger] all[i]) by {
                if i < a.len() {
                    assert(all[i] == a[i]);
                }
            }
        },
        Expr::Grouping(x) => {
            lemma_closed_unnamed(*x, locals, props);
        },
        _ => {},
    }
}

proof fn lemma_closed_ops(e: Expr, locals: Seq<Seq<char>>, props: Set<Seq<char>>)
    requires
        closed_expr(e),
    ensures
        expr_ops(e, locals, props) == expr_ops(e, locals, Set::empty()),
    decreases e,
{
    match e {
        Expr::Binary(l, _, r) => {
            lemma_closed_ops(*l, locals, props);
            lemma_closed_ops(*r, locals, props);
        },
        Expr::Logical(l, _, r) => {
            lemma_closed_ops(*l, locals, props);
            lemma_closed_ops(*r, locals, props);
        },
        Expr::Unary(_, x) => lemma_closed_ops(*x, locals, props),
        Expr::Grouping(x) => lemma_closed_ops(*x, locals, props),
        _ => {},
    }
}

proof fn lemma_unnamed_append(a: Seq<Op>, b: Seq<Op>)
    requires
        unnamed(a),
        unnamed(b),
    ensures
        unnamed(a + b),
{
    assert forall|i: int| 0 <= i < (a + b).len() implies unnamed_op(#[trigger] (a + b)[i]) by {
        if i < a.len() {
            assert((a + b)[i] == a[i]);
        } else {
            assert((a + b)[i] == b[i - a.len()]);
        }
    }
}

/// The verification pass finds nothing in code that names nothing.
proof fn lemma_unnamed_passes(code: Seq<Op>, reg: Registry, k: nat)
    requires
        unnamed(code),
        k <= code.len(),
    ensures
        report(code, reg, k).0.len() == 0,
    decreases k,
{
    if k > 0 {
        lemma_unnamed_passes(code, reg, (k - 1) as nat);
        assert(unnamed_op(code[k - 1]));
    }
}

/// No two labels share a name, and no label has a callable's name.
pub open spec fn labels_ok(code: Seq<Op>, callables: Seq<Seq<char>>) -> bool {
    &&& forall|i: int, j: int|
        0 <= i < j < code.len() && code[i] is Label && code[j] is Label ==> #[trigger] code[i]->Label_0@
            != #[trigger] code[j]->Label_0@
    &&& forall|i: int|
        0 <= i < code.len() && code[i] is Label ==> !callables.contains(#[trigger] code[i]->Label_0@)
}

/// The first label that repeats a name or has a callable's name, if any.
fn check_labels(code: &Vec<Op>, callables: &Vec<String>) -> (r: Option<Error>)
    ensures
        r is None ==> labels_ok(code@, names_of(callables@)),
        (forall|i: int| 0 <= i < code.len() ==> !(#[trigger] code@[i] is Label)) ==> r is None,
{
    let mut seen: Vec<String> = Vec::new();
    let mut i: usize = 0;
    while i < code.len()
        invariant
            i <= code.len(),
            forall|a: int, b: int|
                0 <= a < b < i && code@[a] is Label && code@[b] is Label ==> #[trigger] code@[a]->Label_0@
                    != #[trigger] code@[b]->Label_0@,
            forall|a: int|
                0 <= a < i && code@[a] is Label ==> !names_of(callables@).contains(
                    #[trigger] code@[a]->Label_0@,
                ),
            forall|a: int|
                0 <= a < i && code@[a] is Label ==> names_of(seen@).contains(
                    #[trigger] code@[a]->Label_0@,
                ),
        decreases code.len() - i,
    {
        if let Op::Label(n) = &code[i] {
            if contains_name(&seen, n) || contains_name(callables, n) {
                return Some(Error::DuplicateGroup(n.clone()));
            }
            let ghost before = names_of(seen@);
            seen.push(n.clone());
            assert(names_of(seen@) =~= before.push(n@));
            assert forall|a: int|
                0 <= a <= i && code@[a] is Label implies names_of(seen@).contains(
                    #[trigger] code@[a]->Label_0@,
                ) by {
                if a < i {
                    let w = choose|w: int| 0 <= w < before.len() && before[w] == code@[a]->Label_0@;
                    assert(names_of(seen@)[w] == code@[a]->Label_0@);
                } else {
                    assert(names_of(seen@)[before.len() as int] == n@);
                }
            }
        }
        i = i + 1;
    }
    None
}

/// A conditional jump to `a`: `JumpUnless` for `if` and `while`, `JumpIf`
/// for `unless` and `until`.
pub open spec fn cond_jump(invert: bool, a: int) -> Op {
    if invert {
        Op::JumpIf(a as usize)
    } else {
        Op::JumpUnless(a as usize)
    }
}

/// The jump `op` with its target moved to `a`.
pub open spec fn retarget(op: Op, a: int) -> Op {
    match op {
        Op::JumpIf(_) => Op::JumpIf(a as usize),
        Op::JumpUnless(_) => Op::JumpUnless(a as usize),
        _ => Op::Jump(a as usize),
    }
}

pub open spec fn pops(n: nat) -> Seq<Op> {
    Seq::new(n, |i: int| Op::Pop)
}

/// The code of the value arguments among the first `k`, left to right;
/// a literal word emits nothing.
pub open spec fn args_ops(
    args: Seq<CallArg>,
    k: int,
    locals: Seq<Seq<char>>,
    props: Set<Seq<char>>,
) -> Seq<Op>
    decreases k,
{
    if k <= 0 || k > args.len() {
        Seq::empty()
    } else {
        args_ops(args, k - 1, locals, props) + match args[k - 1] {
            CallArg::Value(e) => expr_ops(e, locals, props),
            CallArg::Word(_) => Seq::empty(),
        }
    }
}

/// How many of the first `k` arguments are values.
pub open spec fn value_count(args: Seq<CallArg>, k: int) -> nat
    decreases k,
{
    if k <= 0 || k > args.len() {
        0
    } else {
        value_count(args, k - 1) + if args[k - 1] is Value { 1nat } else { 0nat }
    }
}

/// The names that `use` declares in a statement, at any depth.
pub open spec fn uses_stmt(s: Stmt) -> Set<Seq<char>>
    decreases s, 0int,
{
    match s {
        Stmt::Use { name } => set![name@],
        Stmt::Group { body, .. } => uses_lines(body, body.len() as int),
        Stmt::If { then_branch, else_branch, .. } => uses_lines(
            then_branch,
            then_branch.len() as int,
        ).union(uses_lines(else_branch, else_branch.len() as int)),
        Stmt::While { body, .. } => uses_lines(body, body.len() as int),
        _ => Set::empty(),
    }
}

/// The names that `use` declares in the first `k` statements of `v`.
pub open spec fn uses_lines(v: Vec<Stmt>, k: int) -> Set<Seq<char>>
    decreases v, k,
{
    if k <= 0 || k > v.len() {
        Set::empty()
    } else {
        uses_lines(v, k - 1).union(uses_stmt(v@[k - 1]))
    }
}

/// `init` followed by the local names a statement assigns (not properties,
/// not inside groups), each once, in order of first assignment.
pub open spec fn hoist_stmt(init: Seq<Seq<char>>, s: Stmt, props: Set<Seq<char>>) -> Seq<Seq<char>>
    decreases s, 0int,
{
    match s {
        Stmt::Var { name, .. } => if props.contains(name@) || init.contains(name@) {
            init
        } else {
            init.push(name@)
        },
        Stmt::If { then_branch, else_branch, .. } => hoist_lines(
            hoist_lines(init, then_branch, then_branch.len() as int, props),
            else_branch,
            else_branch.len() as int,
            props,
        ),
        Stmt::While { body, .. } => hoist_lines(init, body, body.len() as int, props),
        _ => init,
    }
}

/// The same for the first `k` statements of `v`.
pub open spec fn hoist_lines(init: Seq<Seq<char>>, v: Vec<Stmt>, k: int, props: Set<Seq<char>>) -> Seq<
    Seq<char>,
>
    decreases v, k,
{
    if k <= 0 || k > v.len() {
        init
    } else {
        hoist_stmt(hoist_lines(init, v, k - 1, props), v@[k - 1], props)
    }
}

/// The code of a statement placed at address `base`, in a scope whose local
/// slots are `locals` and where `props` are the known properties.
pub open spec fn stmt_ops(s: Stmt, locals: Seq<Seq<char>>, props: Set<Seq<char>>, base: int) -> Seq<Op>
    decreases s, 0int,
{
    match s {
        Stmt::Use { .. } => Seq::empty(),
        Stmt::Var { name, value } => expr_ops(value, locals, props) + seq![
            if locals.contains(name@) {
                Op::Store(locals.index_of(name@) as usize)
            } else {
                Op::SetProp(name)
            },
        ],
        Stmt::If { condition, invert, then_branch, else_branch } => {
            let c = expr_ops(condition, locals, props);
            let t0 = base + c.len() + 1;
            let t = block_ops(then_branch, then_branch.len() as int, locals, props, t0);
            if else_branch.len() == 0 {
                c + seq![cond_jump(invert, t0 + t.len())] + t
            } else {
                let e0 = t0 + t.len() + 1;
                let e = block_ops(else_branch, else_branch.len() as int, locals, props, e0);
                c + seq![cond_jump(invert, e0)] + t + seq![Op::Jump((e0 + e.len()) as usize)] + e
            }
        },
        Stmt::While { condition, invert, body } => {
            let c = expr_ops(condition, locals, props);
            let b0 = base + c.len() + 1;
            let b = block_ops(body, body.len() as int, locals, props, b0);
            c + seq![cond_jump(invert, b0 + b.len() + 1)] + b + seq![Op::Jump(base as usize)]
        },
        Stmt::Exec { name, args } => args_ops(args@, args.len() as int, locals, props) + seq![
            Op::Call(name),
        ] + pops(value_count(args@, args.len() as int)),
        Stmt::Group { name, body, .. } => {
            let inner = hoist_lines(Seq::empty(), body, body.len() as int, props);
            let b0 = base + 2 + inner.len();
            let b = block_ops(body, body.len() as int, inner, props, b0);
            seq![Op::Jump((b0 + b.len() + 1) as usize), Op::Label(name)] + scope_ops(inner.len())
                + b + seq![Op::Return]
        },
    }
}

/// The code of the first `k` statements of `v`, placed at address `base`.
pub open spec fn block_ops(
    v: Vec<Stmt>,
    k: int,
    locals: Seq<Seq<char>>,
    props: Set<Seq<char>>,
    base: int,
) -> Seq<Op>
    decreases v, k,
{
    if k <= 0 || k > v.len() {
        Seq::empty()
    } else {
        let p = block_ops(v, k - 1, locals, props, base);
        p + stmt_ops(v@[k - 1], locals, props, base + p.len())
    }
}

/// The properties a script knows: those registered and those it declares
/// with `use`.
pub open spec fn known_props(registered: Seq<Seq<char>>, ast: Vec<Stmt>) -> Set<Seq<char>> {
    registered.to_set().union(uses_lines(ast, ast.len() as int))
}

/// The code of a whole script: one `Push(0)` per top-level local, then the
/// statements.
pub open spec fn script_ops(registered: Seq<Seq<char>>, ast: Vec<Stmt>) -> Seq<Op> {
    let props = known_props(registered, ast);
    let top = hoist_lines(Seq::empty(), ast, ast.len() as int, props);
    scope_ops(top.len()) + block_ops(ast, ast.len() as int, top, props, top.len() as int)
}

/// An expression reads a name that is neither a local nor a known property.
pub open spec fn expr_fails(e: Expr, locals: Seq<Seq<char>>, props: Set<Seq<char>>) -> bool
    decreases e,
{
    match e {
        Expr::Binary(l, _, r) => expr_fails(*l, locals, props) || expr_fails(*r, locals, props),
        Expr::Logical(l, _, r) => expr_fails(*l, locals, props) || expr_fails(*r, locals, props),
        Expr::Unary(_, x) => expr_fails(*x, locals, props),
        Expr::Grouping(x) => expr_fails(*x, locals, props),
        Expr::Literal(_) => false,
        Expr::Variable(n) => !locals.contains(n@) && !props.contains(n@),
    }
}

/// One of the first `k` arguments is a value expression that fails.
pub open spec fn args_fail(args: Seq<CallArg>, k: int, locals: Seq<Seq<char>>, props: Set<Seq<char>>) -> bool
    decreases k,
{
    if k <= 0 || k > args.len() {
        false
    } else {
        args_fail(args, k - 1, locals, props) || match args[k - 1] {
            CallArg::Value(e) => expr_fails(e, locals, props),
            CallArg::Word(_) => false,
        }
    }
}

/// A statement holds a problem that the compiler detects by itself: an
/// unresolved variable, a `use` of an unregistered property, a call whose
/// target is neither a callable nor a group of the script, or a group that
/// declares parameters.
pub open spec fn stmt_fails(
    s: Stmt,
    locals: Seq<Seq<char>>,
    props: Set<Seq<char>>,
    registered: Seq<Seq<char>>,
    callables: Seq<Seq<char>>,
    groups: Set<Seq<char>>,
) -> bool
    decreases s, 0int,
{
    match s {
        Stmt::Use { name } => !registered.contains(name@),
        Stmt::Var { value, .. } => expr_fails(value, locals, props),
        Stmt::If { condition, then_branch, else_branch, .. } => expr_fails(condition, locals, props)
            || block_fails(then_branch, then_branch.len() as int, locals, props, registered, callables, groups)
            || block_fails(else_branch, else_branch.len() as int, locals, props, registered, callables, groups),
        Stmt::While { condition, body, .. } => expr_fails(condition, locals, props) || block_fails(
            body,
            body.len() as int,
            locals,
            props,
            registered,
            callables,
            groups,
        ),
        Stmt::Exec { name, args } => args_fail(args@, args.len() as int, locals, props) || (
        !callables.contains(name@) && !groups.contains(name@)),
        Stmt::Group { params, body, .. } => params.len() > 0 || block_fails(
            body,
            body.len() as int,
            hoist_lines(Seq::empty(), body, body.len() as int, props),
            props,
            registered,
            callables,
            groups,
        ),
    }
}

/// One of the first `k` statements of `v` fails.
pub open spec fn block_fails(
    v: Vec<Stmt>,
    k: int,
    locals: Seq<Seq<char>>,
    props: Set<Seq<char>>,
    registered: Seq<Seq<char>>,
    callables: Seq<Seq<char>>,
    groups: Set<Seq<char>>,
) -> bool
    decreases v, k,
{
    if k <= 0 || k > v.len() {
        false
    } else {
        block_fails(v, k - 1, locals, props, registered, callables, groups) || stmt_fails(
            v@[k - 1],
            locals,
            props,
            registered,
            callables,
            groups,
        )
    }
}

/// The names of the groups a statement defines, at any depth.
pub open spec fn groups_stmt(s: Stmt) -> Set<Seq<char>>
    decreases s, 0int,
{
    match s {
        Stmt::Group { name, body, .. } => set![name@].union(uses_groups(body, body.len() as int)),
        Stmt::If { then_branch, else_branch, .. } => uses_groups(
            then_branch,
            then_branch.len() as int,
        ).union(uses_groups(else_branch, else_branch.len() as int)),
        Stmt::While { body, .. } => uses_groups(body, body.len() as int),
        _ => Set::empty(),
    }
}

/// The names of the groups the first `k` statements of `v` define.
pub open spec fn uses_groups(v: Vec<Stmt>, k: int) -> Set<Seq<char>>
    decreases v, k,
{
    if k <= 0 || k > v.len() {
        Set::empty()
    } else {
        uses_groups(v, k - 1).union(groups_stmt(v@[k - 1]))
    }
}

/// The script holds a problem that the compiler detects by itself; or it
/// defines a group with the name of a registered callable or property.
pub open spec fn script_fails(registered: Seq<Seq<char>>, callables: Seq<Seq<char>>, ast: Vec<Stmt>) -> bool {
    let props = known_props(registered, ast);
    (exists|x: Seq<char>|
        #[trigger] uses_groups(ast, ast.len() as int).contains(x) && (callables.contains(x)
            || registered.contains(x))) || block_fails(
        ast,
        ast.len() as int,
        hoist_lines(Seq::empty(), ast, ast.len() as int, props),
        props,
        registered,
        callables,
        uses_groups(ast, ast.len() as int),
    )
}

/// The address a jump instruction targets; 0 for any other instruction.
pub open spec fn jump_target(op: Op) -> int {
    match op {
        Op::Jump(a) => a as int,
        Op::JumpIf(a) => a as int,
        Op::JumpUnless(a) => a as int,
        _ => 0,
    }
}

/// Every jump lands inside the program or just past its end.
pub open spec fn targets_in_bounds(code: Seq<Op>) -> bool {
    forall|i: int| 0 <= i < code.len() ==> #[trigger] jump_target(code[i]) <= code.len()
}

pub open spec fn unique(names: Seq<Seq<char>>) -> bool {
    forall|i: int, j: int| 0 <= i < j < names.len() ==> names[i] != names[j]
}

/// A compiled script with the capabilities it was compiled against.
pub struct Program<C, P> {
    code: Vec<Op>,
    prop_names: Vec<String>,
    props: Vec<P>,
    prop_settable: Vec<bool>,
    callable_names: Vec<String>,
    callables: Vec<C>,
}

impl<C, P> Program<C, P> {
    pub closed spec fn code_view(&self) -> Seq<Op> {
        self.code@
    }

    pub closed spec fn registry(&self) -> Registry {
        Registry {
            props: names_of(self.prop_names@),
            settable: self.prop_settable@,
            callables: names_of(self.callable_names@),
        }
    }

    pub closed spec fn wf(&self) -> bool {
        &&& self.props.len() == self.prop_names.len()
        &&& self.prop_settable.len() == self.prop_names.len()
        &&& self.callables.len() == self.callable_names.len()
        &&& unique(names_of(self.prop_names@))
    }

    pub fn code(&self) -> (r: &Vec<Op>)
        ensures
            r@ == self.code_view(),
    {
        &self.code
    }

    pub fn from_parts(
        code: Vec<Op>,
        prop_names: Vec<String>,
        props: Vec<P>,
        prop_settable: Vec<bool>,
        callable_names: Vec<String>,
        callables: Vec<C>,
    ) -> (r: Self)
        requires
            props.len() == prop_names.len(),
            prop_settable.len() == prop_names.len(),
            callables.len() == callable_names.len(),
            forall|i: int, j: int|
                0 <= i < j < prop_names.len() ==> prop_names@[i]@ != prop_names@[j]@,
        ensures
            r.wf(),
            r.code_view() == code@,
            r.registry() == (Registry {
                props: names_of(prop_names@),
                settable: prop_settable@,
                callables: names_of(callable_names@),
            }),
    {
        Program { code, prop_names, props, prop_settable, callable_names, callables }
    }

    /// Takes the program apart: code, property names, properties, their
    /// settability, callable names and callables.
    pub fn into_parts(self) -> (r: (Vec<Op>, Vec<String>, Vec<P>, Vec<bool>, Vec<String>, Vec<C>))
        requires
            self.wf(),
        ensures
            r.0@ == self.code_view(),
            names_of(r.1@) == self.registry().props,
            r.3@ == self.registry().settable,
            names_of(r.4@) == self.registry().callables,
            r.2.len() == r.1.len(),
            r.3.len() == r.1.len(),
            r.5.len() == r.4.len(),
            unique(names_of(r.1@)),
    {
        (self.code, self.prop_names, self.props, self.prop_settable, self.callable_names, self.callables)
    }
}

/// Turns syntax trees into programs, against the capabilities registered so far.
pub struct Compiler<C, P> {
    prop_names: Vec<String>,
    props: Vec<P>,
    prop_settable: Vec<bool>,
    callable_names: Vec<String>,
    callables: Vec<C>,
}

/// What compiling one script accumulates.
struct Ctx {
    code: Vec<Op>,
    errors: Vec<Error>,
    /// Names that already have an error, so that each is reported once.
    reported: Vec<String>,
    /// Registered properties and those declared by `use`.
    props: Vec<String>,
    groups: Vec<String>,
}

impl Ctx {
    spec fn inv(&self) -> bool {
        targets_in_bounds(self.code@) && self.errors.len() >= self.reported.len()
    }
}

fn emit(code: &mut Vec<Op>, op: Op)
    requires
        targets_in_bounds(old(code)@),
        jump_target(op) <= old(code).len() + 1,
    ensures
        final(code)@ == old(code)@.push(op),
        targets_in_bounds(final(code)@),
{
    code.push(op);
    assert forall|i: int| 0 <= i < code.len() implies #[trigger] jump_target(code@[i]) <= code.len() by {
        if i < code.len() - 1 {
            assert(code@[i] == old(code)@[i]);
        }
    }
}

/// Points the jump at `j` to the current end of the code.
fn patch(code: &mut Vec<Op>, j: usize)
    requires
        targets_in_bounds(old(code)@),
        j < old(code).len(),
    ensures
        final(code)@ == old(code)@.update(j as int, retarget(old(code)@[j as int], old(code).len() as int)),
        targets_in_bounds(final(code)@),
{
    let end = code.len();
    let op = match &code[j] {
        Op::JumpIf(_) => Op::JumpIf(end),
        Op::JumpUnless(_) => Op::JumpUnless(end),
        _ => Op::Jump(end),
    };
    code.set(j, op);
    assert forall|i: int| 0 <= i < code.len() implies #[trigger] jump_target(code@[i]) <= code.len() by {
        if i != j {
            assert(code@[i] == old(code)@[i]);
        }
    }
}

fn contains_name(names: &Vec<String>, n: &String) -> (r: bool)
    ensures
        r == names_of(names@).contains(n@),
{
    match position(names, n) {
        Some(i) => {
            assert(names_of(names@)[i as int] == n@);
            true
        },
        None => false,
    }
}

/// Appends `n` unless it is already there.
fn add_name(names: &mut Vec<String>, n: &String)
    requires
        unique(names_of(old(names)@)),
    ensures
        unique(names_of(final(names)@)),
        names_of(final(names)@).contains(n@),
        forall|x: Seq<char>| names_of(old(names)@).contains(x) ==> names_of(final(names)@).contains(x),
        forall|x: Seq<char>| #[trigger] names_of(final(names)@).contains(x) ==> names_of(old(names)@).contains(x) || x == n@,
        names_of(old(names)@).contains(n@) ==> names_of(final(names)@) == names_of(old(names)@),
        !names_of(old(names)@).contains(n@) ==> names_of(final(names)@) == names_of(old(names)@).push(n@),
{
    if !contains_name(names, n) {
        let ghost before = names_of(names@);
        names.push(n.clone());
        assert(names_of(names@) =~= before.push(n@));
        assert(names_of(names@)[before.len() as int] == n@);
        assert forall|x: Seq<char>| before.contains(x) implies names_of(names@).contains(x) by {
            let w = choose|w: int| 0 <= w < before.len() && before[w] == x;
            assert(names_of(names@)[w] == x);
        }
    }
}

/// Records `e` as the error about `n`, unless `n` already has one.
fn report_name(cx: &mut Ctx, n: &String, e: Error)
    requires
        old(cx).inv(),
    ensures
        final(cx).inv(),
        final(cx).errors.len() > 0,
        final(cx).code@ == old(cx).code@,
        final(cx).props@ == old(cx).props@,
        final(cx).groups@ == old(cx).groups@,
        final(cx).errors.len() >= old(cx).errors.len(),
        !names_of(old(cx).reported@).contains(n@) ==> final(cx).errors.len() > old(cx).errors.len(),
{
    if !contains_name(&cx.reported, n) {
        cx.errors.push(e);
        cx.reported.push(n.clone());
    }
}

fn binary_code(op: BinaryOp) -> (r: Op)
    ensures
        r == binary_instr(op),
{
    match op {
        BinaryOp::Add => Op::Add,
        BinaryOp::Sub => Op::Sub,
        BinaryOp::Mul => Op::Mul,
        BinaryOp::Div => Op::Div,
        BinaryOp::Mod => Op::Mod,
        BinaryOp::Exp => Op::Exp,
        BinaryOp::Eq => Op::Eq,
        BinaryOp::Ne => Op::Ne,
        BinaryOp::Lt => Op::Lt,
        BinaryOp::Le => Op::Le,
        BinaryOp::Gt => Op::Gt,
        BinaryOp::Ge => Op::Ge,
    }
}

fn logical_code(op: LogicalOp) -> (r: Op)
    ensures
        r == logical_instr(op),
{
    match op {
        LogicalOp::And => Op::And,
        LogicalOp::Or => Op::Or,
        LogicalOp::Xor => Op::Xor,
    }
}

/// Emits the code of `e`, left operand before right operand.
fn compile_expr(e: &Expr, locals: &Vec<String>, cx: &mut Ctx)
    requires
        old(cx).inv(),
        unique(names_of(locals@)),
    ensures
        final(cx).inv(),
        final(cx).code@ == old(cx).code@ + expr_ops(*e, names_of(locals@), names_of(old(cx).props@).to_set()),
        final(cx).props@ == old(cx).props@,
        final(cx).groups@ == old(cx).groups@,
        final(cx).errors.len() >= old(cx).errors.len(),
        closed_expr(*e) ==> final(cx).errors@ == old(cx).errors@ && final(cx).reported@ == old(cx).reported@,
        expr_fails(*e, names_of(locals@), names_of(old(cx).props@).to_set()) ==> final(cx).errors.len()
            > 0,
    decreases e,
{
    let ghost c0 = cx.code@;
    let ghost lv = names_of(locals@);
    let ghost pv = names_of(cx.props@).to_set();
    match e {
        Expr::Binary(l, op, r) => {
            compile_expr(l, locals, cx);
            compile_expr(r, locals, cx);
            emit(&mut cx.code, binary_code(*op));
            assert(cx.code@ =~= c0 + expr_ops(*e, lv, pv));
        },
        Expr::Logical(l, op, r) => {
            compile_expr(l, locals, cx);
            compile_expr(r, locals, cx);
            emit(&mut cx.code, logical_code(*op));
            assert(cx.code@ =~= c0 + expr_ops(*e, lv, pv));
        },
        Expr::Unary(op, x) => {
            compile_expr(x, locals, cx);
            emit(&mut cx.code, if matches!(op, UnaryOp::Neg) { Op::Neg } else { Op::Abs });
            assert(cx.code@ =~= c0 + expr_ops(*e, lv, pv));
        },
        Expr::Grouping(x) => {
            compile_expr(x, locals, cx);
        },
        Expr::Literal(v) => {
            emit(&mut cx.code, Op::Push(v.duplicate()));
            assert(cx.code@ =~= c0 + expr_ops(*e, lv, pv));
        },
        Expr::Variable(n) => {
            match position(locals, n) {
                Some(k) => {
                    assert(lv[k as int] == n@);
                    assert(lv.contains(n@));
                    assert(lv.index_of(n@) == k as int);
                    emit(&mut cx.code, Op::Load(k));
                },
                None => {
                    if contains_name(&cx.props, n) {
                        emit(&mut cx.code, Op::GetProp(n.clone()));
                    } else {
                        report_name(cx, n, Error::UnresolvedVariable(n.clone()));
                    }
                },
            }
            assert(cx.code@ =~= c0 + expr_ops(*e, lv, pv));
        },
    }
}

/// Adds the names that `use` declares anywhere in `stmts`.
fn collect_uses(stmts: &Vec<Stmt>, names: &mut Vec<String>)
    requires
        unique(names_of(old(names)@)),
    ensures
        unique(names_of(final(names)@)),
        (forall|i: int| 0 <= i < stmts.len() ==> #[trigger] stmts@[i] is Var) ==> final(names)@
            == old(names)@,
        forall|x: Seq<char>|
            #[trigger] names_of(final(names)@).contains(x) <==> names_of(old(names)@).contains(x)
                || uses_lines(*stmts, stmts.len() as int).contains(x),
    decreases stmts,
{
    let mut i: usize = 0;
    while i < stmts.len()
        invariant
            unique(names_of(names@)),
            (forall|i: int| 0 <= i < stmts.len() ==> #[trigger] stmts@[i] is Var) ==> names@ == old(names)@,
            i <= stmts.len(),
            forall|x: Seq<char>|
                #[trigger] names_of(names@).contains(x) <==> names_of(old(names)@).contains(x)
                    || uses_lines(*stmts, i as int).contains(x),
        decreases stmts.len() - i,
    {
        assert(decreases_to!(stmts => stmts@[i as int]));
        let ghost before = names_of(names@);
        match &stmts[i] {
            Stmt::Use { name } => {
                add_name(names, name);
                assert forall|x: Seq<char>| #[trigger] names_of(names@).contains(x) <==> before.contains(x)
                    || uses_stmt(stmts@[i as int]).contains(x) by {
                    if x == name@ {
                        assert(uses_stmt(stmts@[i as int]).contains(x));
                    }
                }
            },
            Stmt::Group { body, .. } => collect_uses(body, names),
            Stmt::If { then_branch, else_branch, .. } => {
                collect_uses(then_branch, names);
                collect_uses(else_branch, names);
            },
            Stmt::While { body, .. } => collect_uses(body, names),
            _ => {},
        }
        assert(uses_lines(*stmts, i + 1) == uses_lines(*stmts, i as int).union(
            uses_stmt(stmts@[i as int]),
        ));
        assert forall|x: Seq<char>| #[trigger] names_of(names@).contains(x) <==> names_of(
            old(names)@,
        ).contains(x) || uses_lines(*stmts, i + 1).contains(x) by {
            assert(names_of(names@).contains(x) <==> before.contains(x) || uses_stmt(
                stmts@[i as int],
            ).contains(x));
        }
        i = i + 1;
    }
}

/// Adds the names of the local variables that `stmts` assign, groups aside.
fn collect_locals(stmts: &Vec<Stmt>, props: &Vec<String>, names: &mut Vec<String>)
    requires
        unique(names_of(old(names)@)),
    ensures
        unique(names_of(final(names)@)),
        forall|x: Seq<char>| names_of(old(names)@).contains(x) ==> names_of(final(names)@).contains(x),
        forall|i: int|
            0 <= i < stmts.len() && #[trigger] stmts@[i] is Var && !names_of(props@).contains(
                stmts@[i]->Var_name@,
            ) ==> names_of(final(names)@).contains(stmts@[i]->Var_name@),
        (forall|i: int|
            0 <= i < stmts.len() ==> #[trigger] stmts@[i] is Var && !names_of(props@).contains(
                stmts@[i]->Var_name@,
            )) ==> names_of(final(names)@) == assigned(names_of(old(names)@), stmts@, stmts.len() as int),
        names_of(final(names)@) == hoist_lines(
            names_of(old(names)@),
            *stmts,
            stmts.len() as int,
            names_of(props@).to_set(),
        ),
    decreases stmts,
{
    let mut i: usize = 0;
    while i < stmts.len()
        invariant
            i <= stmts.len(),
            unique(names_of(names@)),
            forall|x: Seq<char>| names_of(old(names)@).contains(x) ==> names_of(names@).contains(x),
            forall|j: int|
                0 <= j < i && #[trigger] stmts@[j] is Var && !names_of(props@).contains(
                    stmts@[j]->Var_name@,
                ) ==> names_of(names@).contains(stmts@[j]->Var_name@),
            (forall|i: int|
                0 <= i < stmts.len() ==> #[trigger] stmts@[i] is Var && !names_of(props@).contains(
                    stmts@[i]->Var_name@,
                )) ==> names_of(names@) == assigned(names_of(old(names)@), stmts@, i as int),
            names_of(names@) == hoist_lines(
                names_of(old(names)@),
                *stmts,
                i as int,
                names_of(props@).to_set(),
            ),
        decreases stmts.len() - i,
    {
        assert(decreases_to!(stmts => stmts@[i as int]));
        assert(hoist_lines(names_of(old(names)@), *stmts, i + 1, names_of(props@).to_set())
            == hoist_stmt(
            hoist_lines(names_of(old(names)@), *stmts, i as int, names_of(props@).to_set()),
            stmts@[i as int],
            names_of(props@).to_set(),
        ));
        match &stmts[i] {
            Stmt::Var { name, .. } => if !contains_name(props, name) {
                add_name(names, name);
            },
            Stmt::If { then_branch, else_branch, .. } => {
                collect_locals(then_branch, props, names);
                collect_locals(else_branch, props, names);
            },
            Stmt::While { body, .. } => collect_locals(body, props, names),
            _ => {},
        }
        i = i + 1;
    }
}

impl<C: Callable, P: Prop> Compiler<C, P> {
    pub closed spec fn registry(&self) -> Registry {
        Registry {
            props: names_of(self.prop_names@),
            settable: self.prop_settable@,
            callables: names_of(self.callable_names@),
        }
    }

    pub closed spec fn wf(&self) -> bool {
        &&& self.props.len() == self.prop_names.len()
        &&& self.prop_settable.len() == self.prop_names.len()
        &&& self.callables.len() == self.callable_names.len()
        &&& unique(names_of(self.prop_names@))
    }

    pub open spec fn is_taken(&self, n: Seq<char>) -> bool {
        self.registry().props.contains(n) || self.registry().callables.contains(n)
    }

    pub fn new() -> (r: Self)
        ensures
            r.wf(),
            r.registry() == (Registry {
                props: Seq::empty(),
                settable: Seq::empty(),
                callables: Seq::empty(),
            }),
    {
        let r = Compiler {
            prop_names: Vec::new(),
            props: Vec::new(),
            prop_settable: Vec::new(),
            callable_names: Vec::new(),
            callables: Vec::new(),
        };
        assert(r.registry().props =~= Seq::empty());
        assert(r.registry().callables =~= Seq::empty());
        r
    }

    /// Registers a host action under a name that no property or callable has.
    pub fn register_callable(&mut self, name: &str, callable: C) -> (r: Result<(), Error>)
        requires
            old(self).wf(),
        ensures
            final(self).wf(),
            old(self).is_taken(name@) ==> is_duplicate_callable(r, name@) && final(self).registry()
                == old(self).registry(),
            !old(self).is_taken(name@) ==> r is Ok && final(self).registry() == (Registry {
                callables: old(self).registry().callables.push(name@),
                ..old(self).registry()
            }),
    {
        let n = name.to_owned();
        if contains_name(&self.prop_names, &n) || contains_name(&self.callable_names, &n) {
            return Err(Error::DuplicateCallable(n));
        }
        let ghost before = names_of(self.callable_names@);
        self.callable_names.push(n);
        self.callables.push(callable);
        assert(names_of(self.callable_names@) =~= before.push(name@));
        Ok(())
    }

    /// Registers a host value under a name that no property or callable has;
    /// its settability is read once, here.
    pub fn register_property(&mut self, name: &str, prop: P) -> (r: Result<(), Error>)
        requires
            old(self).wf(),
        ensures
            final(self).wf(),
            old(self).is_taken(name@) ==> is_duplicate_property(r, name@) && final(self).registry()
                == old(self).registry(),
            !old(self).is_taken(name@) ==> r is Ok && final(self).registry().props == old(self).registry().props.push(name@) && final(self).registry().settable.drop_last() == old(self).registry().settable && final(self).registry().settable.len() == old(self).registry().settable.len() + 1 && final(self).registry().callables == old(self).registry().callables,
    {
        let n = name.to_owned();
        if contains_name(&self.prop_names, &n) || contains_name(&self.callable_names, &n) {
            return Err(Error::DuplicateProperty(n));
        }
        let settable = prop.settable();
        let ghost before = names_of(self.prop_names@);
        let ghost before_settable = self.prop_settable@;
        self.prop_names.push(n);
        self.props.push(prop);
        self.prop_settable.push(settable);
        assert(names_of(self.prop_names@) =~= before.push(name@));
        assert(self.prop_settable@.drop_last() =~= before_settable);
        Ok(())
    }

    /// Adds the group names of `stmts`, at any depth; a name met twice, or
    /// one that a property or callable has, is an error.
    fn collect_groups(&self, stmts: &Vec<Stmt>, cx: &mut Ctx)
        requires
            old(cx).inv(),
        ensures
            final(cx).inv(),
            final(cx).code@ == old(cx).code@,
            final(cx).props@ == old(cx).props@,
            final(cx).errors.len() >= old(cx).errors.len(),
            (forall|i: int| 0 <= i < stmts.len() ==> #[trigger] stmts@[i] is Var) ==> final(cx).errors@ == old(cx).errors@,
            forall|x: Seq<char>|
                #[trigger] names_of(final(cx).groups@).contains(x) ==> names_of(old(cx).groups@).contains(x)
                    || uses_groups(*stmts, stmts.len() as int).contains(x),
            (exists|x: Seq<char>|
                #[trigger] uses_groups(*stmts, stmts.len() as int).contains(x) && (names_of(
                    self.callable_names@,
                ).contains(x) || names_of(self.prop_names@).contains(x))) ==> final(cx).errors.len() > 0,
        decreases stmts,
    {
        let mut i: usize = 0;
        while i < stmts.len()
            invariant
                cx.inv(),
                cx.code@ == old(cx).code@,
                cx.props@ == old(cx).props@,
                cx.errors.len() >= old(cx).errors.len(),
                (forall|i: int| 0 <= i < stmts.len() ==> #[trigger] stmts@[i] is Var) ==> cx.errors@
                    == old(cx).errors@,
                i <= stmts.len(),
                forall|x: Seq<char>|
                    #[trigger] names_of(cx.groups@).contains(x) ==> names_of(old(cx).groups@).contains(x)
                        || uses_groups(*stmts, i as int).contains(x),
                (exists|x: Seq<char>|
                    #[trigger] uses_groups(*stmts, i as int).contains(x) && (names_of(
                        self.callable_names@,
                    ).contains(x) || names_of(self.prop_names@).contains(x))) ==> cx.errors.len() > 0,
            decreases stmts.len() - i,
        {
            assert(decreases_to!(stmts => stmts@[i as int]));
            let ghost before = names_of(cx.groups@);
            match &stmts[i] {
                Stmt::Group { name, body, .. } => {
                    if contains_name(&cx.groups, name) || contains_name(&self.callable_names, name)
                        || contains_name(&self.prop_names, name) {
                        report_name(cx, name, Error::DuplicateGroup(name.clone()));
                    } else {
                        cx.groups.push(name.clone());
                        assert(names_of(cx.groups@) =~= before.push(name@));
                    }
                    assert forall|x: Seq<char>| #[trigger] names_of(cx.groups@).contains(x) implies before.contains(x)
                        || x == name@ by {
                        if names_of(cx.groups@).contains(x) && !before.contains(x) {
                            let w = choose|w: int| 0 <= w < names_of(cx.groups@).len() && names_of(cx.groups@)[w] == x;
                            if w < before.len() {
                                assert(before[w] == x);
                            }
                        }
                    }
                    self.collect_groups(body, cx);
                },
                Stmt::If { then_branch, else_branch, .. } => {
                    self.collect_groups(then_branch, cx);
                    self.collect_groups(else_branch, cx);
                },
                Stmt::While { body, .. } => self.collect_groups(body, cx),
                _ => {},
            }
            assert(uses_groups(*stmts, i + 1) == uses_groups(*stmts, i as int).union(
                groups_stmt(stmts@[i as int]),
            ));
            proof {
                if exists|x: Seq<char>|
                    #[trigger] uses_groups(*stmts, i + 1).contains(x) && (names_of(
                        self.callable_names@,
                    ).contains(x) || names_of(self.prop_names@).contains(x)) {
                    let x = choose|x: Seq<char>|
                        #[trigger] uses_groups(*stmts, i + 1).contains(x) && (names_of(
                            self.callable_names@,
                        ).contains(x) || names_of(self.prop_names@).contains(x));
                    if uses_groups(*stmts, i as int).contains(x) {
                    } else {
                        assert(groups_stmt(stmts@[i as int]).contains(x));
                        match stmts@[i as int] {
                            Stmt::Group { name, body, .. } => {
                                if x != name@ {
                                    assert(uses_groups(body, body.len() as int).contains(x));
                                }
                            },
                            Stmt::If { then_branch, else_branch, .. } => {
                                if uses_groups(then_branch, then_branch.len() as int).contains(x) {
                                } else {
                                    assert(uses_groups(else_branch, else_branch.len() as int).contains(x));
                                }
                            },
                            Stmt::While { body, .. } => {
                                assert(uses_groups(body, body.len() as int).contains(x));
                            },
                            _ => {},
                        }
                    }
                }
            }
            i = i + 1;
        }
    }

    fn compile_block(
        &self,
        stmts: &Vec<Stmt>,
        locals: &Vec<String>,
        cx: &mut Ctx,
        Ghost(groups): Ghost<Set<Seq<char>>>,
    )
        requires
            forall|x: Seq<char>|
                #[trigger] names_of(old(cx).groups@).contains(x) ==> groups.contains(x),
            self.wf(),
            old(cx).inv(),
            unique(names_of(locals@)),
        ensures
            final(cx).inv(),
            final(cx).code.len() >= old(cx).code.len(),
            final(cx).props@ == old(cx).props@,
            final(cx).groups@ == old(cx).groups@,
            final(cx).errors.len() >= old(cx).errors.len(),
            (forall|i: int| 0 <= i < stmts.len() ==> plain_var(#[trigger] stmts@[i], names_of(locals@)))
                ==> final(cx).errors@ == old(cx).errors@ && (unnamed(old(cx).code@) ==> unnamed(
                final(cx).code@,
            )) && final(cx).code@ == old(cx).code@ + plain_ops(
                stmts@,
                names_of(locals@),
                stmts.len() as int,
            ),
            final(cx).code@ == old(cx).code@ + block_ops(
                *stmts,
                stmts.len() as int,
                names_of(locals@),
                names_of(old(cx).props@).to_set(),
                old(cx).code.len() as int,
            ),
            block_fails(
                *stmts,
                stmts.len() as int,
                names_of(locals@),
                names_of(old(cx).props@).to_set(),
                names_of(self.prop_names@),
                names_of(self.callable_names@),
                groups,
            ) ==> final(cx).errors.len() > 0,
        decreases stmts,
    {
        let mut i: usize = 0;
        while i < stmts.len()
            invariant
                forall|x: Seq<char>|
                    #[trigger] names_of(cx.groups@).contains(x) ==> groups.contains(x),
                self.wf(),
                i <= stmts.len(),
                (forall|i: int| 0 <= i < stmts.len() ==> plain_var(#[trigger] stmts@[i], names_of(locals@)))
                    ==> cx.errors@ == old(cx).errors@ && (unnamed(old(cx).code@) ==> unnamed(cx.code@))
                    && cx.code@ == old(cx).code@ + plain_ops(stmts@, names_of(locals@), i as int),
                cx.code@ == old(cx).code@ + block_ops(
                    *stmts,
                    i as int,
                    names_of(locals@),
                    names_of(old(cx).props@).to_set(),
                    old(cx).code.len() as int,
                ),
                block_fails(
                    *stmts,
                    i as int,
                    names_of(locals@),
                    names_of(old(cx).props@).to_set(),
                    names_of(self.prop_names@),
                    names_of(self.callable_names@),
                    groups,
                ) ==> cx.errors.len() > 0,
                cx.inv(),
                unique(names_of(locals@)),
                cx.code.len() >= old(cx).code.len(),
                cx.props@ == old(cx).props@,
                cx.groups@ == old(cx).groups@,
                cx.errors.len() >= old(cx).errors.len(),
            decreases stmts.len() - i,
        {
            assert(decreases_to!(stmts => stmts@[i as int]));
            let ghost c0 = cx.code@;
            self.compile_stmt(&stmts[i], locals, cx, Ghost(groups));
            assert(cx.code@ =~= old(cx).code@ + block_ops(
                *stmts,
                i + 1,
                names_of(locals@),
                names_of(old(cx).props@).to_set(),
                old(cx).code.len() as int,
            ));
            proof {
                if forall|i: int| 0 <= i < stmts.len() ==> plain_var(#[trigger] stmts@[i], names_of(locals@)) {
                    assert(plain_var(stmts@[i as int], names_of(locals@)));
                    assert(cx.code@ =~= old(cx).code@ + plain_ops(stmts@, names_of(locals@), i + 1));
                }
            }
            i = i + 1;
        }
    }

    /// Emits one `Push(0)` for each local, so that slot `k` holds local `k`.
    fn open_scope(locals: &Vec<String>, cx: &mut Ctx)
        requires
            old(cx).inv(),
        ensures
            final(cx).inv(),
            final(cx).code.len() >= old(cx).code.len(),
            final(cx).props@ == old(cx).props@,
            final(cx).groups@ == old(cx).groups@,
            final(cx).errors@ == old(cx).errors@,
            unnamed(old(cx).code@) ==> unnamed(final(cx).code@),
            final(cx).code@ == old(cx).code@ + scope_ops(locals.len() as nat),
    {
        let mut i: usize = 0;
        while i < locals.len()
            invariant
                cx.inv(),
                i <= locals.len(),
                cx.code@ == old(cx).code@ + scope_ops(i as nat),
                unnamed(old(cx).code@) ==> unnamed(cx.code@),
                cx.code.len() >= old(cx).code.len(),
                cx.props@ == old(cx).props@,
                cx.groups@ == old(cx).groups@,
                cx.errors@ == old(cx).errors@,
            decreases locals.len() - i,
        {
            let ghost before = cx.code@;
            emit(&mut cx.code, Op::Push(Value::Number(0)));
            proof {
                if unnamed(before) {
                    lemma_unnamed_append(before, seq![Op::Push(Value::Number(0))]);
                    assert(cx.code@ =~= before + seq![Op::Push(Value::Number(0))]);
                }
            }
            assert(cx.code@ =~= old(cx).code@ + scope_ops((i + 1) as nat));
            i = i + 1;
        }
    }

    #[verifier::rlimit(100)]
    fn compile_stmt(
        &self,
        stmt: &Stmt,
        locals: &Vec<String>,
        cx: &mut Ctx,
        Ghost(groups): Ghost<Set<Seq<char>>>,
    )
        requires
            forall|x: Seq<char>|
                #[trigger] names_of(old(cx).groups@).contains(x) ==> groups.contains(x),
            self.wf(),
            old(cx).inv(),
            unique(names_of(locals@)),
        ensures
            final(cx).inv(),
            final(cx).code.len() >= old(cx).code.len(),
            final(cx).props@ == old(cx).props@,
            final(cx).groups@ == old(cx).groups@,
            final(cx).errors.len() >= old(cx).errors.len(),
            plain_var(*stmt, names_of(locals@)) ==> final(cx).errors@ == old(cx).errors@ && (unnamed(
                old(cx).code@,
            ) ==> unnamed(final(cx).code@)) && final(cx).code@ == old(cx).code@ + expr_ops(
                stmt->Var_value,
                names_of(locals@),
                Set::empty(),
            ) + seq![Op::Store(names_of(locals@).index_of(stmt->Var_name@) as usize)],
            final(cx).code@ == old(cx).code@ + stmt_ops(
                *stmt,
                names_of(locals@),
                names_of(old(cx).props@).to_set(),
                old(cx).code.len() as int,
            ),
        stmt_fails(
                *stmt,
                names_of(locals@),
                names_of(old(cx).props@).to_set(),
                names_of(self.prop_names@),
                names_of(self.callable_names@),
                groups,
            ) ==> final(cx).errors.len() > 0,
        decreases stmt,
    {
        let ghost c0 = cx.code@;
        let ghost lv = names_of(locals@);
        let ghost pv = names_of(cx.props@).to_set();
        match stmt {
            Stmt::Use { name } => {
                if !contains_name(&self.prop_names, name) {
                    report_name(cx, name, Error::UnregisteredProperty(cx.code.len(), name.clone()));
                }
            },
            Stmt::Var { name, value } => {
                compile_expr(value, locals, cx);
                match position(locals, name) {
                    Some(k) => {
                        let ghost c1 = cx.code@;
                        emit(&mut cx.code, Op::Store(k));
                        proof {
                            if plain_var(*stmt, names_of(locals@)) {
                                lemma_closed_ops(*value, names_of(locals@), names_of(cx.props@).to_set());
                                assert(names_of(locals@)[k as int] == name@);
                                assert(names_of(locals@).index_of(name@) == k as int);
                                assert(cx.code@ =~= c0 + expr_ops(*value, names_of(locals@), Set::empty())
                                    + seq![Op::Store(k)]);
                            }
                            assert(lv[k as int] == name@);
                            assert(lv.contains(name@));
                            assert(lv.index_of(name@) == k as int);
                            assert(cx.code@ =~= c0 + stmt_ops(*stmt, lv, pv, c0.len() as int));
                            if plain_var(*stmt, names_of(locals@)) && unnamed(c0) {
                                lemma_closed_unnamed(*value, names_of(locals@), names_of(cx.props@).to_set());
                                lemma_unnamed_append(
                                    c0,
                                    expr_ops(*value, names_of(locals@), names_of(cx.props@).to_set()),
                                );
                                lemma_unnamed_append(c1, seq![Op::Store(k)]);
                                assert(cx.code@ =~= c1 + seq![Op::Store(k)]);
                            }
                        }
                    },
                    None => {
                        assert(!plain_var(*stmt, names_of(locals@)));
                        if let Some(k) = position(&self.prop_names, name) {
                            if !self.prop_settable[k] {
                                report_name(
                                    cx,
                                    name,
                                    Error::UnsettableProperty(cx.code.len(), name.clone()),
                                );
                            }
                        }
                        emit(&mut cx.code, Op::SetProp(name.clone()));
                        assert(cx.code@ =~= c0 + stmt_ops(*stmt, lv, pv, c0.len() as int));
                    },
                }
            },
            Stmt::If { condition, invert, then_branch, else_branch } => {
                compile_expr(condition, locals, cx);
                let j = cx.code.len();
                emit(&mut cx.code, if *invert { Op::JumpIf(0) } else { Op::JumpUnless(0) });
                let ghost c1 = cx.code@;
                self.compile_block(then_branch, locals, cx, Ghost(groups));
                let ghost c2 = cx.code@;
                if else_branch.len() == 0 {
                    patch(&mut cx.code, j);
                    assert(cx.code@ =~= c0 + stmt_ops(*stmt, lv, pv, c0.len() as int));
                } else {
                    let k = cx.code.len();
                    emit(&mut cx.code, Op::Jump(0));
                    patch(&mut cx.code, j);
                    let ghost c3 = cx.code@;
                    self.compile_block(else_branch, locals, cx, Ghost(groups));
                    let ghost c4 = cx.code@;
                    patch(&mut cx.code, k);
                    assert(cx.code@ =~= c0 + stmt_ops(*stmt, lv, pv, c0.len() as int));
                }
            },
            Stmt::While { condition, invert, body } => {
                let top = cx.code.len();
                compile_expr(condition, locals, cx);
                let j = cx.code.len();
                emit(&mut cx.code, if *invert { Op::JumpIf(0) } else { Op::JumpUnless(0) });
                self.compile_block(body, locals, cx, Ghost(groups));
                emit(&mut cx.code, Op::Jump(top));
                patch(&mut cx.code, j);
                assert(cx.code@ =~= c0 + stmt_ops(*stmt, lv, pv, c0.len() as int));
            },
            Stmt::Exec { name, args } => {
                self.compile_exec(name, args, locals, cx, Ghost(groups));
                assert(cx.code@ =~= c0 + stmt_ops(*stmt, lv, pv, c0.len() as int));
            },
            Stmt::Group { name, params, body, .. } => {
                let j = cx.code.len();
                emit(&mut cx.code, Op::Jump(0));
                emit(&mut cx.code, Op::Label(name.clone()));
                if params.len() > 0 {
                    // A frame starts at the stack's height when the call runs,
                    // so values pushed by the caller are out of the group's reach.
                    cx.errors.push(Error::UnboundParameters(name.clone()));
                }
                let mut inner: Vec<String> = Vec::new();
                assert(names_of(inner@) =~= Seq::<Seq<char>>::empty());
                collect_locals(body, &cx.props, &mut inner);
                Self::open_scope(&inner, cx);
                self.compile_block(body, &inner, cx, Ghost(groups));
                emit(&mut cx.code, Op::Return);
                patch(&mut cx.code, j);
                assert(cx.code@ =~= c0 + stmt_ops(*stmt, lv, pv, c0.len() as int));
            },
        }
    }

    /// A call: the arguments' shapes are checked by a registered callable,
    /// value arguments are pushed left to right, then the call, then the
    /// arguments are dropped again.
    fn compile_exec(
        &self,
        name: &String,
        args: &Vec<CallArg>,
        locals: &Vec<String>,
        cx: &mut Ctx,
        Ghost(groups): Ghost<Set<Seq<char>>>,
    )
        requires
            forall|x: Seq<char>|
                #[trigger] names_of(old(cx).groups@).contains(x) ==> groups.contains(x),
            self.wf(),
            old(cx).inv(),
            unique(names_of(locals@)),
        ensures
            final(cx).inv(),
            final(cx).code.len() >= old(cx).code.len(),
            final(cx).props@ == old(cx).props@,
            final(cx).groups@ == old(cx).groups@,
            final(cx).errors.len() >= old(cx).errors.len(),
            final(cx).code@ == old(cx).code@ + args_ops(
                args@,
                args.len() as int,
                names_of(locals@),
                names_of(old(cx).props@).to_set(),
            ) + seq![Op::Call(*name)] + pops(value_count(args@, args.len() as int)),
            args_fail(args@, args.len() as int, names_of(locals@), names_of(old(cx).props@).to_set())
                ==> final(cx).errors.len() > 0,
            !names_of(self.callable_names@).contains(name@) && !groups.contains(name@) ==> final(cx).errors.len() > 0,
    {
        let ghost c0 = cx.code@;
        let mut shapes: Vec<Arg> = Vec::new();
        let mut i: usize = 0;
        while i < args.len()
            decreases args.len() - i,
        {
            match &args[i] {
                CallArg::Word(w) => shapes.push(Arg::Word(w.clone())),
                CallArg::Value(_) => shapes.push(Arg::Value),
            }
            i = i + 1;
        }
        match position(&self.callable_names, name) {
            Some(k) => {
                assert(names_of(self.callable_names@)[k as int] == name@);
                if let Err(e) = self.callables[k].check_syntax(&shapes) {
                    cx.errors.push(e);
                }
            },
            None => {
                if !contains_name(&cx.groups, name) {
                    report_name(cx, name, Error::UnregisteredCallable(cx.code.len(), name.clone()));
                }
            },
        }
        let mut pushed: usize = 0;
        let mut i: usize = 0;
        while i < args.len()
            invariant
                cx.inv(),
                unique(names_of(locals@)),
                pushed <= i,
                i <= args.len(),
                pushed == value_count(args@, i as int),
                cx.code@ == c0 + args_ops(args@, i as int, names_of(locals@), names_of(old(cx).props@).to_set()),
                args_fail(args@, i as int, names_of(locals@), names_of(old(cx).props@).to_set())
                    ==> cx.errors.len() > 0,
                !names_of(self.callable_names@).contains(name@) && !groups.contains(name@)
                    ==> cx.errors.len() > 0,
                cx.code.len() >= old(cx).code.len(),
                cx.props@ == old(cx).props@,
                cx.groups@ == old(cx).groups@,
                cx.errors.len() >= old(cx).errors.len(),
            decreases args.len() - i,
        {
            let ghost ci = cx.code@;
            if let CallArg::Value(e) = &args[i] {
                compile_expr(e, locals, cx);
                pushed = pushed + 1;
            }
            assert(cx.code@ =~= c0 + args_ops(args@, i + 1, names_of(locals@), names_of(old(cx).props@).to_set()));
            i = i + 1;
        }
        emit(&mut cx.code, Op::Call(name.clone()));
        let ghost cc = cx.code@;
        let mut d: usize = 0;
        while d < pushed
            invariant
                cx.inv(),
                d <= pushed,
                cx.code@ == cc + pops(d as nat),
                !names_of(self.callable_names@).contains(name@) && !groups.contains(name@)
                    ==> cx.errors.len() > 0,
                args_fail(args@, args.len() as int, names_of(locals@), names_of(old(cx).props@).to_set())
                    ==> cx.errors.len() > 0,
                cx.code.len() >= old(cx).code.len(),
                cx.props@ == old(cx).props@,
                cx.groups@ == old(cx).groups@,
                cx.errors.len() >= old(cx).errors.len(),
            decreases pushed - d,
        {
            emit(&mut cx.code, Op::Pop);
            assert(cx.code@ =~= cc + pops((d + 1) as nat));
            d = d + 1;
        }
        assert(cx.code@ =~= c0 + args_ops(args@, args.len() as int, names_of(locals@), names_of(old(cx).props@).to_set())
            + seq![Op::Call(*name)] + pops(value_count(args@, args.len() as int)));
    }

    /// Compiles a whole script. A program's code is `script_ops` of the
    /// script: expressions left operand first, each statement laid out as in
    /// `stmt_ops` with its jumps patched. A problem the compiler detects by
    /// itself (`script_fails`) always ends in errors, and an error list is
    /// never empty. A program keeps this compiler's capabilities, its jumps
    /// stay in bounds, its labels are unique, and it passes the
    /// interpreter's verification pass.
    pub fn compile(self, ast: Vec<Stmt>) -> (r: Result<Program<C, P>, Vec<Error>>)
        requires
            self.wf(),
        ensures
            match r {
                Ok(p) => p.wf() && p.registry() == self.registry() && targets_in_bounds(
                    p.code_view(),
                ) && report(p.code_view(), p.registry(), p.code_view().len()).0.len() == 0
                    && labels_ok(p.code_view(), p.registry().callables) && p.code_view() == script_ops(
                    self.registry().props,
                    ast,
                ),
                Err(errs) => errs.len() > 0,
            },
            script_fails(self.registry().props, self.registry().callables, ast) ==> r is Err,
            plain_script(ast@, self.registry().props) ==> r is Ok && r->Ok_0.code_view() == scope_ops(
                assigned(Seq::empty(), ast@, ast.len() as int).len(),
            ) + plain_ops(
                ast@,
                assigned(Seq::empty(), ast@, ast.len() as int),
                ast.len() as int,
            ),
    {
        let mut props: Vec<String> = Vec::new();
        let mut i: usize = 0;
        while i < self.prop_names.len()
            invariant
                i <= self.prop_names.len(),
                unique(names_of(props@)),
                forall|x: Seq<char>|
                    #[trigger] names_of(props@).contains(x) ==> names_of(self.prop_names@).contains(x),
                forall|j: int|
                    0 <= j < i ==> names_of(props@).contains(#[trigger] names_of(self.prop_names@)[j]),
            decreases self.prop_names.len() - i,
        {
            add_name(&mut props, &self.prop_names[i]);
            assert(names_of(self.prop_names@)[i as int] == self.prop_names@[i as int]@);
            i = i + 1;
        }
        collect_uses(&ast, &mut props);
        assert(names_of(props@).to_set() =~= known_props(self.registry().props, ast));
        let mut cx = Ctx {
            code: Vec::new(),
            errors: Vec::new(),
            reported: Vec::new(),
            props,
            groups: Vec::new(),
        };
        self.collect_groups(&ast, &mut cx);
        let mut top: Vec<String> = Vec::new();
        proof {
            if plain_script(ast@, self.registry().props) {
                assert forall|i: int| 0 <= i < ast.len() implies #[trigger] ast@[i] is Var
                    && !names_of(cx.props@).contains(ast@[i]->Var_name@) by {
                    assert(ast@[i] is Var);
                }
            }
            assert(names_of(top@) =~= Seq::<Seq<char>>::empty());
        }
        collect_locals(&ast, &cx.props, &mut top);
        assert(unnamed(cx.code@));
        Self::open_scope(&top, &mut cx);
        proof {
            if plain_script(ast@, self.registry().props) {
                assert forall|i: int| 0 <= i < ast.len() implies plain_var(
                    #[trigger] ast@[i],
                    names_of(top@),
                ) by {
                    assert(ast@[i] is Var);
                }
            }
        }
        let ghost before_block = cx.code@;
        assert(cx.code@ =~= scope_ops(top.len() as nat));
        assert(before_block =~= scope_ops(top.len() as nat));
        self.compile_block(&ast, &top, &mut cx, Ghost(uses_groups(ast, ast.len() as int)));
        if cx.errors.len() > 0 {
            return Err(cx.errors);
        }
        let ghost final_code = cx.code@;
        assert(final_code =~= script_ops(self.registry().props, ast));
        proof {
            if plain_script(ast@, self.registry().props) {
                assert forall|i: int| 0 <= i < final_code.len() implies !(#[trigger] final_code[i] is Label) by {
                    assert(unnamed_op(final_code[i]));
                }
            }
        }
        if let Some(e) = check_labels(&cx.code, &self.callable_names) {
            let mut errs: Vec<Error> = Vec::new();
            errs.push(e);
            return Err(errs);
        }
        let program = Program {
            code: cx.code,
            prop_names: self.prop_names,
            props: self.props,
            prop_settable: self.prop_settable,
            callable_names: self.callable_names,
            callables: self.callables,
        };
        let vm: Interpreter<C, P> = Interpreter::from_program(program);
        let issues = vm.verify_externals();
        proof {
            if plain_script(ast@, self.registry().props) {
                lemma_unnamed_passes(final_code, vm.registry(), final_code.len());
            }
        }
        if issues.len() > 0 {
            return Err(issues);
        }
        Ok(vm.into_program())
    }
}

} // verus!
