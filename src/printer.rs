use vstd::prelude::*;

use itertools::Itertools;

use crate::ast::{BinaryOp, CallArg, Expr, GroupKind, LogicalOp, Stmt, UnaryOp};
use crate::interpreter::names_of;
use crate::value::Value;

verus! {

/// The items with `sep` between neighbours.
pub open spec fn joined(parts: Seq<Seq<char>>, sep: Seq<char>) -> Seq<char>
    decreases parts.len(),
{
    if parts.len() == 0 {
        Seq::empty()
    } else if parts.len() == 1 {
        parts[0]
    } else {
        joined(parts.drop_last(), sep) + sep + parts.last()
    }
}

/// Relies on itertools' `Itertools::join`: the first item's text, then the
/// separator and the text of each further item.
#[verifier::external_body]
fn join_with(parts: &Vec<String>, sep: &str) -> (r: String)
    ensures
        r@ == joined(names_of(parts@), sep@),
{
    parts.iter().join(sep)
}

pub open spec fn digit_char(d: nat) -> char {
    if d < 10 { (('0' as u8) + d) as char } else { '?' }
}

pub open spec fn digits(n: nat) -> Seq<char>
    decreases n,
{
    if n < 10 {
        seq![digit_char(n)]
    } else {
        digits(n / 10).push(digit_char(n % 10))
    }
}

/// Decimal notation, with a leading `-` for a negative number.
pub open spec fn decimal(n: int) -> Seq<char> {
    if n < 0 {
        seq!['-'] + digits((-n) as nat)
    } else {
        digits(n as nat)
    }
}

/// Relies on `ToString` for `i64`, through its `Display`: decimal notation,
/// with a leading `-` for a negative number.
#[verifier::external_body]
fn decimal_string(n: i64) -> (r: String)
    ensures
        r@ == decimal(n as int),
{
    n.to_string()
}

pub open spec fn render_value(v: Value) -> Seq<char> {
    match v {
        Value::Number(n) => decimal(n as int),
        Value::String(s) => seq!['\''] + s@ + seq!['\''],
        Value::Bool(b) => if b {
            seq!['t', 'r', 'u', 'e']
        } else {
            seq!['f', 'a', 'l', 's', 'e']
        },
    }
}

pub open spec fn binary_lexeme(op: BinaryOp) -> Seq<char> {
    match op {
        BinaryOp::Add => seq!['+'],
        BinaryOp::Sub => seq!['-'],
        BinaryOp::Mul => seq!['*'],
        BinaryOp::Div => seq!['/'],
        BinaryOp::Mod => seq!['%'],
        BinaryOp::Exp => seq!['^'],
        BinaryOp::Eq => seq!['=', '='],
        BinaryOp::Ne => seq!['!', '='],
        BinaryOp::Lt => seq!['<'],
        BinaryOp::Le => seq!['<', '='],
        BinaryOp::Gt => seq!['>'],
        BinaryOp::Ge => seq!['>', '='],
    }
}

pub open spec fn logical_lexeme(op: LogicalOp) -> Seq<char> {
    match op {
        LogicalOp::And => seq!['a', 'n', 'd'],
        LogicalOp::Or => seq!['o', 'r'],
        LogicalOp::Xor => seq!['x', 'o', 'r'],
    }
}

pub open spec fn unary_lexeme(op: UnaryOp) -> Seq<char> {
    match op {
        UnaryOp::Neg => seq!['-'],
        UnaryOp::Abs => seq!['a', 'b', 's'],
    }
}

/// `n` spaces.
pub open spec fn spaces(n: nat) -> Seq<char> {
    Seq::new(n, |i: int| ' ')
}

/// `(name a b ...)`.
pub open spec fn parenthesized(name: Seq<char>, items: Seq<Seq<char>>) -> Seq<char> {
    seq!['('] + name + seq![' '] + joined(items, seq![' ']) + seq![')']
}

/// An expression as an s-expression.
pub open spec fn render_expr(e: Expr) -> Seq<char>
    decreases e,
{
    match e {
        Expr::Binary(l, op, r) => parenthesized(
            binary_lexeme(op),
            seq![render_expr(*l), render_expr(*r)],
        ),
        Expr::Logical(l, op, r) => parenthesized(
            logical_lexeme(op),
            seq![render_expr(*l), render_expr(*r)],
        ),
        Expr::Unary(op, x) => parenthesized(unary_lexeme(op), seq![render_expr(*x)]),
        Expr::Grouping(x) => parenthesized(seq!['g', 'r', 'o', 'u', 'p'], seq![render_expr(*x)]),
        Expr::Literal(v) => render_value(v),
        Expr::Variable(n) => n@,
    }
}

pub open spec fn kind_name(k: GroupKind) -> Seq<char> {
    match k {
        GroupKind::Sequence => "sequence"@,
        GroupKind::Parallel => "parallel"@,
        GroupKind::Race => "race"@,
    }
}

pub open spec fn arg_text(a: CallArg) -> Seq<char> {
    match a {
        CallArg::Word(w) => w@,
        CallArg::Value(e) => render_expr(e),
    }
}

/// A statement as an s-expression; `pad` is the indentation of the line it
/// stands on, and the statements of its blocks go on lines of their own,
/// indented two more spaces.
pub open spec fn render_stmt(s: Stmt, pad: Seq<char>) -> Seq<char>
    decreases s, 0int,
{
    match s {
        Stmt::Group { name, kind, params, body } => "("@ + kind_name(kind) + "-group "@ + name@
            + " "@ + joined(names_of(params@), " "@) + "\n"@ + render_lines(
            body,
            body.len() as int,
            pad + "  "@,
        ) + ")"@,
        Stmt::Use { name } => "("@ + "use "@ + name@ + ")"@,
        Stmt::If { condition, invert, then_branch, else_branch } => {
            let keyword = if invert { "unless"@ } else { "if"@ };
            let then_body = render_lines(then_branch, then_branch.len() as int, pad + "  "@);
            if else_branch.len() == 0 {
                "("@ + keyword + " "@ + render_expr(condition) + " "@ + then_body + ")"@
            } else {
                "("@ + keyword + " "@ + render_expr(condition) + " \n"@ + then_body + "\n"@
                    + render_lines(else_branch, else_branch.len() as int, pad + "  "@) + ")"@
            }
        },
        Stmt::While { condition, invert, body } => "("@ + (if invert {
            "until"@
        } else {
            "while"@
        }) + " "@ + render_expr(condition) + "\n"@ + render_lines(
            body,
            body.len() as int,
            pad + "  "@,
        ) + ")"@,
        Stmt::Exec { name, args } => "("@ + "call "@ + name@ + " "@ + joined(
            args@.map_values(|a: CallArg| arg_text(a)),
            " "@,
        ) + ")"@,
        Stmt::Var { name, value } => "("@ + "set "@ + name@ + " "@ + render_expr(value) + ")"@,
    }
}

/// The first `k` statements of `v`, one per line, each after `pad`.
pub open spec fn render_lines(v: Vec<Stmt>, k: int, pad: Seq<char>) -> Seq<char>
    decreases v, k,
{
    if k <= 0 || k > v.len() {
        Seq::empty()
    } else if k == 1 {
        pad + render_stmt(v@[0], pad)
    } else {
        render_lines(v, k - 1, pad) + "\n"@ + pad + render_stmt(v@[k - 1], pad)
    }
}

/// Renders syntax as indented s-expressions, for debugging.
pub struct AstPrinter {
    pub indent: usize,
}

fn text(s: &str) -> (r: String)
    ensures
        r@ == s@,
{
    s.to_owned()
}

fn binary_text(op: BinaryOp) -> (r: String)
    ensures
        r@ == binary_lexeme(op),
{
    let s = match op {
        BinaryOp::Add => "+",
        BinaryOp::Sub => "-",
        BinaryOp::Mul => "*",
        BinaryOp::Div => "/",
        BinaryOp::Mod => "%",
        BinaryOp::Exp => "^",
        BinaryOp::Eq => "==",
        BinaryOp::Ne => "!=",
        BinaryOp::Lt => "<",
        BinaryOp::Le => "<=",
        BinaryOp::Gt => ">",
        BinaryOp::Ge => ">=",
    };
    proof {
        reveal_strlit("+");
        reveal_strlit("-");
        reveal_strlit("*");
        reveal_strlit("/");
        reveal_strlit("%");
        reveal_strlit("^");
        reveal_strlit("==");
        reveal_strlit("!=");
        reveal_strlit("<");
        reveal_strlit("<=");
        reveal_strlit(">");
        reveal_strlit(">=");
    }
    let r = text(s);
    assert(r@ =~= binary_lexeme(op));
    r
}

fn logical_text(op: LogicalOp) -> (r: String)
    ensures
        r@ == logical_lexeme(op),
{
    let s = match op {
        LogicalOp::And => "and",
        LogicalOp::Or => "or",
        LogicalOp::Xor => "xor",
    };
    proof {
        reveal_strlit("and");
        reveal_strlit("or");
        reveal_strlit("xor");
    }
    let r = text(s);
    assert(r@ =~= logical_lexeme(op));
    r
}

fn unary_text(op: UnaryOp) -> (r: String)
    ensures
        r@ == unary_lexeme(op),
{
    let s = match op {
        UnaryOp::Neg => "-",
        UnaryOp::Abs => "abs",
    };
    proof {
        reveal_strlit("-");
        reveal_strlit("abs");
    }
    let r = text(s);
    assert(r@ =~= unary_lexeme(op));
    r
}

fn value_text(v: &Value) -> (r: String)
    ensures
        r@ == render_value(*v),
{
    match v {
        Value::Number(n) => decimal_string(*n),
        Value::String(s) => {
            proof {
                reveal_strlit("'");
            }
            let mut r = text("'");
            r.append(s.as_str());
            r.append("'");
            assert(r@ =~= render_value(*v));
            r
        },
        Value::Bool(b) => {
            proof {
                reveal_strlit("true");
                reveal_strlit("false");
            }
            let r = if *b { text("true") } else { text("false") };
            assert(r@ =~= render_value(*v));
            r
        },
    }
}

/// `(name a b ...)` from parts already rendered.
fn wrap(name: &str, parts: &Vec<String>) -> (r: String)
    ensures
        r@ == parenthesized(name@, names_of(parts@)),
{
    proof {
        reveal_strlit("(");
        reveal_strlit(" ");
        reveal_strlit(")");
        assert("("@ =~= seq!['(']);
        assert(" "@ =~= seq![' ']);
        assert(")"@ =~= seq![')']);
    }
    let mut r = text("(");
    r.append(name);
    r.append(" ");
    let body = join_with(parts, " ");
    r.append(body.as_str());
    r.append(")");
    assert(r@ =~= parenthesized(name@, names_of(parts@)));
    r
}

impl AstPrinter {
    /// `(name a b ...)` with each argument rendered.
    pub fn parenthesize(&self, name: &str, args: &Vec<&Expr>) -> (r: String)
        ensures
            r@ == parenthesized(name@, args@.map_values(|e: &Expr| render_expr(*e))),
    {
        let mut parts: Vec<String> = Vec::new();
        let mut i: usize = 0;
        while i < args.len()
            invariant
                i <= args.len(),
                names_of(parts@) == args@.subrange(0, i as int).map_values(
                    |e: &Expr| render_expr(*e),
                ),
            decreases args.len() - i,
        {
            let piece = self.visit_expr(args[i]);
            let ghost before = names_of(parts@);
            parts.push(piece);
            assert(names_of(parts@) =~= before.push(render_expr(*args@[i as int])));
            assert(args@.subrange(0, i + 1).map_values(|e: &Expr| render_expr(*e))
                =~= args@.subrange(0, i as int).map_values(|e: &Expr| render_expr(*e)).push(
                render_expr(*args@[i as int]),
            ));
            i = i + 1;
        }
        assert(args@.subrange(0, args.len() as int) =~= args@);
        wrap(name, &parts)
    }

    /// Two spaces per level of indentation.
    pub fn indent(&self) -> (r: String)
        ensures
            r@ == spaces(2 * self.indent as nat),
    {
        let mut r = String::new();
        let mut i: usize = 0;
        while i < self.indent
            invariant
                i <= self.indent,
                r@.len() == 2 * i,
                forall|k: int| 0 <= k < r@.len() ==> r@[k] == ' ',
            decreases self.indent - i,
        {
            proof {
                reveal_strlit("  ");
                assert("  "@ =~= seq![' ', ' ']);
            }
            r.append("  ");
            i = i + 1;
        }
        assert(r@ =~= spaces(2 * self.indent as nat));
        r
    }

    /// A statement at this printer's indentation.
    pub fn visit_stmt(&self, s: &Stmt) -> (r: String)
        ensures
            r@ == render_stmt(*s, spaces(2 * self.indent as nat)),
    {
        let pad = self.indent();
        self.stmt_text(s, &pad)
    }

    fn lines_text(&self, v: &Vec<Stmt>, pad: &String) -> (r: String)
        ensures
            r@ == render_lines(*v, v.len() as int, pad@),
        decreases v,
    {
        let mut r = String::new();
        let mut i: usize = 0;
        while i < v.len()
            invariant
                i <= v.len(),
                r@ == render_lines(*v, i as int, pad@),
            decreases v.len() - i,
        {
            assert(decreases_to!(v => v@[i as int]));
            let line = self.stmt_text(&v[i], pad);
            if i > 0 {
                r.append("\n");
            }
            r.append(pad.as_str());
            r.append(line.as_str());
            i = i + 1;
        }
        r
    }

    fn args_text(&self, args: &Vec<CallArg>) -> (r: String)
        ensures
            r@ == joined(args@.map_values(|a: CallArg| arg_text(a)), " "@),
    {
        let mut parts: Vec<String> = Vec::new();
        let mut i: usize = 0;
        while i < args.len()
            invariant
                i <= args.len(),
                names_of(parts@) == args@.subrange(0, i as int).map_values(
                    |a: CallArg| arg_text(a),
                ),
            decreases args.len() - i,
        {
            let piece = match &args[i] {
                CallArg::Word(w) => w.clone(),
                CallArg::Value(e) => self.visit_expr(e),
            };
            let ghost before = names_of(parts@);
            parts.push(piece);
            assert(names_of(parts@) =~= before.push(arg_text(args@[i as int])));
            assert(args@.subrange(0, i + 1).map_values(|a: CallArg| arg_text(a))
                =~= args@.subrange(0, i as int).map_values(|a: CallArg| arg_text(a)).push(
                arg_text(args@[i as int]),
            ));
            i = i + 1;
        }
        assert(args@.subrange(0, args.len() as int) =~= args@);
        join_with(&parts, " ")
    }

    fn stmt_text(&self, s: &Stmt, pad: &String) -> (r: String)
        ensures
            r@ == render_stmt(*s, pad@),
        decreases s,
    {
        let mut inner = pad.clone();
        inner.append("  ");
        let mut r = text("(");
        match s {
            Stmt::Group { name, kind, params, body } => {
                r.append(
                    match kind {
                        GroupKind::Sequence => "sequence",
                        GroupKind::Parallel => "parallel",
                        GroupKind::Race => "race",
                    },
                );
                r.append("-group ");
                r.append(name.as_str());
                r.append(" ");
                r.append(join_with(params, " ").as_str());
                r.append("\n");
                r.append(self.lines_text(body, &inner).as_str());
            },
            Stmt::Use { name } => {
                r.append("use ");
                r.append(name.as_str());
            },
            Stmt::If { condition, invert, then_branch, else_branch } => {
                r.append(if *invert { "unless" } else { "if" });
                r.append(" ");
                r.append(self.visit_expr(condition).as_str());
                if else_branch.len() == 0 {
                    r.append(" ");
                    r.append(self.lines_text(then_branch, &inner).as_str());
                } else {
                    r.append(" \n");
                    r.append(self.lines_text(then_branch, &inner).as_str());
                    r.append("\n");
                    r.append(self.lines_text(else_branch, &inner).as_str());
                }
            },
            Stmt::While { condition, invert, body } => {
                r.append(if *invert { "until" } else { "while" });
                r.append(" ");
                r.append(self.visit_expr(condition).as_str());
                r.append("\n");
                r.append(self.lines_text(body, &inner).as_str());
            },
            Stmt::Exec { name, args } => {
                r.append("call ");
                r.append(name.as_str());
                r.append(" ");
                r.append(self.args_text(args).as_str());
            },
            Stmt::Var { name, value } => {
                r.append("set ");
                r.append(name.as_str());
                r.append(" ");
                r.append(self.visit_expr(value).as_str());
            },
        }
        r.append(")");
        r
    }

    pub fn visit_expr(&self, e: &Expr) -> (r: String)
        ensures
            r@ == render_expr(*e),
        decreases e,
    {
        match e {
            Expr::Binary(l, op, r) => {
                let parts = vec![self.visit_expr(l), self.visit_expr(r)];
                let name = binary_text(*op);
                assert(names_of(parts@) =~= seq![render_expr(**l), render_expr(**r)]);
                wrap(name.as_str(), &parts)
            },
            Expr::Logical(l, op, r) => {
                let parts = vec![self.visit_expr(l), self.visit_expr(r)];
                let name = logical_text(*op);
                assert(names_of(parts@) =~= seq![render_expr(**l), render_expr(**r)]);
                wrap(name.as_str(), &parts)
            },
            Expr::Unary(op, x) => {
                let parts = vec![self.visit_expr(x)];
                let name = unary_text(*op);
                assert(names_of(parts@) =~= seq![render_expr(**x)]);
                wrap(name.as_str(), &parts)
            },
            Expr::Grouping(x) => {
                let parts = vec![self.visit_expr(x)];
                proof {
                    reveal_strlit("group");
                }
                let name = text("group");
                assert(name@ =~= seq!['g', 'r', 'o', 'u', 'p']);
                assert(names_of(parts@) =~= seq![render_expr(**x)]);
                wrap(name.as_str(), &parts)
            },
            Expr::Literal(v) => value_text(v),
            Expr::Variable(n) => n.clone(),
        }
    }
}

} // verus!
