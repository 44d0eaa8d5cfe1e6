use std::cell::RefCell;
use std::rc::Rc;

use ai_compiler::{
    AiCompiler, Arg, AstPrinter, ArithFault, BinaryOp, CallArg, Callable, Compiler, Error, Expr, GroupKind,
    Interpreter, InterpreterState, LogicalOp, Op, Prop, Stmt, TypeExpectation, UnaryOp, Value,
};

type Log = Rc<RefCell<Vec<String>>>;

fn new_log() -> Log {
    Rc::new(RefCell::new(Vec::new()))
}

fn entries(log: &Log) -> Vec<String> {
    log.borrow().clone()
}

/// A host action that records its name; it stays pending for `pending` ticks.
struct Action {
    name: String,
    log: Log,
    pending: u32,
    wants_degrees: bool,
}

fn action(name: &str, log: &Log) -> Action {
    Action { name: name.to_string(), log: log.clone(), pending: 0, wants_degrees: false }
}

impl Callable for Action {
    fn call(&mut self) -> bool {
        if self.pending > 0 {
            self.pending -= 1;
            return false;
        }
        self.log.borrow_mut().push(self.name.clone());
        true
    }

    fn check_syntax(&self, args: &Vec<Arg>) -> Result<(), Error> {
        if !self.wants_degrees {
            return Ok(());
        }
        if args.is_empty() || !args[0].is_value() {
            return Err(Error::Call("Expected first arg to be a number".to_string()));
        }
        if args.len() != 2 || args[1].get_word().map(|w| w.as_str() != "degrees").unwrap_or(true) {
            return Err(Error::Call("Expected literal word 'degrees'".to_string()));
        }
        Ok(())
    }
}

/// A host value that records every write.
struct Cell {
    name: String,
    value: Value,
    settable: bool,
    log: Log,
}

fn cell(name: &str, value: Value, log: &Log) -> Cell {
    Cell { name: name.to_string(), value, settable: true, log: log.clone() }
}

impl Prop for Cell {
    fn get(&self) -> Value {
        self.value.clone()
    }

    fn set(&mut self, v: Value) {
        let shown = match &v {
            Value::Number(n) => n.to_string(),
            Value::String(s) => format!("{:?}", s),
            Value::Bool(b) => b.to_string(),
        };
        self.log.borrow_mut().push(format!("{} = {}", self.name, shown));
        self.value = v;
    }

    fn settable(&self) -> bool {
        self.settable
    }
}

fn num(n: i64) -> Expr {
    Expr::Literal(Value::Number(n))
}

fn text(s: &str) -> Expr {
    Expr::Literal(Value::String(s.to_string()))
}

fn var(n: &str) -> Expr {
    Expr::Variable(n.to_string())
}

fn bin(l: Expr, op: BinaryOp, r: Expr) -> Expr {
    Expr::Binary(Box::new(l), op, Box::new(r))
}

fn assign(n: &str, value: Expr) -> Stmt {
    Stmt::Var { name: n.to_string(), value }
}

fn exec(n: &str, args: Vec<CallArg>) -> Stmt {
    Stmt::Exec { name: n.to_string(), args }
}

fn use_prop(n: &str) -> Stmt {
    Stmt::Use { name: n.to_string() }
}

/// Compiles `ast` with an `out` property, runs it, and returns what was written.
fn run_with_out(ast: Vec<Stmt>) -> Result<Vec<String>, Error> {
    let log = new_log();
    let mut c: AiCompiler<Action, Cell> = AiCompiler::new();
    c.register_property("out", cell("out", Value::Number(0), &log)).unwrap();
    let mut vm = match c.convert(ast) {
        Ok(vm) => vm,
        Err(errs) => panic!("compile errors: {:?}", errs),
    };
    let done = vm.interpret(10_000)?;
    assert!(done);
    Ok(entries(&log))
}

#[test]
fn subtraction_is_left_minus_right() {
    let out = run_with_out(vec![assign("out", bin(num(10), BinaryOp::Sub, num(3)))]).unwrap();
    assert_eq!(out, vec!["out = 7".to_string()]);
    let out = run_with_out(vec![assign("out", bin(num(3), BinaryOp::Sub, num(10)))]).unwrap();
    assert_eq!(out, vec!["out = -7".to_string()]);
}

#[test]
fn non_commutative_operators_keep_order() {
    let cases = vec![
        (BinaryOp::Div, 20, 4, "out = 5"),
        (BinaryOp::Mod, 17, 5, "out = 2"),
        (BinaryOp::Exp, 2, 10, "out = 1024"),
        (BinaryOp::Lt, 1, 2, "out = true"),
        (BinaryOp::Gt, 1, 2, "out = false"),
        (BinaryOp::Le, 2, 2, "out = true"),
        (BinaryOp::Ge, 1, 2, "out = false"),
    ];
    for (op, a, b, want) in cases {
        let out = run_with_out(vec![assign("out", bin(num(a), op, num(b)))]).unwrap();
        assert_eq!(out, vec![want.to_string()]);
    }
}

#[test]
fn truncating_division_and_remainder() {
    let out = run_with_out(vec![assign("out", bin(num(-7), BinaryOp::Div, num(2)))]).unwrap();
    assert_eq!(out, vec!["out = -3".to_string()]);
    let out = run_with_out(vec![assign("out", bin(num(-7), BinaryOp::Mod, num(2)))]).unwrap();
    assert_eq!(out, vec!["out = -1".to_string()]);
    let out = run_with_out(vec![assign("out", bin(num(i64::MIN), BinaryOp::Mod, num(-1)))]).unwrap();
    assert_eq!(out, vec!["out = 0".to_string()]);
}

#[test]
fn string_concatenation_is_left_then_right() {
    let out = run_with_out(vec![assign("out", bin(text("foo"), BinaryOp::Add, text("bar")))]).unwrap();
    assert_eq!(out, vec!["out = \"foobar\"".to_string()]);
}

#[test]
fn number_addition() {
    let out = run_with_out(vec![assign("out", bin(num(1), BinaryOp::Add, num(2)))]).unwrap();
    assert_eq!(out, vec!["out = 3".to_string()]);
}

#[test]
fn number_plus_string_names_right_operand() {
    let r = run_with_out(vec![assign("out", bin(num(1), BinaryOp::Add, text("x")))]);
    assert!(matches!(r, Err(Error::Type(TypeExpectation::RightNumber))));
    let r = run_with_out(vec![assign("out", bin(text("x"), BinaryOp::Add, num(1)))]);
    assert!(matches!(r, Err(Error::Type(TypeExpectation::RightString))));
    let r = run_with_out(vec![assign(
        "out",
        bin(Expr::Literal(Value::Bool(true)), BinaryOp::Add, num(1)),
    )]);
    assert!(matches!(r, Err(Error::Type(TypeExpectation::LeftNumberOrString))));
    let r = run_with_out(vec![assign("out", bin(text("a"), BinaryOp::Sub, num(1)))]);
    assert!(matches!(r, Err(Error::Type(TypeExpectation::BothNumbers))));
}

#[test]
fn arithmetic_faults() {
    let r = run_with_out(vec![assign("out", bin(num(1), BinaryOp::Div, num(0)))]);
    assert!(matches!(r, Err(Error::Arithmetic(_, ArithFault::DivisionByZero))));
    let r = run_with_out(vec![assign("out", bin(num(1), BinaryOp::Mod, num(0)))]);
    assert!(matches!(r, Err(Error::Arithmetic(_, ArithFault::DivisionByZero))));
    let r = run_with_out(vec![assign("out", bin(num(i64::MAX), BinaryOp::Add, num(1)))]);
    assert!(matches!(r, Err(Error::Arithmetic(_, ArithFault::Overflow))));
    let r = run_with_out(vec![assign("out", bin(num(2), BinaryOp::Exp, num(64)))]);
    assert!(matches!(r, Err(Error::Arithmetic(_, ArithFault::Overflow))));
    let r = run_with_out(vec![assign("out", bin(num(2), BinaryOp::Exp, num(-1)))]);
    assert!(matches!(r, Err(Error::Arithmetic(_, ArithFault::NegativeExponent))));
    let out = run_with_out(vec![assign("out", bin(num(-2), BinaryOp::Exp, num(63)))]).unwrap();
    assert_eq!(out, vec![format!("out = {}", i64::MIN)]);
    let out = run_with_out(vec![assign("out", bin(num(-1), BinaryOp::Exp, num(i64::MAX)))]).unwrap();
    assert_eq!(out, vec!["out = -1".to_string()]);
}

#[test]
fn unary_and_logical_operators() {
    let out = run_with_out(vec![assign("out", Expr::Unary(UnaryOp::Neg, Box::new(num(5))))]).unwrap();
    assert_eq!(out, vec!["out = -5".to_string()]);
    let out = run_with_out(vec![assign("out", Expr::Unary(UnaryOp::Abs, Box::new(num(-5))))]).unwrap();
    assert_eq!(out, vec!["out = 5".to_string()]);
    let r = run_with_out(vec![assign("out", Expr::Unary(UnaryOp::Neg, Box::new(text("a"))))]);
    assert!(matches!(r, Err(Error::Type(TypeExpectation::NumberOperand))));
    let xor = Expr::Logical(Box::new(num(1)), LogicalOp::Xor, Box::new(text("")));
    let out = run_with_out(vec![assign("out", xor)]).unwrap();
    assert_eq!(out, vec!["out = true".to_string()]);
    let and = Expr::Logical(Box::new(num(1)), LogicalOp::And, Box::new(num(0)));
    let out = run_with_out(vec![assign("out", and)]).unwrap();
    assert_eq!(out, vec!["out = false".to_string()]);
    let eq = bin(text("a"), BinaryOp::Eq, text("a"));
    let out = run_with_out(vec![assign("out", eq)]).unwrap();
    assert_eq!(out, vec!["out = true".to_string()]);
}

#[test]
fn locals_if_else_and_while() {
    // i = 0; sum = 0; while i < 4 { i = i + 1; sum = sum + i; }
    // if sum == 10 { out = sum } else { out = 0 }
    let ast = vec![
        assign("i", num(0)),
        assign("sum", num(0)),
        Stmt::While {
            condition: bin(var("i"), BinaryOp::Lt, num(4)),
            invert: false,
            body: vec![
                assign("i", bin(var("i"), BinaryOp::Add, num(1))),
                assign("sum", bin(var("sum"), BinaryOp::Add, var("i"))),
            ],
        },
        Stmt::If {
            condition: bin(var("sum"), BinaryOp::Eq, num(10)),
            invert: false,
            then_branch: vec![assign("out", var("sum"))],
            else_branch: vec![assign("out", num(0))],
        },
        Stmt::If {
            condition: bin(var("sum"), BinaryOp::Eq, num(10)),
            invert: true,
            then_branch: vec![assign("out", num(-1))],
            else_branch: vec![],
        },
    ];
    assert_eq!(run_with_out(ast).unwrap(), vec!["out = 10".to_string()]);
}

#[test]
fn until_loop_runs_while_false() {
    let ast = vec![
        assign("n", num(0)),
        Stmt::While {
            condition: bin(var("n"), BinaryOp::Eq, num(3)),
            invert: true,
            body: vec![assign("n", bin(var("n"), BinaryOp::Add, num(1)))],
        },
        assign("out", var("n")),
    ];
    assert_eq!(run_with_out(ast).unwrap(), vec!["out = 3".to_string()]);
}

#[test]
fn sequential_group_runs_in_order_and_returns() {
    let log = new_log();
    let mut c: AiCompiler<Action, Cell> = AiCompiler::new();
    c.register_property("x", cell("x", Value::Number(0), &log)).unwrap();
    c.register_callable("call_a", action("call_a", &log)).unwrap();
    c.register_callable("call_b", action("call_b", &log)).unwrap();
    c.register_callable("after", action("after", &log)).unwrap();
    let ast = vec![
        Stmt::Group {
            name: "g".to_string(),
            kind: GroupKind::Sequence,
            params: vec![],
            body: vec![assign("x", num(1)), exec("call_a", vec![]), exec("call_b", vec![])],
        },
        exec("g", vec![]),
        exec("after", vec![]),
    ];
    let mut vm = c.convert(ast).unwrap();
    assert!(vm.interpret(1000).unwrap());
    assert_eq!(
        entries(&log),
        vec!["x = 1".to_string(), "call_a".to_string(), "call_b".to_string(), "after".to_string()]
    );
}

#[test]
fn group_locals_are_frame_relative() {
    // A local of the group and a local of the top level both use slot 0.
    let log = new_log();
    let mut c: AiCompiler<Action, Cell> = AiCompiler::new();
    c.register_property("out", cell("out", Value::Number(0), &log)).unwrap();
    let ast = vec![
        assign("a", num(5)),
        Stmt::Group {
            name: "g".to_string(),
            kind: GroupKind::Sequence,
            params: vec![],
            body: vec![assign("b", num(7)), assign("out", var("b"))],
        },
        exec("g", vec![]),
        assign("out", var("a")),
    ];
    let mut vm = c.convert(ast).unwrap();
    assert!(vm.interpret(1000).unwrap());
    assert_eq!(entries(&log), vec!["out = 7".to_string(), "out = 5".to_string()]);
}

#[test]
fn pending_callable_yields() {
    let log = new_log();
    let mut vm: Interpreter<Action, Cell> = Interpreter::new(vec![Op::Call("move".to_string())]);
    let mut a = action("move", &log);
    a.pending = 1;
    vm.register_callable("move", a).unwrap();
    assert!(matches!(vm.step(), Ok(InterpreterState::Yield)));
    assert!(entries(&log).is_empty());
    assert!(matches!(vm.step(), Ok(InterpreterState::Stop)));
}

#[test]
fn missing_degrees_is_a_compile_error() {
    let log = new_log();
    let mut c: AiCompiler<Action, Cell> = AiCompiler::new();
    let mut right = action("right", &log);
    right.wants_degrees = true;
    c.register_callable("right", right).unwrap();
    let ast = vec![exec(
        "right",
        vec![CallArg::Value(num(90)), CallArg::Word("degree".to_string())],
    )];
    match c.compile(ast) {
        Err(errs) => {
            assert_eq!(errs.len(), 1);
            assert!(matches!(&errs[0], Error::Call(_)));
        },
        Ok(_) => panic!("expected a call-syntax error"),
    }
}

#[test]
fn degrees_call_compiles_and_runs() {
    let log = new_log();
    let mut c: AiCompiler<Action, Cell> = AiCompiler::new();
    let mut right = action("right", &log);
    right.wants_degrees = true;
    c.register_callable("right", right).unwrap();
    let ast = vec![exec(
        "right",
        vec![CallArg::Value(num(90)), CallArg::Word("degrees".to_string())],
    )];
    let program = c.compile(ast).unwrap();
    let code = program.code();
    assert!(matches!(code.last(), Some(Op::Pop)));
    assert!(matches!(code[code.len() - 2], Op::Call(_)));
    let mut vm = Interpreter::from_program(program);
    assert!(vm.interpret(100).unwrap());
    assert_eq!(entries(&log), vec!["right".to_string()]);
}

#[test]
fn unregistered_names_reported_once_by_verification() {
    let code = vec![
        Op::GetProp("speed".to_string()),
        Op::Push(Value::Number(1)),
        Op::SetProp("speed".to_string()),
        Op::Call("jump".to_string()),
        Op::GetProp("speed".to_string()),
        Op::Call("jump".to_string()),
        Op::Call("speed".to_string()),
    ];
    let mut vm: Interpreter<Action, Cell> = Interpreter::new(code);
    let errs = vm.verify_externals();
    assert_eq!(errs.len(), 2);
    assert!(matches!(&errs[0], Error::UnregisteredProperty(0, n) if n == "speed"));
    assert!(matches!(&errs[1], Error::UnregisteredCallable(3, n) if n == "jump"));
    assert!(matches!(vm.step(), Err(Error::UnregisteredProperty(0, _))));
}

#[test]
fn unregistered_names_reported_once_by_compiler() {
    let mut c: AiCompiler<Action, Cell> = AiCompiler::new();
    let ast = vec![
        use_prop("speed"),
        assign("speed", num(1)),
        exec("jump", vec![]),
        assign("x", var("speed")),
        exec("jump", vec![]),
        assign("y", bin(var("ghost"), BinaryOp::Add, var("ghost"))),
    ];
    match c.compile(ast) {
        Err(errs) => {
            assert_eq!(errs.len(), 3);
            assert!(matches!(&errs[0], Error::UnregisteredProperty(_, n) if n == "speed"));
            assert!(matches!(&errs[1], Error::UnregisteredCallable(_, n) if n == "jump"));
            assert!(matches!(&errs[2], Error::UnresolvedVariable(n) if n == "ghost"));
        },
        Ok(_) => panic!("expected errors"),
    }
}

#[test]
fn duplicate_registrations_are_rejected() {
    let log = new_log();
    let mut vm: Interpreter<Action, Cell> =
        Interpreter::new(vec![Op::Label("g".to_string()), Op::Return]);
    assert!(matches!(vm.register_callable("g", action("g", &log)), Err(Error::DuplicateCallable(n)) if n == "g"));
    vm.register_callable("a", action("a", &log)).unwrap();
    assert!(matches!(vm.register_callable("a", action("a2", &log)), Err(Error::DuplicateCallable(_))));
    vm.register_property("p", cell("p", Value::Number(1), &log)).unwrap();
    assert!(matches!(vm.register_property("p", cell("p", Value::Number(2), &log)), Err(Error::DuplicateProperty(_))));
    assert!(matches!(vm.register_property("a", cell("a", Value::Number(2), &log)), Err(Error::DuplicateProperty(_))));
    assert!(matches!(vm.register_callable("p", action("p", &log)), Err(Error::DuplicateCallable(_))));

    let mut c: Compiler<Action, Cell> = Compiler::new();
    c.register_callable("a", action("a", &log)).unwrap();
    assert!(matches!(c.register_callable("a", action("a", &log)), Err(Error::DuplicateCallable(_))));
    assert!(matches!(c.register_property("a", cell("a", Value::Number(0), &log)), Err(Error::DuplicateProperty(_))));
}

#[test]
fn group_name_colliding_with_callable_is_rejected() {
    let log = new_log();
    let mut c: AiCompiler<Action, Cell> = AiCompiler::new();
    c.register_callable("g", action("g", &log)).unwrap();
    let ast = vec![Stmt::Group {
        name: "g".to_string(),
        kind: GroupKind::Sequence,
        params: vec![],
        body: vec![],
    }];
    match c.compile(ast) {
        Err(errs) => assert!(matches!(&errs[0], Error::DuplicateGroup(n) if n == "g")),
        Ok(_) => panic!("expected a duplicate group"),
    }
}

#[test]
fn registration_refused_while_running() {
    let log = new_log();
    let mut vm: Interpreter<Action, Cell> = Interpreter::new(vec![Op::Push(Value::Number(1))]);
    assert!(matches!(vm.step(), Ok(InterpreterState::Continue)));
    assert!(matches!(vm.register_callable("a", action("a", &log)), Err(Error::InterpreterActive)));
    assert!(matches!(vm.register_property("p", cell("p", Value::Number(1), &log)), Err(Error::InterpreterActive)));
    vm.reset();
    assert!(vm.register_callable("a", action("a", &log)).is_ok());
}

#[test]
fn stop_is_stable_until_reset() {
    let log = new_log();
    let mut vm: Interpreter<Action, Cell> =
        Interpreter::new(vec![Op::Push(Value::Number(1)), Op::Call("a".to_string())]);
    vm.register_callable("a", action("a", &log)).unwrap();
    assert!(matches!(vm.step(), Ok(InterpreterState::Continue)));
    assert!(matches!(vm.step(), Ok(InterpreterState::Continue)));
    for _ in 0..5 {
        assert!(matches!(vm.step(), Ok(InterpreterState::Stop)));
    }
    assert_eq!(entries(&log), vec!["a".to_string()]);
    vm.reset();
    assert!(vm.interpret(10).unwrap());
    assert_eq!(entries(&log), vec!["a".to_string(), "a".to_string()]);
}

#[test]
fn runtime_stack_errors() {
    let mut vm: Interpreter<Action, Cell> = Interpreter::new(vec![Op::Add]);
    assert!(matches!(vm.step(), Err(Error::StackUnderflow(0))));
    let mut vm: Interpreter<Action, Cell> = Interpreter::new(vec![Op::Load(3)]);
    assert!(matches!(vm.step(), Err(Error::IndexOutOfBounds(0))));
    let mut vm: Interpreter<Action, Cell> =
        Interpreter::new(vec![Op::Push(Value::Number(1)), Op::Store(0)]);
    assert!(matches!(vm.step(), Ok(InterpreterState::Continue)));
    assert!(matches!(vm.step(), Err(Error::IndexOutOfBounds(1))));
    let mut vm: Interpreter<Action, Cell> = Interpreter::new(vec![Op::Dup]);
    assert!(matches!(vm.step(), Err(Error::StackUnderflow(0))));
}

#[test]
fn unsettable_and_invalid_calls_fail_verification() {
    let log = new_log();
    let mut vm: Interpreter<Action, Cell> = Interpreter::new(vec![
        Op::Push(Value::Number(1)),
        Op::SetProp("ro".to_string()),
        Op::CallParallel("nowhere".to_string()),
        Op::CallRace("nowhere".to_string()),
    ]);
    let mut ro = cell("ro", Value::Number(0), &log);
    ro.settable = false;
    vm.register_property("ro", ro).unwrap();
    let errs = vm.verify_externals();
    assert_eq!(errs.len(), 2);
    assert!(matches!(&errs[0], Error::UnsettableProperty(1, n) if n == "ro"));
    assert!(matches!(&errs[1], Error::InvalidCall(2)));
}

#[test]
fn parallel_and_race_calls_are_refused() {
    let log = new_log();
    let code = vec![
        Op::Jump(3),
        Op::Label("g".to_string()),
        Op::Return,
        Op::CallParallel("g".to_string()),
        Op::CallRace("g".to_string()),
        Op::Call("done".to_string()),
    ];
    let mut vm: Interpreter<Action, Cell> = Interpreter::new(code);
    vm.register_callable("done", action("done", &log)).unwrap();
    assert!(matches!(vm.interpret(100), Err(Error::InvalidCall(3))));
    assert!(entries(&log).is_empty());
}

#[test]
fn interpret_stops_when_fuel_runs_out() {
    let mut vm: Interpreter<Action, Cell> = Interpreter::new(vec![Op::Jump(0)]);
    assert!(!vm.interpret(50).unwrap());
}

#[test]
fn property_reads_push_the_value() {
    let log = new_log();
    let mut c: AiCompiler<Action, Cell> = AiCompiler::new();
    c.register_property("angle", cell("angle", Value::Number(42), &log)).unwrap();
    c.register_property("out", cell("out", Value::Number(0), &log)).unwrap();
    let ast = vec![use_prop("angle"), assign("out", bin(var("angle"), BinaryOp::Mul, num(2)))];
    let mut vm = c.convert(ast).unwrap();
    assert!(vm.interpret(100).unwrap());
    assert_eq!(entries(&log), vec!["out = 84".to_string()]);
}

#[test]
fn compile_consumes_registrations() {
    let log = new_log();
    let mut c: AiCompiler<Action, Cell> = AiCompiler::new();
    c.register_callable("a", action("a", &log)).unwrap();
    assert!(c.compile(vec![exec("a", vec![])]).is_ok());
    assert!(c.compile(vec![exec("a", vec![])]).is_err());
}

#[test]
fn type_expectation_messages() {
    assert_eq!(TypeExpectation::RightNumber.message(), "Right operand must be a number");
    assert_eq!(TypeExpectation::BothNumbers.message(), "Both operands must be numbers");
}

#[test]
fn printer_renders_expressions_as_s_expressions() {
    let p = AstPrinter { indent: 0 };
    let e = bin(num(1), BinaryOp::Add, bin(var("x"), BinaryOp::Mul, num(-3)));
    assert_eq!(p.visit_expr(&e), "(+ 1 (* x -3))");
    let g = Expr::Grouping(Box::new(Expr::Unary(UnaryOp::Abs, Box::new(text("a b")))));
    assert_eq!(p.visit_expr(&g), "(group (abs 'a b'))");
    let l = Expr::Logical(Box::new(Expr::Literal(Value::Bool(true))), LogicalOp::Or, Box::new(num(0)));
    assert_eq!(p.visit_expr(&l), "(or true 0)");
}

#[test]
fn printer_parenthesize_joins_with_spaces() {
    let p = AstPrinter { indent: 0 };
    let a = num(12);
    let b = var("y");
    let c = text("z");
    assert_eq!(p.parenthesize("call", &vec![&a, &b, &c]), "(call 12 y 'z')");
    assert_eq!(p.parenthesize("empty", &vec![]), "(empty )");
}

#[test]
fn printer_indent_is_two_spaces_per_level() {
    assert_eq!(AstPrinter { indent: 0 }.indent(), "");
    assert_eq!(AstPrinter { indent: 3 }.indent(), "      ");
}

#[test]
fn printer_renders_statements_with_indented_blocks() {
    let p = AstPrinter { indent: 0 };
    let group = Stmt::Group {
        name: "go_right".to_string(),
        kind: GroupKind::Sequence,
        params: vec!["unit".to_string()],
        body: vec![
            assign("var", num(1)),
            exec("right", vec![CallArg::Value(num(90)), CallArg::Word("degrees".to_string())]),
        ],
    };
    assert_eq!(
        p.visit_stmt(&group),
        "(sequence-group go_right unit\n  (set var 1)\n  (call right 90 degrees))"
    );
    let looped = Stmt::While {
        condition: bin(var("angle"), BinaryOp::Lt, num(270)),
        invert: true,
        body: vec![exec("go_right", vec![CallArg::Value(num(1))])],
    };
    assert_eq!(p.visit_stmt(&looped), "(until (< angle 270)\n  (call go_right 1))");
    let branch = Stmt::If {
        condition: var("c"),
        invert: false,
        then_branch: vec![use_prop("a")],
        else_branch: vec![use_prop("b")],
    };
    assert_eq!(p.visit_stmt(&branch), "(if c \n  (use a)\n  (use b))");
    let nested = AstPrinter { indent: 1 };
    let unless = Stmt::If {
        condition: var("c"),
        invert: true,
        then_branch: vec![use_prop("a")],
        else_branch: vec![],
    };
    assert_eq!(nested.visit_stmt(&unless), "(unless c     (use a))");
}

#[test]
fn assignments_to_locals_compile() {
    let mut c: AiCompiler<Action, Cell> = AiCompiler::new();
    let ast = vec![
        assign("a", bin(num(1), BinaryOp::Add, num(2))),
        assign("b", Expr::Grouping(Box::new(num(4)))),
        assign("a", num(0)),
    ];
    let mut vm = c.convert(ast).unwrap();
    assert!(vm.interpret(100).unwrap());
}

#[test]
fn last_label_of_a_name_is_the_entry() {
    let log = new_log();
    let code = vec![
        Op::Call("g".to_string()),
        Op::Jump(6),
        Op::Label("g".to_string()),
        Op::Call("first".to_string()),
        Op::Label("g".to_string()),
        Op::Return,
    ];
    let mut vm: Interpreter<Action, Cell> = Interpreter::new(code);
    vm.register_callable("first", action("first", &log)).unwrap();
    assert!(vm.interpret(100).unwrap());
    assert!(entries(&log).is_empty());
}

#[test]
fn last_call_records_the_callable_result() {
    let log = new_log();
    let mut vm: Interpreter<Action, Cell> =
        Interpreter::new(vec![Op::Call("m".to_string()), Op::Call("m".to_string())]);
    let mut a = action("m", &log);
    a.pending = 1;
    vm.register_callable("m", a).unwrap();
    assert_eq!(vm.last_call(), None);
    assert!(matches!(vm.step(), Ok(InterpreterState::Yield)));
    assert_eq!(vm.last_call(), Some(false));
    assert!(matches!(vm.step(), Ok(InterpreterState::Continue)));
    assert_eq!(vm.last_call(), Some(true));
}

#[test]
fn group_parameters_are_rejected() {
    let mut c: AiCompiler<Action, Cell> = AiCompiler::new();
    let ast = vec![Stmt::Group {
        name: "g".to_string(),
        kind: GroupKind::Sequence,
        params: vec!["unit".to_string()],
        body: vec![],
    }];
    match c.compile(ast) {
        Err(errs) => assert!(matches!(&errs[0], Error::UnboundParameters(n) if n == "g")),
        Ok(_) => panic!("expected an error"),
    }
}

#[test]
fn plain_script_code_layout() {
    let c: Compiler<Action, Cell> = Compiler::new();
    let ast = vec![
        assign("a", bin(num(5), BinaryOp::Sub, num(3))),
        assign("b", num(1)),
        assign("a", num(2)),
    ];
    let program = c.compile(ast).unwrap();
    let code = program.code();
    assert_eq!(code.len(), 2 + 4 + 2 + 2);
    assert!(matches!(code[0], Op::Push(Value::Number(0))));
    assert!(matches!(code[1], Op::Push(Value::Number(0))));
    assert!(matches!(code[2], Op::Push(Value::Number(5))));
    assert!(matches!(code[3], Op::Push(Value::Number(3))));
    assert!(matches!(code[4], Op::Sub));
    assert!(matches!(code[5], Op::Store(0)));
    assert!(matches!(code[6], Op::Push(Value::Number(1))));
    assert!(matches!(code[7], Op::Store(1)));
    assert!(matches!(code[8], Op::Push(Value::Number(2))));
    assert!(matches!(code[9], Op::Store(0)));
}

#[test]
fn nested_problems_fail_compilation() {
    let mut c: AiCompiler<Action, Cell> = AiCompiler::new();
    let ast = vec![Stmt::While {
        condition: Expr::Literal(Value::Bool(false)),
        invert: false,
        body: vec![Stmt::If {
            condition: var("missing"),
            invert: true,
            then_branch: vec![],
            else_branch: vec![],
        }],
    }];
    assert!(c.compile(ast).is_err());
}

#[test]
fn if_else_and_loop_layout() {
    let c: Compiler<Action, Cell> = Compiler::new();
    let ast = vec![
        assign("x", num(1)),
        Stmt::If {
            condition: var("x"),
            invert: false,
            then_branch: vec![assign("x", num(2))],
            else_branch: vec![assign("x", num(3))],
        },
        Stmt::While { condition: var("x"), invert: true, body: vec![assign("x", num(4))] },
    ];
    let program = c.compile(ast).unwrap();
    let code = program.code();
    // 0 Push0, 1-2 x = 1, 3 Load x, 4 JumpUnless 8, 5-6 x = 2, 7 Jump 10, 8-9 x = 3,
    // 10 Load x, 11 JumpIf 15, 12-13 x = 4, 14 Jump 10
    assert_eq!(code.len(), 15);
    assert!(matches!(code[3], Op::Load(0)));
    assert!(matches!(code[4], Op::JumpUnless(8)));
    assert!(matches!(code[7], Op::Jump(10)));
    assert!(matches!(code[11], Op::JumpIf(15)));
    assert!(matches!(code[14], Op::Jump(10)));
}

#[test]
fn group_layout_is_guard_label_body_return() {
    let log = new_log();
    let mut c: Compiler<Action, Cell> = Compiler::new();
    c.register_callable("call_a", action("call_a", &log)).unwrap();
    c.register_callable("call_b", action("call_b", &log)).unwrap();
    let ast = vec![
        Stmt::Group {
            name: "g".to_string(),
            kind: GroupKind::Sequence,
            params: vec![],
            body: vec![assign("x", num(1)), exec("call_a", vec![]), exec("call_b", vec![])],
        },
        exec("g", vec![]),
    ];
    let program = c.compile(ast).unwrap();
    let code = program.code();
    assert_eq!(code.len(), 9);
    assert!(matches!(code[0], Op::Jump(8)));
    assert!(matches!(&code[1], Op::Label(n) if n == "g"));
    assert!(matches!(code[2], Op::Push(Value::Number(0))));
    assert!(matches!(code[4], Op::Store(0)));
    assert!(matches!(&code[5], Op::Call(n) if n == "call_a"));
    assert!(matches!(&code[6], Op::Call(n) if n == "call_b"));
    assert!(matches!(code[7], Op::Return));
    assert!(matches!(&code[8], Op::Call(n) if n == "g"));
}
