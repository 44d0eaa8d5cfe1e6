//! An embeddable scripting engine: a compiler from syntax trees to a flat
//! bytecode, and a single-stepped stack machine that runs that bytecode
//! against host-registered properties and callables.

pub mod ast;
pub mod compiler;
pub mod error;
pub mod interpreter;
pub mod laws;
pub mod op;
pub mod printer;
pub mod value;

use vstd::prelude::*;

pub use crate::ast::{Arg, BinaryOp, CallArg, Expr, GroupKind, LogicalOp, Stmt, UnaryOp};
pub use crate::compiler::{Callable, Compiler, Program, Prop};
pub use crate::error::{ArithFault, Error, TypeExpectation};
pub use crate::interpreter::{Interpreter, Interpreter as AiInterpreter, InterpreterState, StackFrame};
pub use crate::op::Op;
pub use crate::printer::AstPrinter;
pub use crate::value::{Value, ValueModel};

use crate::compiler::{
    assigned, labels_ok, plain_ops, plain_script, scope_ops, script_fails, script_ops,
    targets_in_bounds,
};
use crate::interpreter::{is_duplicate_callable, is_duplicate_property, report, Registry};

verus! {

/// Front door of the engine: collects registrations, then compiles a script
/// against them. A compilation consumes the registrations made so far.
pub struct AiCompiler<C, P> {
    compiler: Option<Compiler<C, P>>,
}

impl<C: Callable, P: Prop> AiCompiler<C, P> {
    pub closed spec fn wf(&self) -> bool {
        match self.compiler {
            Some(c) => c.wf(),
            None => true,
        }
    }

    /// What is registered now: nothing before the first registration or
    /// after a compilation.
    pub closed spec fn registry(&self) -> Registry {
        match self.compiler {
            Some(c) => c.registry(),
            None => Registry { props: Seq::empty(), settable: Seq::empty(), callables: Seq::empty() },
        }
    }

    pub open spec fn is_taken(&self, n: Seq<char>) -> bool {
        self.registry().props.contains(n) || self.registry().callables.contains(n)
    }

    pub fn new() -> (r: Self)
        ensures
            r.wf(),
            r.registry() == (Registry {
                props: Seq::empty(),
                settable: Seq::empty(),
                callables: Seq::empty(),
            }),
    {
        AiCompiler { compiler: None }
    }

    /// Registers a host action under a name that no property or callable has.
    pub fn register_callable(&mut self, name: &str, callable: C) -> (r: Result<(), Error>)
        requires
            old(self).wf(),
        ensures
            final(self).wf(),
            old(self).is_taken(name@) ==> is_duplicate_callable(r, name@) && final(self).registry()
                == old(self).registry(),
            !old(self).is_taken(name@) ==> r is Ok && final(self).registry() == (Registry {
                callables: old(self).registry().callables.push(name@),
                ..old(self).registry()
            }),
    {
        let mut c = match self.compiler.take() {
            Some(c) => c,
            None => Compiler::new(),
        };
        let r = c.register_callable(name, callable);
        self.compiler = Some(c);
        r
    }

    /// Registers a host value under a name that no property or callable has.
    pub fn register_property(&mut self, name: &str, prop: P) -> (r: Result<(), Error>)
        requires
            old(self).wf(),
        ensures
            final(self).wf(),
            old(self).is_taken(name@) ==> is_duplicate_property(r, name@) && final(self).registry()
                == old(self).registry(),
            !old(self).is_taken(name@) ==> r is Ok && final(self).registry().props == old(self).registry().props.push(name@) && final(self).registry().callables == old(self).registry().callables,
    {
        let mut c = match self.compiler.take() {
            Some(c) => c,
            None => Compiler::new(),
        };
        let r = c.register_property(name, prop);
        self.compiler = Some(c);
        r
    }

    /// Compiles `ast` against the registrations, which the program takes.
    pub fn compile(&mut self, ast: Vec<Stmt>) -> (r: Result<Program<C, P>, Vec<Error>>)
        requires
            old(self).wf(),
        ensures
            final(self).wf(),
            final(self).registry() == (Registry {
                props: Seq::empty(),
                settable: Seq::empty(),
                callables: Seq::empty(),
            }),
            match r {
                Ok(p) => p.wf() && p.registry() == old(self).registry() && targets_in_bounds(
                    p.code_view(),
                ) && report(
                    p.code_view(),
                    p.registry(),
                    p.code_view().len(),
                ).0.len() == 0 && labels_ok(p.code_view(), p.registry().callables)
                    && p.code_view() == script_ops(old(self).registry().props, ast),
                Err(errs) => errs.len() > 0,
            },
            script_fails(old(self).registry().props, old(self).registry().callables, ast) ==> r is Err,
            plain_script(ast@, old(self).registry().props) ==> r is Ok && r->Ok_0.code_view()
                == scope_ops(assigned(Seq::empty(), ast@, ast.len() as int).len()) + plain_ops(
                ast@,
                assigned(Seq::empty(), ast@, ast.len() as int),
                ast.len() as int,
            ),
    {
        let compiler = match self.compiler.take() {
            Some(c) => c,
            None => Compiler::new(),
        };
        compiler.compile(ast)
    }

    /// Compiles `ast` and hands the program to a new, idle interpreter.
    pub fn convert(&mut self, ast: Vec<Stmt>) -> (r: Result<Interpreter<C, P>, Vec<Error>>)
        requires
            old(self).wf(),
        ensures
            final(self).wf(),
            match r {
                Ok(i) => i.wf() && i.registry() == old(self).registry() && !i.is_running()
                    && i.machine() == (crate::interpreter::Machine {
                    pc: 0,
                    stack: Seq::empty(),
                    frames: Seq::empty(),
                }) && i.issues().len() == 0 && targets_in_bounds(i.code()) && i.code() == script_ops(
                    old(self).registry().props,
                    ast,
                ),
                Err(errs) => errs.len() > 0,
            },
            script_fails(old(self).registry().props, old(self).registry().callables, ast) ==> r is Err,
            plain_script(ast@, old(self).registry().props) ==> r is Ok && r->Ok_0.code() == scope_ops(
                assigned(Seq::empty(), ast@, ast.len() as int).len(),
            ) + plain_ops(ast@, assigned(Seq::empty(), ast@, ast.len() as int), ast.len() as int),
    {
        let program = self.compile(ast)?;
        Ok(Interpreter::from_program(program))
    }
}

} // verus!
