//! Whole units.

use vstd::prelude::*;

use crate::ast::{Expr, Name, Program};
use crate::bytecode;
use crate::bytecode::{Insn, Iseq};
use crate::compile::code;
use crate::compile::code::{Code, Compiler, Lowered, Unsupported};
use crate::compile::lower;

verus! {

/// Whether a unit came out as is said.
pub open spec fn compiled(r: Result<Iseq, Unsupported>, said: Lowered) -> bool {
    match r {
        Ok(iseq) => (said matches Ok(c) && code::unit(iseq) == c.finish()) && code::distinct(
            bytecode::pool(iseq.symbols@),
        ),
        Err(u) => said == Err::<Code, Unsupported>(u),
    }
}

/// Compile a file.
pub fn program(file: &Program) -> (r: Result<Iseq, Unsupported>)
    ensures
        compiled(
            r,
            lower::lower_body(
                code::fresh("<main>"@, bytecode::pool(file.locals@)),
                file.body@,
                0,
                true,
            ),
        ),
{
    body("<main>", &file.locals, &file.body)
}

/// Compile statements that share one scope.
pub fn body(name: &str, locals: &Vec<Name>, statements: &Vec<Expr>) -> (r: Result<
    Iseq,
    Unsupported,
>)
    ensures
        compiled(
            r,
            lower::lower_body(
                code::fresh(name@, bytecode::pool(locals@)),
                statements@,
                0,
                true,
            ),
        ),
{
    let mut compiler = Compiler::new(name, locals);
    if let Err(u) = compiler.statements(statements, true) {
        return Err(u);
    }
    Ok(compiler.finish())
}

/// Compile one expression against a known set of locals.
pub fn expression(name: &str, locals: &Vec<Name>, expr: &Expr) -> (r: Result<Iseq, Unsupported>)
    ensures
        compiled(
            r,
            lower::lower_expr(code::fresh(name@, bytecode::pool(locals@)), *expr),
        ),
{
    let mut compiler = Compiler::new(name, locals);
    if let Err(u) = compiler.expr(expr) {
        return Err(u);
    }
    Ok(compiler.finish())
}

/// [`expression`], for a caller that has merged several scopes into the one
/// the locals describe: a depth past the scopes there are resolves to the
/// outermost one.
pub fn flattened_expression(name: &str, locals: &Vec<Name>, expr: &Expr) -> (r: Result<
    Iseq,
    Unsupported,
>)
    ensures
        compiled(
            r,
            lower::lower_expr(
                code::fresh(name@, bytecode::pool(locals@)).flatten(),
                *expr,
            ),
        ),
{
    let mut compiler = Compiler::new(name, locals);
    compiler.flatten();
    if let Err(u) = compiler.expr(expr) {
        return Err(u);
    }
    Ok(compiler.finish())
}

/// A unit ends by leaving, so a frame that reaches its end returns.
pub proof fn law_a_unit_ends_by_leaving(c: Code)
    ensures
        c.finish().insns.len() > 0,
        c.finish().insns.last() == Insn::Leave,
        c.finish().max_stack >= 1,
        c.finish().symbols == c.symbols,
        c.finish().locals == c.locals,
{
    reveal(Code::finish);
    reveal(Code::emit);
}

/// A local keeps its slot when another is looked for, so units compiled one
/// after the other against the locals of the last agree on every slot.
pub proof fn law_a_local_keeps_its_slot(c: Code, name: Seq<char>, other: Seq<char>)
    requires
        code::place_of(c.locals, name) < c.locals.len(),
    ensures
        c.slot(other).slot_at(name) == c.slot_at(name),
        c.slot(other).slot(name) == c.slot(other),
{
    reveal(Code::slot);
    reveal(Code::slot_at);
    code::lemma_place(c.locals, name);
    code::lemma_place(c.slot(other).locals, name);
    let place = code::place_of(c.locals, name);
    assert(c.slot(other).locals[place as int] == name);
    let again = code::place_of(c.slot(other).locals, name);
    if again < place {
        assert(c.locals[again as int] != name);
    }
}

} // verus!
