//! Errors of module loading, and the rule that imports and native
//! declarations stand only at the top level of a module.

use vstd::prelude::*;
use crate::ast::{Binding, BindingKind, Block, DictField, Expr, ExprKind, MatchArm, Program, StringPart, StringPartKind};

verus! {

/// An error of module loading, with its message.
#[derive(Clone, Debug)]
pub struct ModuleError {
    message: String,
}

impl ModuleError {
    /// The message, as text.
    pub closed spec fn spec_message(self) -> Seq<char> {
        self.message@
    }

    pub fn new(message: &str) -> (e: ModuleError)
        ensures
            e.spec_message() == message@,
    {
        ModuleError { message: String::from_str(message) }
    }

    /// The message.
    pub fn message(&self) -> (m: &str)
        ensures
            m@ == self.spec_message(),
    {
        self.message.as_str()
    }
}

// ---------------------------------------------------------------------------
// Imports below the top level.

/// An import or a native declaration occurs somewhere inside `e`: as a
/// binding of a block (an import only, in a closure body or a branch of an
/// `if`), or inside any subexpression.
pub open spec fn has_import(e: Expr) -> bool
    decreases e,
{
    match e.value {
        ExprKind::Block(b) => declares_import(b.value.bindings@, true) || values_have_import(
            b.value.bindings@,
        ) || has_import(*b.value.result),
        ExprKind::Array(items) => any_has_import(items@),
        ExprKind::Tuple(items) => any_has_import(items@),
        ExprKind::InterpolatedString(parts) => parts_have_import(parts@),
        ExprKind::Dict(fields) => fields_have_import(fields@),
        ExprKind::Unary { operand, .. } => has_import(*operand),
        ExprKind::Binary { left, right, .. } => has_import(*left) || has_import(*right),
        ExprKind::Field { receiver, .. } => has_import(*receiver),
        ExprKind::Call { callee, arguments } => has_import(*callee) || any_has_import(arguments@),
        ExprKind::Closure { body, .. } => declares_import(body.value.bindings@, false)
            || values_have_import(body.value.bindings@) || has_import(*body.value.result),
        ExprKind::If { condition, then_branch, else_branch } => has_import(*condition)
            || declares_import(then_branch.value.bindings@, false) || values_have_import(
            then_branch.value.bindings@,
        ) || declares_import(else_branch.value.bindings@, false) || values_have_import(
            else_branch.value.bindings@,
        ) || has_import(*then_branch.value.result) || has_import(*else_branch.value.result),
        ExprKind::Match { value, arms } => has_import(*value) || arms_have_import(arms@),
        _ => false,
    }
}

/// Some binding of `bs` is an import (or, when `native` holds, a native
/// declaration).
pub open spec fn declares_import(bs: Seq<Binding>, native: bool) -> bool {
    exists|i: int|
        0 <= i < bs.len() && (bs[i].value.kind == BindingKind::Import || (native
            && bs[i].value.kind == BindingKind::Native))
}

pub open spec fn values_have_import(bs: Seq<Binding>) -> bool
    decreases bs,
{
    bs.len() > 0 && (has_import(bs[0].value.value) || values_have_import(
        bs.subrange(1, bs.len() as int),
    ))
}

pub open spec fn any_has_import(items: Seq<Expr>) -> bool
    decreases items,
{
    items.len() > 0 && (has_import(items[0]) || any_has_import(
        items.subrange(1, items.len() as int),
    ))
}

pub open spec fn parts_have_import(parts: Seq<StringPart>) -> bool
    decreases parts,
{
    parts.len() > 0 && ((match parts[0].value {
        StringPartKind::Text(_) => false,
        StringPartKind::Expression(e) => has_import(e),
    }) || parts_have_import(parts.subrange(1, parts.len() as int)))
}

pub open spec fn fields_have_import(fields: Seq<DictField>) -> bool
    decreases fields,
{
    fields.len() > 0 && (has_import(fields[0].value.value) || fields_have_import(
        fields.subrange(1, fields.len() as int),
    ))
}

pub open spec fn arms_have_import(arms: Seq<MatchArm>) -> bool
    decreases arms,
{
    arms.len() > 0 && (has_import(arms[0].value.value) || arms_have_import(
        arms.subrange(1, arms.len() as int),
    ))
}

/// The first of `bs[i..]`, in order, that declares an import.
fn declares_import_exec(bs: &Vec<Binding>, native: bool) -> (b: bool)
    ensures
        b == declares_import(bs@, native),
{
    let mut i: usize = 0;
    while i < bs.len()
        invariant
            i <= bs@.len(),
            forall|k: int|
                0 <= k < i ==> !((#[trigger] bs@[k]).value.kind == BindingKind::Import || (native
                    && bs@[k].value.kind == BindingKind::Native)),
        decreases bs@.len() - i,
    {
        let kind = bs[i].value.kind;
        if kind == BindingKind::Import || (native && kind == BindingKind::Native) {
            return true;
        }
        i = i + 1;
    }
    false
}

/// Whether an import or a native declaration occurs inside `expression`,
/// as [`has_import`] says.
pub fn expression_has_import(expression: &Expr) -> (b: bool)
    ensures
        b == has_import(*expression),
    decreases expression, 0int,
{
    match &expression.value {
        ExprKind::Block(block) => {
            declares_import_exec(&block.value.bindings, true) || values_have_import_exec(
                &block.value.bindings,
            ) || expression_has_import(&block.value.result)
        },
        ExprKind::Array(items) => any_has_import_exec(items),
        ExprKind::Tuple(items) => any_has_import_exec(items),
        ExprKind::InterpolatedString(parts) => parts_have_import_exec(parts),
        ExprKind::Dict(fields) => fields_have_import_exec(fields),
        ExprKind::Unary { operand, .. } => expression_has_import(operand),
        ExprKind::Binary { left, right, .. } => expression_has_import(left)
            || expression_has_import(right),
        ExprKind::Field { receiver, .. } => expression_has_import(receiver),
        ExprKind::Call { callee, arguments } => expression_has_import(callee)
            || any_has_import_exec(arguments),
        ExprKind::Closure { body, .. } => {
            declares_import_exec(&body.value.bindings, false) || values_have_import_exec(
                &body.value.bindings,
            ) || expression_has_import(&body.value.result)
        },
        ExprKind::If { condition, then_branch, else_branch } => {
            expression_has_import(condition) || declares_import_exec(
                &then_branch.value.bindings,
                false,
            ) || values_have_import_exec(&then_branch.value.bindings) || declares_import_exec(
                &else_branch.value.bindings,
                false,
            ) || values_have_import_exec(&else_branch.value.bindings) || expression_has_import(
                &then_branch.value.result,
            ) || expression_has_import(&else_branch.value.result)
        },
        ExprKind::Match { value, arms } => expression_has_import(value) || arms_have_import_exec(
            arms,
        ),
        _ => false,
    }
}

fn values_have_import_exec(bs: &Vec<Binding>) -> (b: bool)
    ensures
        b == values_have_import(bs@),
    decreases bs, 1int,
{
    let mut i: usize = 0;
    proof {
        assert(bs@.subrange(0, bs@.len() as int) =~= bs@);
    }
    while i < bs.len()
        invariant
            i <= bs@.len(),
            values_have_import(bs@) == values_have_import(bs@.subrange(i as int, bs@.len() as int)),
        decreases bs@.len() - i,
    {
        let ghost rest = bs@.subrange(i as int, bs@.len() as int);
        proof {
            assert(rest[0] == bs@[i as int]);
            assert(rest.subrange(1, rest.len() as int) =~= bs@.subrange(i + 1, bs@.len() as int));
        }
        if expression_has_import(&bs[i].value.value) {
            return true;
        }
        i = i + 1;
    }
    false
}

fn any_has_import_exec(items: &Vec<Expr>) -> (b: bool)
    ensures
        b == any_has_import(items@),
    decreases items, 1int,
{
    let mut i: usize = 0;
    proof {
        assert(items@.subrange(0, items@.len() as int) =~= items@);
    }
    while i < items.len()
        invariant
            i <= items@.len(),
            any_has_import(items@) == any_has_import(items@.subrange(i as int, items@.len() as int)),
        decreases items@.len() - i,
    {
        let ghost rest = items@.subrange(i as int, items@.len() as int);
        proof {
            assert(rest[0] == items@[i as int]);
            assert(rest.subrange(1, rest.len() as int) =~= items@.subrange(i + 1, items@.len() as int));
        }
        if expression_has_import(&items[i]) {
            return true;
        }
        i = i + 1;
    }
    false
}

fn parts_have_import_exec(parts: &Vec<StringPart>) -> (b: bool)
    ensures
        b == parts_have_import(parts@),
    decreases parts, 1int,
{
    let mut i: usize = 0;
    proof {
        assert(parts@.subrange(0, parts@.len() as int) =~= parts@);
    }
    while i < parts.len()
        invariant
            i <= parts@.len(),
            parts_have_import(parts@) == parts_have_import(parts@.subrange(i as int, parts@.len() as int)),
        decreases parts@.len() - i,
    {
        let ghost rest = parts@.subrange(i as int, parts@.len() as int);
        proof {
            assert(rest[0] == parts@[i as int]);
            assert(rest.subrange(1, rest.len() as int) =~= parts@.subrange(i + 1, parts@.len() as int));
        }
        let found = match &parts[i].value {
            StringPartKind::Text(_) => false,
            StringPartKind::Expression(e) => expression_has_import(e),
        };
        if found {
            return true;
        }
        i = i + 1;
    }
    false
}

fn fields_have_import_exec(fields: &Vec<DictField>) -> (b: bool)
    ensures
        b == fields_have_import(fields@),
    decreases fields, 1int,
{
    let mut i: usize = 0;
    proof {
        assert(fields@.subrange(0, fields@.len() as int) =~= fields@);
    }
    while i < fields.len()
        invariant
            i <= fields@.len(),
            fields_have_import(fields@) == fields_have_import(fields@.subrange(i as int, fields@.len() as int)),
        decreases fields@.len() - i,
    {
        let ghost rest = fields@.subrange(i as int, fields@.len() as int);
        proof {
            assert(rest[0] == fields@[i as int]);
            assert(rest.subrange(1, rest.len() as int) =~= fields@.subrange(i + 1, fields@.len() as int));
        }
        if expression_has_import(&fields[i].value.value) {
            return true;
        }
        i = i + 1;
    }
    false
}

fn arms_have_import_exec(arms: &Vec<MatchArm>) -> (b: bool)
    ensures
        b == arms_have_import(arms@),
    decreases arms, 1int,
{
    let mut i: usize = 0;
    proof {
        assert(arms@.subrange(0, arms@.len() as int) =~= arms@);
    }
    while i < arms.len()
        invariant
            i <= arms@.len(),
            arms_have_import(arms@) == arms_have_import(arms@.subrange(i as int, arms@.len() as int)),
        decreases arms@.len() - i,
    {
        let ghost rest = arms@.subrange(i as int, arms@.len() as int);
        proof {
            assert(rest[0] == arms@[i as int]);
            assert(rest.subrange(1, rest.len() as int) =~= arms@.subrange(i + 1, arms@.len() as int));
        }
        if expression_has_import(&arms[i].value.value) {
            return true;
        }
        i = i + 1;
    }
    false
}

/// The message of a module with an import or native declaration below its
/// top level.
pub open spec fn nested_import_message(source_name: Seq<char>) -> Seq<char> {
    source_name + ": imports and native declarations are only allowed at module top level"@
}

/// A top-level binding whose value hides an import: a `let` or `def`
/// binding of `bs` whose value has one.
pub open spec fn hides_import(bs: Seq<Binding>) -> bool {
    exists|i: int|
        0 <= i < bs.len() && ((#[trigger] bs[i]).value.kind == BindingKind::Let
            || bs[i].value.kind == BindingKind::Def) && has_import(bs[i].value.value)
}

/// Imports and native declarations stand only at the top level of a
/// module: no `let` or `def` value and not the result may hold one.
pub fn reject_nested_imports(program: &Program, source_name: &str) -> (r: Result<(), ModuleError>)
    ensures
        r is Ok <==> !hides_import(program.value.body.value.bindings@) && !has_import(
            *program.value.body.value.result,
        ),
        r matches Err(e) ==> e.spec_message() == nested_import_message(source_name@),
{
    let bindings = &program.value.body.value.bindings;
    let mut i: usize = 0;
    while i < bindings.len()
        invariant
            bindings == &program.value.body.value.bindings,
            i <= bindings@.len(),
            forall|k: int|
                0 <= k < i ==> !(((#[trigger] bindings@[k]).value.kind == BindingKind::Let
                    || bindings@[k].value.kind == BindingKind::Def) && has_import(
                    bindings@[k].value.value,
                )),
        decreases bindings@.len() - i,
    {
        let kind = bindings[i].value.kind;
        if (kind == BindingKind::Let || kind == BindingKind::Def) && expression_has_import(
            &bindings[i].value.value,
        ) {
            return Err(nested_import_error(source_name));
        }
        i = i + 1;
    }
    if expression_has_import(&program.value.body.value.result) {
        return Err(nested_import_error(source_name));
    }
    Ok(())
}

fn nested_import_error(source_name: &str) -> (e: ModuleError)
    ensures
        e.spec_message() == nested_import_message(source_name@),
{
    let mut message = String::from_str(source_name);
    message.append(": imports and native declarations are only allowed at module top level");
    ModuleError { message }
}

} // verus!
