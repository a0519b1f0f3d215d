//! The abstract syntax of XL programs, every node located in its source.

use vstd::prelude::*;
use crate::source::{Located, Location};

verus! {

pub type Identifier = Located<String>;

pub type Program = Located<ProgramKind>;

pub type Block = Located<BlockKind>;

pub type Binding = Located<BindingData>;

pub type Expr = Located<ExprKind>;

pub type Pattern = Located<PatternKind>;

pub type MatchArm = Located<MatchArmKind>;

pub type DictField = Located<DictFieldKind>;

pub type StringPart = Located<StringPartKind>;

pub type Decorator = Located<DecoratorKind>;

/// A whole program: one block.
#[derive(Debug)]
pub struct ProgramKind {
    pub body: Block,
}

/// Bindings in order, then the block's result.
#[derive(Debug)]
pub struct BlockKind {
    pub bindings: Vec<Binding>,
    pub result: Box<Expr>,
}

/// A binding of a name: its decorators, kind, type parameters, annotation
/// and value.
#[derive(Debug)]
pub struct BindingData {
    pub decorators: Vec<Decorator>,
    pub kind: BindingKind,
    pub name: Identifier,
    pub type_parameters: Vec<Identifier>,
    pub annotation: Option<Expr>,
    pub value: Expr,
}

#[derive(Clone, Copy, Debug, PartialEq, Eq, Structural)]
pub enum BindingKind {
    Let,
    Decl,
    Def,
    Native,
    Type,
    Import,
}

/// `@callee` or `@callee(arguments)`; `configured` tells the two apart.
#[derive(Debug)]
pub struct DecoratorKind {
    pub callee: Expr,
    pub arguments: Vec<Expr>,
    pub configured: bool,
}

/// Expressions. A Float literal is kept as its source text.
#[derive(Debug)]
pub enum ExprKind {
    Int(i64),
    Float(String),
    String(String),
    InterpolatedString(Vec<StringPart>),
    Bytes(Vec<u8>),
    Atom(String),
    Variable(Identifier),
    Array(Vec<Expr>),
    Tuple(Vec<Expr>),
    Dict(Vec<DictField>),
    Block(Block),
    Unary { operator: Located<UnaryOperator>, operand: Box<Expr> },
    Binary { operator: Located<BinaryOperator>, left: Box<Expr>, right: Box<Expr> },
    Field { receiver: Box<Expr>, field: Identifier },
    Call { callee: Box<Expr>, arguments: Vec<Expr> },
    Closure { parameters: Vec<Identifier>, body: Block },
    If { condition: Box<Expr>, then_branch: Block, else_branch: Block },
    Match { value: Box<Expr>, arms: Vec<MatchArm> },
}

/// A piece of an interpolated string: text, or an interpolated expression.
#[derive(Debug)]
pub enum StringPartKind {
    Text(String),
    Expression(Expr),
}

#[derive(Clone, Copy, Debug, PartialEq, Eq, Structural)]
pub enum UnaryOperator {
    Negate,
}

#[derive(Clone, Copy, Debug, PartialEq, Eq, Structural)]
pub enum BinaryOperator {
    Add,
    Subtract,
    Multiply,
    Divide,
    LessThan,
    Equal,
}

/// A Dict field: its decorators, name and value.
#[derive(Debug)]
pub struct DictFieldKind {
    pub decorators: Vec<Decorator>,
    pub name: Identifier,
    pub value: Expr,
}

#[derive(Debug)]
pub struct MatchArmKind {
    pub pattern: Pattern,
    pub value: Expr,
}

/// Patterns. A Float pattern is kept as its source text.
#[derive(Debug)]
pub enum PatternKind {
    Wildcard,
    Binding(Identifier),
    Int(i64),
    Float(String),
    String(String),
    Atom(String),
    Tagged { tag: String, payload: Box<Pattern> },
    Tuple(Vec<Pattern>),
}

/// `value` at `location`.
pub fn located<T>(value: T, location: Location) -> (l: Located<T>)
    ensures
        l.value == value,
        l.location == location,
{
    Located::new(value, location)
}

} // verus!
