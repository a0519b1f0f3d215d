//! The register-machine instruction set that XL functions compile to.

use vstd::prelude::*;
use crate::source::Origin;

verus! {

/// A register of a function's frame.
#[derive(Clone, Copy, Debug, PartialEq, Eq, Structural)]
pub struct Register(pub usize);

/// An entry of a linking table's values.
#[derive(Clone, Copy, Debug, PartialEq, Eq, Structural, Hash)]
pub struct ValueLinkId(pub usize);

/// An entry of a linking table's texts.
#[derive(Clone, Copy, Debug, PartialEq, Eq, Structural, Hash)]
pub struct TextLinkId(pub usize);

/// An entry of a linking table's function prototypes.
#[derive(Clone, Copy, Debug, PartialEq, Eq, Structural, Hash)]
pub struct ProtoLinkId(pub usize);

/// One instruction of linked code.
#[derive(Clone, Debug)]
pub enum Opcode {
    LoadConst { dst: Register, value: ValueLinkId },
    Move { dst: Register, src: Register },
    Add { dst: Register, left: Register, right: Register },
    Subtract { dst: Register, left: Register, right: Register },
    Multiply { dst: Register, left: Register, right: Register },
    Divide { dst: Register, left: Register, right: Register },
    Negate { dst: Register, src: Register },
    Equal { dst: Register, left: Register, right: Register },
    LessThan { dst: Register, left: Register, right: Register },
    MakeArray { dst: Register, items: Vec<Register> },
    MakeTuple { dst: Register, items: Vec<Register> },
    InterpolateString { dst: Register, parts: Vec<Register> },
    MakeDict { dst: Register, fields: Vec<(TextLinkId, Register)> },
    GetField { dst: Register, dict: Register, field: TextLinkId },
    TupleLengthEquals { dst: Register, value: Register, length: usize },
    GetTuple { dst: Register, tuple: Register, index: usize },
    MakeClosure { dst: Register, prototype: ProtoLinkId, captures: Vec<Register> },
    Call { dst: Register, callee: Register, arguments: Vec<Register> },
    Jump { target: usize },
    JumpIfFalse { condition: Register, target: usize },
    Return { src: Register },
    Fail { message: String },
}

/// The origin of the instructions `start..end` of a function.
#[derive(Clone, Copy, Debug, PartialEq, Eq, Structural)]
pub struct DebugOriginRange {
    pub start: usize,
    pub end: usize,
    pub origin: Origin,
}

/// The linked code of one function: its name, the sizes of its frame, its
/// instructions and where they came from.
#[derive(Clone, Debug)]
pub struct FuncByteCode {
    name: String,
    parameter_count: usize,
    capture_count: usize,
    register_count: usize,
    instructions: Vec<Opcode>,
    debug_origins: Vec<DebugOriginRange>,
}

} // verus!
