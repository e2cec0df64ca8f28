//! Function Block Diagram POUs: function block instances wired pin to pin.
use vstd::prelude::*;

use crate::ld::{LdPouType, LdVariable};

verus! {

/// One FBD POU. `blocks` is in authoring order; the transpiler orders the
/// calls by their wires.
#[derive(Debug)]
pub struct FbdProgram {
    pub name: String,
    pub pou_type: LdPouType,
    pub variables: Vec<LdVariable>,
    pub blocks: Vec<FbdBlock>,
    /// Wires from block outputs to the POU's `VAR_OUTPUT` variables.
    pub outputs: Vec<FbdOutputBinding>,
}

/// One function block instance on the diagram.
#[derive(Debug, Clone)]
pub struct FbdBlock {
    /// Stable identifier that wires refer to; unique within the POU.
    pub id: String,
    /// IEC type name of the block (`TON`, `CTU`, a user FB, ...).
    pub fb_type: String,
    /// Name of the FB instance variable the transpiler declares.
    pub instance: String,
    pub inputs: Vec<FbdInputBinding>,
    /// Layout hint only; the transpiler ignores it.
    pub position: Option<FbdPosition>,
}

/// One input pin and what feeds it.
#[derive(Debug, Clone)]
pub struct FbdInputBinding {
    pub pin: String,
    pub value: FbdInputSource,
}

#[derive(Debug, Clone)]
pub enum FbdInputSource {
    /// One of the POU's variables, by name.
    Var { name: String },
    /// An inline literal, copied verbatim.
    Literal { value: String },
    /// An output pin of another block, by the block's `id`.
    Block { block_id: String, pin: String },
}

/// Wire from a block output pin to a POU output variable.
#[derive(Debug, Clone)]
pub struct FbdOutputBinding {
    pub variable: String,
    pub from_block: String,
    pub from_pin: String,
}

/// Renderer coordinates of a block, each an IEEE-754 single held by its
/// bit pattern.
#[derive(Debug, Clone, Copy, PartialEq, Eq, Structural)]
pub struct FbdPosition {
    pub x_bits: u32,
    pub y_bits: u32,
}

} // verus!
