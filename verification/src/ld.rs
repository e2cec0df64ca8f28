use vstd::prelude::*;

verus! {

/// A Ladder Diagram POU: one PROGRAM or FUNCTION_BLOCK made of rungs.
#[derive(Debug)]
pub struct LdProgram {
    pub name: String,
    pub pou_type: LdPouType,
    pub variables: Vec<LdVariable>,
    pub rungs: Vec<LdRung>,
}

#[derive(Debug, Clone, Copy, PartialEq, Eq, Structural)]
pub enum LdPouType {
    Program,
    FunctionBlock,
}

#[derive(Debug, Clone, Copy, PartialEq, Eq, Structural)]
pub enum LdVarSection {
    /// `VAR` — internal state kept across scans.
    Internal,
    /// `VAR_INPUT`.
    Input,
    /// `VAR_OUTPUT`.
    Output,
}

/// One declared variable; the type is any IEC type name.
#[derive(Debug, Clone)]
pub struct LdVariable {
    pub name: String,
    pub iec_type: String,
    pub section: LdVarSection,
    /// Initialiser literal copied verbatim after `:=`.
    pub init: Option<String>,
}

#[derive(Debug)]
pub struct LdRung {
    pub id: String,
    pub label: Option<String>,
    pub logic: LdNode,
    pub coils: Vec<LdCoil>,
}

/// Boolean network of a rung: series is AND, parallel is OR.
#[derive(Debug)]
pub enum LdNode {
    Contact { var: String, negated: bool },
    And { args: Vec<LdNode> },
    Or { args: Vec<LdNode> },
    Not { arg: Box<LdNode> },
    Const { value: bool },
}

#[derive(Debug, Clone)]
pub struct LdCoil {
    pub var: String,
    pub kind: LdCoilKind,
}

#[derive(Debug, Clone, Copy, PartialEq, Eq, Structural)]
pub enum LdCoilKind {
    /// `var := logic;`
    Standard,
    /// Set coil: `IF logic THEN var := TRUE; END_IF;`
    Latch,
    /// Reset coil: `IF logic THEN var := FALSE; END_IF;`
    Unlatch,
}

} // verus!
