//! Sequential Function Chart POUs: named steps, guarded transitions and
//! qualified actions.
use vstd::prelude::*;

use crate::ld::{LdPouType, LdVariable};

verus! {

#[derive(Debug)]
pub struct SfcProgram {
    pub name: String,
    pub pou_type: LdPouType,
    pub variables: Vec<LdVariable>,
    /// Name of the step active at start; one of `steps[*].name`.
    pub initial_step: String,
    pub steps: Vec<SfcStep>,
    pub transitions: Vec<SfcTransition>,
}

/// One named state; its actions run in authoring order.
#[derive(Debug, Clone)]
pub struct SfcStep {
    pub name: String,
    pub actions: Vec<SfcAction>,
}

/// An ST statement attached to a step.
#[derive(Debug, Clone)]
pub struct SfcAction {
    pub qualifier: SfcQualifier,
    pub body: String,
}

/// When an action body fires.
#[derive(Debug, Clone, Copy, PartialEq, Eq, Structural)]
pub enum SfcQualifier {
    /// Every scan while the step is active.
    N,
    /// Once when the step becomes active (typically latches an output).
    S,
    /// Once when the step becomes active (typically clears an output).
    R,
}

/// An arrow between two steps, guarded by an ST boolean expression.
#[derive(Debug, Clone)]
pub struct SfcTransition {
    pub from: String,
    pub to: String,
    pub condition: String,
}

} // verus!
