use vstd::prelude::*;

verus! {

/// Failure of one of the bridge's compile stages; the payload is the
/// human-readable reason.
#[derive(Debug, Clone)]
pub enum BridgeError {
    Parse(String),
    Analyze(String),
    Codegen(String),
}

} // verus!
