//! Bind result types.
use vstd::prelude::*;

verus! {

/// The outcome of checking a bind for drift.
#[derive(Debug, Clone, PartialEq)]
pub struct BindCheckResult {
    /// Whether the bind has drifted from its expected state.
    pub drifted: bool,
    /// An optional description of the drift.
    pub message: Option<String>,
}

/// What a bind's check reports, before its placeholders are resolved.
#[derive(Debug, Clone, PartialEq)]
pub struct BindCheckOutputs {
    /// Resolves to `"true"` when the bind has drifted.
    pub drifted: String,
    /// An optional description of the drift.
    pub message: Option<String>,
}

} // verus!
