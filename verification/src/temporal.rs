//! Temporal node keys.
//!
//! SPDX-License-Identifier: MIT OR Apache-2.0

use crate::ids::VariableId;
use vstd::prelude::*;

verus! {

/// Template-level node: a variable at a signed offset from the analysis origin.
#[derive(Clone, Copy, Debug, PartialEq, Eq, Hash, Structural)]
pub struct TemporalNodeKey {
    /// Variable.
    pub variable: VariableId,
    /// Signed offset (negative is history).
    pub offset: i32,
}

} // verus!
