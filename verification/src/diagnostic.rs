//! Non-fatal diagnostics.
//!
//! SPDX-License-Identifier: MIT OR Apache-2.0

use vstd::prelude::*;

verus! {

/// One non-fatal diagnostic.
#[derive(Clone, Debug, PartialEq, Eq)]
pub struct Diagnostic {
    /// Stable diagnostic id.
    pub id: String,
    /// Human-readable message.
    pub message: String,
}

} // verus!
