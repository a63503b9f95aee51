//! Shared identification status vocabulary.
//!
//! SPDX-License-Identifier: MIT OR Apache-2.0

use vstd::prelude::*;

verus! {

/// Status of an identification attempt.
///
/// A prior alone must not turn [`Self::NotIdentified`] into an identified status:
/// the restricted statuses are about identifying assumptions, not about how
/// estimation ran.
#[derive(Clone, Copy, Debug, PartialEq, Eq, Hash, Structural)]
pub enum IdentificationStatus {
    /// Nonparametrically identified.
    NonparametricallyIdentified,
    /// Identified under parametric restrictions on the model class.
    IdentifiedUnderParametricRestrictions,
    /// Identified under prior or substantive restrictions treated as identifying
    /// assumptions. Reserved: estimation gates do not accept it.
    IdentifiedUnderPriorRestrictions,
    /// Identified only under a proper subset of the model class.
    PartiallyIdentified,
    /// Identification depends on which graph of an equivalence class holds.
    GraphDependent,
    /// Search or budget could not determine identifiability. A budget miss is not
    /// a scientific impossibility.
    Undetermined,
    /// Proven not identified.
    NotIdentified,
}

} // verus!
