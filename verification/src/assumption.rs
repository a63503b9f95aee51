//! Assumption vocabulary shared by obligations, provenance and reasoning views.
//!
//! SPDX-License-Identifier: MIT OR Apache-2.0

use vstd::prelude::*;

verus! {

/// How an assumption entered an analysis.
#[derive(Clone, Copy, Debug, PartialEq, Eq, Hash, Structural)]
pub enum AssumptionSource {
    /// Declared by the caller.
    UserDeclared,
    /// Implied by the accepted graph or identifier.
    GraphImplied,
}

/// Validation status of an assumption.
#[derive(Clone, Copy, Debug, PartialEq, Eq, Hash, Structural)]
pub enum AssumptionStatus {
    /// Declared and not examined further.
    Declared,
    /// Examined and supported by the available evidence.
    Supported,
    /// Examined and contradicted by the available evidence.
    Contradicted,
}

/// A named assumption.
#[derive(Clone, Debug, PartialEq, Eq)]
pub struct Assumption {
    /// Stable assumption name.
    pub name: String,
}

impl Assumption {
    /// Copy of this assumption.
    pub fn duplicate(&self) -> (copy: Self)
        ensures
            copy == *self,
    {
        Assumption { name: self.name.clone() }
    }
}

/// Assumptions in force for one operation, in declaration order.
#[derive(Clone, Debug, PartialEq, Eq)]
pub struct AssumptionSet {
    /// Declared assumptions.
    pub assumptions: Vec<Assumption>,
}

impl AssumptionSet {
    /// Empty set.
    #[must_use]
    pub fn new() -> (set: Self)
        ensures
            set.assumptions@.len() == 0,
    {
        AssumptionSet { assumptions: Vec::new() }
    }
}

} // verus!
