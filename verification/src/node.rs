//! Stable node identity before dense graph indexing.
//!
//! SPDX-License-Identifier: MIT OR Apache-2.0

use crate::ids::{EnvironmentId, Lag, VariableId};
use vstd::prelude::*;

verus! {

/// Stable node identity before dense indexing.
#[derive(Clone, Copy, Debug, PartialEq, Eq, PartialOrd, Ord, Hash, Structural)]
pub enum NodeRef {
    /// Static graph node.
    Static(VariableId),
    /// Lagged temporal node (`variable` at `t - lag`).
    Lagged {
        /// Variable.
        variable: VariableId,
        /// Non-negative lag (`0` is contemporaneous).
        lag: Lag,
    },
    /// Slot of a finite unfolding: `variable` at a signed time `offset` from the
    /// analysis origin.
    ///
    /// Unfolded graphs label their nodes with this so that a window slot is never
    /// mistaken for a schema variable.
    Unfolded {
        /// Variable.
        variable: VariableId,
        /// Signed offset from the analysis origin (negative is history).
        offset: i32,
    },
    /// Context-aware node.
    Context {
        /// Variable.
        variable: VariableId,
        /// Optional environment.
        environment: Option<EnvironmentId>,
    },
}

impl NodeRef {
    /// The variable a node refers to.
    pub open spec fn variable_of(self) -> VariableId {
        match self {
            NodeRef::Static(v) => v,
            NodeRef::Lagged { variable, .. } => variable,
            NodeRef::Unfolded { variable, .. } => variable,
            NodeRef::Context { variable, .. } => variable,
        }
    }

    /// Variable id carried by this node reference.
    #[must_use]
    pub fn variable(self) -> (v: VariableId)
        ensures
            v == self.variable_of(),
    {
        match self {
            NodeRef::Static(v) => v,
            NodeRef::Lagged { variable, .. } => variable,
            NodeRef::Unfolded { variable, .. } => variable,
            NodeRef::Context { variable, .. } => variable,
        }
    }

    /// Lag if this is a lagged node; `None` for every other node.
    #[must_use]
    pub fn lag(self) -> (lag: Option<Lag>)
        ensures
            match self {
                NodeRef::Lagged { lag: own, .. } => lag == Some(own),
                _ => lag is None,
            },
    {
        match self {
            NodeRef::Lagged { lag, .. } => Some(lag),
            _ => None,
        }
    }

    /// Whether this is a node of a static (non-temporal) graph: a schema variable or a
    /// slot of a finite unfolding.
    #[must_use]
    pub fn is_static_graph_node(self) -> (yes: bool)
        ensures
            yes == (self is Static || self is Unfolded),
    {
        match self {
            NodeRef::Static(_) => true,
            NodeRef::Unfolded { .. } => true,
            _ => false,
        }
    }
}

} // verus!
