//! Typed causal-analysis contracts and attribution bookkeeping.
//!
//! The crate holds the decisions of a causal-analysis library: what a compiled
//! claim may say, which evidence satisfies which transport factor, when a query
//! is well formed, how coalition games are scheduled and how a change is shared
//! among the components of a model. Numerical levels are carried as IEEE-754 bit
//! patterns, so rules on them are rules on integers; attribution is generic over
//! the arithmetic it uses.
//!
//! SPDX-License-Identifier: MIT OR Apache-2.0

use vstd::prelude::*;

pub mod assumption;
pub mod attribution;
pub mod capability;
pub mod claim;
pub mod diagnostic;
pub mod error;
pub mod execution;
pub mod identification;
pub mod identity;
pub mod ids;
pub mod intervention;
pub mod interval;
pub mod level;
pub mod node;
pub mod obligation;
pub mod order;
pub mod provenance;
pub mod query;
pub mod reason_code;
pub mod reasoning;
pub mod response;
pub mod temporal;
pub mod text;
pub mod trajectory;
pub mod transform;
pub mod transport_result;
pub mod value;

verus! {

/// Library version string.
pub const VERSION: &'static str = "1.10.0";

} // verus!
