//! Attribution of change and anomaly to components of a causal model.
//!
//! The algorithms are generic over the number type: [`amount::Amount`] names the
//! arithmetic they use, so every contract says which operations are applied to which
//! payoffs and in what order.
//!
//! SPDX-License-Identifier: MIT OR Apache-2.0

pub mod admitted;
pub mod allocation;
pub mod amount;
pub mod anomaly;
pub mod arrange;
pub mod bootstrap;
pub mod change;
pub mod coalition;
pub mod conservation;
pub mod detection;
pub mod distribution;
pub mod efficiency;
pub mod engine;
pub mod error;
pub mod fairness;
pub mod figures;
pub mod implied;
pub mod intervals;
pub mod linear;
pub mod makings;
pub mod measures;
pub mod mechanism_change;
pub mod model;
pub mod moments;
pub mod orders;
pub mod payoff;
pub mod rankings;
pub mod recorded;
pub mod result;
pub mod robust;
pub mod root_cause;
pub mod rosters;
pub mod scores;
pub mod sequential;
pub mod shapley;
pub mod shares;
pub mod structure;
pub mod table;
pub mod tallies;
pub mod unit;
pub mod units;
