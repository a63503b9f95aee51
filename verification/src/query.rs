//! Typed causal queries and their validation.
//!
//! SPDX-License-Identifier: MIT OR Apache-2.0

pub mod acceptance;
pub mod admission;
pub mod attribution;
pub mod counterfactual;
pub mod effect;
pub mod error;
pub mod evidence;
pub mod functional;
pub mod interference;
pub mod mediation;
pub mod nested_counterfactual;
pub mod response;
pub mod target;
pub mod transport;
pub mod transport_canonical;
pub mod transport_catalog;
pub mod transport_contract;
pub mod transport_delta;
pub mod transport_reorder;
