//! Closed interval-method vocabulary recorded on a compiled claim.
//!
//! SPDX-License-Identifier: MIT OR Apache-2.0

use vstd::prelude::*;

verus! {

/// How an execution formed its reported interval.
#[derive(Clone, Copy, Debug, PartialEq, Eq, Hash, Structural)]
pub enum IntervalMethod {
    /// Analytic standard error.
    AnalyticSe,
    /// Bootstrap standard error.
    BootstrapSe,
    /// Posterior quantile interval.
    PosteriorQuantile,
    /// Per-unit posterior quantile interval: equal-tailed quantiles of one
    /// observed unit's effect draws. Kept apart from [`Self::PosteriorQuantile`]
    /// because it covers each unit's contrast, not the scalar average.
    UnitPosteriorQuantile,
    /// Identified-set interval.
    IdentifiedSet,
    /// Circular-block standard error.
    CircularBlockSe,
    /// Simultaneous band.
    SimultaneousBand,
    /// Anderson-Rubin confidence set. Endpoints are not a standard error: they
    /// may be infinite, and the set is not an estimate plus or minus one.
    AndersonRubin,
    /// No interval was formed.
    NoInterval,
}

impl IntervalMethod {
    /// The name as text.
    pub open spec fn name(self) -> Seq<char> {
        match self {
            IntervalMethod::AnalyticSe => "analytic_se"@,
            IntervalMethod::BootstrapSe => "bootstrap_se"@,
            IntervalMethod::PosteriorQuantile => "posterior_quantile"@,
            IntervalMethod::UnitPosteriorQuantile => "unit_posterior_quantile"@,
            IntervalMethod::IdentifiedSet => "identified_set"@,
            IntervalMethod::CircularBlockSe => "circular_block_se"@,
            IntervalMethod::SimultaneousBand => "simultaneous_band"@,
            IntervalMethod::AndersonRubin => "anderson_rubin"@,
            IntervalMethod::NoInterval => "none"@,
        }
    }

    /// Every variant, in declaration order.
    pub fn all() -> (list: [IntervalMethod; 9])
        ensures
            list@ == seq![
                IntervalMethod::AnalyticSe,
                IntervalMethod::BootstrapSe,
                IntervalMethod::PosteriorQuantile,
                IntervalMethod::UnitPosteriorQuantile,
                IntervalMethod::IdentifiedSet,
                IntervalMethod::CircularBlockSe,
                IntervalMethod::SimultaneousBand,
                IntervalMethod::AndersonRubin,
                IntervalMethod::NoInterval,
            ],
            forall|x: IntervalMethod| #[trigger] list@.contains(x),
    {
        let list: [IntervalMethod; 9] = [
            IntervalMethod::AnalyticSe,
            IntervalMethod::BootstrapSe,
            IntervalMethod::PosteriorQuantile,
            IntervalMethod::UnitPosteriorQuantile,
            IntervalMethod::IdentifiedSet,
            IntervalMethod::CircularBlockSe,
            IntervalMethod::SimultaneousBand,
            IntervalMethod::AndersonRubin,
            IntervalMethod::NoInterval,
        ];
        proof {
            assert(list@ =~= seq![
                IntervalMethod::AnalyticSe,
                IntervalMethod::BootstrapSe,
                IntervalMethod::PosteriorQuantile,
                IntervalMethod::UnitPosteriorQuantile,
                IntervalMethod::IdentifiedSet,
                IntervalMethod::CircularBlockSe,
                IntervalMethod::SimultaneousBand,
                IntervalMethod::AndersonRubin,
                IntervalMethod::NoInterval,
            ]);
            assert forall|x: IntervalMethod| #[trigger] list@.contains(x) by {
                match x {
                    IntervalMethod::AnalyticSe => assert(list@[0] == x),
                    IntervalMethod::BootstrapSe => assert(list@[1] == x),
                    IntervalMethod::PosteriorQuantile => assert(list@[2] == x),
                    IntervalMethod::UnitPosteriorQuantile => assert(list@[3] == x),
                    IntervalMethod::IdentifiedSet => assert(list@[4] == x),
                    IntervalMethod::CircularBlockSe => assert(list@[5] == x),
                    IntervalMethod::SimultaneousBand => assert(list@[6] == x),
                    IntervalMethod::AndersonRubin => assert(list@[7] == x),
                    IntervalMethod::NoInterval => assert(list@[8] == x),
                }
            }
        }
        list
    }

    /// Stable `snake_case` name.
    #[must_use]
    pub fn as_str(self) -> (out: &'static str)
        ensures
            out@ == self.name(),
    {
        match self {
            IntervalMethod::AnalyticSe => "analytic_se",
            IntervalMethod::BootstrapSe => "bootstrap_se",
            IntervalMethod::PosteriorQuantile => "posterior_quantile",
            IntervalMethod::UnitPosteriorQuantile => "unit_posterior_quantile",
            IntervalMethod::IdentifiedSet => "identified_set",
            IntervalMethod::CircularBlockSe => "circular_block_se",
            IntervalMethod::SimultaneousBand => "simultaneous_band",
            IntervalMethod::AndersonRubin => "anderson_rubin",
            IntervalMethod::NoInterval => "none",
        }
    }
}

/// Different variants of [`IntervalMethod`] have different names.
pub proof fn law_interval_method_names_are_distinct(a: IntervalMethod, b: IntervalMethod)
    requires
        a.name() == b.name(),
    ensures
        a == b,
{
    reveal_strlit("analytic_se");
    assert("analytic_se"@.len() == 11 && "analytic_se"@[0] == 'a');
    reveal_strlit("bootstrap_se");
    assert("bootstrap_se"@.len() == 12 && "bootstrap_se"@[0] == 'b');
    reveal_strlit("posterior_quantile");
    assert("posterior_quantile"@.len() == 18 && "posterior_quantile"@[0] == 'p');
    reveal_strlit("unit_posterior_quantile");
    assert("unit_posterior_quantile"@.len() == 23 && "unit_posterior_quantile"@[0] == 'u');
    reveal_strlit("identified_set");
    assert("identified_set"@.len() == 14 && "identified_set"@[0] == 'i');
    reveal_strlit("circular_block_se");
    assert("circular_block_se"@.len() == 17 && "circular_block_se"@[0] == 'c');
    reveal_strlit("simultaneous_band");
    assert("simultaneous_band"@.len() == 17 && "simultaneous_band"@[0] == 's');
    reveal_strlit("anderson_rubin");
    assert("anderson_rubin"@.len() == 14 && "anderson_rubin"@[0] == 'a');
    reveal_strlit("none");
    assert("none"@.len() == 4 && "none"@[0] == 'n');
}

} // verus!
