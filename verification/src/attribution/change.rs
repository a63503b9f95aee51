//! Shared parts of change attribution: measures, allocation and packing.
//!
//! SPDX-License-Identifier: MIT OR Apache-2.0

use crate::attribution::amount::Amount;
use crate::attribution::engine::Engine;
use crate::attribution::error::AttributionError;
use crate::attribution::orders;
use crate::attribution::payoff;
use crate::attribution::payoff::CoalitionPayoff;
use crate::attribution::sequential;
use crate::attribution::sequential::DUPLICATE_COMPONENTS;
use crate::execution;
use crate::ids::ComponentId;
use vstd::prelude::*;

verus! {

/// Stream of samples of distribution change.
pub const DISTRIBUTION_STREAM: u64 = 0xA77D_0001;

/// Stream of permutations of unit change.
pub const UNIT_STREAM: u64 = 0xA77D_0002;

/// Samples per coalition unless options say otherwise.
pub const DEFAULT_SAMPLES: usize = 2000;

/// Message for an order that misses a player.
pub const INCOMPLETE_ORDER: &'static str =
    "sequential allocation order must contain every player exactly once";

/// Message for a path allocation without paths.
pub const PATHS_REQUIRED: &'static str =
    "PathBased allocation requires a compiled model with linear edges";

/// Message for path shares or a change that are not finite.
pub const FINITE_SHARES_REQUIRED: &'static str =
    "PathBased allocation requires finite path shares and total change";

/// Message for path shares that cancel.
pub const CANCELLING_SHARES: &'static str =
    "PathBased signed path shares cancel to zero and cannot allocate a nonzero total change";

/// Seed of one stream of a family.
#[must_use]
pub fn stream_tag(family: u64, index: u64) -> (tag: u64)
    ensures
        tag == execution::mixed(family, index),
{
    execution::mix_seed(family, index)
}

/// How a difference of the outcome is measured.
#[derive(Clone, Copy, Debug, PartialEq, Eq, Hash, Structural)]
#[non_exhaustive]
pub enum DifferenceMeasure {
    /// Difference of means.
    MeanDiff,
    /// Difference of variances.
    VarianceDiff,
    /// Divergence of the hybrid outcome law from the all-baseline one, both normal.
    GaussianKl,
}

/// Sampling and measure of a change attribution.
#[derive(Clone, Copy, Debug, PartialEq, Eq, Structural)]
pub struct ChangeOptions {
    /// Measure.
    pub measure: DifferenceMeasure,
    /// Samples per coalition.
    pub n_samples: usize,
    /// Seed.
    pub seed: u64,
}

impl ChangeOptions {
    /// Options from their parts.
    #[must_use]
    pub fn new(measure: DifferenceMeasure, n_samples: usize, seed: u64) -> (options: Self)
        ensures
            options == (ChangeOptions { measure, n_samples, seed }),
    {
        ChangeOptions { measure, n_samples, seed }
    }

    /// Difference of means with the default number of samples.
    #[must_use]
    pub fn default_mean() -> (options: Self)
        ensures
            options == (ChangeOptions {
                measure: DifferenceMeasure::MeanDiff,
                n_samples: DEFAULT_SAMPLES,
                seed: 0,
            }),
    {
        ChangeOptions::new(DifferenceMeasure::MeanDiff, DEFAULT_SAMPLES, 0)
    }
}

impl Default for ChangeOptions {
    fn default() -> (options: Self)
        ensures
            options == (ChangeOptions {
                measure: DifferenceMeasure::MeanDiff,
                n_samples: DEFAULT_SAMPLES,
                seed: 0,
            }),
    {
        ChangeOptions::default_mean()
    }
}

/// The change between the empty and the full coalition.
pub open spec fn change_of<N: Amount>(measure: DifferenceMeasure, v0: N, v_full: N) -> N {
    match measure {
        DifferenceMeasure::GaussianKl => v_full,
        _ => v_full.minus(v0),
    }
}

/// The change between the empty and the full coalition: a divergence is one already.
#[must_use]
pub fn total_change<N: Amount>(measure: DifferenceMeasure, v0: N, v_full: N) -> (change: N)
    ensures
        change == change_of(measure, v0, v_full),
{
    match measure {
        DifferenceMeasure::GaussianKl => v_full,
        _ => v_full.difference(v0),
    }
}

/// What a coalition with an outcome law is worth under a measure.
pub open spec fn measured<N: Amount, E: Engine<N>>(
    engine: E,
    measure: DifferenceMeasure,
    mask: u64,
    law: (N, N),
    baseline_law: Option<(N, N)>,
) -> Result<N, AttributionError> {
    match measure {
        DifferenceMeasure::MeanDiff => Ok(law.0),
        DifferenceMeasure::VarianceDiff => Ok(law.1),
        DifferenceMeasure::GaussianKl => if mask == 0 {
            Ok(N::nil())
        } else {
            match baseline_law {
                Some(from) => engine.divergence(law, from),
                None => Err(
                    AttributionError::Unsupported {
                        message: "Gaussian KL payoff missing cached baseline law",
                    },
                ),
            }
        },
    }
}

/// Evaluate a measure on the mean and variance of a hybrid outcome.
pub fn measure_value<N: Amount, E: Engine<N>>(
    engine: &E,
    measure: DifferenceMeasure,
    mask: u64,
    law: (N, N),
    baseline_law: Option<(N, N)>,
) -> (r: Result<N, AttributionError>)
    ensures
        r == measured(*engine, measure, mask, law, baseline_law),
{
    match measure {
        DifferenceMeasure::MeanDiff => Ok(law.0),
        DifferenceMeasure::VarianceDiff => Ok(law.1),
        DifferenceMeasure::GaussianKl => {
            if mask == 0 {
                Ok(N::zero())
            } else {
                match baseline_law {
                    Some(from) => engine.gaussian_kl(law, from),
                    None => Err(
                        AttributionError::unsupported(
                            "Gaussian KL payoff missing cached baseline law",
                        ),
                    ),
                }
            }
        },
    }
}

/// Outcome laws of hybrid models, one per coalition.
pub trait OutcomeLaws<N: Amount> {
    /// Whether laws can be computed.
    open spec fn prepared(&self) -> bool {
        true
    }

    /// Mean and variance of the outcome for coalition `mask`.
    open spec fn law(&self, mask: u64) -> Result<(N, N), AttributionError> {
        arbitrary()
    }

    /// Compute mean and variance of the outcome for coalition `mask`.
    fn law_at(&mut self, mask: u64) -> (r: Result<(N, N), AttributionError>)
        requires
            old(self).prepared(),
        ensures
            final(self).prepared(),
            r == old(self).law(mask),
            forall|m: u64| #[trigger] final(self).law(m) == old(self).law(m),
    ;
}

/// Payoff of outcome laws under a measure. The all-baseline law is computed once.
pub struct LawPayoff<'a, N, E, L> {
    /// Where laws come from.
    pub laws: L,
    /// Measure.
    pub measure: DifferenceMeasure,
    /// Engine.
    pub engine: &'a E,
    /// All-baseline law, once computed.
    pub baseline_law: Option<(N, N)>,
}

impl<'a, N: Amount, E: Engine<N>, L: OutcomeLaws<N>> LawPayoff<'a, N, E, L> {
    /// A payoff that has computed nothing yet.
    #[must_use]
    pub fn new(laws: L, measure: DifferenceMeasure, engine: &'a E) -> (payoff: Self)
        ensures
            payoff.laws == laws,
            payoff.measure == measure,
            *payoff.engine == *engine,
            payoff.baseline_law is None,
    {
        LawPayoff { laws, measure, engine, baseline_law: None }
    }

    /// The all-baseline law.
    pub open spec fn base(self) -> Result<(N, N), AttributionError> {
        match self.baseline_law {
            Some(law) => Ok(law),
            None => self.laws.law(0),
        }
    }
}

/// Worth of a coalition under a measure of its outcome law. A divergence is taken from the
/// all-baseline law, and the empty coalition has none.
pub open spec fn law_worth<N: Amount, E: Engine<N>>(
    engine: E,
    measure: DifferenceMeasure,
    base: Result<(N, N), AttributionError>,
    law: Result<(N, N), AttributionError>,
    mask: u64,
) -> Result<N, AttributionError> {
    if measure is GaussianKl {
        match base {
            Err(error) => Err(error),
            Ok(from) => if mask == 0 {
                Ok(N::nil())
            } else {
                match law {
                    Err(error) => Err(error),
                    Ok(law) => engine.divergence(law, from),
                }
            },
        }
    } else {
        match law {
            Err(error) => Err(error),
            Ok(law) => measured(engine, measure, mask, law, None),
        }
    }
}

impl<'a, N: Amount, E: Engine<N>, L: OutcomeLaws<N>> CoalitionPayoff<N> for LawPayoff<'a, N, E, L> {
    open spec fn ready(&self) -> bool {
        self.laws.prepared()
    }

    open spec fn worth(&self, mask: u64) -> Result<N, AttributionError> {
        law_worth(*self.engine, self.measure, self.base(), self.laws.law(mask), mask)
    }

    fn value(&mut self, mask: u64) -> Result<N, AttributionError> {
        if matches!(self.measure, DifferenceMeasure::GaussianKl) {
            if self.baseline_law.is_none() {
                match self.laws.law_at(0) {
                    Ok(law) => {
                        self.baseline_law = Some(law);
                    },
                    Err(error) => {
                        return Err(error);
                    },
                }
            }
            if mask == 0 {
                return Ok(N::zero());
            }
        }
        match self.laws.law_at(mask) {
            Ok(law) => measure_value(self.engine, self.measure, mask, law, self.baseline_law),
            Err(error) => Err(error),
        }
    }
}

/// Why the first `k` components of an order are refused: a component that is no player, or
/// one that is named again.
pub open spec fn order_fault(
    order: Seq<ComponentId>,
    players: Seq<ComponentId>,
    k: nat,
) -> Option<AttributionError>
    decreases k,
{
    if k == 0 {
        None
    } else if order_fault(order, players, (k - 1) as nat) is Some {
        order_fault(order, players, (k - 1) as nat)
    } else {
        match sequential::place_of(players, order[k - 1]) {
            None => Some(AttributionError::UnknownPlayer),
            Some(place) => if named(order, players, place, k - 1) {
                Some(AttributionError::InvalidInput { message: DUPLICATE_COMPONENTS })
            } else {
                None
            },
        }
    }
}

/// A place is named by the first `k` components of an order.
#[verifier::opaque]
pub open spec fn named(
    order: Seq<ComponentId>,
    players: Seq<ComponentId>,
    place: usize,
    k: int,
) -> bool {
    exists|j: int| 0 <= j < k && sequential::place_of(players, #[trigger] order[j]) == Some(place)
}

/// Why an order is refused.
pub open spec fn order_refusal(
    order: Seq<ComponentId>,
    players: Seq<ComponentId>,
) -> Option<AttributionError> {
    if order.len() != players.len() {
        Some(AttributionError::InvalidInput { message: INCOMPLETE_ORDER })
    } else {
        order_fault(order, players, order.len())
    }
}

proof fn lemma_order_fault_stays(
    order: Seq<ComponentId>,
    players: Seq<ComponentId>,
    k: nat,
    n: nat,
)
    requires
        k <= n,
        order_fault(order, players, k) is Some,
    ensures
        order_fault(order, players, n) == order_fault(order, players, k),
    decreases n,
{
    if k < n {
        lemma_order_fault_stays(order, players, k, (n - 1) as nat);
    }
}

/// Check that an order names every player once.
pub fn check_order(order: &Vec<ComponentId>, players: &[ComponentId]) -> (r: Result<
    (),
    AttributionError,
>)
    ensures
        r == match order_refusal(order@, players@) {
            Some(error) => Err(error),
            None => Ok(()),
        },
{
    if order.len() != players.len() {
        return Err(AttributionError::invalid_input(INCOMPLETE_ORDER));
    }
    let n: usize = order.len();
    let mut seen: Vec<bool> = Vec::new();
    while seen.len() < n
        invariant
            seen@.len() <= n,
            forall|x: int| 0 <= x < seen@.len() ==> !(#[trigger] seen@[x]),
        decreases n - seen.len(),
    {
        seen.push(false);
    }
    proof {
        assert forall|x: int| 0 <= x < n implies #[trigger] seen@[x] == named(
            order@,
            players@,
            x as usize,
            0,
        ) by {
            reveal(named);
        }
    }
    let mut k: usize = 0;
    while k < n
        invariant
            0 <= k <= n,
            n == order@.len(),
            n == players@.len(),
            seen@.len() == n,
            order_fault(order@, players@, k as nat) is None,
            forall|x: int|
                0 <= x < n ==> #[trigger] seen@[x] == named(
                    order@,
                    players@,
                    x as usize,
                    k as int,
                ),
        decreases n - k,
    {
        let place: usize = match sequential::position_of(players, order[k]) {
            Some(place) => place,
            None => {
                proof {
                    lemma_order_fault_stays(order@, players@, (k + 1) as nat, n as nat);
                }
                return Err(AttributionError::UnknownPlayer);
            },
        };
        if seen[place] {
            proof {
                assert(named(order@, players@, place, k as int));
                lemma_order_fault_stays(order@, players@, (k + 1) as nat, n as nat);
            }
            return Err(AttributionError::invalid_input(DUPLICATE_COMPONENTS));
        }
        let ghost before = seen@;
        seen.set(place, true);
        proof {
            assert(!named(order@, players@, place, k as int));
            assert forall|x: int| 0 <= x < n implies #[trigger] seen@[x] == named(
                order@,
                players@,
                x as usize,
                k + 1,
            ) by {
                reveal(named);
                assert(before[x] == named(order@, players@, x as usize, k as int));
                if x == place {
                    assert(sequential::place_of(players@, order@[k as int]) == Some(x as usize));
                } else if named(order@, players@, x as usize, k + 1) {
                    let j = choose|j: int|
                        0 <= j < k + 1 && sequential::place_of(players@, #[trigger] order@[j]) == Some(
                            x as usize,
                        );
                    assert(j < k);
                }
            }
        }
        k = k + 1;
    }
    Ok(())
}

/// An accepted order names every player once.
pub proof fn law_accepted_orders_are_permutations(
    order: Seq<ComponentId>,
    players: Seq<ComponentId>,
)
    requires
        order_refusal(order, players) is None,
        players.len() <= usize::MAX,
    ensures
        orders::arranges(
            sequential::seats(order, sequential::seating(players)),
            players.len(),
        ),
{
    lemma_places(order, players, order.len());
}

proof fn lemma_places(order: Seq<ComponentId>, players: Seq<ComponentId>, k: nat)
    requires
        k <= order.len(),
        order_fault(order, players, k) is None,
        players.len() <= usize::MAX,
    ensures
        forall|j: int|
            #![trigger order[j]]
            0 <= j < k ==> sequential::place_of(players, order[j]) is Some && sequential::place_of(players, order[j])->0
                < players.len(),
        forall|i: int, j: int|
            0 <= i < j < k ==> sequential::place_of(players, #[trigger] order[i])->0 != sequential::place_of(
                players,
                #[trigger] order[j],
            )->0,
    decreases k,
{
    if k > 0 {
        lemma_places(order, players, (k - 1) as nat);
        let last = order[k - 1];
        let place = sequential::place_of(players, last)->0;
        assert(sequential::place_of(players, last) is Some);
        sequential::lemma_place(players, last);
        assert forall|i: int, j: int|
            0 <= i < j < k implies sequential::place_of(players, #[trigger] order[i])->0 != sequential::place_of(
            players,
            #[trigger] order[j],
        )->0 by {
            if j == k - 1 {
                reveal(named);
                if sequential::place_of(players, order[i])->0 == place {
                    assert(sequential::place_of(players, order[i]) == Some(place));
                    assert(named(order, players, place, k - 1));
                }
            }
        }
    }
}

} // verus!
