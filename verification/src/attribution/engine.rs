//! What attribution asks of a numerical engine.
//!
//! SPDX-License-Identifier: MIT OR Apache-2.0

use crate::attribution::amount::Amount;
use crate::attribution::coalition;
use crate::attribution::error::AttributionError;
use crate::attribution::linear;
use crate::attribution::model::{CausalModel, MechanismSlot, ModelView};
use crate::query::attribution::AllocationMethod;
use vstd::prelude::*;

verus! {

/// Two sets of fitted mechanisms and a choice between them for every node.
#[verifier::ext_equal]
pub struct HybridState<N> {
    /// Mechanisms fitted on the baseline population.
    pub baseline: Seq<MechanismSlot<N>>,
    /// Mechanisms fitted on the comparison population.
    pub comparison: Seq<MechanismSlot<N>>,
    /// Nodes that use the comparison mechanism.
    pub swapped: Seq<bool>,
}

impl<N> HybridState<N> {
    /// One mechanism of each kind and one choice per node.
    pub open spec fn fits(self, n: nat) -> bool {
        self.baseline.len() == n && self.comparison.len() == n && self.swapped.len() == n
    }

    /// The mechanism in force at a node.
    pub open spec fn in_force(self, node: int) -> MechanismSlot<N> {
        if self.swapped[node] {
            self.comparison[node]
        } else {
            self.baseline[node]
        }
    }
}

/// Two sets of fitted mechanisms and a choice between them for every node.
#[derive(Clone, Debug, PartialEq)]
pub struct HybridStore<N> {
    /// Mechanisms fitted on the baseline population.
    pub baseline: Vec<MechanismSlot<N>>,
    /// Mechanisms fitted on the comparison population.
    pub comparison: Vec<MechanismSlot<N>>,
    /// Nodes that use the comparison mechanism.
    pub swapped: Vec<bool>,
}

impl<N> View for HybridStore<N> {
    type V = HybridState<N>;

    open spec fn view(&self) -> HybridState<N> {
        HybridState {
            baseline: self.baseline@,
            comparison: self.comparison@,
            swapped: self.swapped@,
        }
    }
}

/// No node uses the comparison mechanism.
pub open spec fn unswapped(n: nat) -> Seq<bool> {
    Seq::new(n, |i: int| false)
}

impl<N> HybridStore<N> {
    /// Every node at its baseline mechanism.
    #[must_use]
    pub fn new(baseline: Vec<MechanismSlot<N>>, comparison: Vec<MechanismSlot<N>>) -> (store: Self)
        ensures
            store@ == (HybridState {
                baseline: baseline@,
                comparison: comparison@,
                swapped: unswapped(baseline@.len()),
            }),
    {
        let mut swapped: Vec<bool> = Vec::new();
        while swapped.len() < baseline.len()
            invariant
                swapped@.len() <= baseline@.len(),
                swapped@ == unswapped(swapped@.len()),
            decreases baseline.len() - swapped.len(),
        {
            swapped.push(false);
            assert(swapped@ =~= unswapped(swapped@.len()));
        }
        HybridStore { baseline, comparison, swapped }
    }

    /// The mechanism in force at a node.
    pub fn slot(&self, node: usize) -> (slot: &MechanismSlot<N>)
        requires
            self@.fits(self.swapped@.len()),
            node < self.swapped@.len(),
        ensures
            *slot == self@.in_force(node as int),
    {
        if self.swapped[node] {
            &self.comparison[node]
        } else {
            &self.baseline[node]
        }
    }

    /// The mechanisms in force, by node.
    pub fn slots(&self) -> (slots: Vec<&MechanismSlot<N>>)
        requires
            self@.fits(self.swapped@.len()),
        ensures
            slots@.len() == self.swapped@.len(),
            forall|i: int|
                0 <= i < slots@.len() ==> *(#[trigger] slots@[i]) == self@.in_force(i),
    {
        let mut slots: Vec<&MechanismSlot<N>> = Vec::new();
        while slots.len() < self.swapped.len()
            invariant
                self@.fits(self.swapped@.len()),
                slots@.len() <= self.swapped@.len(),
                forall|i: int|
                    0 <= i < slots@.len() ==> *(#[trigger] slots@[i]) == self@.in_force(i),
            decreases self.swapped.len() - slots.len(),
        {
            slots.push(self.slot(slots.len()));
        }
        slots
    }
}

/// Numerical work that attribution is built on: mechanisms, samples and quantiles.
///
/// What an operation returns depends on its arguments alone: a sample is drawn from the stream
/// that [`crate::execution::CausalRng::from_seed`] starts at the seed it is given.
pub trait Engine<N: Amount> {
    /// Value of a mechanism on parent values and noise.
    open spec fn evaluated(
        &self,
        slot: MechanismSlot<N>,
        parents: Seq<N>,
        noise: N,
    ) -> Result<N, AttributionError> {
        arbitrary()
    }

    /// Mean and variance of the outcome under the mechanisms in force.
    open spec fn law_of(
        &self,
        model: ModelView,
        store: HybridState<N>,
        outcome: int,
        n_samples: usize,
        seed: u64,
    ) -> Result<(N, N), AttributionError> {
        arbitrary()
    }

    /// Why a game may not be sampled, where the samples it takes exceed the budget.
    open spec fn over_budget(
        &self,
        n_players: usize,
        allocation: AllocationMethod,
        n_samples: usize,
    ) -> Option<AttributionError> {
        arbitrary()
    }

    /// Divergence of one normal law from another.
    open spec fn divergence(&self, law: (N, N), from: (N, N)) -> Result<N, AttributionError> {
        arbitrary()
    }

    /// Upper Student-t quantile at some degrees of freedom.
    open spec fn quantile(&self, df: u64) -> N {
        arbitrary()
    }

    /// Negative logarithm of the two-sided tail beyond a value, on a normal reference.
    open spec fn tail(&self, center: N, scale: N, value: N) -> N {
        arbitrary()
    }

    /// Evaluate a mechanism.
    fn evaluate(&self, slot: &MechanismSlot<N>, parents: &Vec<N>, noise: N) -> (r: Result<
        N,
        AttributionError,
    >)
        ensures
            r == self.evaluated(*slot, parents@, noise),
    ;

    /// Sample the outcome and summarize it.
    fn outcome_law(
        &self,
        model: &CausalModel,
        store: &HybridStore<N>,
        outcome: usize,
        n_samples: usize,
        seed: u64,
    ) -> (r: Result<(N, N), AttributionError>)
        requires
            model@.well_formed(),
            store@.fits(model@.nodes()),
            outcome < model@.nodes(),
        ensures
            r == self.law_of(model@, store@, outcome as int, n_samples, seed),
    ;

    /// Check that the samples a game takes over its coalitions are within budget.
    fn check_coalition_sample_budget(
        &self,
        n_players: usize,
        allocation: &AllocationMethod,
        n_samples: usize,
    ) -> (r: Result<(), AttributionError>)
        ensures
            r == match self.over_budget(n_players, *allocation, n_samples) {
                Some(error) => Err(error),
                None => Ok(()),
            },
    ;

    /// Divergence of one normal law from another.
    fn gaussian_kl(&self, law: (N, N), from: (N, N)) -> (r: Result<N, AttributionError>)
        ensures
            r == self.divergence(law, from),
    ;

    /// Upper Student-t quantile.
    fn critical_value(&self, df: u64) -> (r: N)
        ensures
            r == self.quantile(df),
    ;

    /// Tail score of a value.
    fn tail_score(&self, center: N, scale: N, value: N) -> (r: N)
        ensures
            r == self.tail(center, scale, value),
    ;
}

/// Sum of the first `k` coefficients times the parent values, from the intercept.
pub open spec fn linear_value<N: Amount>(
    intercept: N,
    coeffs: Seq<N>,
    parents: Seq<N>,
    k: nat,
) -> N
    decreases k,
{
    if k == 0 {
        intercept
    } else {
        linear_value(intercept, coeffs, parents, (k - 1) as nat).plus(
            linear::coefficient(coeffs, k - 1).times(parents[k - 1]),
        )
    }
}

/// Closed forms for models whose mechanisms have an equation.
///
/// The mean and variance of the outcome are those the model implies, whatever the number of
/// samples; as none are drawn, no budget is exceeded. Divergences are not available, and the tail score is the standardized distance.
#[derive(Clone, Copy, Debug, PartialEq)]
pub struct ClosedForm<N> {
    /// Critical value for every number of degrees of freedom.
    pub critical: N,
}

impl<N: Amount> Engine<N> for ClosedForm<N> {
    open spec fn evaluated(
        &self,
        slot: MechanismSlot<N>,
        parents: Seq<N>,
        noise: N,
    ) -> Result<N, AttributionError> {
        match slot.linear() {
            Some(form) => Ok(
                linear_value(form.intercept, form.coeffs, parents, parents.len()).plus(noise),
            ),
            None => match slot {
                MechanismSlot::Constant { value } => Ok(value),
                _ => Err(AttributionError::NonLinearGaussianMechanism),
            },
        }
    }

    open spec fn law_of(
        &self,
        model: ModelView,
        store: HybridState<N>,
        outcome: int,
        n_samples: usize,
        seed: u64,
    ) -> Result<(N, N), AttributionError> {
        let slots = |i: int| store.in_force(i);
        if linear::solvable(model, slots) {
            Ok(
                (
                    linear::means(model, slots, model.nodes())(outcome),
                    linear::covariances(model, slots, model.nodes())(outcome, outcome),
                ),
            )
        } else {
            Err(AttributionError::NonLinearGaussianMechanism)
        }
    }

    open spec fn over_budget(
        &self,
        n_players: usize,
        allocation: AllocationMethod,
        n_samples: usize,
    ) -> Option<AttributionError> {
        None
    }

    open spec fn divergence(&self, law: (N, N), from: (N, N)) -> Result<N, AttributionError> {
        Err(
            AttributionError::Unsupported {
                message: "a closed form for the Gaussian divergence needs a logarithm",
            },
        )
    }

    open spec fn quantile(&self, df: u64) -> N {
        self.critical
    }

    open spec fn tail(&self, center: N, scale: N, value: N) -> N {
        value.minus(center).over(scale).size()
    }

    fn evaluate(&self, slot: &MechanismSlot<N>, parents: &Vec<N>, noise: N) -> Result<
        N,
        AttributionError,
    > {
        match slot.linear_parts() {
            Some((intercept, coeffs, _)) => {
                let mut value = intercept;
                let mut i: usize = 0;
                while i < parents.len()
                    invariant
                        0 <= i <= parents@.len(),
                        value == linear_value(intercept, coeffs@, parents@, i as nat),
                    decreases parents.len() - i,
                {
                    let beta = if i < coeffs.len() {
                        coeffs[i]
                    } else {
                        N::zero()
                    };
                    value = value.sum(beta.product(parents[i]));
                    i = i + 1;
                }
                Ok(value.sum(noise))
            },
            None => match slot {
                MechanismSlot::Constant { value } => Ok(*value),
                _ => Err(AttributionError::NonLinearGaussianMechanism),
            },
        }
    }

    fn outcome_law(
        &self,
        model: &CausalModel,
        store: &HybridStore<N>,
        outcome: usize,
        n_samples: usize,
        seed: u64,
    ) -> Result<(N, N), AttributionError> {
        let slots = store.slots();
        let ghost chosen = |i: int| store@.in_force(i);
        proof {
            lemma_same_slots(model@, linear::by_node(slots@), chosen, model@.nodes());
        }
        match linear::model_implied_means(model, &slots) {
            Ok(means) => match linear::model_implied_variances(model, &slots) {
                Ok(variances) => Ok((means[outcome], variances[outcome])),
                Err(error) => Err(error),
            },
            Err(error) => Err(error),
        }
    }

    fn check_coalition_sample_budget(
        &self,
        n_players: usize,
        allocation: &AllocationMethod,
        n_samples: usize,
    ) -> Result<(), AttributionError> {
        Ok(())
    }

    fn gaussian_kl(&self, law: (N, N), from: (N, N)) -> Result<N, AttributionError> {
        Err(
            AttributionError::unsupported(
                "a closed form for the Gaussian divergence needs a logarithm",
            ),
        )
    }

    fn critical_value(&self, df: u64) -> N {
        self.critical
    }

    fn tail_score(&self, center: N, scale: N, value: N) -> N {
        value.difference(center).quotient(scale).magnitude()
    }
}

/// Implied moments depend only on the mechanisms of the model's nodes.
proof fn lemma_same_slots<N: Amount>(
    model: ModelView,
    a: spec_fn(int) -> MechanismSlot<N>,
    b: spec_fn(int) -> MechanismSlot<N>,
    k: nat,
)
    requires
        model.well_formed(),
        k <= model.nodes(),
        forall|i: int| 0 <= i < model.nodes() ==> #[trigger] a(i) == b(i),
    ensures
        linear::solvable(model, a) == linear::solvable(model, b),
        linear::means(model, a, k) == linear::means(model, b, k),
        linear::covariances(model, a, k) == linear::covariances(model, b, k),
    decreases k,
{
    assert forall|j: int| 0 <= j < model.nodes() implies a(#[trigger] model.child(j)) == b(
        model.child(j),
    ) by {
        assert(model.child(j) < model.nodes());
    }
    if k > 0 {
        lemma_same_slots(model, a, b, (k - 1) as nat);
        assert(a(model.child(k - 1)) == b(model.child(k - 1)));
    }
    assert(linear::means(model, a, k) =~= linear::means(model, b, k));
    assert(linear::covariances(model, a, k) =~= linear::covariances(model, b, k));
}

/// Choose the comparison mechanism at the nodes of the coalition's players.
pub open spec fn swaps(nodes: Seq<Option<usize>>, mask: u64, n: nat) -> Seq<bool> {
    Seq::new(
        n,
        |x: int|
            exists|i: int|
                0 <= i < nodes.len() && #[trigger] nodes[i] == Some(x as usize)
                    && coalition::member(mask, i),
    )
}

/// Choose the comparison mechanism at the nodes of the coalition's players.
pub fn swapped_by(nodes: &Vec<Option<usize>>, mask: u64, n: usize) -> (swapped: Vec<bool>)
    requires
        nodes@.len() <= 64,
        forall|i: int|
            0 <= i < nodes@.len() ==> (#[trigger] nodes@[i] matches Some(node) ==> node < n),
    ensures
        swapped@ == swaps(nodes@, mask, n as nat),
{
    let mut swapped: Vec<bool> = Vec::new();
    while swapped.len() < n
        invariant
            swapped@.len() <= n,
            forall|x: int| 0 <= x < swapped@.len() ==> !(#[trigger] swapped@[x]),
        decreases n - swapped.len(),
    {
        swapped.push(false);
    }
    proof {
        assert forall|x: int| 0 <= x < n implies #[trigger] swapped@[x] == swapped_until(
            nodes@,
            mask,
            x,
            0,
        ) by {
            reveal(swapped_until);
        }
    }
    let mut i: usize = 0;
    while i < nodes.len()
        invariant
            0 <= i <= nodes@.len() <= 64,
            swapped@.len() == n,
            forall|k: int|
                0 <= k < nodes@.len() ==> (#[trigger] nodes@[k] matches Some(node) ==> node < n),
            forall|x: int|
                0 <= x < n ==> #[trigger] swapped@[x] == swapped_until(
                    nodes@,
                    mask,
                    x,
                    i as int,
                ),
        decreases nodes.len() - i,
    {
        let ghost before = swapped@;
        if coalition::contains(mask, i) {
            if let Some(node) = nodes[i] {
                assert(nodes@[i as int] == Some(node));
                swapped.set(node, true);
            }
        }
        proof {
            assert forall|x: int| 0 <= x < n implies #[trigger] swapped@[x] == swapped_until(
                nodes@,
                mask,
                x,
                i + 1,
            ) by {
                assert(before[x] == swapped_until(nodes@, mask, x, i as int));
                reveal(swapped_until);
                if swapped_until(nodes@, mask, x, i as int) {
                    let k = choose|k: int|
                        0 <= k < i && #[trigger] nodes@[k] == Some(x as usize)
                            && coalition::member(mask, k);
                    assert(0 <= k < i + 1 && nodes@[k] == Some(x as usize));
                }
                if swapped_until(nodes@, mask, x, i + 1) {
                    let k = choose|k: int|
                        0 <= k < i + 1 && #[trigger] nodes@[k] == Some(x as usize)
                            && coalition::member(mask, k);
                    assert(nodes@[k] == Some(x as usize));
                }
                if nodes@[i as int] == Some(x as usize) && coalition::member(mask, i as int) {
                    assert(0 <= i < i + 1 && nodes@[i as int] == Some(x as usize));
                }
            }
        }
        i = i + 1;
    }
    proof {
        assert(swapped@ =~= swaps(nodes@, mask, n as nat)) by {
            reveal(swapped_until);
        }
    }
    swapped
}

/// A node is chosen by one of the first `k` players.
#[verifier::opaque]
spec fn swapped_until(nodes: Seq<Option<usize>>, mask: u64, x: int, k: int) -> bool {
    exists|i: int|
        0 <= i < k && #[trigger] nodes[i] == Some(x as usize) && coalition::member(mask, i)
}

} // verus!
