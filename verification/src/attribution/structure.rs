//! Attribution of a change in distribution to parent sets.
//!
//! Two graphs over the same variables differ in the parents of some nodes. A coalition says
//! which of these nodes take their parents, and the mechanism fitted with them, from the
//! comparison graph.
//!
//! SPDX-License-Identifier: MIT OR Apache-2.0

use crate::attribution::allocation;
use crate::attribution::amount::Amount;
use crate::attribution::change;
use crate::attribution::change::{ChangeOptions, DifferenceMeasure, LawPayoff, OutcomeLaws};
use crate::attribution::coalition;
use crate::attribution::distribution;
use crate::attribution::engine;
use crate::attribution::engine::{Engine, HybridStore};
use crate::attribution::error::AttributionError;
use crate::attribution::model;
use crate::attribution::model::{CausalModel, MechanismSlot, ModelView, CYCLIC_STRUCTURE};
use crate::attribution::payoff;
use crate::attribution::payoff::CoalitionPayoff;
use crate::attribution::result::{ChangeAttributionResult, PathContribution};
use crate::execution;
use crate::execution::{ExecutionContext, RngFactory};
use crate::ids;
use crate::ids::{ComponentId, DenseNodeId, VariableId};
use crate::query::attribution::{
    AllocationMethod, AttributionComponents, ChangeAttributionQuery, PopulationSelector,
    ShapleyConfig,
};
use vstd::arithmetic::power2;
use vstd::prelude::*;

verus! {

/// First stream of samples of structure change.
pub const STRUCTURE_STREAM: u64 = 0x5C01;

/// Message for components that are not parent sets.
pub const STRUCTURE_REQUIRED: &'static str =
    "structure_change requires AttributionComponents::Structure";

/// Message for models of different size.
pub const SAME_NODE_COUNT: &'static str =
    "baseline and comparison models must have the same node count";

/// Message for models over different variables.
pub const SAME_LAYOUT: &'static str =
    "baseline and comparison models must share the same VariableId layout";

/// Message for graphs that agree wherever it matters.
pub const NOTHING_TO_ATTRIBUTE: &'static str =
    "no structure components to attribute (parent sets agree on outcome ancestors)";

/// Options of structure change.
#[derive(Clone, Copy, Debug, PartialEq, Eq, Structural)]
pub struct StructureChangeOptions {
    /// Measure of the difference.
    pub measure: DifferenceMeasure,
    /// Samples per coalition.
    pub n_samples: usize,
    /// Seed of the samples.
    pub seed: u64,
}

impl Default for StructureChangeOptions {
    fn default() -> (options: Self)
        ensures
            options.measure is MeanDiff,
            options.n_samples == change::DEFAULT_SAMPLES,
            options.seed == 0,
    {
        let shared = ChangeOptions::default_mean();
        StructureChangeOptions {
            measure: shared.measure,
            n_samples: shared.n_samples,
            seed: shared.seed,
        }
    }
}

/// Why two models cannot be compared.
pub open spec fn layout_refusal(baseline: ModelView, comparison: ModelView) -> Option<
    AttributionError,
> {
    if baseline.nodes() != comparison.nodes() {
        Some(AttributionError::InvalidInput { message: SAME_NODE_COUNT })
    } else if baseline.variables != comparison.variables {
        Some(AttributionError::InvalidInput { message: SAME_LAYOUT })
    } else {
        None
    }
}

/// Check that two models are over the same variables in the same places.
pub fn validate_shared_layout(baseline: &CausalModel, comparison: &CausalModel) -> (r: Result<
    (),
    AttributionError,
>)
    ensures
        r == match layout_refusal(baseline@, comparison@) {
            Some(error) => Err(error),
            None => Ok(()),
        },
{
    if baseline.n_nodes() != comparison.n_nodes() {
        return Err(AttributionError::invalid_input(SAME_NODE_COUNT));
    }
    let n: usize = baseline.n_nodes();
    let mut i: usize = 0;
    while i < n
        invariant
            0 <= i <= n,
            n == baseline.variables@.len(),
            n == comparison.variables@.len(),
            forall|k: int|
                0 <= k < i ==> #[trigger] baseline.variables@[k] == comparison.variables@[k],
        decreases n - i,
    {
        if baseline.variables[i] != comparison.variables[i] {
            assert(baseline@.variables[i as int] != comparison@.variables[i as int]);
            return Err(AttributionError::invalid_input(SAME_LAYOUT));
        }
        i = i + 1;
    }
    assert(baseline@.variables =~= comparison@.variables);
    Ok(())
}

/// How often a node is listed.
pub open spec fn occurrences(list: Seq<DenseNodeId>, node: DenseNodeId) -> nat
    decreases list.len(),
{
    if list.len() == 0 {
        0
    } else {
        occurrences(list.drop_last(), node) + if list.last() == node {
            1nat
        } else {
            0
        }
    }
}

/// Lists that hold the same nodes equally often, in whatever order.
pub open spec fn same_parents(a: Seq<DenseNodeId>, b: Seq<DenseNodeId>) -> bool {
    forall|node: DenseNodeId| #[trigger] occurrences(a, node) == occurrences(b, node)
}

fn count_occurrences(list: &Vec<DenseNodeId>, node: DenseNodeId) -> (count: usize)
    ensures
        count == occurrences(list@, node),
{
    let mut count: usize = 0;
    let mut i: usize = 0;
    assert(list@.take(0) =~= Seq::empty());
    while i < list.len()
        invariant
            0 <= i <= list@.len(),
            count == occurrences(list@.take(i as int), node),
            count <= i,
        decreases list.len() - i,
    {
        if list[i] == node {
            count = count + 1;
        }
        i = i + 1;
        assert(list@.take(i as int).drop_last() =~= list@.take(i - 1));
    }
    assert(list@.take(list@.len() as int) =~= list@);
    count
}

proof fn lemma_unlisted(list: Seq<DenseNodeId>, node: DenseNodeId)
    ensures
        occurrences(list, node) == 0 <==> !list.contains(node),
    decreases list.len(),
{
    if list.len() > 0 {
        lemma_unlisted(list.drop_last(), node);
        if list.contains(node) {
            let k = choose|k: int| 0 <= k < list.len() && list[k] == node;
            if k < list.len() - 1 {
                assert(list.drop_last()[k] == node);
            }
        } else if list.drop_last().contains(node) {
            let k = choose|k: int| 0 <= k < list.drop_last().len() && list.drop_last()[k] == node;
            assert(list[k] == node);
        } else {
            assert(list[list.len() - 1] != node);
        }
    }
}

fn counts_agree(of: &Vec<DenseNodeId>, a: &Vec<DenseNodeId>, b: &Vec<DenseNodeId>) -> (yes: bool)
    ensures
        yes == forall|k: int|
            0 <= k < of@.len() ==> occurrences(a@, #[trigger] of@[k]) == occurrences(b@, of@[k]),
{
    let mut i: usize = 0;
    while i < of.len()
        invariant
            0 <= i <= of@.len(),
            forall|k: int|
                0 <= k < i ==> occurrences(a@, #[trigger] of@[k]) == occurrences(b@, of@[k]),
        decreases of.len() - i,
    {
        if count_occurrences(a, of[i]) != count_occurrences(b, of[i]) {
            assert(occurrences(a@, of@[i as int]) != occurrences(b@, of@[i as int]));
            return false;
        }
        i = i + 1;
    }
    true
}

/// Whether two parent sets differ.
pub fn parent_sets_differ(a: &Vec<DenseNodeId>, b: &Vec<DenseNodeId>) -> (differ: bool)
    ensures
        differ == !same_parents(a@, b@),
{
    let first = counts_agree(a, a, b);
    let second = counts_agree(b, a, b);
    proof {
        if first && second {
            assert forall|node: DenseNodeId| #[trigger] occurrences(a@, node) == occurrences(
                b@,
                node,
            ) by {
                lemma_unlisted(a@, node);
                lemma_unlisted(b@, node);
                if a@.contains(node) {
                    let k = choose|k: int| 0 <= k < a@.len() && a@[k] == node;
                    assert(occurrences(a@, a@[k]) == occurrences(b@, a@[k]));
                } else if b@.contains(node) {
                    let k = choose|k: int| 0 <= k < b@.len() && b@[k] == node;
                    assert(occurrences(a@, b@[k]) == occurrences(b@, b@[k]));
                }
            }
        } else if !first {
            let k = choose|k: int|
                0 <= k < a@.len() && occurrences(a@, #[trigger] a@[k]) != occurrences(
                    b@,
                    a@[k],
                );
            assert(occurrences(a@, a@[k]) != occurrences(b@, a@[k]));
        } else {
            let k = choose|k: int|
                0 <= k < b@.len() && occurrences(a@, #[trigger] b@[k]) != occurrences(
                    b@,
                    b@[k],
                );
            assert(occurrences(a@, b@[k]) != occurrences(b@, b@[k]));
        }
    }
    !(first && second)
}

/// Parents of every node, by node.
pub open spec fn parents_by_node(model: ModelView) -> Seq<Seq<DenseNodeId>> {
    Seq::new(model.nodes(), |x: int| distribution::parents_of(model, x))
}

/// List the parents of every node, by node.
pub fn node_parents(model: &CausalModel) -> (lists: Vec<Vec<DenseNodeId>>)
    requires
        model@.well_formed(),
    ensures
        lists@.len() == model@.nodes(),
        model::parent_lists(lists@) == parents_by_node(model@),
        model::closed_under_parents(parents_by_node(model@)),
{
    let n: usize = model.n_nodes();
    let mut lists: Vec<Vec<DenseNodeId>> = Vec::new();
    while lists.len() < n
        invariant
            lists@.len() <= n,
            n == model@.nodes(),
            model@.well_formed(),
            forall|x: int|
                0 <= x < lists@.len() ==> (#[trigger] lists@[x])@ == distribution::parents_of(
                    model@,
                    x,
                ),
        decreases n - lists.len(),
    {
        let node: usize = lists.len();
        let own = distribution::parents_of_node(model, node);
        lists.push(own);
    }
    proof {
        assert(model::parent_lists(lists@) =~= parents_by_node(model@));
        let all = parents_by_node(model@);
        assert forall|c: int, k: int|
            #![trigger all[c][k]]
            0 <= c < all.len() && 0 <= k < all[c].len() implies all[c][k].raw < all.len() by {
            model@.lemma_placed(c);
            let place = choose|j: int|
                0 <= j < model@.nodes() && #[trigger] model@.child(j) == c;
            assert(model@.parents(place)[k].raw < model@.nodes());
        }
    }
    lists
}

/// Whether a difference at a node can reach the outcome in either graph.
pub open spec fn matters(
    baseline: ModelView,
    comparison: ModelView,
    outcome: int,
    x: int,
) -> bool {
    baseline.is_ancestor(x, outcome) || comparison.is_ancestor(x, outcome)
}

/// Nodes among the first `k` whose parents differ and that matter, or do not.
pub open spec fn differing(
    baseline: ModelView,
    comparison: ModelView,
    outcome: int,
    relevant: bool,
    k: nat,
) -> Seq<int>
    decreases k,
{
    if k == 0 {
        Seq::empty()
    } else {
        let before = differing(baseline, comparison, outcome, relevant, (k - 1) as nat);
        if !same_parents(
            distribution::parents_of(baseline, k - 1),
            distribution::parents_of(comparison, k - 1),
        ) && matters(baseline, comparison, outcome, k - 1) == relevant {
            before.push(k - 1)
        } else {
            before
        }
    }
}

/// Components of nodes.
pub open spec fn components_of(model: ModelView, nodes: Seq<int>) -> Seq<ComponentId> {
    nodes.map_values(|x: int| distribution::component_of(model, x))
}

/// Nodes as places.
pub open spec fn seats_of(nodes: Seq<int>) -> Seq<Option<usize>> {
    nodes.map_values(|x: int| Some(x as usize))
}

/// Players, their nodes, and components that cannot be players.
pub struct StructurePlayers {
    /// Players.
    pub players: Vec<ComponentId>,
    /// Node of each player.
    pub nodes: Vec<Option<usize>>,
    /// Components whose difference does not reach the outcome.
    pub unidentified: Vec<ComponentId>,
}

proof fn lemma_differing(
    baseline: ModelView,
    comparison: ModelView,
    outcome: int,
    relevant: bool,
    k: nat,
)
    ensures
        ascending_below(differing(baseline, comparison, outcome, relevant, k), k),
    decreases k,
{
    reveal(ascending_below);
    if k > 0 {
        lemma_differing(baseline, comparison, outcome, relevant, (k - 1) as nat);
    }
}

/// Numbers below `k`, each larger than the one before.
#[verifier::opaque]
spec fn ascending_below(list: Seq<int>, k: nat) -> bool {
    &&& forall|i: int| 0 <= i < list.len() ==> 0 <= #[trigger] list[i] < k
    &&& forall|i: int, j: int|
        0 <= i < j < list.len() ==> #[trigger] list[i] < #[trigger] list[j]
}

/// Find the nodes whose parent sets differ: those that can reach the outcome in either graph
/// are players, the others are reported as unidentified.
pub fn structure_players(
    baseline: &CausalModel,
    comparison: &CausalModel,
    outcome: usize,
    max_components: usize,
) -> (r: Result<StructurePlayers, AttributionError>)
    requires
        baseline@.well_formed(),
        comparison@.well_formed(),
        baseline@.variables == comparison@.variables,
        outcome < baseline@.nodes(),
    ensures
        ({
            let n = baseline@.nodes();
            let nodes = differing(baseline@, comparison@, outcome as int, true, n);
            match r {
                Ok(found) => {
                    &&& nodes.len() <= max_components
                    &&& found.players@ == components_of(baseline@, nodes)
                    &&& found.nodes@ == seats_of(nodes)
                    &&& distribution::assigns(found.nodes@, n)
                    &&& found.unidentified@ == components_of(
                        baseline@,
                        differing(baseline@, comparison@, outcome as int, false, n),
                    )
                },
                Err(error) => {
                    &&& nodes.len() > max_components
                    &&& error == AttributionError::SizeLimit {
                        kind: "components",
                        requested: nodes.len() as usize,
                        max: max_components,
                    }
                },
            }
        }),
{
    let n: usize = baseline.n_nodes();
    let base_marked = baseline.ancestors_of(outcome);
    let comparison_marked = comparison.ancestors_of(outcome);
    let base_parents = node_parents(baseline);
    let comparison_parents = node_parents(comparison);
    let mut players: Vec<ComponentId> = Vec::new();
    let mut nodes: Vec<Option<usize>> = Vec::new();
    let mut unidentified: Vec<ComponentId> = Vec::new();
    proof {
        assert(players@ =~= components_of(baseline@, Seq::empty()));
        assert(nodes@ =~= seats_of(Seq::empty()));
    }
    let mut i: usize = 0;
    while i < n
        invariant
            0 <= i <= n,
            n == baseline@.nodes(),
            n == comparison@.nodes(),
            n <= u32::MAX,
            base_marked@.len() == n,
            comparison_marked@.len() == n,
            forall|x: int|
                0 <= x < n ==> #[trigger] base_marked@[x] == baseline@.is_ancestor(
                    x,
                    outcome as int,
                ),
            forall|x: int|
                0 <= x < n ==> #[trigger] comparison_marked@[x] == comparison@.is_ancestor(
                    x,
                    outcome as int,
                ),
            base_parents@.len() == n,
            comparison_parents@.len() == n,
            model::parent_lists(base_parents@) == parents_by_node(baseline@),
            model::parent_lists(comparison_parents@) == parents_by_node(comparison@),
            players@ == components_of(
                baseline@,
                differing(baseline@, comparison@, outcome as int, true, i as nat),
            ),
            nodes@ == seats_of(
                differing(baseline@, comparison@, outcome as int, true, i as nat),
            ),
            unidentified@ == components_of(
                baseline@,
                differing(baseline@, comparison@, outcome as int, false, i as nat),
            ),
        decreases n - i,
    {
        proof {
            assert(model::parent_lists(base_parents@)[i as int] == parents_by_node(
                baseline@,
            )[i as int]);
            assert(model::parent_lists(comparison_parents@)[i as int] == parents_by_node(
                comparison@,
            )[i as int]);
        }
        if parent_sets_differ(&base_parents[i], &comparison_parents[i]) {
            let component = ComponentId::from_variable(baseline.variables[i]);
            if base_marked[i] || comparison_marked[i] {
                players.push(component);
                nodes.push(Some(i));
            } else {
                unidentified.push(component);
            }
        }
        i = i + 1;
        proof {
            assert(players@ =~= components_of(
                baseline@,
                differing(baseline@, comparison@, outcome as int, true, i as nat),
            ));
            assert(nodes@ =~= seats_of(
                differing(baseline@, comparison@, outcome as int, true, i as nat),
            ));
            assert(unidentified@ =~= components_of(
                baseline@,
                differing(baseline@, comparison@, outcome as int, false, i as nat),
            ));
        }
    }
    proof {
        let found = differing(baseline@, comparison@, outcome as int, true, n as nat);
        lemma_differing(baseline@, comparison@, outcome as int, true, n as nat);
        reveal(ascending_below);
        assert forall|a: int, b: int|
            0 <= a < b < nodes@.len() && (#[trigger] nodes@[a]) is Some implies nodes@[a]
            != #[trigger] nodes@[b] by {
            assert(found[a] < found[b]);
        }
        assert forall|a: int| 0 <= a < nodes@.len() implies (#[trigger] nodes@[a] matches Some(
            node,
        ) ==> node < n) by {
            assert(0 <= found[a] < n);
        }
    }
    if players.len() > max_components {
        return Err(
            AttributionError::SizeLimit {
                kind: "components",
                requested: players.len(),
                max: max_components,
            },
        );
    }
    Ok(StructurePlayers { players, nodes, unidentified })
}

/// Parents of every node for a coalition: a player's from the comparison graph.
pub open spec fn hybrid_lists(
    baseline: Seq<Seq<DenseNodeId>>,
    comparison: Seq<Seq<DenseNodeId>>,
    nodes: Seq<Option<usize>>,
    mask: u64,
) -> Seq<Seq<DenseNodeId>> {
    Seq::new(
        baseline.len(),
        |x: int|
            if engine::swaps(nodes, mask, baseline.len())[x] {
                comparison[x]
            } else {
                baseline[x]
            },
    )
}

/// Build the graph of a coalition and put it in order; a cyclic one is refused.
pub fn hybrid_structure_dag(
    variables: &Vec<VariableId>,
    baseline: &Vec<Vec<DenseNodeId>>,
    comparison: &Vec<Vec<DenseNodeId>>,
    player_nodes: &Vec<Option<usize>>,
    mask: u64,
) -> (r: Result<CausalModel, AttributionError>)
    requires
        variables@.len() == baseline@.len(),
        comparison@.len() == baseline@.len(),
        baseline@.len() <= u32::MAX,
        model::closed_under_parents(model::parent_lists(baseline@)),
        model::closed_under_parents(model::parent_lists(comparison@)),
        player_nodes@.len() <= 64,
        forall|i: int|
            0 <= i < player_nodes@.len() ==> (#[trigger] player_nodes@[i] matches Some(node) ==> node
                < baseline@.len()),
    ensures
        ({
            let lists = hybrid_lists(
                model::parent_lists(baseline@),
                model::parent_lists(comparison@),
                player_nodes@,
                mask,
            );
            match r {
                Ok(hybrid) => {
                    &&& model::acyclic(lists)
                    &&& hybrid@.well_formed()
                    &&& hybrid@ == model::compiled(variables@, lists)
                },
                Err(error) => !model::acyclic(lists) && error == AttributionError::Unsupported {
                    message: CYCLIC_STRUCTURE,
                },
            }
        }),
{
    let n: usize = baseline.len();
    let swapped = engine::swapped_by(player_nodes, mask, n);
    let ghost expected = hybrid_lists(
        model::parent_lists(baseline@),
        model::parent_lists(comparison@),
        player_nodes@,
        mask,
    );
    let mut lists: Vec<Vec<DenseNodeId>> = Vec::new();
    while lists.len() < n
        invariant
            lists@.len() <= n,
            n == baseline@.len(),
            n == comparison@.len(),
            swapped@ == engine::swaps(player_nodes@, mask, n as nat),
            expected == hybrid_lists(
                model::parent_lists(baseline@),
                model::parent_lists(comparison@),
                player_nodes@,
                mask,
            ),
            forall|x: int| 0 <= x < lists@.len() ==> (#[trigger] lists@[x])@ == expected[x],
        decreases n - lists.len(),
    {
        let x: usize = lists.len();
        let own = if swapped[x] {
            model::copied_nodes(&comparison[x])
        } else {
            model::copied_nodes(&baseline[x])
        };
        lists.push(own);
    }
    proof {
        assert(model::parent_lists(lists@) =~= expected);
        let base = model::parent_lists(baseline@);
        let other = model::parent_lists(comparison@);
        assert forall|c: int, k: int|
            #![trigger expected[c][k]]
            0 <= c < expected.len() && 0 <= k < expected[c].len() implies expected[c][k].raw
            < expected.len() by {
            if engine::swaps(player_nodes@, mask, n as nat)[c] {
                assert(other[c][k].raw < other.len());
            } else {
                assert(base[c][k].raw < base.len());
            }
        }
    }
    CausalModel::compile(ids::copied_ids(variables), &lists)
}

/// Outcome laws of models whose parent sets are exchanged by coalition.
pub struct StructureSwap<'a, N, E> {
    /// Variable of each node.
    pub variables: Vec<VariableId>,
    /// Parents in the baseline graph, by node.
    pub baseline_parents: Vec<Vec<DenseNodeId>>,
    /// Parents in the comparison graph, by node.
    pub comparison_parents: Vec<Vec<DenseNodeId>>,
    /// Mechanisms fitted under each graph.
    pub store: HybridStore<N>,
    /// Node of each player.
    pub player_nodes: Vec<Option<usize>>,
    /// Outcome.
    pub outcome: usize,
    /// Samples per coalition.
    pub n_samples: usize,
    /// Seed.
    pub seed: u64,
    /// Engine.
    pub engine: &'a E,
}

/// Mean and variance of the outcome by coalition; none where its graph is cyclic.
pub open spec fn structure_law<N: Amount, E: Engine<N>>(
    engine: E,
    variables: Seq<VariableId>,
    baseline_parents: Seq<Seq<DenseNodeId>>,
    comparison_parents: Seq<Seq<DenseNodeId>>,
    baseline: Seq<MechanismSlot<N>>,
    comparison: Seq<MechanismSlot<N>>,
    nodes: Seq<Option<usize>>,
    outcome: int,
    n_samples: usize,
    seed: u64,
    mask: u64,
) -> Result<(N, N), AttributionError> {
    let lists = hybrid_lists(baseline_parents, comparison_parents, nodes, mask);
    if model::acyclic(lists) {
        engine.law_of(
            model::compiled(variables, lists),
            distribution::chosen(baseline, comparison, nodes, mask),
            outcome,
            n_samples,
            seed,
        )
    } else {
        Err(AttributionError::Unsupported { message: CYCLIC_STRUCTURE })
    }
}

impl<'a, N: Amount, E: Engine<N>> OutcomeLaws<N> for StructureSwap<'a, N, E> {
    open spec fn prepared(&self) -> bool {
        let n = self.variables@.len();
        &&& n <= u32::MAX
        &&& self.baseline_parents@.len() == n
        &&& self.comparison_parents@.len() == n
        &&& model::closed_under_parents(model::parent_lists(self.baseline_parents@))
        &&& model::closed_under_parents(model::parent_lists(self.comparison_parents@))
        &&& self.store@.fits(n)
        &&& self.outcome < n
        &&& self.player_nodes@.len() <= 64
        &&& distribution::assigns(self.player_nodes@, n)
    }

    open spec fn law(&self, mask: u64) -> Result<(N, N), AttributionError> {
        structure_law(
            *self.engine,
            self.variables@,
            model::parent_lists(self.baseline_parents@),
            model::parent_lists(self.comparison_parents@),
            self.store@.baseline,
            self.store@.comparison,
            self.player_nodes@,
            self.outcome as int,
            self.n_samples,
            self.seed,
            mask,
        )
    }

    fn law_at(&mut self, mask: u64) -> Result<(N, N), AttributionError> {
        let n: usize = self.variables.len();
        let hybrid = match hybrid_structure_dag(
            &self.variables,
            &self.baseline_parents,
            &self.comparison_parents,
            &self.player_nodes,
            mask,
        ) {
            Ok(hybrid) => hybrid,
            Err(error) => {
                return Err(error);
            },
        };
        let swapped = engine::swapped_by(&self.player_nodes, mask, n);
        self.store.swapped = swapped;
        proof {
            assert(self.store@ =~= distribution::chosen(
                old(self).store@.baseline,
                old(self).store@.comparison,
                self.player_nodes@,
                mask,
            ));
        }
        self.engine.outcome_law(&hybrid, &self.store, self.outcome, self.n_samples, self.seed)
    }
}

/// Seed of the context's stream that samples are drawn from.
pub open spec fn structure_seed(rng: RngFactory, seed: u64) -> u64 {
    execution::mixed(rng.master_seed, STRUCTURE_STREAM.wrapping_add(seed))
}

/// At least one sample is drawn.
pub open spec fn at_least_one(n_samples: usize) -> usize {
    if n_samples == 0 {
        1
    } else {
        n_samples
    }
}

/// The game of exchanging parent sets.
pub open spec fn structure_game<N: Amount, E: Engine<N>>(
    engine: E,
    baseline_model: ModelView,
    comparison_model: ModelView,
    baseline: Seq<MechanismSlot<N>>,
    comparison: Seq<MechanismSlot<N>>,
    nodes: Seq<Option<usize>>,
    outcome: int,
    options: StructureChangeOptions,
    rng: RngFactory,
) -> spec_fn(u64) -> Result<N, AttributionError> {
    let law = |mask: u64|
        structure_law(
            engine,
            baseline_model.variables,
            parents_by_node(baseline_model),
            parents_by_node(comparison_model),
            baseline,
            comparison,
            nodes,
            outcome,
            at_least_one(options.n_samples),
            structure_seed(rng, options.seed),
            mask,
        );
    |mask: u64| change::law_worth(engine, options.measure, law(0), law(mask), mask)
}

/// Why an attribution is refused before anything is evaluated.
pub open spec fn structure_refusal<N: Amount, E: Engine<N>>(
    baseline: ModelView,
    comparison: ModelView,
    query: ChangeAttributionQuery,
    n_samples: usize,
    n_paths: Option<nat>,
    engine: E,
) -> Option<AttributionError> {
    if query.refusal() is Some {
        Some(AttributionError::Query(query.refusal()->0))
    } else if !(query.components is Structure) {
        Some(AttributionError::Unsupported { message: STRUCTURE_REQUIRED })
    } else if layout_refusal(baseline, comparison) is Some {
        layout_refusal(baseline, comparison)
    } else {
        match distribution::dense(baseline, query.outcome) {
            None => Some(
                AttributionError::MissingVariable { role: "outcome", id: query.outcome },
            ),
            Some(outcome) => {
                let nodes = differing(
                    baseline,
                    comparison,
                    outcome as int,
                    true,
                    baseline.nodes(),
                );
                if nodes.len() > query.max_components {
                    Some(
                        AttributionError::SizeLimit {
                            kind: "components",
                            requested: nodes.len() as usize,
                            max: query.max_components,
                        },
                    )
                } else if nodes.len() == 0 {
                    Some(AttributionError::InvalidInput { message: NOTHING_TO_ATTRIBUTE })
                } else if engine.over_budget(
                    nodes.len() as usize,
                    query.allocation,
                    n_samples,
                ) is Some {
                    engine.over_budget(nodes.len() as usize, query.allocation, n_samples)
                } else if n_paths matches Some(n) && n != nodes.len() {
                    Some(
                        AttributionError::InvalidInput { message: distribution::PATHS_PER_PLAYER },
                    )
                } else if nodes.len() > 64 {
                    Some(
                        AttributionError::SizeLimit {
                            kind: "components",
                            requested: nodes.len() as usize,
                            max: 64,
                        },
                    )
                } else if !model::acyclic(
                    hybrid_lists(
                        parents_by_node(baseline),
                        parents_by_node(comparison),
                        seats_of(nodes),
                        (power2::pow2(nodes.len()) - 1) as u64,
                    ),
                ) {
                    Some(AttributionError::Unsupported { message: CYCLIC_STRUCTURE })
                } else {
                    None
                }
            },
        }
    }
}

/// What an attribution returns: its refusal, the first failure, or the allocated change.
pub open spec fn is_structure_attribution<N: Amount, E: Engine<N>>(
    r: Result<ChangeAttributionResult<N>, AttributionError>,
    baseline_model: ModelView,
    comparison_model: ModelView,
    baseline: Seq<MechanismSlot<N>>,
    comparison: Seq<MechanismSlot<N>>,
    query: ChangeAttributionQuery,
    options: StructureChangeOptions,
    engine: E,
    ctx: ExecutionContext,
    player_paths: Option<Seq<Vec<PathContribution<N>>>>,
) -> bool {
    let refusal = structure_refusal::<N, E>(
        baseline_model,
        comparison_model,
        query,
        options.n_samples,
        match player_paths {
            Some(paths) => Some(paths.len()),
            None => None,
        },
        engine,
    );
    let outcome = distribution::dense(baseline_model, query.outcome)->0 as int;
    let all = baseline_model.nodes();
    let nodes = differing(baseline_model, comparison_model, outcome, true, all);
    let players = components_of(baseline_model, nodes);
    let g = structure_game(
        engine,
        baseline_model,
        comparison_model,
        baseline,
        comparison,
        seats_of(nodes),
        outcome,
        options,
        ctx.rng,
    );
    let n = nodes.len();
    let total = distribution::total_of(g, n, options.measure);
    match r {
        Ok(result) => {
            &&& refusal is None
            &&& distribution::total_failure(g, n) is None
            &&& allocation::is_allocation(
                result,
                query.outcome,
                players,
                query.allocation,
                g,
                total,
                components_of(
                    baseline_model,
                    differing(baseline_model, comparison_model, outcome, false, all),
                ),
                ctx,
                player_paths,
                engine,
            )
        },
        Err(error) => if refusal is Some {
            refusal == Some(error)
        } else if distribution::total_failure(g, n) is Some {
            distribution::total_failure(g, n) == Some(error)
        } else {
            allocation::is_not_allocated(
                error,
                players,
                query.allocation,
                g,
                total,
                player_paths is Some,
                ctx,
            )
        },
    }
}

/// Attribute the change in an outcome to parent sets that differ between two graphs.
///
/// `baseline` holds mechanisms fitted on the baseline population under the baseline graph,
/// `comparison` those fitted on the comparison population under the graph of everybody; a
/// mechanism depends on nothing but its node, its parents and the population, so these two
/// fits serve every coalition. Samples are drawn from a stream of the context, the same for
/// every coalition; the engine says whether they are within budget. Differences that cannot
/// reach the outcome are reported as unidentified.
pub fn structure_change<N: Amount, E: Engine<N>>(
    baseline_model: &CausalModel,
    comparison_model: &CausalModel,
    baseline: Vec<MechanismSlot<N>>,
    comparison: Vec<MechanismSlot<N>>,
    query: &ChangeAttributionQuery,
    options: &StructureChangeOptions,
    engine: &E,
    ctx: &ExecutionContext,
    player_paths: Option<&Vec<Vec<PathContribution<N>>>>,
) -> (r: Result<ChangeAttributionResult<N>, AttributionError>)
    requires
        baseline_model@.well_formed(),
        comparison_model@.well_formed(),
        baseline_model@.variables.no_duplicates(),
        baseline@.len() == baseline_model@.nodes(),
        comparison@.len() == baseline_model@.nodes(),
    ensures
        is_structure_attribution(
            r,
            baseline_model@,
            comparison_model@,
            baseline@,
            comparison@,
            *query,
            *options,
            *engine,
            *ctx,
            distribution::path_lists(player_paths),
        ),
{
    match query.validate() {
        Ok(_) => {},
        Err(error) => {
            return Err(AttributionError::Query(error));
        },
    }
    if !matches!(query.components, AttributionComponents::Structure) {
        return Err(AttributionError::unsupported(STRUCTURE_REQUIRED));
    }
    match validate_shared_layout(baseline_model, comparison_model) {
        Ok(_) => {},
        Err(error) => {
            return Err(error);
        },
    }
    let outcome: usize = match distribution::find_node(baseline_model, query.outcome) {
        Some(node) => node,
        None => {
            return Err(AttributionError::missing_var("outcome", query.outcome));
        },
    };
    let found = match structure_players(
        baseline_model,
        comparison_model,
        outcome,
        query.max_components,
    ) {
        Ok(found) => found,
        Err(error) => {
            return Err(error);
        },
    };
    let n: usize = found.players.len();
    let ghost nodes = found.nodes@;
    if n == 0 {
        return Err(AttributionError::invalid_input(NOTHING_TO_ATTRIBUTE));
    }
    match engine.check_coalition_sample_budget(n, &query.allocation, options.n_samples) {
        Ok(_) => {},
        Err(error) => {
            return Err(error);
        },
    }
    if let Some(paths) = player_paths {
        if paths.len() != n {
            return Err(AttributionError::invalid_input(distribution::PATHS_PER_PLAYER));
        }
    }
    let full: u64 = match coalition::full_coalition_mask(n) {
        Ok(mask) => mask,
        Err(error) => {
            return Err(error);
        },
    };
    let baseline_parents = node_parents(baseline_model);
    let comparison_parents = node_parents(comparison_model);
    match hybrid_structure_dag(
        &baseline_model.variables,
        &baseline_parents,
        &comparison_parents,
        &found.nodes,
        full,
    ) {
        Ok(_) => {},
        Err(error) => {
            return Err(error);
        },
    }
    let ghost g = structure_game(
        *engine,
        baseline_model@,
        comparison_model@,
        baseline@,
        comparison@,
        nodes,
        outcome as int,
        *options,
        ctx.rng,
    );
    let n_samples: usize = if options.n_samples == 0 {
        1
    } else {
        options.n_samples
    };
    let laws = StructureSwap {
        variables: ids::copied_ids(&baseline_model.variables),
        baseline_parents,
        comparison_parents,
        store: HybridStore::new(baseline, comparison),
        player_nodes: found.nodes,
        outcome,
        n_samples,
        seed: execution::mix_seed(
            ctx.rng.master_seed(),
            STRUCTURE_STREAM.wrapping_add(options.seed),
        ),
        engine,
    };
    let mut payoff = LawPayoff::new(laws, options.measure, engine);
    proof {
        assert(payoff::game(payoff) =~= g);
    }
    let empty = payoff.value(0);
    proof {
        assert(payoff::game(payoff) =~= g);
    }
    let v0 = match empty {
        Ok(value) => value,
        Err(error) => {
            return Err(error);
        },
    };
    let everyone = payoff.value(full);
    proof {
        assert(payoff::game(payoff) =~= g);
    }
    let v_full = match everyone {
        Ok(value) => value,
        Err(error) => {
            return Err(error);
        },
    };
    let total = change::total_change(options.measure, v0, v_full);
    allocation::run_change_allocation(
        query.outcome,
        found.players.as_slice(),
        &query.allocation,
        &mut payoff,
        total,
        found.unidentified,
        ctx,
        player_paths,
        engine,
    )
}

/// Attribute a change to parent sets by Shapley values, with default options.
pub fn structure_change_shapley<N: Amount, E: Engine<N>>(
    baseline_model: &CausalModel,
    comparison_model: &CausalModel,
    fitted_baseline: Vec<MechanismSlot<N>>,
    fitted_comparison: Vec<MechanismSlot<N>>,
    outcome: VariableId,
    baseline: PopulationSelector,
    comparison: PopulationSelector,
    shapley: ShapleyConfig,
    engine: &E,
    ctx: &ExecutionContext,
) -> (r: Result<ChangeAttributionResult<N>, AttributionError>)
    requires
        baseline_model@.well_formed(),
        comparison_model@.well_formed(),
        baseline_model@.variables.no_duplicates(),
        fitted_baseline@.len() == baseline_model@.nodes(),
        fitted_comparison@.len() == baseline_model@.nodes(),
    ensures
        is_structure_attribution(
            r,
            baseline_model@,
            comparison_model@,
            fitted_baseline@,
            fitted_comparison@,
            (ChangeAttributionQuery {
                outcome,
                baseline,
                comparison,
                components: AttributionComponents::Structure,
                allocation: AllocationMethod::Shapley { approximation: shapley },
                max_components: crate::query::attribution::DEFAULT_MAX_COMPONENTS,
            }),
            (StructureChangeOptions {
                measure: DifferenceMeasure::MeanDiff,
                n_samples: change::DEFAULT_SAMPLES,
                seed: 0,
            }),
            *engine,
            *ctx,
            None,
        ),
{
    let query = ChangeAttributionQuery::new(outcome, baseline, comparison).with_components(
        AttributionComponents::Structure,
    ).with_allocation(AllocationMethod::Shapley { approximation: shapley });
    structure_change(
        baseline_model,
        comparison_model,
        fitted_baseline,
        fitted_comparison,
        &query,
        &StructureChangeOptions::default(),
        engine,
        ctx,
        None,
    )
}

} // verus!
