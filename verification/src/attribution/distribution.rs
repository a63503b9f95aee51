//! Attribution of a change in distribution to mechanisms.
//!
//! Mechanisms are fitted on a baseline and on a comparison population. A coalition says
//! which components use the comparison mechanism; the change in the outcome between nobody
//! and everybody is shared among them.
//!
//! SPDX-License-Identifier: MIT OR Apache-2.0

use crate::attribution::allocation;
use crate::attribution::amount::Amount;
use crate::attribution::change;
use crate::attribution::change::{
    ChangeOptions, DifferenceMeasure, LawPayoff, OutcomeLaws, DISTRIBUTION_STREAM,
};
use crate::attribution::coalition;
use crate::attribution::engine;
use crate::attribution::engine::{Engine, HybridState, HybridStore};
use crate::attribution::error::AttributionError;
use crate::attribution::model::{copied_nodes, CausalModel, MechanismSlot, ModelView};
use crate::attribution::payoff;
use crate::attribution::payoff::CoalitionPayoff;
use crate::attribution::result::{ChangeAttributionResult, PathContribution};
use crate::attribution::sequential;
use crate::execution;
use crate::execution::{ExecutionContext, RngFactory};
use crate::ids::{ComponentId, DenseNodeId, VariableId};
use crate::query::attribution::{
    AllocationMethod, AttributionComponents, ChangeAttributionQuery, PopulationSelector,
    ShapleyConfig,
};
use vstd::arithmetic::power2;
use vstd::prelude::*;

verus! {

/// Message for components that are neither mechanisms nor inputs and mechanisms.
pub const MECHANISMS_REQUIRED: &'static str =
    "distribution_change requires AttributionComponents::Mechanisms or InputsAndMechanisms";

/// Message for all components at once.
pub const DUAL_GRAPHS_REQUIRED: &'static str = "AttributionComponents::All requires dual graphs; use ChangeAttribution::run_structure for Structure, or InputsAndMechanisms for joint input+mechanism change";

/// Message for paths that do not match the players.
pub const PATHS_PER_PLAYER: &'static str = "one list of paths is required per player";

/// Options of distribution change.
#[derive(Clone, Copy, Debug, PartialEq, Eq, Structural)]
pub struct DistributionChangeOptions {
    /// Measure of the difference.
    pub measure: DifferenceMeasure,
    /// Samples per coalition.
    pub n_samples: usize,
    /// Seed of the samples.
    pub seed: u64,
}

impl DistributionChangeOptions {
    /// The options that every change attribution has.
    pub open spec fn shared(self) -> ChangeOptions {
        ChangeOptions { measure: self.measure, n_samples: self.n_samples, seed: self.seed }
    }

    /// The options that every change attribution has.
    #[must_use]
    pub fn to_shared(&self) -> (options: ChangeOptions)
        ensures
            options == self.shared(),
    {
        ChangeOptions::new(self.measure, self.n_samples, self.seed)
    }
}

impl Default for DistributionChangeOptions {
    fn default() -> (options: Self)
        ensures
            options.measure is MeanDiff,
            options.n_samples == change::DEFAULT_SAMPLES,
            options.seed == 0,
    {
        let shared = ChangeOptions::default_mean();
        DistributionChangeOptions {
            measure: shared.measure,
            n_samples: shared.n_samples,
            seed: shared.seed,
        }
    }
}

/// Why a node is a player.
#[derive(Clone, Copy, Debug, PartialEq, Eq, Structural)]
pub enum PlayerKind {
    /// It is the outcome or one of its ancestors, and has a mechanism.
    Mechanism,
    /// It is a parent of the outcome without being a player for its mechanism.
    Input,
    /// It is both.
    Both,
}

/// Whether mechanisms are players.
pub open spec fn wants_mechanisms(components: AttributionComponents) -> bool {
    components is Mechanisms || components is InputsAndMechanisms || components is All
}

/// Whether parents of the outcome are players.
pub open spec fn wants_inputs(components: AttributionComponents) -> bool {
    components is Inputs || components is InputsAndMechanisms || components is All
}

/// Nodes among the first `k` of the order that are the outcome or lead to it.
pub open spec fn upstream(model: ModelView, outcome: int, k: nat) -> Seq<int>
    decreases k,
{
    if k == 0 {
        Seq::empty()
    } else {
        let before = upstream(model, outcome, (k - 1) as nat);
        let node = model.child(k - 1);
        if model.is_ancestor(node, outcome) {
            before.push(node)
        } else {
            before
        }
    }
}

/// Component of a node.
pub open spec fn component_of(model: ModelView, node: int) -> ComponentId {
    ComponentId { raw: model.variables[node].raw }
}

/// Players and why they are.
#[verifier::ext_equal]
pub struct Roster {
    /// Players.
    pub players: Seq<ComponentId>,
    /// Why each is one.
    pub kinds: Seq<PlayerKind>,
}

/// Players for their mechanisms.
pub open spec fn mechanism_roster(model: ModelView, outcome: int) -> Roster {
    let nodes = upstream(model, outcome, model.nodes());
    Roster {
        players: nodes.map_values(|node: int| component_of(model, node)),
        kinds: Seq::new(nodes.len(), |i: int| PlayerKind::Mechanism),
    }
}

/// A roster with one more input: a player already on it is there for both reasons.
pub open spec fn with_input(roster: Roster, component: ComponentId) -> Roster {
    match sequential::place_of(roster.players, component) {
        Some(place) => Roster {
            players: roster.players,
            kinds: roster.kinds.update(place as int, PlayerKind::Both),
        },
        None => Roster {
            players: roster.players.push(component),
            kinds: roster.kinds.push(PlayerKind::Input),
        },
    }
}

/// A roster with the first `k` of some nodes as inputs.
pub open spec fn with_inputs(
    roster: Roster,
    model: ModelView,
    parents: Seq<DenseNodeId>,
    k: nat,
) -> Roster
    decreases k,
{
    if k == 0 {
        roster
    } else {
        with_input(
            with_inputs(roster, model, parents, (k - 1) as nat),
            component_of(model, parents[k - 1].raw as int),
        )
    }
}

/// Parents of a node.
pub open spec fn parents_of(model: ModelView, node: int) -> Seq<DenseNodeId> {
    model.parents(
        choose|k: int| 0 <= k < model.nodes() && #[trigger] model.child(k) == node,
    )
}

/// List the parents of a node.
pub fn parents_of_node(model: &CausalModel, node: usize) -> (parents: Vec<DenseNodeId>)
    requires
        model@.well_formed(),
        node < model@.nodes(),
    ensures
        parents@ == parents_of(model@, node as int),
        forall|i: int| 0 <= i < parents@.len() ==> (#[trigger] parents@[i]).raw < model@.nodes(),
{
    let mut parents: Vec<DenseNodeId> = Vec::new();
    proof {
        model@.lemma_placed(node as int);
    }
    if let Some(place) = model.place_of(node) {
        proof {
            let at = choose|k: int|
                0 <= k < model@.nodes() && #[trigger] model@.child(k) == node as int;
            if at < place {
                assert(model@.child(at) != model@.child(place as int));
            } else if place < at {
                assert(model@.child(place as int) != model@.child(at));
            }
            assert(model@.gathers[place as int].parents == model.gathers@[place as int].parents@);
            assert forall|i: int| 0 <= i < model@.parents(place as int).len() implies (
            #[trigger] model@.parents(place as int)[i]).raw < model@.nodes() by {}
        }
        parents = copied_nodes(&model.gathers[place].parents);
    }
    parents
}

/// Players of a joint attribution.
pub open spec fn roster_of(
    model: ModelView,
    outcome: int,
    components: AttributionComponents,
) -> Roster {
    let first = if wants_mechanisms(components) {
        mechanism_roster(model, outcome)
    } else {
        Roster { players: Seq::empty(), kinds: Seq::empty() }
    };
    if wants_inputs(components) {
        let parents = parents_of(model, outcome);
        with_inputs(first, model, parents, parents.len())
    } else {
        first
    }
}

/// List the players of a joint attribution: mechanisms in topological order, then parents of
/// the outcome that are not among them.
pub fn joint_players(
    model: &CausalModel,
    outcome: usize,
    max_components: usize,
    components: AttributionComponents,
) -> (r: Result<(Vec<ComponentId>, Vec<PlayerKind>), AttributionError>)
    requires
        model@.well_formed(),
        outcome < model@.nodes(),
    ensures
        ({
            let roster = roster_of(model@, outcome as int, components);
            match r {
                Ok((players, kinds)) => {
                    &&& players@ == roster.players
                    &&& kinds@ == roster.kinds
                    &&& players@.len() == kinds@.len()
                    &&& players@.len() <= max_components
                },
                Err(error) => {
                    &&& roster.players.len() > max_components
                    &&& error == AttributionError::SizeLimit {
                        kind: "components",
                        requested: roster.players.len() as usize,
                        max: max_components,
                    }
                },
            }
        }),
{
    let n: usize = model.n_nodes();
    let mut players: Vec<ComponentId> = Vec::new();
    let mut kinds: Vec<PlayerKind> = Vec::new();
    let mechanisms = matches!(
        components,
        AttributionComponents::Mechanisms | AttributionComponents::InputsAndMechanisms
            | AttributionComponents::All
    );
    if mechanisms {
        let marked = model.ancestors_of(outcome);
        let mut k: usize = 0;
        proof {
            assert(players@ =~= upstream(model@, outcome as int, 0).map_values(
                |node: int| component_of(model@, node),
            ));
        }
        while k < n
            invariant
                0 <= k <= n,
                n == model@.nodes(),
                model@.well_formed(),
                outcome < n,
                marked@.len() == n,
                forall|x: int|
                    0 <= x < n ==> #[trigger] marked@[x] == model@.is_ancestor(x, outcome as int),
                players@ == upstream(model@, outcome as int, k as nat).map_values(
                    |node: int| component_of(model@, node),
                ),
                kinds@ == Seq::new(players@.len(), |i: int| PlayerKind::Mechanism),
            decreases n - k,
        {
            let node: usize = model.gathers[k].child.raw as usize;
            proof {
                assert(model@.child(k as int) == node);
                assert(model@.child(k as int) < n);
            }
            if marked[node] {
                players.push(ComponentId::from_variable(model.variables[node]));
                kinds.push(PlayerKind::Mechanism);
            }
            k = k + 1;
            proof {
                assert(players@ =~= upstream(model@, outcome as int, k as nat).map_values(
                    |node: int| component_of(model@, node),
                ));
                assert(kinds@ =~= Seq::new(players@.len(), |i: int| PlayerKind::Mechanism));
            }
        }
    }
    let ghost first = Roster { players: players@, kinds: kinds@ };
    proof {
        if mechanisms {
            assert(first =~= mechanism_roster(model@, outcome as int));
        } else {
            assert(first =~= Roster { players: Seq::empty(), kinds: Seq::empty() });
        }
    }
    let inputs = matches!(
        components,
        AttributionComponents::Inputs | AttributionComponents::InputsAndMechanisms
            | AttributionComponents::All
    );
    if inputs {
        proof {
            model@.lemma_placed(outcome as int);
        }
        if let Some(place) = model.place_of(outcome) {
            let parents = &model.gathers[place].parents;
            proof {
                let at = choose|k: int|
                    0 <= k < model@.nodes() && #[trigger] model@.child(k) == outcome as int;
                if at < place {
                    assert(model@.child(at) != model@.child(place as int));
                } else if place < at {
                    assert(model@.child(place as int) != model@.child(at));
                }
                assert(parents@ == parents_of(model@, outcome as int));
            }
            let mut i: usize = 0;
            while i < parents.len()
                invariant
                    0 <= i <= parents@.len(),
                    model@.well_formed(),
                    place < model@.nodes(),
                    parents@ == model@.parents(place as int),
                    first.players.len() == first.kinds.len(),
                    players@.len() == kinds@.len(),
                    (Roster { players: players@, kinds: kinds@ }) == with_inputs(
                        first,
                        model@,
                        parents@,
                        i as nat,
                    ),
                decreases parents.len() - i,
            {
                let node: usize = parents[i].raw as usize;
                assert(model@.parents(place as int)[i as int].raw < model@.nodes());
                let component = ComponentId::from_variable(model.variables[node]);
                match sequential::position_of(players.as_slice(), component) {
                    Some(found) => {
                        kinds.set(found, PlayerKind::Both);
                    },
                    None => {
                        players.push(component);
                        kinds.push(PlayerKind::Input);
                    },
                }
                i = i + 1;
            }
        }
    }
    if players.len() > max_components {
        return Err(
            AttributionError::SizeLimit {
                kind: "components",
                requested: players.len(),
                max: max_components,
            },
        );
    }
    Ok((players, kinds))
}

/// List the players of a mechanism attribution.
pub fn mechanism_players(model: &CausalModel, outcome: usize, max_components: usize) -> (r: Result<
    Vec<ComponentId>,
    AttributionError,
>)
    requires
        model@.well_formed(),
        outcome < model@.nodes(),
    ensures
        ({
            let roster = mechanism_roster(model@, outcome as int);
            match r {
                Ok(players) => players@ == roster.players && players@.len() <= max_components,
                Err(error) => roster.players.len() > max_components && error
                    == AttributionError::SizeLimit {
                    kind: "components",
                    requested: roster.players.len() as usize,
                    max: max_components,
                },
            }
        }),
{
    match joint_players(model, outcome, max_components, AttributionComponents::Mechanisms) {
        Ok((players, _)) => Ok(players),
        Err(error) => Err(error),
    }
}

/// Distinct nodes, all of them in the model.
pub open spec fn assigns(nodes: Seq<Option<usize>>, n: nat) -> bool {
    &&& forall|i: int|
        0 <= i < nodes.len() ==> (#[trigger] nodes[i] matches Some(node) ==> node < n)
    &&& forall|i: int, j: int|
        0 <= i < j < nodes.len() && (#[trigger] nodes[i]) is Some ==> nodes[i]
            != #[trigger] nodes[j]
}

/// Outcome laws of a model whose mechanisms are exchanged by coalition.
pub struct MechanismSwap<'a, N, E> {
    /// Model.
    pub model: &'a CausalModel,
    /// Mechanisms, with the choice for [`Self::applied`].
    pub store: HybridStore<N>,
    /// Node of each player whose mechanism can be exchanged.
    pub player_nodes: Vec<Option<usize>>,
    /// Coalition the choice is made for.
    pub applied: u64,
    /// Outcome.
    pub outcome: usize,
    /// Samples per coalition.
    pub n_samples: usize,
    /// Seed.
    pub seed: u64,
    /// Engine.
    pub engine: &'a E,
}

/// Mechanisms with the choice for a coalition.
pub open spec fn chosen<N>(
    baseline: Seq<MechanismSlot<N>>,
    comparison: Seq<MechanismSlot<N>>,
    nodes: Seq<Option<usize>>,
    mask: u64,
) -> HybridState<N> {
    HybridState { baseline, comparison, swapped: engine::swaps(nodes, mask, baseline.len()) }
}

impl<'a, N: Amount, E: Engine<N>> OutcomeLaws<N> for MechanismSwap<'a, N, E> {
    open spec fn prepared(&self) -> bool {
        &&& self.model@.well_formed()
        &&& self.outcome < self.model@.nodes()
        &&& self.store@.fits(self.model@.nodes())
        &&& self.player_nodes@.len() <= 64
        &&& assigns(self.player_nodes@, self.model@.nodes())
        &&& self.store@.swapped == engine::swaps(
            self.player_nodes@,
            self.applied,
            self.model@.nodes(),
        )
    }

    open spec fn law(&self, mask: u64) -> Result<(N, N), AttributionError> {
        self.engine.law_of(
            self.model@,
            chosen(
                self.store@.baseline,
                self.store@.comparison,
                self.player_nodes@,
                mask,
            ),
            self.outcome as int,
            self.n_samples,
            self.seed,
        )
    }

    fn law_at(&mut self, mask: u64) -> Result<(N, N), AttributionError> {
        let difference: u64 = mask ^ self.applied;
        let ghost before = self.applied;
        let ghost nodes = self.player_nodes@;
        let ghost n = self.model@.nodes();
        let ghost start = self.store@;
        if difference != 0 {
            let mut i: usize = 0;
            proof {
                assert forall|x: int| 0 <= x < n implies #[trigger] self.store.swapped@[x]
                    == patched(nodes, before, mask, x, 0) by {
                    lemma_patched_all(nodes, before, mask, x, n);
                }
            }
            while i < self.player_nodes.len()
                invariant
                    0 <= i <= nodes.len() <= 64,
                    nodes == self.player_nodes@,
                    n == self.model@.nodes(),
                    n <= u32::MAX,
                    assigns(nodes, n),
                    difference == mask ^ before,
                    self.applied == before,
                    self.model == old(self).model,
                    self.engine == old(self).engine,
                    self.outcome == old(self).outcome,
                    self.n_samples == old(self).n_samples,
                    self.seed == old(self).seed,
                    self.player_nodes == old(self).player_nodes,
                    self.store.baseline == old(self).store.baseline,
                    self.store.comparison == old(self).store.comparison,
                    self.store.swapped@.len() == n,
                    forall|x: int|
                        0 <= x < n ==> #[trigger] self.store.swapped@[x] == patched(
                            nodes,
                            before,
                            mask,
                            x,
                            i as int,
                        ),
                decreases nodes.len() - i,
            {
                let ghost earlier = self.store.swapped@;
                proof {
                    lemma_difference(mask, before, i as int);
                }
                if coalition::contains(difference, i) {
                    if let Some(node) = self.player_nodes[i] {
                        let swap = coalition::contains(mask, i);
                        self.store.swapped.set(node, swap);
                    }
                }
                proof {
                    assert forall|x: int| 0 <= x < n implies #[trigger] self.store.swapped@[x]
                        == patched(nodes, before, mask, x, i + 1) by {
                        assert(earlier[x] == patched(nodes, before, mask, x, i as int));
                        lemma_patched_step(nodes, before, mask, x, i as int, n);
                    }
                }
                i = i + 1;
            }
            self.applied = mask;
            proof {
                assert(self.store.swapped@ =~= engine::swaps(nodes, mask, n)) by {
                    assert forall|x: int| 0 <= x < n implies self.store.swapped@[x]
                        == engine::swaps(nodes, mask, n)[x] by {
                        assert(self.store.swapped@[x] == patched(
                            nodes,
                            before,
                            mask,
                            x,
                            nodes.len() as int,
                        ));
                        lemma_patched_all(nodes, before, mask, x, n);
                    }
                }
            }
        } else {
            assert(mask == before) by (bit_vector)
                requires
                    mask ^ before == 0,
            ;
        }
        assert(self.store@ =~= chosen(start.baseline, start.comparison, nodes, mask));
        self.engine.outcome_law(self.model, &self.store, self.outcome, self.n_samples, self.seed)
    }
}

/// The choice at a node once the first `k` players are patched from one coalition to
/// another.
#[verifier::opaque]
spec fn patched(nodes: Seq<Option<usize>>, from: u64, to: u64, x: int, k: int) -> bool {
    exists|i: int|
        0 <= i < nodes.len() && #[trigger] nodes[i] == Some(x as usize) && coalition::member(
            if i < k {
                to
            } else {
                from
            },
            i,
        )
}

proof fn lemma_patched_step(
    nodes: Seq<Option<usize>>,
    from: u64,
    to: u64,
    x: int,
    k: int,
    n: nat,
)
    requires
        0 <= k < nodes.len(),
        0 <= x < n <= u32::MAX,
        assigns(nodes, n),
    ensures
        patched(nodes, from, to, x, k + 1) == if nodes[k] == Some(x as usize) {
            coalition::member(to, k)
        } else {
            patched(nodes, from, to, x, k)
        },
        nodes[k] == Some(x as usize) ==> patched(nodes, from, to, x, k) == coalition::member(
            from,
            k,
        ),
{
    reveal(patched);
    if nodes[k] == Some(x as usize) {
        assert forall|i: int|
            0 <= i < nodes.len() && #[trigger] nodes[i] == Some(x as usize) implies i == k by {
            if i < k {
                assert(nodes[i] != nodes[k]);
            } else if k < i {
                assert(nodes[k] != nodes[i]);
            }
        }
    } else {
        if patched(nodes, from, to, x, k) {
            let i = choose|i: int|
                0 <= i < nodes.len() && #[trigger] nodes[i] == Some(x as usize)
                    && coalition::member(
                    if i < k {
                        to
                    } else {
                        from
                    },
                    i,
                );
            assert(nodes[i] == Some(x as usize));
        }
        if patched(nodes, from, to, x, k + 1) {
            let i = choose|i: int|
                0 <= i < nodes.len() && #[trigger] nodes[i] == Some(x as usize)
                    && coalition::member(
                    if i < k + 1 {
                        to
                    } else {
                        from
                    },
                    i,
                );
            assert(nodes[i] == Some(x as usize));
        }
    }
}

proof fn lemma_patched_all(nodes: Seq<Option<usize>>, from: u64, to: u64, x: int, n: nat)
    requires
        0 <= x < n,
    ensures
        patched(nodes, from, to, x, nodes.len() as int) == engine::swaps(nodes, to, n)[x],
        patched(nodes, from, to, x, 0) == engine::swaps(nodes, from, n)[x],
{
    reveal(patched);
    if patched(nodes, from, to, x, nodes.len() as int) {
        let i = choose|i: int|
            0 <= i < nodes.len() && #[trigger] nodes[i] == Some(x as usize) && coalition::member(
                if i < nodes.len() {
                    to
                } else {
                    from
                },
                i,
            );
        assert(nodes[i] == Some(x as usize));
    }
    if patched(nodes, from, to, x, 0) {
        let i = choose|i: int|
            0 <= i < nodes.len() && #[trigger] nodes[i] == Some(x as usize) && coalition::member(
                if i < 0 {
                    to
                } else {
                    from
                },
                i,
            );
        assert(nodes[i] == Some(x as usize));
    }
}

proof fn lemma_difference(a: u64, b: u64, i: int)
    requires
        0 <= i < 64,
    ensures
        coalition::member(a ^ b, i) == (coalition::member(a, i) != coalition::member(b, i)),
{
    let k = i as u64;
    assert(((a ^ b) & (1u64 << k) != 0) == ((a & (1u64 << k) != 0) != (b & (1u64 << k) != 0)))
        by (bit_vector)
        requires
            k < 64,
    ;
}

/// Node of a variable.
pub open spec fn dense(model: ModelView, variable: VariableId) -> Option<usize> {
    if model.variables.contains(variable) {
        Some(model.variables.index_of(variable) as usize)
    } else {
        None
    }
}

/// Find the node of a variable.
pub fn find_node(model: &CausalModel, variable: VariableId) -> (found: Option<usize>)
    requires
        model.variables@.no_duplicates(),
        model@.nodes() <= u32::MAX,
    ensures
        found == dense(model@, variable),
        found matches Some(node) ==> node < model@.nodes() && model.variables@[node as int]
            == variable,
{
    let found = model.dense_of(variable);
    proof {
        if let Some(node) = found {
            assert(model.variables@[node as int] == variable);
            assert(model.variables@.contains(variable));
            let other = model.variables@.index_of(variable);
            assert(model.variables@[other] == variable);
            assert(other == node);
        }
    }
    found
}

/// Nodes of the players whose mechanisms can be exchanged: an input keeps its own.
pub open spec fn exchangeable(model: ModelView, roster: Roster) -> Seq<Option<usize>> {
    Seq::new(
        roster.players.len(),
        |i: int|
            if roster.kinds[i] is Input {
                None
            } else {
                dense(model, roster.players[i].variable_of())
            },
    )
}

/// Find the nodes of the players whose mechanisms can be exchanged.
pub fn exchangeable_nodes(
    model: &CausalModel,
    players: &Vec<ComponentId>,
    kinds: &Vec<PlayerKind>,
) -> (nodes: Vec<Option<usize>>)
    requires
        model.variables@.no_duplicates(),
        model@.nodes() <= u32::MAX,
        players@.len() == kinds@.len(),
        players@.no_duplicates(),
    ensures
        nodes@ == exchangeable(model@, Roster { players: players@, kinds: kinds@ }),
        assigns(nodes@, model@.nodes()),
{
    let ghost all = exchangeable(model@, Roster { players: players@, kinds: kinds@ });
    let mut nodes: Vec<Option<usize>> = Vec::new();
    while nodes.len() < players.len()
        invariant
            model.variables@.no_duplicates(),
            model@.nodes() <= u32::MAX,
            players@.len() == kinds@.len(),
            nodes@.len() <= players@.len(),
            all == exchangeable(model@, Roster { players: players@, kinds: kinds@ }),
            nodes@ == all.take(nodes@.len() as int),
            forall|i: int|
                0 <= i < nodes@.len() ==> (#[trigger] nodes@[i] matches Some(node) ==> node
                    < model@.nodes() && model.variables@[node as int]
                    == players@[i].variable_of()),
        decreases players.len() - nodes.len(),
    {
        let i: usize = nodes.len();
        let node: Option<usize> = if matches!(kinds[i], PlayerKind::Input) {
            None
        } else {
            find_node(model, players[i].variable())
        };
        nodes.push(node);
        assert(nodes@ =~= all.take(nodes@.len() as int));
    }
    proof {
        assert(all.take(all.len() as int) =~= all);
        assert forall|i: int, j: int|
            0 <= i < j < nodes@.len() && (#[trigger] nodes@[i]) is Some implies nodes@[i]
            != #[trigger] nodes@[j] by {
            if nodes@[i] == nodes@[j] {
                assert(players@[i].variable_of() == players@[j].variable_of());
                assert(players@[i] == players@[j]);
            }
        }
    }
    nodes
}

proof fn lemma_upstream(model: ModelView, outcome: int, k: nat)
    requires
        model.well_formed(),
        k <= model.nodes(),
    ensures
        upstream(model, outcome, k).no_duplicates(),
        forall|i: int|
            #![trigger upstream(model, outcome, k)[i]]
            0 <= i < upstream(model, outcome, k).len() ==> 0 <= upstream(model, outcome, k)[i]
                < model.nodes() && model.comes_before(upstream(model, outcome, k)[i], k as int),
    decreases k,
{
    if k > 0 {
        lemma_upstream(model, outcome, (k - 1) as nat);
        let before = upstream(model, outcome, (k - 1) as nat);
        let node = model.child(k - 1);
        assert(model.child(k - 1) < model.nodes());
        reveal(ModelView::comes_before);
        assert(model.comes_before(node, k as int)) by {
            assert(0 <= k - 1 < k && model.child(k - 1) == node);
        }
        assert forall|x: int| #[trigger] model.comes_before(x, k - 1) implies x != node
            && model.comes_before(x, k as int) by {
            let j = choose|j: int| 0 <= j < k - 1 && #[trigger] model.child(j) == x;
            assert(model.child(j) != model.child(k - 1));
            assert(0 <= j < k && model.child(j) == x);
        }
        assert forall|i: int| 0 <= i < before.len() implies #[trigger] before[i] != node by {
            assert(model.comes_before(before[i], k - 1));
        }
    }
}

/// No component is a player twice.
pub proof fn law_players_are_distinct(
    model: ModelView,
    outcome: int,
    components: AttributionComponents,
)
    requires
        model.well_formed(),
        model.variables.no_duplicates(),
        0 <= outcome < model.nodes(),
    ensures
        roster_of(model, outcome, components).players.no_duplicates(),
{
    let n = model.nodes();
    lemma_upstream(model, outcome, n);
    let nodes = upstream(model, outcome, n);
    let first = mechanism_roster(model, outcome);
    assert(first.players.no_duplicates()) by {
        assert forall|i: int, j: int|
            0 <= i < first.players.len() && 0 <= j < first.players.len() && i
                != j implies first.players[i] != first.players[j] by {
            assert(nodes[i] != nodes[j]);
            assert(model.variables[nodes[i]] != model.variables[nodes[j]]);
        }
    }
    let parents = parents_of(model, outcome);
    lemma_inputs_distinct(first, model, parents, parents.len());
    let none = Roster { players: Seq::empty(), kinds: Seq::empty() };
    lemma_inputs_distinct(none, model, parents, parents.len());
}

proof fn lemma_inputs_distinct(
    roster: Roster,
    model: ModelView,
    parents: Seq<DenseNodeId>,
    k: nat,
)
    requires
        roster.players.no_duplicates(),
    ensures
        with_inputs(roster, model, parents, k).players.no_duplicates(),
    decreases k,
{
    if k > 0 {
        lemma_inputs_distinct(roster, model, parents, (k - 1) as nat);
        let before = with_inputs(roster, model, parents, (k - 1) as nat).players;
        let component = component_of(model, parents[k - 1].raw as int);
        if sequential::place_of(before, component) is None {
            sequential::lemma_no_place(before, component);
            let after = before.push(component);
            assert forall|i: int, j: int|
                0 <= i < after.len() && 0 <= j < after.len() && i != j implies after[i]
                != after[j] by {
                if i == before.len() {
                    assert(before.contains(before[j]));
                } else if j == before.len() {
                    assert(before.contains(before[i]));
                }
            }
        }
    }
}

/// Why components are refused.
pub open spec fn components_refusal(components: AttributionComponents) -> Option<
    AttributionError,
> {
    if components is Inputs || components is Structure {
        Some(AttributionError::Unsupported { message: MECHANISMS_REQUIRED })
    } else if components is All {
        Some(AttributionError::Unsupported { message: DUAL_GRAPHS_REQUIRED })
    } else {
        None
    }
}

/// Why a query is refused.
pub open spec fn query_refusal(query: ChangeAttributionQuery) -> Option<AttributionError> {
    match query.refusal() {
        Some(error) => Some(AttributionError::Query(error)),
        None => components_refusal(query.components),
    }
}

/// Check that a query asks for mechanisms, alone or with inputs.
pub fn validate_distribution_change_query(query: &ChangeAttributionQuery) -> (r: Result<
    (),
    AttributionError,
>)
    ensures
        r == match query_refusal(*query) {
            Some(error) => Err(error),
            None => Ok(()),
        },
{
    match query.validate() {
        Ok(_) => {},
        Err(error) => {
            return Err(AttributionError::Query(error));
        },
    }
    match query.components {
        AttributionComponents::Inputs | AttributionComponents::Structure => Err(
            AttributionError::unsupported(MECHANISMS_REQUIRED),
        ),
        AttributionComponents::All => Err(AttributionError::unsupported(DUAL_GRAPHS_REQUIRED)),
        _ => Ok(()),
    }
}

/// Mean and variance of the outcome by coalition.
pub open spec fn swap_law<N: Amount, E: Engine<N>>(
    engine: E,
    model: ModelView,
    baseline: Seq<MechanismSlot<N>>,
    comparison: Seq<MechanismSlot<N>>,
    nodes: Seq<Option<usize>>,
    outcome: int,
    options: ChangeOptions,
    rng: RngFactory,
    mask: u64,
) -> Result<(N, N), AttributionError> {
    engine.law_of(
        model,
        chosen(baseline, comparison, nodes, mask),
        outcome,
        options.n_samples,
        execution::mixed(
            rng.master_seed,
            execution::mixed(DISTRIBUTION_STREAM, options.seed),
        ),
    )
}

/// The game of exchanging mechanisms.
pub open spec fn swap_game<N: Amount, E: Engine<N>>(
    engine: E,
    model: ModelView,
    baseline: Seq<MechanismSlot<N>>,
    comparison: Seq<MechanismSlot<N>>,
    nodes: Seq<Option<usize>>,
    outcome: int,
    options: ChangeOptions,
    rng: RngFactory,
) -> spec_fn(u64) -> Result<N, AttributionError> {
    |mask: u64|
        change::law_worth(
            engine,
            options.measure,
            swap_law(engine, model, baseline, comparison, nodes, outcome, options, rng, 0),
            swap_law(engine, model, baseline, comparison, nodes, outcome, options, rng, mask),
            mask,
        )
}

/// Why an attribution is refused before anything is evaluated.
pub open spec fn distribution_refusal<N: Amount, E: Engine<N>>(
    model: ModelView,
    query: ChangeAttributionQuery,
    n_samples: usize,
    n_paths: Option<nat>,
    engine: E,
) -> Option<AttributionError> {
    match query_refusal(query) {
        Some(error) => Some(error),
        None => match dense(model, query.outcome) {
            None => Some(
                AttributionError::MissingVariable { role: "outcome", id: query.outcome },
            ),
            Some(outcome) => {
                let players = roster_of(model, outcome as int, query.components).players;
                if players.len() > query.max_components {
                    Some(
                        AttributionError::SizeLimit {
                            kind: "components",
                            requested: players.len() as usize,
                            max: query.max_components,
                        },
                    )
                } else if players.len() == 0 {
                    Some(
                        AttributionError::InvalidInput { message: "no components to attribute" },
                    )
                } else if engine.over_budget(
                    players.len() as usize,
                    query.allocation,
                    n_samples,
                ) is Some {
                    engine.over_budget(players.len() as usize, query.allocation, n_samples)
                } else if n_paths matches Some(n) && n != players.len() {
                    Some(AttributionError::InvalidInput { message: PATHS_PER_PLAYER })
                } else {
                    None
                }
            },
        },
    }
}

/// The first failure of a game that is played by `n` players: nobody, too many players,
/// everybody.
pub open spec fn total_failure<N>(
    g: spec_fn(u64) -> Result<N, AttributionError>,
    n: nat,
) -> Option<AttributionError> {
    match g(0) {
        Err(error) => Some(error),
        Ok(_) => if n > 64 {
            Some(
                AttributionError::SizeLimit {
                    kind: "components",
                    requested: n as usize,
                    max: 64,
                },
            )
        } else {
            match g((power2::pow2(n) - 1) as u64) {
                Err(error) => Some(error),
                Ok(_) => None,
            }
        },
    }
}

/// The change that is shared.
pub open spec fn total_of<N: Amount>(
    g: spec_fn(u64) -> Result<N, AttributionError>,
    n: nat,
    measure: DifferenceMeasure,
) -> N {
    change::change_of(
        measure,
        payoff::worth_of(g, 0),
        payoff::worth_of(g, (power2::pow2(n) - 1) as u64),
    )
}

/// Paths as sequences.
pub open spec fn path_lists<N>(
    player_paths: Option<&Vec<Vec<PathContribution<N>>>>,
) -> Option<Seq<Vec<PathContribution<N>>>> {
    match player_paths {
        Some(paths) => Some(paths@),
        None => None,
    }
}

/// What an attribution returns: its refusal, the first failure, or the allocated change.
pub open spec fn is_attribution<N: Amount, E: Engine<N>>(
    r: Result<ChangeAttributionResult<N>, AttributionError>,
    model: ModelView,
    baseline: Seq<MechanismSlot<N>>,
    comparison: Seq<MechanismSlot<N>>,
    query: ChangeAttributionQuery,
    options: ChangeOptions,
    engine: E,
    ctx: ExecutionContext,
    player_paths: Option<Seq<Vec<PathContribution<N>>>>,
) -> bool {
    let refusal = distribution_refusal::<N, E>(
        model,
        query,
        options.n_samples,
        match player_paths {
            Some(paths) => Some(paths.len()),
            None => None,
        },
        engine,
    );
    let outcome = dense(model, query.outcome)->0 as int;
    let roster = roster_of(model, outcome, query.components);
    let g = swap_game(
        engine,
        model,
        baseline,
        comparison,
        exchangeable(model, roster),
        outcome,
        options,
        ctx.rng,
    );
    let n = roster.players.len();
    let total = total_of(g, n, options.measure);
    match r {
        Ok(result) => {
            &&& refusal is None
            &&& total_failure(g, n) is None
            &&& allocation::is_allocation(
                result,
                query.outcome,
                roster.players,
                query.allocation,
                g,
                total,
                Seq::empty(),
                ctx,
                player_paths,
                engine,
            )
        },
        Err(error) => if refusal is Some {
            refusal == Some(error)
        } else if total_failure(g, n) is Some {
            total_failure(g, n) == Some(error)
        } else {
            allocation::is_not_allocated(
                error,
                roster.players,
                query.allocation,
                g,
                total,
                player_paths is Some,
                ctx,
            )
        },
    }
}

/// Attribute the change in an outcome to mechanisms fitted on two populations.
///
/// `baseline` and `comparison` hold one fitted mechanism per node. Every ancestor of the
/// outcome, and the outcome itself, is a player. Samples are drawn from a stream of the
/// context, the same for every coalition; the engine says whether they are within budget. A path
/// allocation needs each player's paths to the outcome.
pub fn distribution_change<N: Amount, E: Engine<N>>(
    model: &CausalModel,
    baseline: Vec<MechanismSlot<N>>,
    comparison: Vec<MechanismSlot<N>>,
    query: &ChangeAttributionQuery,
    options: &DistributionChangeOptions,
    engine: &E,
    ctx: &ExecutionContext,
    player_paths: Option<&Vec<Vec<PathContribution<N>>>>,
) -> (r: Result<ChangeAttributionResult<N>, AttributionError>)
    requires
        model@.well_formed(),
        model@.variables.no_duplicates(),
        baseline@.len() == model@.nodes(),
        comparison@.len() == model@.nodes(),
    ensures
        is_attribution(
            r,
            model@,
            baseline@,
            comparison@,
            *query,
            options.shared(),
            *engine,
            *ctx,
            path_lists(player_paths),
        ),
{
    let options = options.to_shared();
    match validate_distribution_change_query(query) {
        Ok(_) => {},
        Err(error) => {
            return Err(error);
        },
    }
    let outcome: usize = match find_node(model, query.outcome) {
        Some(node) => node,
        None => {
            return Err(AttributionError::missing_var("outcome", query.outcome));
        },
    };
    let (players, kinds) = match joint_players(
        model,
        outcome,
        query.max_components,
        query.components,
    ) {
        Ok(found) => found,
        Err(error) => {
            return Err(error);
        },
    };
    let ghost roster = roster_of(model@, outcome as int, query.components);
    if players.len() == 0 {
        return Err(AttributionError::invalid_input("no components to attribute"));
    }
    match engine.check_coalition_sample_budget(
        players.len(),
        &query.allocation,
        options.n_samples,
    ) {
        Ok(_) => {},
        Err(error) => {
            return Err(error);
        },
    }
    if let Some(paths) = player_paths {
        if paths.len() != players.len() {
            return Err(AttributionError::invalid_input(PATHS_PER_PLAYER));
        }
    }
    proof {
        law_players_are_distinct(model@, outcome as int, query.components);
        assert(Roster { players: players@, kinds: kinds@ } =~= roster);
    }
    let player_nodes = exchangeable_nodes(model, &players, &kinds);
    let ghost nodes = player_nodes@;
    let seed: u64 = execution::mix_seed(
        ctx.rng.master_seed(),
        change::stream_tag(DISTRIBUTION_STREAM, options.seed),
    );
    let ghost g = swap_game(
        *engine,
        model@,
        baseline@,
        comparison@,
        nodes,
        outcome as int,
        options,
        ctx.rng,
    );
    let store = HybridStore::new(baseline, comparison);
    proof {
        assert(engine::swaps(nodes, 0, model@.nodes()) =~= store@.swapped) by {
            assert forall|x: int| 0 <= x < model@.nodes() implies !engine::swaps(
                nodes,
                0,
                model@.nodes(),
            )[x] by {
                lemma_nobody_swaps(nodes, x, model@.nodes());
            }
        }
    }
    if players.len() > 64 {
        let law = engine.outcome_law(model, &store, outcome, options.n_samples, seed);
        assert(store@ =~= chosen(baseline@, comparison@, nodes, 0));
        return match law {
            Ok(_) => Err(
                AttributionError::SizeLimit {
                    kind: "components",
                    requested: players.len(),
                    max: 64,
                },
            ),
            Err(error) => Err(error),
        };
    }
    let laws = MechanismSwap {
        model,
        store,
        player_nodes,
        applied: 0,
        outcome,
        n_samples: options.n_samples,
        seed,
        engine,
    };
    let mut payoff = LawPayoff::new(laws, options.measure, engine);
    proof {
        assert(payoff::game(payoff) =~= g);
    }
    let empty = payoff.value(0);
    proof {
        assert(payoff::game(payoff) =~= g);
    }
    let v0 = match empty {
        Ok(value) => value,
        Err(error) => {
            return Err(error);
        },
    };
    let full: u64 = match coalition::full_coalition_mask(players.len()) {
        Ok(mask) => mask,
        Err(error) => {
            return Err(error);
        },
    };
    let everyone = payoff.value(full);
    proof {
        assert(payoff::game(payoff) =~= g);
    }
    let v_full = match everyone {
        Ok(value) => value,
        Err(error) => {
            return Err(error);
        },
    };
    let total = change::total_change(options.measure, v0, v_full);
    let none: Vec<ComponentId> = Vec::new();
    assert(none@ =~= Seq::empty());
    allocation::run_change_allocation(
        query.outcome,
        players.as_slice(),
        &query.allocation,
        &mut payoff,
        total,
        none,
        ctx,
        player_paths,
        engine,
    )
}

pub proof fn lemma_nobody_swaps(nodes: Seq<Option<usize>>, x: int, n: nat)
    requires
        0 <= x < n,
    ensures
        !engine::swaps(nodes, 0, n)[x],
{
    if engine::swaps(nodes, 0, n)[x] {
        let i = choose|i: int|
            0 <= i < nodes.len() && #[trigger] nodes[i] == Some(x as usize) && coalition::member(
                0,
                i,
            );
        let k = i as u64;
        assert(0u64 & (1u64 << k) == 0) by (bit_vector);
    }
}

/// Attribute a change to mechanisms by Shapley values, with default options.
pub fn distribution_change_shapley<N: Amount, E: Engine<N>>(
    model: &CausalModel,
    fitted_baseline: Vec<MechanismSlot<N>>,
    fitted_comparison: Vec<MechanismSlot<N>>,
    outcome: VariableId,
    baseline: PopulationSelector,
    comparison: PopulationSelector,
    shapley: ShapleyConfig,
    engine: &E,
    ctx: &ExecutionContext,
) -> (r: Result<ChangeAttributionResult<N>, AttributionError>)
    requires
        model@.well_formed(),
        model@.variables.no_duplicates(),
        fitted_baseline@.len() == model@.nodes(),
        fitted_comparison@.len() == model@.nodes(),
    ensures
        is_attribution(
            r,
            model@,
            fitted_baseline@,
            fitted_comparison@,
            (ChangeAttributionQuery {
                outcome,
                baseline,
                comparison,
                components: AttributionComponents::Mechanisms,
                allocation: AllocationMethod::Shapley { approximation: shapley },
                max_components: crate::query::attribution::DEFAULT_MAX_COMPONENTS,
            }),
            (ChangeOptions {
                measure: DifferenceMeasure::MeanDiff,
                n_samples: change::DEFAULT_SAMPLES,
                seed: 0,
            }),
            *engine,
            *ctx,
            None,
        ),
{
    let query = ChangeAttributionQuery::new(outcome, baseline, comparison).with_components(
        AttributionComponents::Mechanisms,
    ).with_allocation(AllocationMethod::Shapley { approximation: shapley });
    distribution_change(
        model,
        fitted_baseline,
        fitted_comparison,
        &query,
        &DistributionChangeOptions::default(),
        engine,
        ctx,
        None,
    )
}

} // verus!
