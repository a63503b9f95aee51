//! Which requests for attribution are admitted, and what closed forms and ancestors are.
//!
//! Where a law is about numbers, it is about exact arithmetic: a valuation reads the numbers of
//! a computation as real numbers.
//!
//! SPDX-License-Identifier: MIT OR Apache-2.0

use crate::attribution::amount::Amount;
use crate::attribution::anomaly;
use crate::attribution::change;
use crate::attribution::distribution;
use crate::attribution::efficiency;
use crate::attribution::engine;
use crate::attribution::engine::{ClosedForm, Engine, HybridState};
use crate::attribution::error::AttributionError;
use crate::attribution::implied;
use crate::attribution::linear;
use crate::attribution::model;
use crate::attribution::model::{LinearForm, MechanismSlot, ModelView};
use crate::attribution::robust;
use crate::attribution::scores;
use crate::attribution::sequential;
use crate::attribution::structure;
use crate::attribution::table;
use crate::attribution::unit;
use crate::ids::ComponentId;
use crate::query::attribution::{
    AnomalyAttributionQuery, AttributionComponents, ChangeAttributionQuery, UnitChangeQuery,
};
use vstd::arithmetic::power2;
use vstd::prelude::*;

verus! {

/// A change of a distribution is attributed exactly where the query is accepted and asks for
/// mechanisms, alone or with inputs, the outcome is in the model, there are players but not too
/// many, the budget suffices, and paths, where given, are given for every player.
pub proof fn law_admitted_distribution_changes<N: Amount, E: Engine<N>>(
    model: ModelView,
    query: ChangeAttributionQuery,
    n_samples: usize,
    n_paths: Option<nat>,
    engine: E,
    outcome: usize,
    players: Seq<ComponentId>,
)
    requires
        distribution::dense(model, query.outcome) == Some(outcome),
        players == distribution::roster_of(model, outcome as int, query.components).players,
    ensures
        distribution::distribution_refusal::<N, E>(model, query, n_samples, n_paths, engine)
            is None <==> {
            &&& query.refusal() is None
            &&& query.components == AttributionComponents::Mechanisms || query.components
                == AttributionComponents::InputsAndMechanisms
            &&& 0 < players.len() <= query.max_components
            &&& engine.over_budget(players.len() as usize, query.allocation, n_samples) is None
            &&& n_paths matches Some(n) ==> n == players.len()
        },
{
}

/// An outcome that the model does not have is refused by every attribution.
pub proof fn law_unknown_outcomes_are_refused<N: Amount, E: Engine<N>>(
    model: ModelView,
    other: ModelView,
    query: ChangeAttributionQuery,
    unit_query: UnitChangeQuery,
    n_samples: usize,
    n_paths: Option<nat>,
    engine: E,
    rows: usize,
)
    ensures
        !model.variables.contains(query.outcome) ==> {
            &&& distribution::distribution_refusal::<N, E>(
                model,
                query,
                n_samples,
                n_paths,
                engine,
            ) is Some
            &&& structure::structure_refusal::<N, E>(
                model,
                other,
                query,
                n_samples,
                n_paths,
                engine,
            ) is Some
            &&& robust::robust_refusal(model, query, rows, rows, rows) is Some
        },
        !model.variables.contains(unit_query.outcome) ==> unit::unit_refusal(
            model,
            rows,
            unit_query,
        ) is Some,
{
}

/// A change of structure is attributed exactly where the query is accepted and asks for
/// structure, both graphs have the same variables in the same places, some but not too many
/// nodes have other parents and lead to the outcome, the budget suffices, paths are given for
/// every player where any are, and exchanging all of them leaves no cycle.
pub proof fn law_admitted_structure_changes<N: Amount, E: Engine<N>>(
    baseline: ModelView,
    comparison: ModelView,
    query: ChangeAttributionQuery,
    n_samples: usize,
    n_paths: Option<nat>,
    engine: E,
    outcome: usize,
    nodes: Seq<int>,
)
    requires
        distribution::dense(baseline, query.outcome) == Some(outcome),
        nodes == structure::differing(
            baseline,
            comparison,
            outcome as int,
            true,
            baseline.nodes(),
        ),
    ensures
        structure::structure_refusal::<N, E>(
            baseline,
            comparison,
            query,
            n_samples,
            n_paths,
            engine,
        ) is None <==> {
            &&& query.refusal() is None
            &&& query.components == AttributionComponents::Structure
            &&& baseline.variables == comparison.variables
            &&& 0 < nodes.len() <= 64
            &&& nodes.len() <= query.max_components
            &&& engine.over_budget(nodes.len() as usize, query.allocation, n_samples) is None
            &&& n_paths matches Some(n) ==> n == nodes.len()
            &&& model::acyclic(
                structure::hybrid_lists(
                    structure::parents_by_node(baseline),
                    structure::parents_by_node(comparison),
                    nodes.map_values(|x: int| Some(x as usize)),
                    (power2::pow2(nodes.len()) - 1) as u64,
                ),
            )
        },
{
    assert(structure::seats_of(nodes) == nodes.map_values(|x: int| Some(x as usize)));
}

/// A robust attribution is made exactly where the query is accepted and asks for mechanisms and
/// Shapley values, neither population has too many rows, and there are not too many players.
pub proof fn law_admitted_robust_changes(
    model: ModelView,
    query: ChangeAttributionQuery,
    max_rows: usize,
    baseline_rows: usize,
    comparison_rows: usize,
    outcome: usize,
)
    requires
        distribution::dense(model, query.outcome) == Some(outcome),
    ensures
        robust::robust_refusal(model, query, max_rows, baseline_rows, comparison_rows) is None <==> {
            &&& query.refusal() is None
            &&& query.components == AttributionComponents::Mechanisms
            &&& baseline_rows <= max_rows
            &&& comparison_rows <= max_rows
            &&& distribution::mechanism_roster(model, outcome as int).players.len()
                <= query.max_components
            &&& query.allocation is Shapley
        },
{
}

/// Single units are attributed exactly where the query is accepted and asks for inputs and
/// Shapley values, its rows are admitted, and the outcome has parents.
pub proof fn law_admitted_unit_changes(
    model: ModelView,
    n_rows: usize,
    query: UnitChangeQuery,
    outcome: usize,
)
    requires
        distribution::dense(model, query.outcome) == Some(outcome),
    ensures
        unit::unit_refusal(model, n_rows, query) is None <==> {
            &&& query.refusal() is None
            &&& unit::row_refusal(
                table::rows_asked(query.unit_rows, n_rows),
                n_rows,
                query.max_units,
            ) is None
            &&& query.components == AttributionComponents::Inputs
            &&& distribution::parents_of(model, outcome as int).len() > 0
            &&& query.allocation is Shapley
        },
{
}

/// Anomalies are attributed exactly where the query is accepted and asks for no more rows than
/// it allows.
pub proof fn law_admitted_anomalies(query: AnomalyAttributionQuery, n_rows: usize)
    ensures
        anomaly::anomaly_refusal(query, n_rows) is None <==> query.refusal() is None
            && table::rows_asked(query.unit_rows, n_rows).len() <= query.max_units,
{
}

proof fn lemma_order_fault(order: Seq<ComponentId>, players: Seq<ComponentId>, k: nat)
    requires
        players.len() <= usize::MAX,
        k <= order.len(),
    ensures
        change::order_fault(order, players, k) is None <==> {
            &&& forall|j: int| 0 <= j < k ==> players.contains(#[trigger] order[j])
            &&& forall|i: int, j: int|
                0 <= i < j < k ==> #[trigger] order[i] != #[trigger] order[j]
        },
    decreases k,
{
    reveal(change::named);
    if k > 0 {
        lemma_order_fault(order, players, (k - 1) as nat);
        let last = order[k - 1];
        sequential::lemma_place(players, last);
        match sequential::place_of(players, last) {
            None => {
                assert(!players.contains(order[k - 1]));
            },
            Some(place) => {
                assert(players[place as int] == last);
                assert(players.contains(last));
                if change::named(order, players, place, k - 1) {
                    let j = choose|j: int|
                        0 <= j < k - 1 && sequential::place_of(players, #[trigger] order[j])
                            == Some(place);
                    sequential::lemma_place(players, order[j]);
                    assert(order[j] == order[k - 1]);
                } else {
                    assert forall|j: int| 0 <= j < k - 1 implies #[trigger] order[j] != last by {
                        if order[j] == last {
                            assert(sequential::place_of(players, order[j]) == Some(place));
                        }
                    }
                }
            },
        }
    }
}

/// An order is accepted exactly where it names as many components as there are players, all of
/// them players, and none twice.
pub proof fn law_accepted_orders_name_every_player(
    order: Seq<ComponentId>,
    players: Seq<ComponentId>,
)
    requires
        players.len() <= usize::MAX,
    ensures
        change::order_refusal(order, players) is None <==> {
            &&& order.len() == players.len()
            &&& forall|j: int| 0 <= j < order.len() ==> players.contains(#[trigger] order[j])
            &&& order.no_duplicates()
        },
{
    lemma_order_fault(order, players, order.len());
    if order.no_duplicates() {
        assert forall|i: int, j: int| 0 <= i < j < order.len() implies #[trigger] order[i]
            != #[trigger] order[j] by {}
    }
    if forall|i: int, j: int| 0 <= i < j < order.len() ==> #[trigger] order[i] != #[trigger] order[j] {
        assert(order.no_duplicates());
    }
}

proof fn lemma_linear_value<N: Amount>(
    val: spec_fn(N) -> real,
    intercept: N,
    coeffs: Seq<N>,
    parents: Seq<N>,
    k: nat,
)
    requires
        efficiency::is_exact(val),
    ensures
        val(engine::linear_value(intercept, coeffs, parents, k)) == val(intercept)
            + efficiency::sum(|i: int| implied::slope(val, coeffs, i) * val(parents[i]), k),
    decreases k,
{
    if k > 0 {
        lemma_linear_value(val, intercept, coeffs, parents, (k - 1) as nat);
        assert(val(linear::coefficient(coeffs, k - 1)) == implied::slope(val, coeffs, k - 1));
    }
}

/// In closed form a linear mechanism makes of its parents the intercept, every slope times its
/// parent's value, and the noise; a constant makes its value of anything, and no other mechanism
/// has a closed form.
pub proof fn law_closed_forms_are_linear<N: Amount>(
    val: spec_fn(N) -> real,
    closed: ClosedForm<N>,
    slot: MechanismSlot<N>,
    form: LinearForm<N>,
    parents: Seq<N>,
    noise: N,
)
    requires
        efficiency::is_exact(val),
    ensures
        implied::has_form(slot, form) ==> (closed.evaluated(slot, parents, noise) matches Ok(value)
            && val(value) == val(form.intercept) + efficiency::sum(
            |i: int| implied::slope(val, form.coeffs, i) * val(parents[i]),
            parents.len(),
        ) + val(noise)),
        slot matches MechanismSlot::Constant { value } ==> closed.evaluated(slot, parents, noise)
            == Ok::<N, AttributionError>(value),
        slot is Discrete || slot is Opaque ==> closed.evaluated(slot, parents, noise) is Err,
{
    if implied::has_form(slot, form) {
        lemma_linear_value(val, form.intercept, form.coeffs, parents, parents.len());
    }
}

/// In closed form the law of an outcome has the mean and the variance that the mechanisms in
/// force imply, whatever the number of samples and the seed.
pub proof fn law_closed_laws_are_implied<N: Amount>(
    closed: ClosedForm<N>,
    model: ModelView,
    store: HybridState<N>,
    outcome: int,
    n_samples: usize,
    seed: u64,
    mean: N,
    variance: N,
)
    requires
        closed.law_of(model, store, outcome, n_samples, seed) == Ok::<(N, N), AttributionError>(
            (mean, variance),
        ),
    ensures
        mean == implied::mean_at(
            model,
            |x: int| if store.swapped[x] { store.comparison[x] } else { store.baseline[x] },
            outcome,
        ),
        variance == implied::covariance_at(
            model,
            |x: int| if store.swapped[x] { store.comparison[x] } else { store.baseline[x] },
            outcome,
            outcome,
        ),
{
    let slots = |x: int| if store.swapped[x] { store.comparison[x] } else { store.baseline[x] };
    let in_force = |i: int| store.in_force(i);
    assert(slots =~= in_force);
}

/// In closed form a tail score is the distance from the centre in units of the scale.
pub proof fn law_closed_tails_are_standardized<N: Amount>(
    val: spec_fn(N) -> real,
    closed: ClosedForm<N>,
    center: N,
    scale: N,
    value: N,
)
    requires
        efficiency::is_exact(val),
        scores::reads_sizes(val),
        val(scale) > 0 as real,
    ensures
        val(closed.tail(center, scale, value)) * val(scale) == if val(value) < val(center) {
            val(center) - val(value)
        } else {
            val(value) - val(center)
        },
        val(closed.tail(center, scale, value)) >= 0 as real,
{
    let ratio = value.minus(center).over(scale);
    let distance = val(value) - val(center);
    assert(val(ratio) * val(scale) == distance);
    if val(ratio) < 0 as real {
        efficiency::real_orders(val(ratio), 0 as real, val(scale));
        efficiency::real_units(val(scale));
        assert((-val(ratio)) * val(scale) == -(val(ratio) * val(scale))) by (nonlinear_arith);
    } else if val(ratio) > 0 as real {
        efficiency::real_orders(0 as real, val(ratio), val(scale));
        efficiency::real_units(val(scale));
    } else {
        efficiency::real_units(val(scale));
    }
}

proof fn lemma_leads_on(model: ModelView, p: int, c: int, t: int, steps: nat)
    requires
        model.is_parent(p, c),
        model.leads(c, t, steps),
    ensures
        model.leads(p, t, steps + 1),
    decreases steps,
{
    if c == t {
        assert(model.is_parent(p, t) && model.leads(p, p, steps));
    } else {
        let d = choose|d: int|
            #[trigger] model.is_parent(d, t) && model.leads(c, d, (steps - 1) as nat);
        lemma_leads_on(model, p, c, d, (steps - 1) as nat);
        assert(model.is_parent(d, t) && model.leads(p, d, steps));
    }
}

/// A node is an ancestor of itself, and parents of ancestors are ancestors.
pub proof fn law_ancestors_include_parents(model: ModelView, p: int, c: int, t: int)
    ensures
        model.is_ancestor(t, t),
        model.is_parent(p, c) && model.is_ancestor(c, t) ==> model.is_ancestor(p, t),
{
    assert(model.leads(t, t, 0));
    if model.is_parent(p, c) && model.is_ancestor(c, t) {
        let steps = choose|steps: nat| model.leads(c, t, steps);
        lemma_leads_on(model, p, c, t, steps);
    }
}

proof fn lemma_reached(model: ModelView, within: spec_fn(int) -> bool, a: int, b: int, steps: nat)
    requires
        within(b),
        forall|p: int, c: int| #[trigger] model.is_parent(p, c) && within(c) ==> within(p),
        model.leads(a, b, steps),
    ensures
        within(a),
    decreases steps,
{
    if a != b {
        let c = choose|c: int|
            #[trigger] model.is_parent(c, b) && model.leads(a, c, (steps - 1) as nat);
        assert(within(c));
        lemma_reached(model, within, a, c, (steps - 1) as nat);
    }
}

/// Nothing else is an ancestor: whatever holds of a node, and of the parents of whatever it holds
/// of, holds of all ancestors of the node.
pub proof fn law_only_parents_lead_to_a_node(
    model: ModelView,
    within: spec_fn(int) -> bool,
    a: int,
    t: int,
)
    requires
        within(t),
        forall|p: int, c: int| #[trigger] model.is_parent(p, c) && within(c) ==> within(p),
        model.is_ancestor(a, t),
    ensures
        within(a),
{
    let steps = choose|steps: nat| model.leads(a, t, steps);
    lemma_reached(model, within, a, t, steps);
}

} // verus!
