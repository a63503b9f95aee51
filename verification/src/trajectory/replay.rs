//! What replayed units and evaluated trajectories satisfy.
//!
//! SPDX-License-Identifier: MIT OR Apache-2.0

use crate::attribution::amount::Amount;
use crate::attribution::anomaly;
use crate::attribution::distribution;
use crate::attribution::efficiency;
use crate::attribution::engine::Engine;
use crate::attribution::error::AttributionError;
use crate::attribution::fairness;
use crate::attribution::model::{MechanismSlot, ModelView};
use crate::attribution::shapley;
use crate::attribution::table::NodeTable;
use crate::trajectory;
use crate::trajectory::{
    CounterfactualError, CounterfactualTrajectoryRequest, NoiseReplay, Setting, StepPredictor,
    TrajectoryResult,
};
use vstd::prelude::*;

verus! {

/// The setting at a place is the last that names its node.
pub open spec fn is_last_for<N>(settings: Seq<Setting<N>>, place: int, node: int) -> bool {
    &&& 0 <= place < settings.len()
    &&& settings[place].node == node
    &&& forall|j: int| place < j < settings.len() ==> (#[trigger] settings[j]).node != node
}

/// No setting names a node.
pub open spec fn names_nowhere<N>(settings: Seq<Setting<N>>, node: int) -> bool {
    forall|j: int| 0 <= j < settings.len() ==> (#[trigger] settings[j]).node != node
}

proof fn lemma_set_value<N>(settings: Seq<Setting<N>>, node: int, place: int, k: nat)
    requires
        0 <= place < k <= settings.len(),
        is_last_for(settings, place, node),
    ensures
        trajectory::set_value(settings, node, k) == Some(settings[place].value),
    decreases k,
{
    if place < k - 1 {
        assert(settings[k - 1].node != node);
        lemma_set_value(settings, node, place, (k - 1) as nat);
    }
}

proof fn lemma_not_set<N>(settings: Seq<Setting<N>>, node: int, k: nat)
    requires
        k <= settings.len(),
        names_nowhere(settings, node),
    ensures
        trajectory::set_value(settings, node, k) is None,
    decreases k,
{
    if k > 0 {
        assert(settings[k - 1].node != node);
        lemma_not_set(settings, node, (k - 1) as nat);
    }
}

/// A node that settings name has the value of the last of them, wherever in the list that one
/// stands, and a node that none names has no set value.
pub proof fn law_the_last_setting_counts<N>(settings: Seq<Setting<N>>, node: int, place: int)
    ensures
        is_last_for(settings, place, node) ==> trajectory::set_value(
            settings,
            node,
            settings.len(),
        ) == Some(settings[place].value),
        names_nowhere(settings, node) ==> trajectory::set_value(settings, node, settings.len())
            is None,
{
    if is_last_for(settings, place, node) {
        lemma_set_value(settings, node, place, settings.len());
    }
    if names_nowhere(settings, node) {
        lemma_not_set(settings, node, settings.len());
    }
}

/// A node that some setting names is named last by one of them.
proof fn lemma_last_place<N>(settings: Seq<Setting<N>>, node: int, k: nat) -> (place: int)
    requires
        k <= settings.len(),
        forall|j: int| k <= j < settings.len() ==> (#[trigger] settings[j]).node != node,
    ensures
        is_last_for(settings, place, node) || names_nowhere(settings, node),
    decreases k,
{
    if k == 0 {
        0
    } else if settings[k - 1].node == node {
        k - 1
    } else {
        lemma_last_place(settings, node, (k - 1) as nat)
    }
}

/// Values of a unit satisfy the model under settings: a node has the value that its last
/// setting gives it, and a node without a setting has what its mechanism makes of the values of
/// its parents and of its own noise.
pub open spec fn solves<N: Amount, E: Engine<N>>(
    engine: E,
    model: ModelView,
    slots: Seq<MechanismSlot<N>>,
    noise: NodeTable<N>,
    settings: Seq<Setting<N>>,
    unit: int,
    values: Seq<N>,
) -> bool {
    &&& values.len() == model.nodes()
    &&& forall|k: int, place: int|
        0 <= k < model.nodes() && #[trigger] is_last_for(settings, place, #[trigger] model.child(k))
            ==> values[model.child(k)] == settings[place].value
    &&& forall|k: int|
        0 <= k < model.nodes() && names_nowhere(settings, #[trigger] model.child(k))
            ==> engine.evaluated(
            slots[model.child(k)],
            Seq::new(
                model.parents(k).len(),
                |i: int| values[model.parents(k)[i].raw as int],
            ),
            noise.columns@[model.child(k)]@[unit],
        ) == Ok::<N, AttributionError>(values[model.child(k)])
}

proof fn lemma_replay_stays<N: Amount, E: Engine<N>>(
    engine: E,
    model: ModelView,
    slots: Seq<MechanismSlot<N>>,
    noise: NodeTable<N>,
    settings: Seq<Setting<N>>,
    unit: int,
    k: nat,
    n: nat,
    x: int,
)
    requires
        model.well_formed(),
        k <= n <= model.nodes(),
        0 <= x < model.nodes(),
        forall|j: int| k <= j < n ==> #[trigger] model.child(j) != x,
        trajectory::replayed(engine, model, slots, noise, settings, unit, n) is Ok,
    ensures
        trajectory::replayed(engine, model, slots, noise, settings, unit, k) is Ok,
        trajectory::replayed(engine, model, slots, noise, settings, unit, k)->Ok_0.len()
            == model.nodes(),
        trajectory::replayed(engine, model, slots, noise, settings, unit, n)->Ok_0.len()
            == model.nodes(),
        trajectory::replayed(engine, model, slots, noise, settings, unit, n)->Ok_0[x]
            == trajectory::replayed(engine, model, slots, noise, settings, unit, k)->Ok_0[x],
    decreases n,
{
    if k < n {
        assert(model.child(n - 1) != x);
        lemma_replay_stays(engine, model, slots, noise, settings, unit, k, (n - 1) as nat, x);
    } else if k > 0 {
        lemma_replay_length(engine, model, slots, noise, settings, unit, k);
    }
}

proof fn lemma_replay_length<N: Amount, E: Engine<N>>(
    engine: E,
    model: ModelView,
    slots: Seq<MechanismSlot<N>>,
    noise: NodeTable<N>,
    settings: Seq<Setting<N>>,
    unit: int,
    k: nat,
)
    requires
        model.well_formed(),
        k <= model.nodes(),
        trajectory::replayed(engine, model, slots, noise, settings, unit, k) is Ok,
    ensures
        trajectory::replayed(engine, model, slots, noise, settings, unit, k)->Ok_0.len()
            == model.nodes(),
    decreases k,
{
    if k > 0 {
        assert(model.child(k - 1) < model.nodes());
        lemma_replay_length(engine, model, slots, noise, settings, unit, (k - 1) as nat);
    }
}

proof fn lemma_node_is_solved<N: Amount, E: Engine<N>>(
    engine: E,
    model: ModelView,
    slots: Seq<MechanismSlot<N>>,
    noise: NodeTable<N>,
    settings: Seq<Setting<N>>,
    unit: int,
    k: int,
)
    requires
        model.well_formed(),
        0 <= k < model.nodes(),
        trajectory::replayed(engine, model, slots, noise, settings, unit, model.nodes()) is Ok,
    ensures
        ({
            let values = trajectory::replayed(
                engine,
                model,
                slots,
                noise,
                settings,
                unit,
                model.nodes(),
            )->Ok_0;
            let node = model.child(k);
            match trajectory::set_value(settings, node, settings.len()) {
                Some(value) => values[node] == value,
                None => engine.evaluated(
                    slots[node],
                    Seq::new(
                        model.parents(k).len(),
                        |i: int| values[model.parents(k)[i].raw as int],
                    ),
                    noise.columns@[node]@[unit],
                ) == Ok::<N, AttributionError>(values[node]),
            }
        }),
{
    let n = model.nodes();
    let node = model.child(k);
    let values = trajectory::replayed(engine, model, slots, noise, settings, unit, n)->Ok_0;
    assert forall|j: int| k < j < n implies #[trigger] model.child(j) != node by {
        assert(model.child(k) != model.child(j));
    }
    lemma_replay_stays(engine, model, slots, noise, settings, unit, (k + 1) as nat, n, node);
    let before = trajectory::replayed(engine, model, slots, noise, settings, unit, k as nat);
    assert(before is Ok);
    lemma_replay_length(engine, model, slots, noise, settings, unit, k as nat);
    let parents = model.parents(k);
    assert forall|i: int| 0 <= i < parents.len() implies before->Ok_0[(
    #[trigger] parents[i]).raw as int] == values[parents[i].raw as int] by {
        let p = model.parents(k)[i].raw as int;
        assert(model.comes_before(p, k));
        assert forall|j: int| k <= j < n implies #[trigger] model.child(j) != p by {
            reveal(ModelView::comes_before);
            let q = choose|q: int| 0 <= q < k && #[trigger] model.child(q) == p;
            assert(model.child(q) != model.child(j));
        }
        lemma_replay_stays(engine, model, slots, noise, settings, unit, k as nat, n, p);
    }
    assert(anomaly::gathered(parents, before->Ok_0) =~= Seq::new(
        parents.len(),
        |i: int| values[parents[i].raw as int],
    ));
}

/// Replayed values satisfy the model under the settings.
pub proof fn law_replayed_values_solve_the_model<N: Amount, E: Engine<N>>(
    engine: E,
    model: ModelView,
    slots: Seq<MechanismSlot<N>>,
    noise: NodeTable<N>,
    settings: Seq<Setting<N>>,
    unit: int,
    values: Seq<N>,
)
    requires
        model.well_formed(),
        trajectory::replayed(engine, model, slots, noise, settings, unit, model.nodes()) == Ok::<
            Seq<N>,
            AttributionError,
        >(values),
    ensures
        solves(engine, model, slots, noise, settings, unit, values),
{
    lemma_replay_length(engine, model, slots, noise, settings, unit, model.nodes());
    assert forall|k: int, place: int|
        0 <= k < model.nodes() && #[trigger] is_last_for(
            settings,
            place,
            #[trigger] model.child(k),
        ) implies values[model.child(k)] == settings[place].value by {
        lemma_node_is_solved(engine, model, slots, noise, settings, unit, k);
        law_the_last_setting_counts(settings, model.child(k), place);
    }
    assert forall|k: int|
        0 <= k < model.nodes() && names_nowhere(
            settings,
            #[trigger] model.child(k),
        ) implies engine.evaluated(
        slots[model.child(k)],
        Seq::new(model.parents(k).len(), |i: int| values[model.parents(k)[i].raw as int]),
        noise.columns@[model.child(k)]@[unit],
    ) == Ok::<N, AttributionError>(values[model.child(k)]) by {
        lemma_node_is_solved(engine, model, slots, noise, settings, unit, k);
        law_the_last_setting_counts(settings, model.child(k), 0);
    }
}

proof fn lemma_solution_is_unique<N: Amount, E: Engine<N>>(
    engine: E,
    model: ModelView,
    slots: Seq<MechanismSlot<N>>,
    noise: NodeTable<N>,
    settings: Seq<Setting<N>>,
    unit: int,
    values: Seq<N>,
    k: nat,
)
    requires
        model.well_formed(),
        k <= model.nodes(),
        solves(engine, model, slots, noise, settings, unit, values),
    ensures
        trajectory::replayed(engine, model, slots, noise, settings, unit, k) is Ok,
        trajectory::replayed(engine, model, slots, noise, settings, unit, k)->Ok_0.len()
            == model.nodes(),
        forall|x: int|
            0 <= x < model.nodes() && model.comes_before(x, k as int)
                ==> #[trigger] trajectory::replayed(
                engine,
                model,
                slots,
                noise,
                settings,
                unit,
                k,
            )->Ok_0[x] == values[x],
    decreases k,
{
    reveal(ModelView::comes_before);
    if k > 0 {
        lemma_solution_is_unique(
            engine,
            model,
            slots,
            noise,
            settings,
            unit,
            values,
            (k - 1) as nat,
        );
        let before = trajectory::replayed(
            engine,
            model,
            slots,
            noise,
            settings,
            unit,
            (k - 1) as nat,
        )->Ok_0;
        let node = model.child(k - 1);
        let parents = model.parents(k - 1);
        let place = lemma_last_place(settings, node, settings.len());
        law_the_last_setting_counts(settings, node, place);
        assert forall|i: int| 0 <= i < parents.len() implies before[(
        #[trigger] parents[i]).raw as int] == values[parents[i].raw as int] by {
            assert(model.comes_before(model.parents(k - 1)[i].raw as int, k - 1));
        }
        assert(anomaly::gathered(parents, before) =~= Seq::new(
            parents.len(),
            |i: int| values[parents[i].raw as int],
        ));
        let after = trajectory::replayed(engine, model, slots, noise, settings, unit, k);
        assert(node < model.nodes());
        assert(after == Ok::<Seq<N>, AttributionError>(before.update(node, values[node])));
        assert forall|x: int|
            0 <= x < model.nodes() && model.comes_before(
                x,
                k as int,
            ) implies #[trigger] after->Ok_0[x] == values[x] by {
            if x != node {
                let q = choose|q: int| 0 <= q < k && #[trigger] model.child(q) == x;
                assert(q < k - 1);
                assert(model.comes_before(x, k - 1));
            }
        }
    }
}

/// Values that satisfy the model under the settings are the replayed ones, so that a replay
/// fails only where no values do.
pub proof fn law_solutions_are_replayed<N: Amount, E: Engine<N>>(
    engine: E,
    model: ModelView,
    slots: Seq<MechanismSlot<N>>,
    noise: NodeTable<N>,
    settings: Seq<Setting<N>>,
    unit: int,
    values: Seq<N>,
    x: int,
)
    requires
        model.well_formed(),
        solves(engine, model, slots, noise, settings, unit, values),
        0 <= x < model.nodes(),
        model.comes_before(x, model.nodes() as int),
    ensures
        trajectory::replayed(engine, model, slots, noise, settings, unit, model.nodes()) is Ok,
        trajectory::replayed(engine, model, slots, noise, settings, unit, model.nodes())->Ok_0[x]
            == values[x],
{
    lemma_solution_is_unique(
        engine,
        model,
        slots,
        noise,
        settings,
        unit,
        values,
        model.nodes(),
    );
}

proof fn lemma_units_replay<N: Amount, E: Engine<N>>(
    engine: E,
    model: ModelView,
    slots: Seq<MechanismSlot<N>>,
    noise: NodeTable<N>,
    settings: Seq<Setting<N>>,
    k: nat,
)
    ensures
        trajectory::replay_failure(engine, model, slots, noise, settings, k) is None <==> forall|
            unit: int,
        |
            0 <= unit < k ==> (#[trigger] trajectory::replayed(
                engine,
                model,
                slots,
                noise,
                settings,
                unit,
                model.nodes(),
            )) is Ok,
        trajectory::replay_failure(engine, model, slots, noise, settings, k) matches Some(error)
            ==> exists|unit: int|
            0 <= unit < k && (#[trigger] trajectory::replayed(
                engine,
                model,
                slots,
                noise,
                settings,
                unit,
                model.nodes(),
            )) == Err::<Seq<N>, AttributionError>(error) && forall|u: int|
                0 <= u < unit ==> (#[trigger] trajectory::replayed(
                    engine,
                    model,
                    slots,
                    noise,
                    settings,
                    u,
                    model.nodes(),
                )) is Ok,
    decreases k,
{
    if k > 0 {
        lemma_units_replay(engine, model, slots, noise, settings, (k - 1) as nat);
        let last = trajectory::replayed(
            engine,
            model,
            slots,
            noise,
            settings,
            k - 1,
            model.nodes(),
        );
        assert(last is Ok || last is Err);
    }
}

/// A value is the outcome of values that satisfy the model for a unit.
pub open spec fn is_outcome<'a, N: Amount, E: Engine<N>>(
    replay: NoiseReplay<'a, N, E>,
    settings: Seq<Setting<N>>,
    unit: int,
    outcome: int,
    value: N,
) -> bool {
    exists|values: Seq<N>| #[trigger]
        solves(
            *replay.engine,
            replay.model@,
            replay.slots@,
            *replay.noise,
            settings,
            unit,
            values,
        ) && values[outcome] == value
}

/// A prediction holds, for every unit, the outcome of values that satisfy the model for that
/// unit's noise.
pub proof fn law_predictions_solve_the_model_unit_by_unit<'a, N: Amount, E: Engine<N>>(
    replay: NoiseReplay<'a, N, E>,
    settings: Seq<Setting<N>>,
    outcome: int,
    column: Seq<N>,
)
    requires
        replay.covers(outcome),
        replay.predicted(settings, outcome) == Ok::<Seq<N>, AttributionError>(column),
    ensures
        column.len() == replay.noise.n_rows,
        forall|unit: int|
            0 <= unit < column.len() ==> is_outcome(
                replay,
                settings,
                unit,
                outcome,
                #[trigger] column[unit],
            ),
{
    let rows = replay.noise.n_rows as nat;
    let model = replay.model@;
    lemma_units_replay(*replay.engine, model, replay.slots@, *replay.noise, settings, rows);
    assert forall|unit: int| 0 <= unit < column.len() implies is_outcome(
        replay,
        settings,
        unit,
        outcome,
        #[trigger] column[unit],
    ) by {
        let whole = trajectory::replayed(
            *replay.engine,
            model,
            replay.slots@,
            *replay.noise,
            settings,
            unit,
            model.nodes(),
        );
        assert(whole is Ok);
        law_replayed_values_solve_the_model(
            *replay.engine,
            model,
            replay.slots@,
            *replay.noise,
            settings,
            unit,
            whole->Ok_0,
        );
        assert(column[unit] == whole->Ok_0[outcome]);
    }
}

/// A prediction fails with the error of the first unit that cannot be replayed, and only where
/// there is one.
pub proof fn law_predictions_fail_with_a_unit<'a, N: Amount, E: Engine<N>>(
    replay: NoiseReplay<'a, N, E>,
    settings: Seq<Setting<N>>,
    outcome: int,
)
    requires
        replay.covers(outcome),
    ensures
        replay.predicted(settings, outcome) is Err <==> exists|unit: int|
            0 <= unit < replay.noise.n_rows && (#[trigger] trajectory::replayed(
                *replay.engine,
                replay.model@,
                replay.slots@,
                *replay.noise,
                settings,
                unit,
                replay.model@.nodes(),
            )) is Err,
        replay.predicted(settings, outcome) is Err ==> exists|unit: int|
            0 <= unit < replay.noise.n_rows && (#[trigger] trajectory::replayed(
                *replay.engine,
                replay.model@,
                replay.slots@,
                *replay.noise,
                settings,
                unit,
                replay.model@.nodes(),
            )) == Err::<Seq<N>, AttributionError>(
                replay.predicted(settings, outcome)->Err_0,
            ) && forall|u: int|
                0 <= u < unit ==> (#[trigger] trajectory::replayed(
                    *replay.engine,
                    replay.model@,
                    replay.slots@,
                    *replay.noise,
                    settings,
                    u,
                    replay.model@.nodes(),
                )) is Ok,
{
    let rows = replay.noise.n_rows as nat;
    lemma_units_replay(
        *replay.engine,
        replay.model@,
        replay.slots@,
        *replay.noise,
        settings,
        rows,
    );
}

proof fn lemma_steps_succeed<N: Amount, I, P: StepPredictor<N, I>>(
    predictor: P,
    request: CounterfactualTrajectoryRequest<I>,
    outcome: int,
    k: nat,
)
    ensures
        trajectory::step_failure::<N, I, P>(predictor, request.arms@, outcome, k) is None <==> forall|
            s: int,
        |
            0 <= s < k ==> (#[trigger] trajectory::step_at::<N, I, P>(
                predictor,
                request.arms@,
                outcome,
                s,
            )) is Ok,
    decreases k,
{
    if k > 0 {
        lemma_steps_succeed::<N, I, P>(predictor, request, outcome, (k - 1) as nat);
        let last = trajectory::step_at::<N, I, P>(predictor, request.arms@, outcome, k - 1);
        assert(last is Ok || last is Err);
    }
}

/// An evaluation holds what is predicted for every world at every time under the interventions
/// that the world's schedule has at that time, and the summaries of that prediction.
pub proof fn law_evaluations_hold_the_predictions<N: Amount, I, P: StepPredictor<N, I>>(
    result: TrajectoryResult<N>,
    model: ModelView,
    predictor: P,
    request: CounterfactualTrajectoryRequest<I>,
    time: int,
    world: int,
    column: Seq<N>,
)
    requires
        trajectory::is_evaluation(
            Ok::<TrajectoryResult<N>, CounterfactualError>(result),
            model,
            predictor,
            request,
        ),
        0 <= time < result.horizon,
        0 <= world < result.n_worlds,
        predictor.predicted(
            request.arms@[world].schedule@[time]@,
            result.outcome.raw as int,
        ) == Ok::<Seq<N>, AttributionError>(column),
    ensures
        result.n_worlds == request.arms@.len(),
        result.n_units == predictor.units(),
        distribution::dense(model, request.outcome) == Some(result.outcome.raw as usize),
        forall|w: int|
            0 <= w < request.arms@.len() ==> (#[trigger] request.arms@[w]).schedule@.len()
                == result.horizon,
        result.mean@[time * result.n_worlds + world] == trajectory::finite_mean(column),
        result.sd@[time * result.n_worlds + world] == trajectory::finite_sd(column),
        (forall|s: int|
            0 <= s < result.horizon * result.n_worlds ==> (#[trigger] trajectory::step_at::<
                N,
                I,
                P,
            >(predictor, request.arms@, result.outcome.raw as int, s))->Ok_0.len()
                == result.n_units) ==> forall|unit: int|
            0 <= unit < column.len() ==> result.values@[time * result.n_worlds * result.n_units
                + world * result.n_units + unit] == #[trigger] column[unit],
{
    let arms = request.arms@;
    let n = arms.len() as int;
    let outcome = result.outcome.raw as int;
    let s = time * n + world;
    assert(0 <= s < result.horizon * n) by (nonlinear_arith)
        requires
            s == time * n + world,
            0 <= time < result.horizon,
            0 <= world < n,
    ;
    vstd::arithmetic::div_mod::lemma_fundamental_div_mod_converse(s, n, time, world);
    assert(trajectory::step_at::<N, I, P>(predictor, arms, outcome, s) == Ok::<
        Seq<N>,
        AttributionError,
    >(column));
    lemma_steps_succeed::<N, I, P>(
        predictor,
        request,
        outcome,
        (result.horizon * result.n_worlds) as nat,
    );
    if forall|s: int|
        0 <= s < result.horizon * result.n_worlds ==> (#[trigger] trajectory::step_at::<N, I, P>(
            predictor,
            arms,
            outcome,
            s,
        ))->Ok_0.len() == result.n_units {
        assert(column.len() == result.n_units);
        assert forall|unit: int| 0 <= unit < column.len() implies result.values@[time
            * result.n_worlds * result.n_units + world * result.n_units + unit]
            == #[trigger] column[unit] by {
            trajectory::law_outcomes_are_laid_out_by_time::<N, I, P>(
                predictor,
                arms,
                outcome,
                result.horizon as nat,
                result.n_units as nat,
                time,
                world,
                unit,
            );
        }
    }
}

/// The mean of values that are all finite, times their number, is their sum, and the sum of
/// their squared distances from it, over their number, is what the spread is the root of.
pub proof fn law_summaries_are_means<N: Amount>(val: spec_fn(N) -> real, column: Seq<N>)
    requires
        efficiency::is_exact(val),
        column.len() > 0,
        forall|i: int| 0 <= i < column.len() ==> (#[trigger] column[i]).bounded(),
    ensures
        val(trajectory::finite_mean(column)) * (column.len() as real) == efficiency::sum(
            |i: int| val(column[i]),
            column.len(),
        ),
        exists|spread: N| #[trigger]
            spread.root() == trajectory::finite_sd(column) && val(spread) * (column.len() as real)
                == efficiency::sum(
                |i: int|
                    (val(column[i]) - val(trajectory::finite_mean(column))) * (val(column[i])
                        - val(trajectory::finite_mean(column))),
                column.len(),
            ),
{
    let n = column.len();
    let keep = |v: N| v.bounded();
    lemma_all_kept(column, keep);
    assert(anomaly::finite(column) == column);
    let count = N::counted(n);
    let mean = trajectory::finite_mean(column);
    fairness::lemma_total_is_sum(val, column);
    assert(n as real != 0 as real);
    assert(val(shapley::total(column).over(count)) * val(count) == val(shapley::total(column)));
    let squares = trajectory::squares(column, mean);
    let spread = shapley::total(squares).over(count);
    fairness::lemma_total_is_sum(val, squares);
    efficiency::lemma_sum_same(
        |i: int| val(squares[i]),
        |i: int| (val(column[i]) - val(mean)) * (val(column[i]) - val(mean)),
        n,
    );
    assert(val(shapley::total(squares).over(count)) * val(count) == val(shapley::total(squares)));
    assert(spread.root() == trajectory::finite_sd(column));
}

proof fn lemma_all_kept<N>(list: Seq<N>, keep: spec_fn(N) -> bool)
    requires
        forall|i: int| 0 <= i < list.len() ==> keep(#[trigger] list[i]),
    ensures
        list.filter(keep) == list,
    decreases list.len(),
{
    reveal(Seq::filter);
    if list.len() > 0 {
        let rest = list.drop_last();
        assert forall|i: int| 0 <= i < rest.len() implies keep(#[trigger] rest[i]) by {
            assert(keep(list[i]));
        }
        lemma_all_kept(rest, keep);
        assert(keep(list[list.len() - 1]));
        assert(rest.push(list.last()) =~= list);
    } else {
        assert(list.filter(keep) =~= list);
    }
}

/// A request is accepted exactly where it has arms, all of one length that is not zero, and asks
/// for an outcome of the model.
pub proof fn law_accepted_requests<I>(model: ModelView, request: CounterfactualTrajectoryRequest<I>)
    ensures
        trajectory::request_refusal(model, request) is None <==> {
            &&& request.arms@.len() > 0
            &&& forall|a: int|
                0 <= a < request.arms@.len() ==> (#[trigger] request.arms@[a]).schedule@.len() > 0
            &&& forall|a: int, b: int|
                0 <= a < request.arms@.len() && 0 <= b < request.arms@.len() ==> (
                #[trigger] request.arms@[a]).schedule@.len() == (
                #[trigger] request.arms@[b]).schedule@.len()
            &&& distribution::dense(model, request.outcome) is Some
        },
{
    if request.arms@.len() > 0 {
        assert(request.arms@[0].schedule@.len() == trajectory::horizon_of(request.arms@));
    }
}

} // verus!
