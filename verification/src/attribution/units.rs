//! What the games and summaries of single units and of linear predictions amount to.
//!
//! Where a law is about numbers, it is about exact arithmetic: a valuation reads the numbers of
//! a computation as real numbers.
//!
//! SPDX-License-Identifier: MIT OR Apache-2.0

use crate::attribution::amount::Amount;
use crate::attribution::coalition;
use crate::attribution::distribution;
use crate::attribution::efficiency;
use crate::attribution::engine::Engine;
use crate::attribution::error::AttributionError;
use crate::attribution::implied;
use crate::attribution::model::{LinearForm, MechanismSlot, ModelView};
use crate::attribution::result::UnitChangeResult;
use crate::attribution::robust;
use crate::attribution::robust::LinearInputs;
use crate::attribution::scores;
use crate::attribution::sequential;
use crate::attribution::shapley::ShapleyEstimate;
use crate::attribution::table;
use crate::attribution::table::NodeTable;
use crate::attribution::unit;
use crate::ids::{ComponentId, DenseNodeId};
use vstd::arithmetic::power2;
use vstd::prelude::*;

verus! {

/// A valuation that respects square roots.
pub open spec fn reads_roots<N: Amount>(val: spec_fn(N) -> real) -> bool {
    forall|a: N|
        val(a) >= 0 as real ==> #[trigger] val(a.root()) >= 0 as real && val(a.root()) * val(
            a.root(),
        ) == val(a)
}

/// In a coalition's mixture a parent has its own value exactly where it is a member, and the
/// reference otherwise: nobody makes up the reference, and everybody the unit.
pub proof fn law_mixtures_take_the_members_values<N>(
    factual: Seq<N>,
    reference: Seq<N>,
    mask: u64,
    i: int,
)
    requires
        factual.len() == reference.len() <= 64,
        0 <= i < factual.len(),
    ensures
        unit::mixture(factual, reference, mask).len() == factual.len(),
        unit::mixture(factual, reference, mask)[i] == if mask & (1u64 << (i as u64)) != 0 {
            factual[i]
        } else {
            reference[i]
        },
        unit::mixture(factual, reference, 0) == reference,
        unit::mixture(factual, reference, (power2::pow2(factual.len()) - 1) as u64) == factual,
{
    assert forall|j: int| #[trigger] coalition::member(mask, j) == (mask & (1u64 << (j as u64))
        != 0) by {}
    assert forall|j: int| 0 <= j < factual.len() implies !(#[trigger] coalition::member(0, j)) by {
        coalition::lemma_one_player(0, j, j);
    }
    assert(unit::mixture(factual, reference, 0) =~= reference);
    power2::lemma2_to64();
    power2::lemma_pow2_pos(factual.len());
    if factual.len() < 64 {
        power2::lemma_pow2_strictly_increases(factual.len(), 64);
    }
    let full = (power2::pow2(factual.len()) - 1) as u64;
    assert forall|j: int| 0 <= j < factual.len() implies #[trigger] coalition::member(full, j) by {
        efficiency::lemma_full_members(full, factual.len(), j);
    }
    assert(unit::mixture(factual, reference, full) =~= factual);
}

/// Nobody is worth what the mechanism makes of the average parents, and everybody what it makes
/// of the unit's own parents, both with the unit's own noise.
pub proof fn law_units_are_held_against_the_average<N: Amount, E: Engine<N>>(
    engine: E,
    model: ModelView,
    slots: Seq<MechanismSlot<N>>,
    values: NodeTable<N>,
    noise: Seq<N>,
    outcome: int,
    row: usize,
    parents: Seq<DenseNodeId>,
)
    requires
        parents == distribution::parents_of(model, outcome),
        0 < parents.len() <= 64,
    ensures
        unit::game_of_row(engine, model, slots, values, noise, outcome, row)(0)
            == engine.evaluated(
            slots[outcome],
            Seq::new(
                parents.len(),
                |i: int| table::mean(values.columns@[parents[i].raw as int]@),
            ),
            noise[row as int],
        ),
        unit::game_of_row(engine, model, slots, values, noise, outcome, row)(
            (power2::pow2(parents.len()) - 1) as u64,
        ) == engine.evaluated(
            slots[outcome],
            Seq::new(
                parents.len(),
                |i: int| values.columns@[parents[i].raw as int]@[row as int],
            ),
            noise[row as int],
        ),
{
    let factual = unit::row_values(values, parents, row);
    let reference = unit::averages(values, parents);
    law_mixtures_take_the_members_values(factual, reference, 0, 0);
    assert(reference =~= Seq::new(
        parents.len(),
        |i: int| table::mean(values.columns@[parents[i].raw as int]@),
    ));
    assert(factual =~= Seq::new(
        parents.len(),
        |i: int| values.columns@[parents[i].raw as int]@[row as int],
    ));
}

proof fn lemma_row_fault(rows: Seq<usize>, n_rows: usize, k: nat)
    requires
        k <= rows.len(),
    ensures
        unit::row_fault(rows, n_rows, k) is None <==> forall|j: int|
            0 <= j < k ==> #[trigger] rows[j] < n_rows,
        unit::row_fault(rows, n_rows, k) is Some ==> exists|j: int|
            {
                &&& 0 <= j < k
                &&& #[trigger] rows[j] >= n_rows
                &&& forall|i: int| 0 <= i < j ==> #[trigger] rows[i] < n_rows
                &&& unit::row_fault(rows, n_rows, k) == Some(
                    AttributionError::PopulationOutOfRange {
                        kind: "row",
                        index: rows[j],
                        limit: n_rows,
                    },
                )
            },
    decreases k,
{
    if k > 0 {
        lemma_row_fault(rows, n_rows, (k - 1) as nat);
        if unit::row_fault(rows, n_rows, (k - 1) as nat) is None && rows[k - 1] >= n_rows {
            assert(rows[k - 1] >= n_rows);
        }
    }
}

/// Rows are refused exactly where one lies outside the table, and then the first such row is
/// named, or where there are more of them than allowed.
pub proof fn law_rows_outside_the_table_are_refused(
    rows: Seq<usize>,
    n_rows: usize,
    max_units: usize,
)
    ensures
        unit::row_refusal(rows, n_rows, max_units) is None <==> rows.len() <= max_units && forall|
            j: int,
        |
            0 <= j < rows.len() ==> #[trigger] rows[j] < n_rows,
        (exists|j: int| 0 <= j < rows.len() && #[trigger] rows[j] >= n_rows) ==> exists|j: int|
            {
                &&& 0 <= j < rows.len()
                &&& #[trigger] rows[j] >= n_rows
                &&& forall|i: int| 0 <= i < j ==> #[trigger] rows[i] < n_rows
                &&& unit::row_refusal(rows, n_rows, max_units) == Some(
                    AttributionError::PopulationOutOfRange {
                        kind: "row",
                        index: rows[j],
                        limit: n_rows,
                    },
                )
            },
{
    lemma_row_fault(rows, n_rows, rows.len());
}

proof fn lemma_value_sum<N: Amount>(
    val: spec_fn(N) -> real,
    estimates: Seq<ShapleyEstimate<N>>,
    j: int,
    k: nat,
)
    requires
        efficiency::is_exact(val),
    ensures
        val(unit::value_sum(estimates, j, k)) == efficiency::sum(
            |u: int| val(estimates[u].values@[j]),
            k,
        ),
    decreases k,
{
    if k > 0 {
        lemma_value_sum(val, estimates, j, (k - 1) as nat);
    }
}

/// Square of a unit's standard error; nothing where it has none.
pub open spec fn squared_error<N: Amount>(
    val: spec_fn(N) -> real,
    estimate: ShapleyEstimate<N>,
    j: int,
) -> real {
    match estimate.component_mc_stderr {
        Some(errors) => val(errors@[j]) * val(errors@[j]),
        None => 0 as real,
    }
}

proof fn lemma_error_sum<N: Amount>(
    val: spec_fn(N) -> real,
    estimates: Seq<ShapleyEstimate<N>>,
    j: int,
    k: nat,
)
    requires
        efficiency::is_exact(val),
    ensures
        val(unit::error_sum(estimates, j, k)) == efficiency::sum(
            |u: int| squared_error(val, estimates[u], j),
            k,
        ),
        val(unit::error_sum(estimates, j, k)) >= 0 as real,
    decreases k,
{
    if k > 0 {
        lemma_error_sum(val, estimates, j, (k - 1) as nat);
        if let Some(errors) = estimates[k - 1].component_mc_stderr {
            let e = val(errors@[j]);
            assert(val(errors@[j].times(errors@[j])) == e * e);
            assert(e * e >= 0 as real) by (nonlinear_arith);
        }
    }
}

proof fn lemma_reporting<N>(estimates: Seq<ShapleyEstimate<N>>, k: nat)
    requires
        k <= estimates.len(),
    ensures
        unit::reporting(estimates, k) > 0 <==> exists|u: int|
            0 <= u < k && (#[trigger] estimates[u]).component_mc_stderr is Some,
    decreases k,
{
    if k > 0 {
        lemma_reporting(estimates, (k - 1) as nat);
        if estimates[k - 1].component_mc_stderr is Some {
            assert(estimates[k - 1].component_mc_stderr is Some);
        }
    }
}

proof fn lemma_laid_out<N>(
    estimates: Seq<ShapleyEstimate<N>>,
    n: nat,
    k: nat,
    u: int,
    j: int,
)
    requires
        k <= estimates.len(),
        forall|v: int| 0 <= v < estimates.len() ==> (#[trigger] estimates[v]).values@.len() == n,
        0 <= u < k,
        0 <= j < n,
    ensures
        unit::laid_out(estimates, k).len() == k * n,
        0 <= u * n + j < k * n,
        unit::laid_out(estimates, k)[u * n + j] == estimates[u].values@[j],
    decreases k,
{
    assert(0 <= u * n + j < k * n) by (nonlinear_arith)
        requires
            0 <= u < k,
            0 <= j < n,
    ;
    assert((k - 1) * n + n == k * n) by (nonlinear_arith);
    assert(estimates[k - 1].values@.len() == n);
    if k > 1 {
        let v = if u < k - 1 {
            u
        } else {
            0
        };
        lemma_laid_out(estimates, n, (k - 1) as nat, v, j);
        if u < k - 1 {
            assert(u * n + j < (k - 1) * n) by (nonlinear_arith)
                requires
                    0 <= u < k - 1,
                    0 <= j < n,
            ;
        }
    } else {
        assert(unit::laid_out(estimates, 0).len() == 0);
        assert(u * n == 0) by (nonlinear_arith)
            requires
                u == 0,
        ;
    }
}

/// The summary of units: each unit's shares stand behind those of the units before it; a mean
/// share times the number of units is the sum of the units' shares; a pooled error, squared and
/// times the squared number of units, is the sum of the units' squared errors, and errors are
/// reported exactly where some unit has them.
pub proof fn law_unit_summaries_add_up<N: Amount>(
    val: spec_fn(N) -> real,
    result: UnitChangeResult<N>,
    estimates: Seq<ShapleyEstimate<N>>,
    n_players: nat,
    u: int,
    j: int,
)
    requires
        efficiency::is_exact(val),
        reads_roots(val),
        unit::summarizes(result, estimates, n_players),
        forall|v: int|
            0 <= v < estimates.len() ==> (#[trigger] estimates[v]).values@.len() == n_players,
        0 <= u < estimates.len(),
        0 <= j < n_players,
    ensures
        result.contributions@[u * n_players + j] == estimates[u].values@[j],
        val(result.mean_contributions@[j]) * (estimates.len() as real) == efficiency::sum(
            |v: int| val(estimates[v].values@[j]),
            estimates.len(),
        ),
        result.component_mc_stderr is Some <==> exists|v: int|
            0 <= v < estimates.len() && (#[trigger] estimates[v]).component_mc_stderr is Some,
        result.component_mc_stderr matches Some(errors) ==> (val(errors@[j]) * (
        estimates.len() as real)) * (val(errors@[j]) * (estimates.len() as real))
            == efficiency::sum(|v: int| squared_error(val, estimates[v], j), estimates.len()),
{
    let k = estimates.len();
    lemma_laid_out(estimates, n_players, k, u, j);
    lemma_value_sum(val, estimates, j, k);
    lemma_error_sum(val, estimates, j, k);
    lemma_reporting(estimates, k);
    let count = N::counted(k);
    assert(val(count) == k as real);
    let sum = unit::value_sum(estimates, j, k);
    assert(result.mean_contributions@[j] == sum.over(count));
    assert(val(sum.over(count)) * val(count) == val(sum));
    if let Some(errors) = result.component_mc_stderr {
        let squares = unit::error_sum(estimates, j, k);
        let sums = Seq::new(n_players, |i: int| unit::error_sum(estimates, i, k));
        assert(errors@ == unit::pooled(sums, count));
        assert(errors@[j] == sums[j].root().over(count));
        assert(errors@[j] == squares.root().over(count));
        assert(val(squares.root().over(count)) * val(count) == val(squares.root()));
        assert(val(squares.root()) * val(squares.root()) == val(squares));
    }
}

proof fn lemma_partly<N: Amount>(
    val: spec_fn(N) -> real,
    inputs: LinearInputs<N>,
    mask: u64,
    i: int,
    row: int,
    k: nat,
)
    requires
        efficiency::is_exact(val),
        robust::in_order(inputs.model, inputs.players),
        0 <= i < inputs.players.len(),
        k <= robust::player_parents(inputs.model, inputs.players, i).len(),
    ensures
        val(inputs.partly(mask, i, row, k)) == val(inputs.beta(mask, i)[0]) + efficiency::sum(
            |j: int| val(inputs.beta(mask, i)[j + 1]) * val(input_of(inputs, mask, i, row, j)),
            k,
        ),
    decreases k,
{
    if k > 0 {
        lemma_partly(val, inputs, mask, i, row, (k - 1) as nat);
        let parents = robust::player_parents(inputs.model, inputs.players, i);
        let component = robust::parent_component(inputs.model, parents, k - 1);
        let beta = inputs.beta(mask, i);
        let x = input_of(inputs, mask, i, row, k - 1);
        if let Some(p) = sequential::place_of(inputs.players, component) {
            assert(p < i);
        }
        assert(val(beta[k as int].times(x)) == val(beta[k as int]) * val(x));
        assert(inputs.partly(mask, i, row, k) == inputs.partly(
            mask,
            i,
            row,
            (k - 1) as nat,
        ).plus(beta[k as int].times(x)));
    }
}

/// What the `j`-th parent of a player has in a row: the prediction for it where it plays, and
/// its column otherwise.
pub open spec fn input_of<N: Amount>(
    inputs: LinearInputs<N>,
    mask: u64,
    i: int,
    row: int,
    j: int,
) -> N {
    let parents = robust::player_parents(inputs.model, inputs.players, i);
    match sequential::place_of(
        inputs.players,
        ComponentId { raw: inputs.model.variables[parents[j].raw as int].raw },
    ) {
        Some(p) => inputs.predicted(mask, p as int, row),
        None => inputs.values.columns@[parents[j].raw as int]@[row],
    }
}

/// A player's prediction is its intercept and, for every parent, the parent's coefficient times
/// what the parent has: a prediction itself where the parent plays, and its column otherwise.
pub proof fn law_linear_predictions_follow_the_regressions<N: Amount>(
    val: spec_fn(N) -> real,
    inputs: LinearInputs<N>,
    mask: u64,
    i: int,
    row: int,
)
    requires
        efficiency::is_exact(val),
        robust::in_order(inputs.model, inputs.players),
        0 <= i < inputs.players.len(),
    ensures
        val(inputs.predicted(mask, i, row)) == val(inputs.beta(mask, i)[0]) + efficiency::sum(
            |j: int| val(inputs.beta(mask, i)[j + 1]) * val(input_of(inputs, mask, i, row, j)),
            robust::player_parents(inputs.model, inputs.players, i).len(),
        ),
{
    lemma_partly(
        val,
        inputs,
        mask,
        i,
        row,
        robust::player_parents(inputs.model, inputs.players, i).len(),
    );
}

/// A member of a coalition has the comparison's regression, everybody else the baseline's: the
/// intercept first, and a coefficient for each parent.
pub proof fn law_members_have_the_comparison_regression<N: Amount>(
    inputs: LinearInputs<N>,
    mask: u64,
    i: int,
    node: usize,
    form: LinearForm<N>,
)
    requires
        0 <= i < 64,
        robust::player_node(inputs.model, inputs.players, i) == Some(node),
        form.coeffs.len() == robust::player_parents(inputs.model, inputs.players, i).len(),
        implied::has_form(
            if mask & (1u64 << (i as u64)) != 0 {
                inputs.comparison[node as int]
            } else {
                inputs.baseline[node as int]
            },
            form,
        ),
    ensures
        inputs.beta(mask, i).len() == form.coeffs.len() + 1,
        inputs.beta(mask, i)[0] == form.intercept,
        forall|j: int|
            0 <= j < form.coeffs.len() ==> #[trigger] inputs.beta(mask, i)[j + 1]
                == form.coeffs[j],
{
    assert(coalition::member(mask, i) == (mask & (1u64 << (i as u64)) != 0));
}

/// A coalition is worth the mean over all rows of what is predicted for the outcome.
pub proof fn law_linear_games_average_the_predictions<N: Amount>(
    val: spec_fn(N) -> real,
    inputs: LinearInputs<N>,
    outcome: ComponentId,
    place: usize,
    mask: u64,
    worth: N,
)
    requires
        efficiency::is_exact(val),
        inputs.values.n_rows > 0,
        sequential::place_of(inputs.players, outcome) == Some(place),
        inputs.game(outcome)(mask) == Ok::<N, AttributionError>(worth),
    ensures
        val(worth) * (inputs.values.n_rows as real) == efficiency::sum(
            |row: int| val(inputs.predicted(mask, place as int, row)),
            inputs.values.n_rows as nat,
        ),
{
    let column = Seq::new(
        inputs.values.n_rows as nat,
        |row: int| inputs.predicted(mask, place as int, row),
    );
    scores::law_column_means_share_the_sum(val, column);
    efficiency::lemma_sum_same(
        |row: int| val(column[row]),
        |row: int| val(inputs.predicted(mask, place as int, row)),
        inputs.values.n_rows as nat,
    );
}

/// A game whose outcome does not play has no worth for anybody, and any other has one for
/// everybody.
pub proof fn law_linear_games_need_the_outcome<N: Amount>(
    inputs: LinearInputs<N>,
    outcome: ComponentId,
    mask: u64,
)
    requires
        inputs.players.len() <= usize::MAX,
    ensures
        inputs.game(outcome)(mask) is Ok <==> inputs.players.contains(outcome),
{
    sequential::lemma_place(inputs.players, outcome);
    if let Some(place) = sequential::place_of(inputs.players, outcome) {
        assert(inputs.players[place as int] == outcome);
    }
}

} // verus!
