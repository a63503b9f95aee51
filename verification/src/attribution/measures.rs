//! What the measures of a change read off outcome laws.
//!
//! SPDX-License-Identifier: MIT OR Apache-2.0

use crate::attribution::amount::Amount;
use crate::attribution::change;
use crate::attribution::change::{ChangeOptions, DifferenceMeasure};
use crate::attribution::coalition;
use crate::attribution::distribution;
use crate::attribution::engine::{Engine, HybridState};
use crate::attribution::error::AttributionError;
use crate::attribution::model::{MechanismSlot, ModelView};
use crate::attribution::result::{ChangeAttributionResult, PathContribution};
use crate::execution::ExecutionContext;
use crate::query::attribution::ChangeAttributionQuery;
use vstd::arithmetic::power2;
use vstd::prelude::*;

verus! {

/// Whatever the coalition and the baseline, a law with mean `m` and variance `v` is worth `m`
/// to a difference of means and `v` to a difference of variances, and a change from one law to
/// another is the difference of what they are worth.
pub proof fn law_differences_read_one_moment<N: Amount, E: Engine<N>>(
    engine: E,
    base: Result<(N, N), AttributionError>,
    m0: N,
    v0: N,
    m1: N,
    v1: N,
    mask: u64,
    cached: Option<(N, N)>,
)
    ensures
        change::law_worth(engine, DifferenceMeasure::MeanDiff, base, Ok((m1, v1)), mask) == Ok::<
            N,
            AttributionError,
        >(m1),
        change::law_worth(engine, DifferenceMeasure::VarianceDiff, base, Ok((m1, v1)), mask)
            == Ok::<N, AttributionError>(v1),
        change::measured(engine, DifferenceMeasure::MeanDiff, mask, (m1, v1), cached) == Ok::<
            N,
            AttributionError,
        >(m1),
        change::measured(engine, DifferenceMeasure::VarianceDiff, mask, (m1, v1), cached) == Ok::<
            N,
            AttributionError,
        >(v1),
        change::change_of(DifferenceMeasure::MeanDiff, m0, m1) == m1.minus(m0),
        change::change_of(DifferenceMeasure::VarianceDiff, v0, v1) == v1.minus(v0),
{
}

/// Laws with one variance are worth the same to a difference of variances wherever their means
/// lie, and laws with one mean are worth the same to a difference of means whatever their
/// variances.
pub proof fn law_differences_ignore_the_other_moment<N: Amount, E: Engine<N>>(
    engine: E,
    base: Result<(N, N), AttributionError>,
    other_base: Result<(N, N), AttributionError>,
    m: N,
    v: N,
    moved: N,
    spread: N,
    mask: u64,
    other_mask: u64,
)
    ensures
        change::law_worth(engine, DifferenceMeasure::VarianceDiff, base, Ok((m, v)), mask)
            == change::law_worth(
            engine,
            DifferenceMeasure::VarianceDiff,
            other_base,
            Ok((moved, v)),
            other_mask,
        ),
        change::law_worth(engine, DifferenceMeasure::MeanDiff, base, Ok((m, v)), mask)
            == change::law_worth(
            engine,
            DifferenceMeasure::MeanDiff,
            other_base,
            Ok((m, spread)),
            other_mask,
        ),
{
}

/// A divergence is taken of a coalition's law from the all-baseline law, in that order. The
/// empty coalition diverges from nothing, and the change is the divergence of everybody's law.
pub proof fn law_divergences_are_taken_from_the_baseline<N: Amount, E: Engine<N>>(
    engine: E,
    from: (N, N),
    law: (N, N),
    mask: u64,
    v0: N,
    v1: N,
)
    ensures
        mask != 0 ==> change::law_worth(
            engine,
            DifferenceMeasure::GaussianKl,
            Ok(from),
            Ok(law),
            mask,
        ) == engine.divergence(law, from),
        mask != 0 ==> change::measured(
            engine,
            DifferenceMeasure::GaussianKl,
            mask,
            law,
            Some(from),
        ) == engine.divergence(law, from),
        change::law_worth(engine, DifferenceMeasure::GaussianKl, Ok(from), Ok(law), 0) == Ok::<
            N,
            AttributionError,
        >(N::nil()),
        change::change_of(DifferenceMeasure::GaussianKl, v0, v1) == v1,
{
}

/// A law that cannot be computed has no worth, and the worth's error is the law's.
pub proof fn law_failed_laws_have_no_worth<N: Amount, E: Engine<N>>(
    engine: E,
    measure: DifferenceMeasure,
    base: Result<(N, N), AttributionError>,
    error: AttributionError,
    mask: u64,
)
    requires
        measure is GaussianKl ==> base is Ok && mask != 0,
    ensures
        change::law_worth(engine, measure, base, Err(error), mask) == Err::<N, _>(error),
        measure is GaussianKl ==> change::law_worth::<N, E>(
            engine,
            measure,
            Err(error),
            Err(error),
            mask,
        ) == Err::<N, _>(error),
{
}

/// Mechanisms from the comparison population at some nodes, and from the baseline elsewhere.
pub open spec fn takes_comparison_at<N>(
    store: HybridState<N>,
    baseline: Seq<MechanismSlot<N>>,
    comparison: Seq<MechanismSlot<N>>,
    at: spec_fn(int) -> bool,
) -> bool {
    forall|x: int|
        0 <= x < baseline.len() ==> #[trigger] store.in_force(x) == if at(x) {
            comparison[x]
        } else {
            baseline[x]
        }
}

/// A coalition has the comparison mechanism in force at the nodes of its players, and the
/// baseline mechanism everywhere else.
pub proof fn law_coalitions_exchange_their_own_mechanisms<N>(
    baseline: Seq<MechanismSlot<N>>,
    comparison: Seq<MechanismSlot<N>>,
    nodes: Seq<Option<usize>>,
    mask: u64,
)
    requires
        baseline.len() <= usize::MAX,
    ensures
        takes_comparison_at(
            distribution::chosen(baseline, comparison, nodes, mask),
            baseline,
            comparison,
            |x: int|
                exists|i: int|
                    0 <= i < nodes.len() && #[trigger] nodes[i] == Some(x as usize) && mask & (
                    1u64 << (i as u64)) != 0,
        ),
{
    let store = distribution::chosen(baseline, comparison, nodes, mask);
    assert forall|x: int| 0 <= x < baseline.len() implies #[trigger] store.in_force(x) == if (exists|
        i: int,
    |
        0 <= i < nodes.len() && #[trigger] nodes[i] == Some(x as usize) && mask & (1u64 << (
        i as u64)) != 0) {
        comparison[x]
    } else {
        baseline[x]
    } by {
        assert forall|i: int| #[trigger] coalition::member(mask, i) == (mask & (1u64 << (
        i as u64)) != 0) by {}
    }
}

/// A whole change is read off the laws of nobody and of everybody: the difference of their
/// means, the difference of their variances, or the divergence of the second from the first.
pub proof fn law_changes_are_read_off_two_laws<N: Amount, E: Engine<N>>(
    result: ChangeAttributionResult<N>,
    model: ModelView,
    baseline: Seq<MechanismSlot<N>>,
    comparison: Seq<MechanismSlot<N>>,
    query: ChangeAttributionQuery,
    options: ChangeOptions,
    engine: E,
    ctx: ExecutionContext,
    player_paths: Option<Seq<Vec<PathContribution<N>>>>,
    outcome: int,
    nodes: Seq<Option<usize>>,
    n: nat,
    from: (N, N),
    law: (N, N),
)
    requires
        distribution::is_attribution(
            Ok(result),
            model,
            baseline,
            comparison,
            query,
            options,
            engine,
            ctx,
            player_paths,
        ),
        distribution::dense(model, query.outcome) == Some(outcome as usize),
        0 <= outcome <= usize::MAX,
        n == distribution::roster_of(model, outcome, query.components).players.len(),
        nodes == distribution::exchangeable(
            model,
            distribution::roster_of(model, outcome, query.components),
        ),
        0 < n,
        distribution::swap_law(
            engine,
            model,
            baseline,
            comparison,
            nodes,
            outcome,
            options,
            ctx.rng,
            0,
        ) == Ok::<(N, N), AttributionError>(from),
        distribution::swap_law(
            engine,
            model,
            baseline,
            comparison,
            nodes,
            outcome,
            options,
            ctx.rng,
            (power2::pow2(n) - 1) as u64,
        ) == Ok::<(N, N), AttributionError>(law),
    ensures
        match options.measure {
            DifferenceMeasure::MeanDiff => result.total_change == law.0.minus(from.0),
            DifferenceMeasure::VarianceDiff => result.total_change == law.1.minus(from.1),
            DifferenceMeasure::GaussianKl => engine.divergence(law, from) == Ok::<
                N,
                AttributionError,
            >(result.total_change),
        },
{
    let g = distribution::swap_game(
        engine,
        model,
        baseline,
        comparison,
        nodes,
        outcome,
        options,
        ctx.rng,
    );
    assert(distribution::total_failure(g, n) is None);
    power2::lemma_pow2_pos(n);
    power2::lemma2_to64();
    if n < 64 {
        power2::lemma_pow2_strictly_increases(n, 64);
    }
    power2::lemma_pow2_unfold(n);
    power2::lemma_pow2_pos((n - 1) as nat);
    assert(power2::pow2(n) - 1 > 0);
    assert((power2::pow2(n) - 1) as u64 != 0);
}

} // verus!
