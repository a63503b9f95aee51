//! Uncertainty of an attribution that comes from fitting on finite populations.
//!
//! Both populations are resampled and refitted some number of times, and the spread of the
//! attribution over refits is reported as percentile intervals.
//!
//! SPDX-License-Identifier: MIT OR Apache-2.0

use crate::attribution::allocation;
use crate::attribution::amount::Amount;
use crate::attribution::anomaly;
use crate::attribution::arrange;
use crate::attribution::change::ChangeOptions;
use crate::attribution::distribution;
use crate::attribution::distribution::DistributionChangeOptions;
use crate::attribution::engine::Engine;
use crate::attribution::error::AttributionError;
use crate::attribution::model::{CausalModel, MechanismSlot, ModelView};
use crate::attribution::result::{
    ChangeAttributionResult, FitUncertainty, PathContribution,
};
use crate::execution::ExecutionContext;
use crate::query::attribution::ChangeAttributionQuery;
use vstd::prelude::*;

verus! {

/// Message for a bootstrap that cannot give intervals.
pub const BOOTSTRAP_REQUIRES: &'static str =
    "fit-uncertainty bootstrap needs >= 2 replicates and a level in (0, 1)";

/// Check that a bootstrap of refits can give intervals.
pub fn check_fit_uncertainty<N: Amount>(replicates: u32, level: N) -> (r: Result<
    (),
    AttributionError,
>)
    ensures
        r == if replicates < 2 || !(N::nil().below(level) && level.below(N::counted(1))) {
            Err(AttributionError::InvalidInput { message: BOOTSTRAP_REQUIRES })
        } else {
            Ok::<(), AttributionError>(())
        },
{
    if replicates < 2 || !(N::zero().is_below(level) && level.is_below(N::count(1))) {
        return Err(AttributionError::invalid_input(BOOTSTRAP_REQUIRES));
    }
    Ok(())
}

/// What a refit on resampled populations gives: the change and the shares.
#[derive(Clone, Debug, PartialEq)]
pub struct Refit<N> {
    /// The change.
    pub total_change: N,
    /// Share of each component.
    pub contributions: Vec<N>,
}

/// Tag of the streams that rows are resampled from.
pub const BOOTSTRAP_STREAM: u64 = 0xB007_5712;

/// Stream that the rows of a replicate are resampled from.
#[must_use]
pub fn bootstrap_stream_id(replicate: u64) -> (stream: u64)
    ensures
        stream == BOOTSTRAP_STREAM ^ replicate,
{
    BOOTSTRAP_STREAM ^ replicate
}

/// Replicates draw their rows from streams of their own.
pub proof fn law_bootstrap_streams_are_distinct(left: u64, right: u64)
    requires
        left != right,
    ensures
        BOOTSTRAP_STREAM ^ left != BOOTSTRAP_STREAM ^ right,
{
    let tag = BOOTSTRAP_STREAM;
    assert(tag ^ left != tag ^ right) by (bit_vector)
        requires
            left != right,
    ;
}

/// Read the outcome of a refit. A refit that fails, or that has another number of
/// components, counts as a failure; a cancelled one cancels the bootstrap.
pub fn classify_refit<N: Amount>(
    refit: Result<ChangeAttributionResult<N>, AttributionError>,
    n_components: usize,
) -> (r: Result<Option<Refit<N>>, AttributionError>)
    ensures
        match refit {
            Ok(result) => if result.contributions@.len() == n_components {
                r matches Ok(Some(kept)) && kept.total_change == result.total_change
                    && kept.contributions@ == allocation::shares_of(result)
            } else {
                r matches Ok(None)
            },
            Err(error) => if error is Cancelled {
                r matches Err(e) && e is Cancelled
            } else {
                r matches Ok(None)
            },
        },
{
    match refit {
        Ok(result) => {
            if result.contributions.len() != n_components {
                return Ok(None);
            }
            let mut contributions: Vec<N> = Vec::new();
            while contributions.len() < result.contributions.len()
                invariant
                    contributions@.len() <= result.contributions@.len(),
                    contributions@ == allocation::shares_of(result).take(contributions@.len() as int),
                decreases result.contributions.len() - contributions.len(),
            {
                contributions.push(result.contributions[contributions.len()].contribution);
                assert(contributions@ =~= allocation::shares_of(result).take(contributions@.len() as int));
            }
            assert(contributions@ =~= allocation::shares_of(result));
            Ok(Some(Refit { total_change: result.total_change, contributions }))
        },
        Err(error) => {
            if matches!(error, AttributionError::Cancelled) {
                Err(AttributionError::Cancelled)
            } else {
                Ok(None)
            }
        },
    }
}

/// Number of refits that failed among the first `k`.
pub open spec fn failed<N>(refits: Seq<Option<Refit<N>>>, k: nat) -> nat
    decreases k,
{
    if k == 0 {
        0
    } else {
        failed(refits, (k - 1) as nat) + if refits[k - 1] is None {
            1nat
        } else {
            0
        }
    }
}

/// Count the refits that failed; the count stops at the end of its range.
#[must_use]
pub fn count_failures<N>(refits: &Vec<Option<Refit<N>>>) -> (count: u32)
    ensures
        count == if failed(refits@, refits@.len()) > u32::MAX {
            u32::MAX
        } else {
            failed(refits@, refits@.len()) as u32
        },
{
    let mut count: u32 = 0;
    let mut k: usize = 0;
    while k < refits.len()
        invariant
            0 <= k <= refits@.len(),
            count == if failed(refits@, k as nat) > u32::MAX {
                u32::MAX
            } else {
                failed(refits@, k as nat) as u32
            },
        decreases refits.len() - k,
    {
        if refits[k].is_none() {
            count = count.saturating_add(1);
        }
        k = k + 1;
    }
    count
}

/// Draws of component `j` over refits that all succeeded.
pub open spec fn draws_of<N>(refits: Seq<Option<Refit<N>>>, j: int) -> Seq<N> {
    Seq::new(refits.len(), |b: int| refits[b]->0.contributions@[j])
}

/// Collect the draws of one component, where every refit succeeded.
pub fn component_draws<N: Amount>(refits: &Vec<Option<Refit<N>>>, j: usize) -> (r: Option<Vec<N>>)
    requires
        forall|b: int|
            0 <= b < refits@.len() ==> (#[trigger] refits@[b] matches Some(refit) ==> j
                < refit.contributions@.len()),
    ensures
        match r {
            Some(draws) => failed(refits@, refits@.len()) == 0 && draws@ == draws_of(
                refits@,
                j as int,
            ),
            None => failed(refits@, refits@.len()) > 0,
        },
{
    let mut draws: Vec<N> = Vec::new();
    while draws.len() < refits.len()
        invariant
            draws@.len() <= refits@.len(),
            failed(refits@, draws@.len()) == 0,
            draws@ == draws_of(refits@, j as int).take(draws@.len() as int),
            forall|b: int|
                0 <= b < refits@.len() ==> (#[trigger] refits@[b] matches Some(refit) ==> j
                    < refit.contributions@.len()),
        decreases refits.len() - draws.len(),
    {
        let b: usize = draws.len();
        match &refits[b] {
            Some(refit) => {
                assert(refits@[b as int] is Some);
                draws.push(refit.contributions[j]);
            },
            None => {
                proof {
                    lemma_failures_grow(refits@, (b + 1) as nat, refits@.len());
                }
                return None;
            },
        }
        assert(draws@ =~= draws_of(refits@, j as int).take(draws@.len() as int));
    }
    assert(draws@ =~= draws_of(refits@, j as int));
    Some(draws)
}

proof fn lemma_failures_grow<N>(refits: Seq<Option<Refit<N>>>, a: nat, b: nat)
    requires
        a <= b,
    ensures
        failed(refits, a) <= failed(refits, b),
    decreases b,
{
    if a < b {
        lemma_failures_grow(refits, a, (b - 1) as nat);
    }
}

proof fn lemma_failures_bounded<N>(refits: Seq<Option<Refit<N>>>, k: nat)
    ensures
        failed(refits, k) <= k,
    decreases k,
{
    if k > 0 {
        lemma_failures_bounded(refits, (k - 1) as nat);
    }
}

proof fn lemma_none_failed<N>(refits: Seq<Option<Refit<N>>>, b: int, k: nat)
    requires
        failed(refits, k) == 0,
        0 <= b < k,
    ensures
        refits[b] is Some,
    decreases k,
{
    if b < k - 1 {
        lemma_none_failed(refits, b, (k - 1) as nat);
    }
}

/// Number of whole steps in a height, at most `k`.
pub open spec fn whole_steps<N: Amount>(height: N, k: nat) -> nat
    decreases k,
{
    if k == 0 {
        0
    } else {
        let before = whole_steps(height, (k - 1) as nat);
        if before == k - 1 && !height.below(N::counted(k)) {
            k
        } else {
            before
        }
    }
}

proof fn lemma_steps_stop<N: Amount>(height: N, k: nat, n: nat)
    requires
        k < n,
        whole_steps(height, k) == k,
        height.below(N::counted(k + 1)),
    ensures
        whole_steps(height, n) == k,
    decreases n,
{
    if k + 1 < n {
        lemma_steps_stop(height, k, (n - 1) as nat);
    }
}

/// Quantile of ordered values: on the line through the values at evenly spaced probabilities.
pub open spec fn quantile<N: Amount>(sorted: Seq<N>, p: N) -> N {
    let last = (sorted.len() - 1) as nat;
    let height = p.times(N::counted(last));
    let below = whole_steps(height, last);
    if below < last {
        sorted[below as int].plus(
            height.minus(N::counted(below)).times(
                sorted[below as int + 1].minus(sorted[below as int]),
            ),
        )
    } else {
        sorted[below as int]
    }
}

/// Quantile of ordered values.
pub fn quantile_of_sorted<N: Amount>(sorted: &Vec<N>, p: N) -> (value: N)
    requires
        sorted@.len() > 0,
    ensures
        value == quantile(sorted@, p),
{
    let last: usize = sorted.len() - 1;
    let height = p.product(N::count(last as u64));
    let mut below: usize = 0;
    while below < last && !height.is_below(N::count(below as u64 + 1))
        invariant
            0 <= below <= last,
            last < u64::MAX,
            whole_steps(height, below as nat) == below,
        ensures
            0 <= below <= last,
            whole_steps(height, below as nat) == below,
            below < last ==> height.below(N::counted((below + 1) as nat)),
        decreases last - below,
    {
        below = below + 1;
    }
    if below < last {
        proof {
            lemma_steps_stop(height, below as nat, last as nat);
        }
        sorted[below].sum(
            height.difference(N::count(below as u64)).product(
                sorted[below + 1].difference(sorted[below]),
            ),
        )
    } else {
        sorted[below]
    }
}

/// Probability in one tail of an interval.
pub open spec fn tail_of<N: Amount>(level: N) -> N {
    anomaly::half::<N>().times(N::counted(1).minus(level))
}

/// Percentile interval of draws, those that do not compare among them.
pub open spec fn interval<N: Amount>(draws: Seq<N>, level: N) -> (N, N) {
    let sorted = arrange::sorted(draws);
    (
        quantile(sorted, tail_of(level)),
        quantile(sorted, N::counted(1).minus(tail_of(level))),
    )
}

/// Percentile interval of draws.
pub fn percentile_interval<N: Amount>(draws: &Vec<N>, level: N) -> (ends: (N, N))
    requires
        draws@.len() > 0,
    ensures
        ends == interval(draws@, level),
{
    let sorted = arrange::sort(draws);
    let tail = anomaly::one_half::<N>().product(N::count(1).difference(level));
    (
        quantile_of_sorted(&sorted, tail),
        quantile_of_sorted(&sorted, N::count(1).difference(tail)),
    )
}

/// Changes over refits that all succeeded.
pub open spec fn totals_of<N>(refits: Seq<Option<Refit<N>>>) -> Seq<N> {
    Seq::new(refits.len(), |b: int| refits[b]->0.total_change)
}

/// Mechanisms fitted on one resample of both populations.
pub struct Resample<N> {
    /// Mechanisms fitted on the resampled baseline population.
    pub baseline: Vec<MechanismSlot<N>>,
    /// Mechanisms fitted on the resampled comparison population.
    pub comparison: Vec<MechanismSlot<N>>,
}

/// What every refit shares.
pub struct BootstrapCase<N, E> {
    /// Model.
    pub model: ModelView,
    /// Query.
    pub query: ChangeAttributionQuery,
    /// Options.
    pub options: ChangeOptions,
    /// Engine.
    pub engine: E,
    /// Meter that every attribution starts from.
    pub ctx: ExecutionContext,
    /// Paths of the players.
    pub paths: Option<Seq<Vec<PathContribution<N>>>>,
}

impl<N: Amount, E: Engine<N>> BootstrapCase<N, E> {
    /// An attribution on some mechanisms.
    pub open spec fn attributes(
        self,
        r: Result<ChangeAttributionResult<N>, AttributionError>,
        baseline: Seq<MechanismSlot<N>>,
        comparison: Seq<MechanismSlot<N>>,
    ) -> bool {
        distribution::is_attribution(
            r,
            self.model,
            baseline,
            comparison,
            self.query,
            self.options,
            self.engine,
            self.ctx,
            self.paths,
        )
    }

    /// What a refit counts as: the change and the shares of its attribution, or a failure.
    pub open spec fn counts_as(
        self,
        resample: Result<Resample<N>, AttributionError>,
        outcome: Option<Refit<N>>,
        n_components: nat,
    ) -> bool {
        match resample {
            Err(error) => !(error is Cancelled) && outcome is None,
            Ok(fits) => exists|r: Result<ChangeAttributionResult<N>, AttributionError>|
                {
                    &&& #[trigger] self.attributes(r, fits.baseline@, fits.comparison@)
                    &&& match outcome {
                        Some(refit) => r matches Ok(result) && result.contributions@.len()
                            == n_components && refit.total_change == result.total_change
                            && refit.contributions@ == allocation::shares_of(result),
                        None => match r {
                            Ok(result) => result.contributions@.len() != n_components,
                            Err(error) => !(error is Cancelled),
                        },
                    }
                },
        }
    }

    /// What refits count as, one by one.
    pub open spec fn all_count_as(
        self,
        resamples: Seq<Result<Resample<N>, AttributionError>>,
        outcomes: Seq<Option<Refit<N>>>,
        n_components: nat,
    ) -> bool {
        &&& outcomes.len() == resamples.len()
        &&& forall|b: int|
            0 <= b < resamples.len() ==> self.counts_as(
                #[trigger] resamples[b],
                outcomes[b],
                n_components,
            )
    }
}

/// The uncertainty that outcomes of refits report. Where one failed, intervals are withheld.
pub open spec fn is_uncertainty<N: Amount>(
    fit: FitUncertainty<N>,
    outcomes: Seq<Option<Refit<N>>>,
    replicates: u32,
    level: N,
    n_components: nat,
) -> bool {
    &&& fit.replicates == replicates
    &&& fit.failures == failed(outcomes, outcomes.len())
    &&& fit.level == level
    &&& if failed(outcomes, outcomes.len()) == 0 {
        &&& fit.lower matches Some(lower) && lower@ == Seq::new(
            n_components,
            |j: int| interval(draws_of(outcomes, j), level).0,
        )
        &&& fit.upper matches Some(upper) && upper@ == Seq::new(
            n_components,
            |j: int| interval(draws_of(outcomes, j), level).1,
        )
        &&& fit.total_interval == Some(interval(totals_of(outcomes), level))
    } else {
        fit.lower is None && fit.upper is None && fit.total_interval is None
    }
}

/// What an attribution with fit uncertainty returns.
pub open spec fn is_bootstrap<N: Amount, E: Engine<N>>(
    r: Result<ChangeAttributionResult<N>, AttributionError>,
    case: BootstrapCase<N, E>,
    baseline: Seq<MechanismSlot<N>>,
    comparison: Seq<MechanismSlot<N>>,
    resamples: Seq<Result<Resample<N>, AttributionError>>,
    level: N,
) -> bool {
    let replicates = resamples.len() as u32;
    if replicates < 2 || !(N::nil().below(level) && level.below(N::counted(1))) {
        r == Err::<ChangeAttributionResult<N>, _>(
            AttributionError::InvalidInput { message: BOOTSTRAP_REQUIRES },
        )
    } else {
        match r {
            Ok(result) => {
                let fit = result.fit_uncertainty->0;
                let point = ChangeAttributionResult { fit_uncertainty: None, ..result };
                let n = point.contributions@.len();
                &&& !case.ctx.must_stop()
                &&& result.fit_uncertainty is Some
                &&& case.attributes(Ok(point), baseline, comparison)
                &&& exists|outcomes: Seq<Option<Refit<N>>>|
                    {
                        &&& case.all_count_as(resamples, outcomes, n)
                        &&& #[trigger] is_uncertainty(fit, outcomes, replicates, level, n)
                    }
            },
            Err(error) => {
                ||| case.attributes(Err(error), baseline, comparison)
                ||| case.ctx.may_stop() && error is Cancelled
                ||| error is Cancelled && exists|b: int|
                    0 <= b < resamples.len() && match #[trigger] resamples[b] {
                        Ok(fits) => case.attributes(
                            Err(error),
                            fits.baseline@,
                            fits.comparison@,
                        ),
                        Err(fault) => fault is Cancelled,
                    }
            },
        }
    }
}

/// Attribute a change to mechanisms, with the uncertainty of fitting them.
///
/// `resamples` holds, per replicate, the mechanisms fitted on row bootstraps of both
/// populations, or why they could not be fitted. The attribution itself is the ordinary one.
pub fn distribution_change_with_fit_uncertainty<N: Amount, E: Engine<N>>(
    model: &CausalModel,
    baseline: Vec<MechanismSlot<N>>,
    comparison: Vec<MechanismSlot<N>>,
    query: &ChangeAttributionQuery,
    options: &DistributionChangeOptions,
    resamples: Vec<Result<Resample<N>, AttributionError>>,
    level: N,
    engine: &E,
    ctx: &ExecutionContext,
    player_paths: Option<&Vec<Vec<PathContribution<N>>>>,
) -> (r: Result<ChangeAttributionResult<N>, AttributionError>)
    requires
        model@.well_formed(),
        model@.variables.no_duplicates(),
        baseline@.len() == model@.nodes(),
        comparison@.len() == model@.nodes(),
        resamples@.len() <= u32::MAX,
        forall|b: int|
            0 <= b < resamples@.len() ==> (#[trigger] resamples@[b] matches Ok(fits) ==> {
                &&& fits.baseline@.len() == model@.nodes()
                &&& fits.comparison@.len() == model@.nodes()
            }),
    ensures
        is_bootstrap(
            r,
            (BootstrapCase {
                model: model@,
                query: *query,
                options: options.shared(),
                engine: *engine,
                ctx: *ctx,
                paths: distribution::path_lists(player_paths),
            }),
            baseline@,
            comparison@,
            resamples@,
            level,
        ),
{
    let ghost case = BootstrapCase {
        model: model@,
        query: *query,
        options: options.shared(),
        engine: *engine,
        ctx: *ctx,
        paths: distribution::path_lists(player_paths),
    };
    let ghost all = resamples@;
    let count: usize = resamples.len();
    let replicates: u32 = count as u32;
    match check_fit_uncertainty(replicates, level) {
        Ok(_) => {},
        Err(error) => {
            return Err(error);
        },
    }
    let ghost (base, comp) = (baseline@, comparison@);
    let point = match distribution::distribution_change(
        model,
        baseline,
        comparison,
        query,
        options,
        engine,
        ctx,
        player_paths,
    ) {
        Ok(point) => point,
        Err(error) => {
            assert(case.attributes(Err(error), base, comp));
            return Err(error);
        },
    };
    assert(case.attributes(Ok(point), base, comp));
    let n: usize = point.contributions.len();
    let mut outcomes: Vec<Option<Refit<N>>> = Vec::new();
    let mut rest = resamples;
    while rest.len() > 0
        invariant
            model@.well_formed(),
            model@.variables.no_duplicates(),
            all == resamples@,
            count == all.len(),
            replicates == all.len(),
            replicates >= 2,
            N::nil().below(level) && level.below(N::counted(1)),
            n == point.contributions@.len(),
            case == (BootstrapCase {
                model: model@,
                query: *query,
                options: options.shared(),
                engine: *engine,
                ctx: *ctx,
                paths: distribution::path_lists(player_paths),
            }),
            outcomes@.len() + rest@.len() == count,
            outcomes@.len() > 0 ==> !ctx.must_stop(),
            forall|b: int|
                0 <= b < rest@.len() ==> #[trigger] rest@[b] == all[outcomes@.len() + b],
            forall|b: int|
                0 <= b < rest@.len() ==> (#[trigger] rest@[b] matches Ok(fits) ==> {
                    &&& fits.baseline@.len() == model@.nodes()
                    &&& fits.comparison@.len() == model@.nodes()
                }),
            forall|b: int|
                0 <= b < outcomes@.len() ==> case.counts_as(
                    all[b],
                    #[trigger] outcomes@[b],
                    n as nat,
                ),
            forall|b: int|
                0 <= b < outcomes@.len() ==> (#[trigger] outcomes@[b] matches Some(refit)
                    ==> refit.contributions@.len() == n),
        decreases rest.len(),
    {
        if ctx.cancellation.is_cancelled() {
            return Err(AttributionError::Cancelled);
        }
        let ghost b = outcomes@.len() as int;
        let ghost before = rest@;
        let resample = rest.remove(0);
        assert(before[0] == all[b + 0]);
        assert forall|i: int| 0 <= i < rest@.len() implies #[trigger] rest@[i] == all[b + 1
            + i] && (rest@[i] matches Ok(fits) ==> {
            &&& fits.baseline@.len() == model@.nodes()
            &&& fits.comparison@.len() == model@.nodes()
        }) by {
            assert(rest@[i] == before[i + 1]);
            assert(before[i + 1] == all[b + (i + 1)]);
        }
        let outcome: Option<Refit<N>> = match resample {
            Ok(fits) => {
                let ghost (left, right) = (fits.baseline@, fits.comparison@);
                let refit = distribution::distribution_change(
                    model,
                    fits.baseline,
                    fits.comparison,
                    query,
                    options,
                    engine,
                    ctx,
                    player_paths,
                );
                assert(case.attributes(refit, left, right));
                let ghost attributed = refit;
                match classify_refit(refit, n) {
                    Ok(outcome) => {
                        assert(case.attributes(attributed, left, right));
                        outcome
                    },
                    Err(error) => {
                        assert(case.attributes(Err(error), left, right));
                        assert(all[b] == Ok::<Resample<N>, AttributionError>(fits));
                        return Err(error);
                    },
                }
            },
            Err(error) => {
                assert(all[b] == Err::<Resample<N>, AttributionError>(error));
                if matches!(error, AttributionError::Cancelled) {
                    return Err(AttributionError::Cancelled);
                }
                None
            },
        };
        assert(case.counts_as(all[b], outcome, n as nat));
        outcomes.push(outcome);
    }
    let failures: u32 = count_failures(&outcomes);
    proof {
        lemma_failures_bounded(outcomes@, outcomes@.len());
    }
    let fit = if failures == 0 {
        let mut lower: Vec<N> = Vec::new();
        let mut upper: Vec<N> = Vec::new();
        while lower.len() < n
            invariant
                outcomes@.len() == count,
                count >= 2,
                failed(outcomes@, outcomes@.len()) == 0,
                forall|b: int|
                    0 <= b < outcomes@.len() ==> (#[trigger] outcomes@[b] matches Some(refit)
                        ==> refit.contributions@.len() == n),
                lower@.len() <= n,
                upper@.len() == lower@.len(),
                forall|j: int|
                    0 <= j < lower@.len() ==> #[trigger] lower@[j] == interval(
                        draws_of(outcomes@, j),
                        level,
                    ).0,
                forall|j: int|
                    0 <= j < upper@.len() ==> #[trigger] upper@[j] == interval(
                        draws_of(outcomes@, j),
                        level,
                    ).1,
            decreases n - lower.len(),
        {
            let j: usize = lower.len();
            if let Some(draws) = component_draws(&outcomes, j) {
                let (low, high) = percentile_interval(&draws, level);
                lower.push(low);
                upper.push(high);
            }
        }
        let mut totals: Vec<N> = Vec::new();
        while totals.len() < count
            invariant
                outcomes@.len() == count,
                failed(outcomes@, outcomes@.len()) == 0,
                totals@.len() <= count,
                totals@ == totals_of(outcomes@).take(totals@.len() as int),
            decreases count - totals.len(),
        {
            let b: usize = totals.len();
            proof {
                lemma_none_failed(outcomes@, b as int, outcomes@.len());
            }
            if let Some(refit) = &outcomes[b] {
                totals.push(refit.total_change);
            }
            assert(totals@ =~= totals_of(outcomes@).take(totals@.len() as int));
        }
        assert(totals@ =~= totals_of(outcomes@));
        let total_interval = percentile_interval(&totals, level);
        proof {
            assert(lower@ =~= Seq::new(
                n as nat,
                |j: int| interval(draws_of(outcomes@, j), level).0,
            ));
            assert(upper@ =~= Seq::new(
                n as nat,
                |j: int| interval(draws_of(outcomes@, j), level).1,
            ));
        }
        FitUncertainty {
            replicates,
            failures,
            level,
            lower: Some(lower),
            upper: Some(upper),
            total_interval: Some(total_interval),
        }
    } else {
        FitUncertainty {
            replicates,
            failures,
            level,
            lower: None,
            upper: None,
            total_interval: None,
        }
    };
    proof {
        assert(is_uncertainty(fit, outcomes@, replicates, level, n as nat));
        assert forall|b: int| 0 <= b < all.len() implies case.counts_as(
            #[trigger] all[b],
            outcomes@[b],
            n as nat,
        ) by {
            assert(case.counts_as(all[b], outcomes@[b], n as nat));
        }
    }
    let result = ChangeAttributionResult { fit_uncertainty: Some(fit), ..point };
    Ok(result)
}

} // verus!
