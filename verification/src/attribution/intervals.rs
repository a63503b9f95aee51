//! Percentile intervals have their ends in order.
//!
//! The laws are about arithmetic that rounds: each operation gives the exact result of its
//! operands, rounded, and rounding keeps the order of numbers. Exact arithmetic is the special
//! case that rounds nothing.
//!
//! SPDX-License-Identifier: MIT OR Apache-2.0

use crate::attribution::amount::Amount;
use crate::attribution::anomaly;
use crate::attribution::arrange;
use crate::attribution::arrange::{Draw, Placed};
use crate::attribution::bootstrap;
use crate::attribution::bootstrap::{BootstrapCase, Refit, Resample};
use crate::attribution::efficiency;
use crate::attribution::engine::Engine;
use crate::attribution::error::AttributionError;
use crate::attribution::model::MechanismSlot;
use crate::attribution::moments;
use crate::attribution::result::{ChangeAttributionResult, FitUncertainty};
use crate::order;
use vstd::prelude::*;

verus! {

/// How amounts stand for real numbers.
#[verifier::reject_recursive_types(N)]
pub struct Reading<N> {
    /// Whether an amount stands for a number.
    pub number: spec_fn(N) -> bool,
    /// The number an amount stands for.
    pub val: spec_fn(N) -> real,
    /// Rounding of results.
    pub rnd: spec_fn(real) -> real,
    /// Whether a result is in range.
    pub fits: spec_fn(real) -> bool,
}

/// Rounding keeps order and leaves numbers as they are; a range has no gaps.
#[verifier::opaque]
pub open spec fn rounds<N>(m: Reading<N>) -> bool {
    &&& forall|x: real, y: real|
        #![trigger (m.rnd)(x), (m.rnd)(y)]
        x <= y ==> (m.rnd)(x) <= (m.rnd)(y)
    &&& forall|x: real, y: real, z: real|
        #![trigger (m.fits)(x), (m.fits)(y), (m.fits)(z)]
        (m.fits)(x) && (m.fits)(z) && x <= y <= z ==> (m.fits)(y)
    &&& forall|a: N| #[trigger]
        (m.number)(a) ==> (m.fits)((m.val)(a)) && (m.rnd)((m.val)(a)) == (m.val)(a)
}

/// Results in range are exact results, rounded.
#[verifier::opaque]
pub open spec fn computes<N: Amount>(m: Reading<N>) -> bool {
    &&& forall|a: N, b: N|
        (m.number)(a) && (m.number)(b) && (m.fits)((m.val)(a) + (m.val)(b)) ==> (m.number)(
            #[trigger] a.plus(b),
        ) && (m.val)(a.plus(b)) == (m.rnd)((m.val)(a) + (m.val)(b))
    &&& forall|a: N, b: N|
        (m.number)(a) && (m.number)(b) && (m.fits)((m.val)(a) - (m.val)(b)) ==> (m.number)(
            #[trigger] a.minus(b),
        ) && (m.val)(a.minus(b)) == (m.rnd)((m.val)(a) - (m.val)(b))
    &&& forall|a: N, b: N|
        (m.number)(a) && (m.number)(b) && (m.fits)((m.val)(a) * (m.val)(b)) ==> (m.number)(
            #[trigger] a.times(b),
        ) && (m.val)(a.times(b)) == (m.rnd)((m.val)(a) * (m.val)(b))
    &&& (m.number)(anomaly::half::<N>())
    &&& (m.val)(anomaly::half::<N>()) * (2 as real) == 1 as real
}

/// Numbers compare, and are sorted, by what they stand for.
pub open spec fn compares<N: Amount>(m: Reading<N>) -> bool {
    &&& arrange::is_weak_order::<Draw<N>>()
    &&& forall|a: N, b: N|
        (m.number)(a) && (m.number)(b) ==> #[trigger] a.below(b) == ((m.val)(a) < (m.val)(b))
    &&& forall|a: N, b: N|
        (m.number)(a) && (m.number)(b) && (m.val)(a) < (m.val)(b) ==> #[trigger] a.precedes(b)
}

/// Arithmetic that rounds.
pub open spec fn is_rounded<N: Amount>(m: Reading<N>) -> bool {
    rounds(m) && computes(m) && compares(m)
}

/// Counts up to `n` are numbers, and stand for themselves.
pub open spec fn counts<N: Amount>(m: Reading<N>, n: nat) -> bool {
    forall|k: nat|
        k <= n ==> (m.number)(#[trigger] N::counted(k)) && (m.val)(N::counted(k)) == k as real
}

/// Values that stand for numbers which do not fall.
pub open spec fn is_ascending<N>(m: Reading<N>, s: Seq<N>) -> bool {
    &&& forall|i: int| 0 <= i < s.len() ==> (m.number)(#[trigger] s[i])
    &&& forall|i: int, j: int|
        #![trigger s[i], s[j]]
        0 <= i <= j < s.len() ==> (m.val)(s[i]) <= (m.val)(s[j])
}

/// The line from one value to the next stays in range, and rounding does not lift its end above
/// the next value.
pub open spec fn is_joined<N: Amount>(m: Reading<N>, a: N, b: N) -> bool {
    &&& (m.fits)((m.val)(b) - (m.val)(a))
    &&& (m.fits)((m.val)(a) + (m.val)(b.minus(a)))
    &&& (m.val)(a.plus(b.minus(a))) <= (m.val)(b)
}

/// Each value is joined to the next.
pub open spec fn is_chain<N: Amount>(m: Reading<N>, s: Seq<N>) -> bool {
    forall|i: int, j: int|
        #![trigger s[i], s[j]]
        0 <= i < s.len() && j == i + 1 && j < s.len() ==> is_joined(m, s[i], s[j])
}

/// Draws that quantiles can be read from: numbers, as many as can be counted, whose sorted
/// values are joined.
pub open spec fn is_legible<N: Amount>(m: Reading<N>, draws: Seq<N>) -> bool {
    &&& draws.len() > 0
    &&& counts(m, draws.len())
    &&& forall|i: int| 0 <= i < draws.len() ==> (m.number)(#[trigger] draws[i])
    &&& is_chain(m, arrange::sorted(draws))
}

/// Sorted values do not fall.
pub proof fn law_sorted_values_ascend<N: Amount>(m: Reading<N>, values: Seq<N>)
    requires
        compares(m),
        forall|i: int| 0 <= i < values.len() ==> (m.number)(#[trigger] values[i]),
    ensures
        arrange::sorted(values).len() == values.len(),
        is_ascending(m, arrange::sorted(values)),
{
    let draws = arrange::as_draws(values);
    let placed = arrange::arranged(draws);
    let s = arrange::sorted(values);
    arrange::law_arranging_keeps_values(draws);
    arrange::law_arranged_values_are_in_order(draws);
    assert forall|i: int| 0 <= i < s.len() implies (m.number)(#[trigger] s[i]) by {
        assert(s[i] == placed[i].value);
        assert(placed.contains(placed[i]));
        order::lemma_same_members(placed, draws, placed[i]);
        let k = choose|k: int| 0 <= k < draws.len() && draws[k] == placed[i];
        assert(values[k] == s[i]);
    }
    assert forall|i: int, j: int|
        #![trigger s[i], s[j]]
        0 <= i <= j < s.len() implies (m.val)(s[i]) <= (m.val)(s[j]) by {
        assert(s[i] == placed[i].value && s[j] == placed[j].value);
        assert((m.number)(s[i]) && (m.number)(s[j]));
        if i < j {
            assert(!placed[j].goes_before(placed[i]));
        }
    }
}

proof fn lemma_between<N>(m: Reading<N>, low: real, x: real, high: real)
    requires
        rounds(m),
        (m.fits)(low),
        (m.fits)(high),
        low <= x <= high,
    ensures
        (m.fits)(x),
{
    reveal(rounds);
}

proof fn lemma_rounding_grows<N>(m: Reading<N>, x: real, y: real)
    requires
        rounds(m),
        x <= y,
    ensures
        (m.rnd)(x) <= (m.rnd)(y),
{
    reveal(rounds);
}

proof fn lemma_number<N>(m: Reading<N>, a: N)
    requires
        rounds(m),
        (m.number)(a),
    ensures
        (m.fits)((m.val)(a)),
        (m.rnd)((m.val)(a)) == (m.val)(a),
{
    reveal(rounds);
}

proof fn lemma_sum<N: Amount>(m: Reading<N>, a: N, b: N)
    requires
        computes(m),
        (m.number)(a),
        (m.number)(b),
        (m.fits)((m.val)(a) + (m.val)(b)),
    ensures
        (m.number)(a.plus(b)),
        (m.val)(a.plus(b)) == (m.rnd)((m.val)(a) + (m.val)(b)),
{
    reveal(computes);
}

proof fn lemma_difference<N: Amount>(m: Reading<N>, a: N, b: N)
    requires
        computes(m),
        (m.number)(a),
        (m.number)(b),
        (m.fits)((m.val)(a) - (m.val)(b)),
    ensures
        (m.number)(a.minus(b)),
        (m.val)(a.minus(b)) == (m.rnd)((m.val)(a) - (m.val)(b)),
{
    reveal(computes);
}

proof fn lemma_product<N: Amount>(m: Reading<N>, a: N, b: N)
    requires
        computes(m),
        (m.number)(a),
        (m.number)(b),
        (m.fits)((m.val)(a) * (m.val)(b)),
    ensures
        (m.number)(a.times(b)),
        (m.val)(a.times(b)) == (m.rnd)((m.val)(a) * (m.val)(b)),
{
    reveal(computes);
}

proof fn real_part_of(part: real, whole: real)
    by (nonlinear_arith)
    requires
        0 as real <= part <= 1 as real,
        0 as real <= whole,
    ensures
        0 as real <= part * whole,
        part * whole <= whole,
{
}

proof fn real_grows(a: real, b: real, f: real)
    by (nonlinear_arith)
    requires
        a <= b,
        0 as real <= f,
    ensures
        a * f <= b * f,
{
}

proof fn lemma_steps<N: Amount>(m: Reading<N>, height: N, n: nat)
    requires
        compares(m),
        counts(m, n),
        (m.number)(height),
    ensures
        bootstrap::whole_steps(height, n) <= n,
        bootstrap::whole_steps(height, n) > 0 ==> (m.val)(height) >= bootstrap::whole_steps(
            height,
            n,
        ) as real,
        bootstrap::whole_steps(height, n) < n ==> (m.val)(height) < (bootstrap::whole_steps(
            height,
            n,
        ) + 1) as real,
    decreases n,
{
    if n > 0 {
        lemma_steps(m, height, (n - 1) as nat);
        assert((m.val)(N::counted(n)) == n as real);
        assert(height.below(N::counted(n)) == ((m.val)(height) < (m.val)(N::counted(n))));
    }
}

/// The height of a probability among values.
proof fn lemma_height<N: Amount>(m: Reading<N>, p: N, last: nat)
    requires
        is_rounded(m),
        counts(m, last),
        (m.number)(p),
        0 as real <= (m.val)(p) <= 1 as real,
    ensures
        (m.number)(p.times(N::counted(last))),
        (m.val)(p.times(N::counted(last))) == (m.rnd)((m.val)(p) * (last as real)),
        (m.val)(p.times(N::counted(last))) >= 0 as real,
{
    let zero = N::counted(0);
    assert((m.number)(zero) && (m.number)(N::counted(last)));
    assert((m.val)(N::counted(last)) == last as real && (m.val)(zero) == 0 as real);
    lemma_number(m, zero);
    lemma_number(m, N::counted(last));
    real_part_of((m.val)(p), last as real);
    lemma_between(m, 0 as real, (m.val)(p) * (last as real), last as real);
    lemma_product(m, p, N::counted(last));
    lemma_rounding_grows(m, 0 as real, (m.val)(p) * (last as real));
}

/// The point at a height above value `k`.
spec fn point<N: Amount>(sorted: Seq<N>, height: N, k: int) -> N {
    sorted[k].plus(
        height.minus(N::counted(k as nat)).times(sorted[k + 1].minus(sorted[k])),
    )
}

/// A point between two values is no lower than the first and no higher than the second, and
/// says how it is computed.
proof fn lemma_point<N: Amount>(m: Reading<N>, sorted: Seq<N>, height: N, k: int)
    requires
        is_rounded(m),
        counts(m, sorted.len()),
        is_ascending(m, sorted),
        is_chain(m, sorted),
        0 <= k < sorted.len() - 1,
        (m.number)(height),
        k as real <= (m.val)(height),
        (m.val)(height) <= (k + 1) as real,
    ensures
        ({
            let step = sorted[k + 1].minus(sorted[k]);
            let part = (m.rnd)((m.val)(height) - (k as real));
            &&& (m.val)(step) >= 0 as real
            &&& part >= 0 as real
            &&& (m.val)(point(sorted, height, k)) == (m.rnd)(
                (m.val)(sorted[k]) + (m.rnd)(part * (m.val)(step)),
            )
            &&& (m.val)(sorted[k]) <= (m.val)(point(sorted, height, k))
            &&& (m.val)(point(sorted, height, k)) <= (m.val)(sorted[k + 1])
        }),
{
    let (a, b) = (sorted[k], sorted[k + 1]);
    let step = b.minus(a);
    let base = N::counted(k as nat);
    let above = height.minus(base);
    let (zero, one) = (N::counted(0), N::counted(1));
    assert((m.number)(a) && (m.number)(b) && is_joined(m, a, b));
    assert((m.number)(base) && (m.number)(zero) && (m.number)(one));
    assert((m.val)(base) == k as real);
    assert((m.val)(zero) == 0 as real && (m.val)(one) == 1 as real);
    lemma_number(m, a);
    lemma_number(m, zero);
    lemma_number(m, one);
    lemma_difference(m, b, a);
    lemma_number(m, step);
    lemma_rounding_grows(m, 0 as real, (m.val)(b) - (m.val)(a));
    let offset = (m.val)(height) - (k as real);
    lemma_between(m, 0 as real, offset, 1 as real);
    lemma_difference(m, height, base);
    lemma_rounding_grows(m, 0 as real, offset);
    lemma_rounding_grows(m, offset, 1 as real);
    let part = (m.val)(above);
    let d = (m.val)(step);
    real_part_of(part, d);
    lemma_between(m, 0 as real, part * d, d);
    lemma_product(m, above, step);
    let rise = above.times(step);
    lemma_rounding_grows(m, 0 as real, part * d);
    lemma_rounding_grows(m, part * d, d);
    lemma_between(m, (m.val)(a), (m.val)(a) + (m.val)(rise), (m.val)(a) + d);
    lemma_sum(m, a, rise);
    lemma_sum(m, a, step);
    lemma_rounding_grows(m, (m.val)(a), (m.val)(a) + (m.val)(rise));
    lemma_rounding_grows(m, (m.val)(a) + (m.val)(rise), (m.val)(a) + d);
}

/// Quantiles of ascending values ascend with the probability.
pub proof fn law_quantiles_ascend<N: Amount>(m: Reading<N>, sorted: Seq<N>, low: N, high: N)
    requires
        is_rounded(m),
        sorted.len() > 0,
        counts(m, sorted.len()),
        is_ascending(m, sorted),
        is_chain(m, sorted),
        (m.number)(low),
        (m.number)(high),
        0 as real <= (m.val)(low) <= (m.val)(high) <= 1 as real,
    ensures
        (m.val)(bootstrap::quantile(sorted, low)) <= (m.val)(bootstrap::quantile(sorted, high)),
{
    let last = (sorted.len() - 1) as nat;
    let (below, above) = (low.times(N::counted(last)), high.times(N::counted(last)));
    let (i, j) = (
        bootstrap::whole_steps(below, last) as int,
        bootstrap::whole_steps(above, last) as int,
    );
    assert(counts(m, last));
    lemma_height(m, low, last);
    lemma_height(m, high, last);
    real_grows((m.val)(low), (m.val)(high), last as real);
    lemma_rounding_grows(m, (m.val)(low) * (last as real), (m.val)(high) * (last as real));
    lemma_steps(m, below, last);
    lemma_steps(m, above, last);
    assert(i <= j) by {
        if j < i {
            assert((m.val)(above) < (j + 1) as real);
            assert((j + 1) as real <= i as real);
        }
    }
    if i < last {
        lemma_point(m, sorted, below, i);
        assert(bootstrap::quantile(sorted, low) == point(sorted, below, i));
    } else {
        assert(bootstrap::quantile(sorted, low) == sorted[i]);
    }
    if j < last {
        lemma_point(m, sorted, above, j);
        assert(bootstrap::quantile(sorted, high) == point(sorted, above, j));
    } else {
        assert(bootstrap::quantile(sorted, high) == sorted[j]);
    }
    if i < j {
        assert((m.val)(sorted[i + 1]) <= (m.val)(sorted[j]));
    } else if i < last {
        let d = (m.val)(sorted[i + 1].minus(sorted[i]));
        let (x, y) = ((m.val)(below) - (i as real), (m.val)(above) - (i as real));
        lemma_rounding_grows(m, x, y);
        real_grows((m.rnd)(x), (m.rnd)(y), d);
        lemma_rounding_grows(m, (m.rnd)(x) * d, (m.rnd)(y) * d);
        lemma_rounding_grows(
            m,
            (m.val)(sorted[i]) + (m.rnd)((m.rnd)(x) * d),
            (m.val)(sorted[i]) + (m.rnd)((m.rnd)(y) * d),
        );
    }
}

/// No lower end of a percentile interval exceeds its upper end.
pub proof fn law_interval_ends_are_in_order<N: Amount>(m: Reading<N>, draws: Seq<N>, level: N)
    requires
        is_rounded(m),
        is_legible(m, draws),
        (m.number)(level),
        (0 as real) < (m.val)(level),
        (m.val)(level) < (1 as real),
    ensures
        (m.val)(bootstrap::interval(draws, level).0) <= (m.val)(
            bootstrap::interval(draws, level).1,
        ),
{
    let half = anomaly::half::<N>();
    let tail = bootstrap::tail_of(level);
    let (zero, one) = (N::counted(0), N::counted(1));
    assert((m.number)(zero) && (m.number)(one));
    assert((m.val)(zero) == 0 as real && (m.val)(one) == 1 as real);
    assert((m.number)(half) && (m.val)(half) * (2 as real) == 1 as real) by {
        reveal(computes);
    }
    lemma_number(m, zero);
    lemma_number(m, one);
    lemma_number(m, half);
    let h = (m.val)(half);
    let left = (m.val)(one) - (m.val)(level);
    lemma_between(m, 0 as real, left, 1 as real);
    lemma_difference(m, one, level);
    lemma_rounding_grows(m, 0 as real, left);
    lemma_rounding_grows(m, left, 1 as real);
    let rest = (m.val)(one.minus(level));
    real_half(h, rest);
    lemma_between(m, 0 as real, h * rest, h);
    lemma_product(m, half, one.minus(level));
    lemma_rounding_grows(m, 0 as real, h * rest);
    lemma_rounding_grows(m, h * rest, h);
    let other = (1 as real) - (m.val)(tail);
    lemma_between(m, 0 as real, other, 1 as real);
    lemma_difference(m, one, tail);
    lemma_rounding_grows(m, h, other);
    lemma_rounding_grows(m, other, 1 as real);
    law_sorted_values_ascend(m, draws);
    law_quantiles_ascend(m, arrange::sorted(draws), tail, one.minus(tail));
}

proof fn real_half(h: real, rest: real)
    by (nonlinear_arith)
    requires
        h * (2 as real) == 1 as real,
        0 as real <= rest <= 1 as real,
    ensures
        0 as real <= h * rest,
        h * rest <= h,
        h + h == 1 as real,
        0 as real <= h,
{
}

/// No lower end of a fit-uncertainty interval exceeds its upper end: neither that of a
/// component nor that of the total change.
pub proof fn law_fit_uncertainty_ends_are_in_order<N: Amount>(
    m: Reading<N>,
    fit: FitUncertainty<N>,
    outcomes: Seq<Option<Refit<N>>>,
    replicates: u32,
    level: N,
    n_components: nat,
)
    requires
        is_rounded(m),
        (m.number)(level),
        (0 as real) < (m.val)(level),
        (m.val)(level) < (1 as real),
        bootstrap::is_uncertainty(fit, outcomes, replicates, level, n_components),
        fit.failures == 0 ==> is_legible(m, bootstrap::totals_of(outcomes)),
        fit.failures == 0 ==> forall|j: int|
            0 <= j < n_components ==> is_legible(m, #[trigger] bootstrap::draws_of(outcomes, j)),
    ensures
        fit.lower is Some == (fit.failures == 0),
        fit.upper is Some == (fit.failures == 0),
        fit.total_interval is Some == (fit.failures == 0),
        fit.lower matches Some(lower) ==> (fit.upper matches Some(upper) && lower@.len()
            == n_components && upper@.len() == n_components && forall|j: int|
            #![trigger lower@[j], upper@[j]]
            0 <= j < n_components ==> (m.val)(lower@[j]) <= (m.val)(upper@[j])),
        fit.total_interval matches Some(ends) ==> (m.val)(ends.0) <= (m.val)(ends.1),
{
    if let Some(lower) = fit.lower {
        if let Some(upper) = fit.upper {
            assert forall|j: int|
                #![trigger lower@[j], upper@[j]]
                0 <= j < n_components implies (m.val)(lower@[j]) <= (m.val)(upper@[j]) by {
                assert(is_legible(m, bootstrap::draws_of(outcomes, j)));
                law_interval_ends_are_in_order(m, bootstrap::draws_of(outcomes, j), level);
            }
        }
        law_interval_ends_are_in_order(m, bootstrap::totals_of(outcomes), level);
    }
}

/// Quantiles can be read from the draws of refits that all succeeded.
pub open spec fn are_legible<N: Amount>(
    m: Reading<N>,
    outcomes: Seq<Option<Refit<N>>>,
    n_components: nat,
) -> bool {
    &&& is_legible(m, bootstrap::totals_of(outcomes))
    &&& forall|j: int|
        0 <= j < n_components ==> is_legible(m, #[trigger] bootstrap::draws_of(outcomes, j))
}

/// An attribution with fit uncertainty is the ordinary one, for two refits at least and a level
/// within the unit interval. It withholds its intervals exactly if a refit failed; else there is
/// one per component, and no lower end exceeds its upper end.
pub proof fn law_bootstraps_report_intervals_in_order<N: Amount, E: Engine<N>>(
    m: Reading<N>,
    result: ChangeAttributionResult<N>,
    case: BootstrapCase<N, E>,
    baseline: Seq<MechanismSlot<N>>,
    comparison: Seq<MechanismSlot<N>>,
    resamples: Seq<Result<Resample<N>, AttributionError>>,
    level: N,
)
    requires
        is_rounded(m),
        counts(m, 1),
        (m.number)(N::nil()),
        (m.val)(N::nil()) == 0 as real,
        (m.number)(level),
        resamples.len() <= u32::MAX,
        bootstrap::is_bootstrap(Ok(result), case, baseline, comparison, resamples, level),
        forall|outcomes: Seq<Option<Refit<N>>>|
            #![trigger bootstrap::totals_of(outcomes)]
            case.all_count_as(resamples, outcomes, result.contributions@.len())
                && bootstrap::failed(outcomes, outcomes.len()) == 0 ==> are_legible(
                m,
                outcomes,
                result.contributions@.len(),
            ),
    ensures
        resamples.len() >= 2,
        (0 as real) < (m.val)(level),
        (m.val)(level) < (1 as real),
        case.attributes(
            Ok(ChangeAttributionResult { fit_uncertainty: None, ..result }),
            baseline,
            comparison,
        ),
        result.fit_uncertainty matches Some(fit) && {
            &&& fit.replicates == resamples.len()
            &&& fit.level == level
            &&& fit.lower is Some == (fit.failures == 0)
            &&& fit.upper is Some == (fit.failures == 0)
            &&& fit.total_interval is Some == (fit.failures == 0)
            &&& fit.lower matches Some(lower) ==> (fit.upper matches Some(upper) && lower@.len()
                == result.contributions@.len() && upper@.len() == lower@.len() && forall|j: int|
                #![trigger lower@[j], upper@[j]]
                0 <= j < lower@.len() ==> (m.val)(lower@[j]) <= (m.val)(upper@[j]))
            &&& fit.total_interval matches Some(ends) ==> (m.val)(ends.0) <= (m.val)(ends.1)
        },
{
    let fit = result.fit_uncertainty->0;
    let n = result.contributions@.len();
    let replicates = resamples.len() as u32;
    let one = N::counted(1);
    assert((m.number)(one) && (m.val)(one) == 1 as real);
    let outcomes = choose|outcomes: Seq<Option<Refit<N>>>|
        case.all_count_as(resamples, outcomes, n) && #[trigger] bootstrap::is_uncertainty(
            fit,
            outcomes,
            replicates,
            level,
            n,
        );
    let totals = bootstrap::totals_of(outcomes);
    law_fit_uncertainty_ends_are_in_order(m, fit, outcomes, replicates, level, n);
}

/// A valuation that respects the order that values are sorted by.
pub open spec fn is_sorting<N: Amount>(val: spec_fn(N) -> real) -> bool {
    forall|a: N, b: N| #[trigger] a.precedes(b) == (val(a) < val(b))
}

/// Every amount stands for a number, and no result is rounded.
pub open spec fn exactly<N>(val: spec_fn(N) -> real) -> Reading<N> {
    Reading { number: |a: N| true, val, rnd: |x: real| x, fits: |x: real| true }
}

/// Exact arithmetic rounds nothing, and quantiles can be read from any draws.
pub proof fn law_exact_draws_are_legible<N: Amount>(val: spec_fn(N) -> real, draws: Seq<N>)
    requires
        efficiency::is_exact(val),
        moments::is_ordered(val),
        is_sorting(val),
        draws.len() > 0,
    ensures
        is_rounded(exactly(val)),
        is_legible(exactly(val), draws),
{
    let m = exactly(val);
    let half = anomaly::half::<N>();
    assert(rounds(m)) by {
        reveal(rounds);
    }
    assert(computes(m)) by {
        reveal(computes);
        assert(val(N::counted(1)) == 1 as real && val(N::counted(2)) == 2 as real);
        assert(val(half) * (2 as real) == 1 as real);
    }
    assert(arrange::is_weak_order::<Draw<N>>());
}

} // verus!
