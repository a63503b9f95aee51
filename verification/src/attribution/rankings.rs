//! What rankings of causes, quantiles and bootstrap summaries amount to.
//!
//! Where a law is about numbers, it is about exact arithmetic: a valuation reads the numbers of
//! a computation as real numbers.
//!
//! SPDX-License-Identifier: MIT OR Apache-2.0

use crate::attribution::amount::Amount;
use crate::attribution::arrange;
use crate::attribution::arrange::Placed;
use crate::attribution::bootstrap;
use crate::attribution::bootstrap::Refit;
use crate::attribution::efficiency;
use crate::attribution::error::AttributionError;
use crate::attribution::moments;
use crate::attribution::result::{
    ChangeAttributionResult, ComponentContribution, FitUncertainty, RootCauseRank,
};
use crate::attribution::root_cause;
use crate::attribution::root_cause::ContributionMoments;
use crate::attribution::scores;
use crate::attribution::units;
use crate::ids::ComponentId;
use crate::order;
use vstd::prelude::*;

verus! {

/// Ranks stand in descending order of their scores, and are those that went in.
pub proof fn law_ranks_descend<N: Amount>(ranks: Seq<RootCauseRank<N>>, i: int, j: int)
    requires
        arrange::is_weak_order::<RootCauseRank<N>>(),
        0 <= i < j < ranks.len(),
    ensures
        arrange::arranged(ranks).len() == ranks.len(),
        arrange::arranged(ranks).to_multiset() == ranks.to_multiset(),
        !arrange::arranged(ranks)[i].score.below(arrange::arranged(ranks)[j].score),
{
    arrange::law_arranging_keeps_values(ranks);
    arrange::law_arranged_values_are_in_order(ranks);
    let placed = arrange::arranged(ranks);
    assert(!placed[j].goes_before(placed[i]));
}

/// A component ranks by the size of its mean contribution, and its spread squared times the mass
/// is the spread of the contributions.
pub proof fn law_ranks_read_the_moments<N: Amount>(
    val: spec_fn(N) -> real,
    m: ContributionMoments<N>,
    component: ComponentId,
)
    requires
        efficiency::is_exact(val),
        moments::is_ordered(val),
        scores::reads_sizes(val),
        units::reads_roots(val),
        val(m.mass) > 0 as real,
        val(m.m2) >= 0 as real,
    ensures
        ({
            let rank = root_cause::ranked(m, component);
            &&& rank.component == component
            &&& val(rank.score) == if val(m.mean) < 0 as real {
                -val(m.mean)
            } else {
                val(m.mean)
            }
            &&& rank.graph_std matches Some(std)
            &&& val(std) >= 0 as real
            &&& (val(std) * val(std)) * val(m.mass) == val(m.m2)
        }),
{
    let variance = m.m2.over(m.mass);
    assert(val(variance) * val(m.mass) == val(m.m2));
    assert(val(variance) >= 0 as real) by {
        if val(variance) < 0 as real {
            efficiency::real_orders(val(variance), 0 as real, val(m.mass));
            efficiency::real_units(val(m.mass));
        }
    }
    let kept = root_cause::not_negative(variance);
    assert(N::nil().below(variance) == (val(N::nil()) < val(variance)));
    assert(val(kept) == val(variance));
    assert(val(kept.root()) * val(kept.root()) == val(kept));
}

/// Without graphs a component ranks by the size of its contribution, and no spread is reported.
pub proof fn law_plain_ranks_read_the_contributions<N: Amount>(
    contributions: Seq<ComponentContribution<N>>,
    i: int,
)
    requires
        0 <= i < contributions.len(),
    ensures
        root_cause::plain_ranks(contributions).len() == contributions.len(),
        root_cause::plain_ranks(contributions)[i].component == contributions[i].component,
        root_cause::plain_ranks(contributions)[i].score == contributions[i].contribution.size(),
        root_cause::plain_ranks(contributions)[i].graph_std is None,
{
}

proof fn lemma_largest<N: Amount>(val: spec_fn(N) -> real, weights: Seq<N>, k: nat)
    requires
        efficiency::is_exact(val),
        moments::is_ordered(val),
        k <= weights.len(),
    ensures
        forall|i: int|
            0 <= i < k ==> val(#[trigger] weights[i]) <= val(root_cause::largest(weights, k)),
        val(root_cause::largest(weights, k)) >= 0 as real,
        val(root_cause::largest(weights, k)) > 0 as real ==> exists|i: int|
            0 <= i < k && #[trigger] weights[i] == root_cause::largest(weights, k),
    decreases k,
{
    if k > 0 {
        lemma_largest(val, weights, (k - 1) as nat);
        let before = root_cause::largest(weights, (k - 1) as nat);
        let last = weights[k - 1];
        assert(before.below(last) == (val(before) < val(last)));
        if before.below(last) {
            assert(weights[k - 1] == root_cause::largest(weights, k));
        }
    }
}

/// Weights are scaled by the largest of them, which is at least any of them and one of them;
/// weights that are negative or without bound are refused, and so are weights without any mass.
pub proof fn law_weights_are_scaled_by_the_largest<N: Amount>(
    val: spec_fn(N) -> real,
    weights: Seq<N>,
)
    requires
        efficiency::is_exact(val),
        moments::is_ordered(val),
    ensures
        root_cause::scale_of(weights) is Ok <==> {
            &&& forall|i: int|
                0 <= i < weights.len() ==> (#[trigger] weights[i]).bounded() && val(weights[i])
                    >= 0 as real
            &&& exists|i: int| 0 <= i < weights.len() && val(#[trigger] weights[i]) > 0 as real
        },
        root_cause::scale_of(weights) matches Ok(scale) ==> {
            &&& weights.contains(scale)
            &&& val(scale) > 0 as real
            &&& forall|i: int| 0 <= i < weights.len() ==> val(#[trigger] weights[i]) <= val(scale)
        },
{
    lemma_largest(val, weights, weights.len());
    let scale = root_cause::largest(weights, weights.len());
    assert(scale.same(N::nil()) == (val(scale) == val(N::nil())));
    assert forall|i: int| 0 <= i < weights.len() implies (#[trigger] weights[i]).below(N::nil())
        == (val(weights[i]) < 0 as real) by {}
    if root_cause::are_weights(weights) {
        assert forall|i: int| 0 <= i < weights.len() implies (#[trigger] weights[i]).bounded()
            && val(weights[i]) >= 0 as real by {}
    }
    if val(scale) > 0 as real {
        let i = choose|i: int| 0 <= i < weights.len() && #[trigger] weights[i] == scale;
        assert(val(weights[i]) > 0 as real);
    }
}

/// What a model of a collection contributes to a component's mean: its relative weight times
/// its contribution, which is zero where the component is not in the model.
pub open spec fn part_of<N: Amount>(
    val: spec_fn(N) -> real,
    weight: N,
    contributions: Seq<ComponentContribution<N>>,
    component: ComponentId,
    k: nat,
) -> real {
    efficiency::sum(
        |j: int|
            if contributions[j].component == component {
                val(weight) * val(contributions[j].contribution)
            } else {
                0 as real
            },
        k,
    )
}

/// The weight that a model lends a component: its own where the component is in the model.
pub open spec fn mass_of<N: Amount>(
    val: spec_fn(N) -> real,
    weight: N,
    contributions: Seq<ComponentContribution<N>>,
    component: ComponentId,
    k: nat,
) -> real {
    efficiency::sum(
        |j: int|
            if contributions[j].component == component {
                val(weight)
            } else {
                0 as real
            },
        k,
    )
}

/// Adding a weighted value to moments adds the weight to the mass and the product to mean times
/// mass.
proof fn lemma_added<N: Amount>(
    val: spec_fn(N) -> real,
    m: ContributionMoments<N>,
    weight: N,
    value: N,
    after: ContributionMoments<N>,
)
    requires
        efficiency::is_exact(val),
        moments::is_ordered(val),
        val(m.mass) >= 0 as real,
        val(weight) >= 0 as real,
        root_cause::added(m, weight, value) == Ok::<ContributionMoments<N>, AttributionError>(
            after,
        ),
    ensures
        val(after.mass) == val(m.mass) + val(weight),
        val(after.mean) * val(after.mass) == val(m.mean) * val(m.mass) + val(weight) * val(value),
{
    assert(weight.same(N::nil()) == (val(weight) == val(N::nil())));
    let w = val(weight);
    let x = val(value);
    if weight.same(N::nil()) {
        efficiency::real_units(x);
    } else {
        let total = m.mass.plus(weight);
        let t = val(total);
        let mean = val(m.mean);
        let part = weight.over(total);
        let delta = value.minus(m.mean);
        assert(val(part) * t == w);
        assert(val(part.times(delta)) == val(part) * val(delta));
        let moved = val(after.mean);
        assert(moved == mean + val(part) * (x - mean));
        efficiency::real_distributes(t, mean, val(part) * (x - mean));
        efficiency::real_regroups(val(part), x - mean, t);
        efficiency::real_regroups(x - mean, t, 0 as real);
        efficiency::real_regroups(val(part), t, x - mean);
        assert(moved * t == mean * t + w * (x - mean));
        efficiency::real_distributes(mean, val(m.mass), w);
        efficiency::real_distributes(w, x, mean);
        efficiency::real_regroups(w, mean, 0 as real);
    }
}

proof fn lemma_absorbed<N: Amount>(
    val: spec_fn(N) -> real,
    all: Map<ComponentId, ContributionMoments<N>>,
    weight: N,
    contributions: Seq<ComponentContribution<N>>,
    k: nat,
    after: Map<ComponentId, ContributionMoments<N>>,
    c: ComponentId,
)
    requires
        efficiency::is_exact(val),
        moments::is_ordered(val),
        val(weight) >= 0 as real,
        k <= contributions.len(),
        val(root_cause::moments_in(all, c).mass) >= 0 as real,
        root_cause::absorbed(all, weight, contributions, k) == Ok::<
            Map<ComponentId, ContributionMoments<N>>,
            AttributionError,
        >(after),
    ensures
        ({
            let before = root_cause::moments_in(all, c);
            let now = root_cause::moments_in(after, c);
            &&& val(now.mass) >= 0 as real
            &&& val(now.mass) == val(before.mass) + mass_of(val, weight, contributions, c, k)
            &&& val(now.mean) * val(now.mass) == val(before.mean) * val(before.mass) + part_of(
                val,
                weight,
                contributions,
                c,
                k,
            )
        }),
        after.contains_key(c) <==> all.contains_key(c) || exists|j: int|
            0 <= j < k && (#[trigger] contributions[j]).component == c,
    decreases k,
{
    if k > 0 {
        let middle = root_cause::absorbed(all, weight, contributions, (k - 1) as nat)->Ok_0;
        lemma_absorbed(val, all, weight, contributions, (k - 1) as nat, middle, c);
        let last = contributions[k - 1];
        if last.component == c {
            let old_moments = root_cause::moments_in(middle, c);
            let new_moments = root_cause::moments_in(after, c);
            lemma_added(val, old_moments, weight, last.contribution, new_moments);
            assert(contributions[k - 1].component == c);
        } else {
            assert(root_cause::moments_in(after, c) == root_cause::moments_in(middle, c));
        }
    }
}

/// What the first `k` models contribute to a component's mean.
pub open spec fn parts<N: Amount>(
    val: spec_fn(N) -> real,
    per_model: Seq<(N, ChangeAttributionResult<N>)>,
    scale: N,
    component: ComponentId,
    k: nat,
) -> real {
    efficiency::sum(
        |m: int|
            part_of(
                val,
                per_model[m].0.over(scale),
                per_model[m].1.contributions@,
                component,
                per_model[m].1.contributions@.len(),
            ),
        k,
    )
}

/// The weight that the first `k` models lend a component.
pub open spec fn masses<N: Amount>(
    val: spec_fn(N) -> real,
    per_model: Seq<(N, ChangeAttributionResult<N>)>,
    scale: N,
    component: ComponentId,
    k: nat,
) -> real {
    efficiency::sum(
        |m: int|
            mass_of(
                val,
                per_model[m].0.over(scale),
                per_model[m].1.contributions@,
                component,
                per_model[m].1.contributions@.len(),
            ),
        k,
    )
}

/// A component's moments over a collection of models: the mass is the weight of the models that
/// have it, and mean times mass is the weighted sum of their contributions. A component is kept
/// exactly where some model has it.
pub proof fn law_collections_weigh_their_models<N: Amount>(
    val: spec_fn(N) -> real,
    per_model: Seq<(N, ChangeAttributionResult<N>)>,
    scale: N,
    k: nat,
    all: Map<ComponentId, ContributionMoments<N>>,
    c: ComponentId,
)
    requires
        efficiency::is_exact(val),
        moments::is_ordered(val),
        k <= per_model.len(),
        forall|m: int|
            0 <= m < per_model.len() ==> val((#[trigger] per_model[m]).0.over(scale)) >= 0 as real,
        root_cause::collected(per_model, scale, k) == Ok::<
            Map<ComponentId, ContributionMoments<N>>,
            AttributionError,
        >(all),
    ensures
        ({
            let own = root_cause::moments_in(all, c);
            &&& val(own.mass) == masses(val, per_model, scale, c, k)
            &&& val(own.mass) >= 0 as real
            &&& val(own.mean) * val(own.mass) == parts(val, per_model, scale, c, k)
        }),
        all.contains_key(c) <==> exists|m: int, j: int|
            0 <= m < k && 0 <= j < per_model[m].1.contributions@.len() && (
            #[trigger] per_model[m].1.contributions@[j]).component == c,
    decreases k,
{
    if k == 0 {
        efficiency::real_units(0 as real);
    } else {
        let before = root_cause::collected(per_model, scale, (k - 1) as nat)->Ok_0;
        law_collections_weigh_their_models(val, per_model, scale, (k - 1) as nat, before, c);
        let weight = per_model[k - 1].0.over(scale);
        let contributions = per_model[k - 1].1.contributions@;
        assert(val(per_model[k - 1].0.over(scale)) >= 0 as real);
        lemma_absorbed(val, before, weight, contributions, contributions.len(), all, c);
        if exists|j: int|
            0 <= j < contributions.len() && (#[trigger] contributions[j]).component == c {
            let j = choose|j: int|
                0 <= j < contributions.len() && (#[trigger] contributions[j]).component == c;
            assert(per_model[k - 1].1.contributions@[j].component == c);
        }
        if exists|m: int, j: int|
            0 <= m < k && 0 <= j < per_model[m].1.contributions@.len() && (
            #[trigger] per_model[m].1.contributions@[j]).component == c {
            let (m, j) = choose|m: int, j: int|
                0 <= m < k && 0 <= j < per_model[m].1.contributions@.len() && (
                #[trigger] per_model[m].1.contributions@[j]).component == c;
            if m == k - 1 {
                assert(contributions[j].component == c);
            } else {
                assert(per_model[m].1.contributions@[j].component == c);
            }
        }
    }
}

/// Models without a component count as if they contributed nothing to it: the mean over all
/// models, times their whole weight, is the weighted sum over those that have it.
pub proof fn law_missing_contributions_count_as_zero<N: Amount>(
    val: spec_fn(N) -> real,
    m: ContributionMoments<N>,
    total: N,
    after: ContributionMoments<N>,
)
    requires
        efficiency::is_exact(val),
        moments::is_ordered(val),
        val(m.mass) >= 0 as real,
        val(m.mass) <= val(total),
        root_cause::completed(m, total) == Ok::<ContributionMoments<N>, AttributionError>(after),
    ensures
        val(after.mass) == val(total),
        val(after.mean) * val(total) == val(m.mean) * val(m.mass),
{
    let missing = total.minus(m.mass);
    let kept = root_cause::not_negative(missing);
    assert(N::nil().below(missing) == (val(N::nil()) < val(missing)));
    assert(val(kept) == val(missing));
    lemma_added(val, m, kept, N::nil(), after);
    efficiency::real_units(val(kept));
    efficiency::real_regroups(val(kept), 0 as real, 0 as real);
}

proof fn lemma_whole_steps<N: Amount>(val: spec_fn(N) -> real, height: N, n: nat, k: nat)
    requires
        efficiency::is_exact(val),
        moments::is_ordered(val),
        k <= n,
        k as real <= val(height),
        val(height) < (k + 1) as real || k == n,
    ensures
        bootstrap::whole_steps(height, n) == k,
    decreases n,
{
    assert forall|j: nat| #[trigger] height.below(N::counted(j)) == (val(height) < j as real) by {
        assert(val(N::counted(j)) == j as real);
    }
    if n > 0 {
        if k == n {
            lemma_all_steps(val, height, (n - 1) as nat);
        } else {
            lemma_whole_steps(val, height, (n - 1) as nat, k);
            if k == n - 1 {
                assert(height.below(N::counted(n)));
            }
        }
    }
}

proof fn lemma_all_steps<N: Amount>(val: spec_fn(N) -> real, height: N, n: nat)
    requires
        efficiency::is_exact(val),
        moments::is_ordered(val),
        (n + 1) as real <= val(height),
    ensures
        bootstrap::whole_steps(height, n) == n,
    decreases n,
{
    if n > 0 {
        lemma_all_steps(val, height, (n - 1) as nat);
        assert(height.below(N::counted(n)) == (val(height) < val(N::counted(n))));
        assert(val(N::counted(n)) == n as real);
    }
}

/// A quantile lies on the line between its two neighbours: at `k` steps and a part of the way
/// through the ordered values it is the `k`-th value and that part of the way to the next. At
/// no steps it is the first value and at all of them the last.
pub proof fn law_quantiles_interpolate<N: Amount>(
    val: spec_fn(N) -> real,
    sorted: Seq<N>,
    p: N,
    k: nat,
)
    requires
        efficiency::is_exact(val),
        moments::is_ordered(val),
        k < sorted.len(),
        k as real <= val(p) * ((sorted.len() - 1) as real),
        val(p) * ((sorted.len() - 1) as real) < (k + 1) as real || k == sorted.len() - 1,
    ensures
        k < sorted.len() - 1 ==> val(bootstrap::quantile(sorted, p)) == val(sorted[k as int]) + (
        val(p) * ((sorted.len() - 1) as real) - k as real) * (val(sorted[k as int + 1]) - val(
            sorted[k as int],
        )),
        k == sorted.len() - 1 ==> bootstrap::quantile(sorted, p) == sorted[k as int],
{
    let last = (sorted.len() - 1) as nat;
    let height = p.times(N::counted(last));
    assert(val(N::counted(last)) == last as real);
    assert(val(height) == val(p) * (last as real));
    lemma_whole_steps(val, height, last, k);
    if k < last {
        let offset = height.minus(N::counted(k));
        assert(val(N::counted(k)) == k as real);
        let rise = sorted[k as int + 1].minus(sorted[k as int]);
        assert(val(offset.times(rise)) == val(offset) * val(rise));
    }
}

/// The tails on both sides of an interval and its level make up one, and its ends are the
/// quantiles of the draws in order at the lower tail and at one less it.
pub proof fn law_tails_and_level_make_one<N: Amount>(
    val: spec_fn(N) -> real,
    draws: Seq<N>,
    level: N,
    low: N,
    high: N,
)
    requires
        efficiency::is_exact(val),
        low == bootstrap::tail_of(level),
        high == N::counted(1).minus(low),
    ensures
        (2 as real) * val(low) + val(level) == 1 as real,
        val(low) + val(high) == 1 as real,
        bootstrap::interval(draws, level) == (
            bootstrap::quantile(arrange::sorted(draws), low),
            bootstrap::quantile(arrange::sorted(draws), high),
        ),
{
    let one = N::counted(1);
    let two = N::counted(2);
    let half = one.over(two);
    assert(val(one) == 1 as real);
    assert(val(two) == 2 as real);
    assert(val(half) * val(two) == val(one));
    let rest = one.minus(level);
    assert(val(half.times(rest)) == val(half) * val(rest));
    efficiency::real_regroups(val(half), val(rest), 2 as real);
    efficiency::real_regroups(val(rest), 2 as real, 0 as real);
    efficiency::real_regroups(val(half), 2 as real, val(rest));
    efficiency::real_units(val(rest));
    efficiency::real_regroups(2 as real, val(low), 0 as real);
}

/// Draws in order are the draws, each no lower than those before it.
pub proof fn law_draws_are_put_in_order<N: Amount>(values: Seq<N>, i: int, j: int)
    requires
        arrange::is_weak_order::<arrange::Draw<N>>(),
        0 <= i < j < values.len(),
    ensures
        arrange::sorted(values).len() == values.len(),
        !arrange::sorted(values)[j].precedes(arrange::sorted(values)[i]),
        forall|v: N| #[trigger] arrange::sorted(values).contains(v) <==> values.contains(v),
{
    let draws = arrange::as_draws(values);
    let placed = arrange::arranged(draws);
    let sorted = arrange::sorted(values);
    arrange::law_arranging_keeps_values(draws);
    arrange::law_arranged_values_are_in_order(draws);
    assert(!placed[j].goes_before(placed[i]));
    assert forall|v: N| #[trigger] sorted.contains(v) <==> values.contains(v) by {
        let draw = arrange::Draw { value: v };
        order::lemma_same_members(placed, draws, draw);
        if sorted.contains(v) {
            let a = choose|a: int| 0 <= a < sorted.len() && sorted[a] == v;
            assert(placed[a] == draw);
            assert(placed.contains(draw));
            let b = choose|b: int| 0 <= b < draws.len() && draws[b] == draw;
            assert(values[b] == v);
        }
        if values.contains(v) {
            let a = choose|a: int| 0 <= a < values.len() && values[a] == v;
            assert(draws[a] == draw);
            assert(draws.contains(draw));
            let b = choose|b: int| 0 <= b < placed.len() && placed[b] == draw;
            assert(sorted[b] == v);
        }
    }
}

proof fn lemma_failed<N>(refits: Seq<Option<Refit<N>>>, k: nat)
    requires
        k <= refits.len(),
    ensures
        bootstrap::failed(refits, k) <= k,
        bootstrap::failed(refits, k) == 0 <==> forall|b: int|
            0 <= b < k ==> (#[trigger] refits[b]) is Some,
        bootstrap::failed(refits, k) == k <==> forall|b: int|
            0 <= b < k ==> (#[trigger] refits[b]) is None,
    decreases k,
{
    if k > 0 {
        lemma_failed(refits, (k - 1) as nat);
        let last = refits[k - 1];
        assert(last is Some || last is None);
    }
}

/// Intervals are reported exactly where every refit succeeded; a component's interval is that of
/// its own contributions over the refits, and the change's that of the refits' changes.
pub proof fn law_intervals_need_every_refit<N: Amount>(
    fit: FitUncertainty<N>,
    outcomes: Seq<Option<Refit<N>>>,
    replicates: u32,
    level: N,
    n: nat,
    j: int,
)
    requires
        bootstrap::is_uncertainty(fit, outcomes, replicates, level, n),
        0 <= j < n,
    ensures
        fit.replicates == replicates,
        fit.level == level,
        fit.failures == 0 <==> forall|b: int|
            0 <= b < outcomes.len() ==> (#[trigger] outcomes[b]) is Some,
        fit.lower is Some <==> fit.failures == 0,
        fit.upper is Some <==> fit.failures == 0,
        fit.total_interval is Some <==> fit.failures == 0,
        fit.lower matches Some(lower) ==> (fit.upper matches Some(upper) ==> (lower@[j], upper@[j])
            == bootstrap::interval(
            Seq::new(outcomes.len(), |b: int| outcomes[b]->0.contributions@[j]),
            level,
        )),
        fit.total_interval matches Some(ends) ==> ends == bootstrap::interval(
            Seq::new(outcomes.len(), |b: int| outcomes[b]->0.total_change),
            level,
        ),
{
    lemma_failed(outcomes, outcomes.len());
    assert(bootstrap::draws_of(outcomes, j) =~= Seq::new(
        outcomes.len(),
        |b: int| outcomes[b]->0.contributions@[j],
    ));
    assert(bootstrap::totals_of(outcomes) =~= Seq::new(
        outcomes.len(),
        |b: int| outcomes[b]->0.total_change,
    ));
}

} // verus!
