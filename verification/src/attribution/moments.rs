//! What running means and spreads amount to.
//!
//! The laws are about exact arithmetic: a valuation reads the numbers of a computation as real
//! numbers.
//!
//! SPDX-License-Identifier: MIT OR Apache-2.0

use crate::attribution::amount::Amount;
use crate::attribution::efficiency;
use crate::attribution::error::AttributionError;
use crate::attribution::orders;
use crate::attribution::root_cause;
use crate::attribution::root_cause::ContributionMoments;
use crate::attribution::shapley;
use vstd::prelude::*;

verus! {

/// A valuation that respects comparisons.
pub open spec fn is_ordered<N: Amount>(val: spec_fn(N) -> real) -> bool {
    &&& forall|a: N, b: N| #[trigger] a.below(b) == (val(a) < val(b))
    &&& forall|a: N, b: N| #[trigger] a.same(b) == (val(a) == val(b))
}

/// Weights are not negative.
pub open spec fn are_masses<N: Amount>(val: spec_fn(N) -> real, weights: Seq<N>) -> bool {
    forall|i: int| 0 <= i < weights.len() ==> val(#[trigger] weights[i]) >= 0 as real
}

/// Sum of the first `k` weights.
pub open spec fn mass_sum<N: Amount>(val: spec_fn(N) -> real, weights: Seq<N>, k: nat) -> real {
    efficiency::sum(|i: int| val(weights[i]), k)
}

/// Weighted sum of the first `k` values.
pub open spec fn value_sum<N: Amount>(
    val: spec_fn(N) -> real,
    weights: Seq<N>,
    values: Seq<N>,
    k: nat,
) -> real {
    efficiency::sum(|i: int| val(weights[i]) * val(values[i]), k)
}

/// Weighted sum of the squares of the first `k` values.
pub open spec fn square_sum<N: Amount>(
    val: spec_fn(N) -> real,
    weights: Seq<N>,
    values: Seq<N>,
    k: nat,
) -> real {
    efficiency::sum(|i: int| val(weights[i]) * (val(values[i]) * val(values[i])), k)
}

/// One step of a running mean: `mean` moves to `moved` as a value comes in.
proof fn lemma_step(mass: real, mean: real, weight: real, value: real, total: real, moved: real)
    requires
        total == mass + weight,
        (moved - mean) * total == weight * (value - mean),
    ensures
        moved * total == mean * mass + weight * value,
        (weight * (value - mean)) * (value - moved) == weight * (value * value) - (moved * total)
            * moved + (mean * mass) * mean,
{
    efficiency::real_distributes(total, moved, mean);
    efficiency::real_distributes(weight, value, mean);
    efficiency::real_distributes(mean, mass, weight);
    efficiency::real_regroups(weight, mean, 0 as real);
    assert(moved * total == mean * mass + weight * value);
    let done = mean * mass;
    let came = weight * value;
    let held = weight * mean;
    efficiency::real_distributes(value - moved, came, held);
    assert((weight * (value - mean)) * (value - moved) == came * (value - moved) - held * (value
        - moved));
    efficiency::real_distributes(came, value, moved);
    efficiency::real_distributes(held, value, moved);
    efficiency::real_regroups(weight, value, value);
    efficiency::real_regroups(weight, mean, value);
    efficiency::real_regroups(weight, value, mean);
    efficiency::real_regroups(value, mean, 0 as real);
    assert(held * value == came * mean);
    efficiency::real_distributes(moved, done, came);
    efficiency::real_regroups(moved, total, mean);
    efficiency::real_regroups(moved * total, mean, 0 as real);
    efficiency::real_distributes(mean, done, came);
    assert((moved * total) * mean == done * mean + came * mean);
    efficiency::real_regroups(total, mean, 0 as real);
    assert(mean * total == done + held) by {
        efficiency::real_distributes(mean, mass, weight);
    }
    efficiency::real_regroups(mean, total, 0 as real);
    assert((moved * total) * mean == moved * (total * mean));
    efficiency::real_distributes(moved, done, held);
    efficiency::real_regroups(held, moved, 0 as real);
    efficiency::real_regroups(done, moved, 0 as real);
    efficiency::real_regroups(came, moved, 0 as real);
}

/// The mean that a weight moves.
proof fn lemma_moves(mean: real, weight: real, value: real, total: real, part: real)
    requires
        part * total == weight,
    ensures
        ((mean + part * (value - mean)) - mean) * total == weight * (value - mean),
{
    efficiency::real_regroups(part, value - mean, total);
    efficiency::real_regroups(value - mean, total, 0 as real);
    efficiency::real_regroups(part, total, value - mean);
}

/// Running moments in closed form: the mass is the sum of the weights, the mean is the weighted
/// mean, and the spread is what squares exceed the squared mean by.
pub proof fn law_moments_have_a_closed_form<N: Amount>(
    val: spec_fn(N) -> real,
    weights: Seq<N>,
    values: Seq<N>,
    k: nat,
    m: ContributionMoments<N>,
)
    requires
        efficiency::is_exact(val),
        is_ordered(val),
        are_masses(val, weights),
        k <= weights.len(),
        root_cause::moments_of(weights, values, k) == Ok::<
            ContributionMoments<N>,
            AttributionError,
        >(m),
    ensures
        val(m.mass) == mass_sum(val, weights, k),
        val(m.mass) >= 0 as real,
        val(m.mean) * val(m.mass) == value_sum(val, weights, values, k),
        val(m.m2) == square_sum(val, weights, values, k) - (val(m.mean) * val(m.mass)) * val(
            m.mean,
        ),
    decreases k,
{
    if k == 0 {
        efficiency::real_units(0 as real);
    } else {
        let before = root_cause::moments_of(weights, values, (k - 1) as nat)->Ok_0;
        law_moments_have_a_closed_form(val, weights, values, (k - 1) as nat, before);
        let weight = weights[k - 1];
        let value = values[k - 1];
        let (w, v) = (val(weight), val(value));
        assert(val(weights[k - 1]) >= 0 as real);
        if weight.same(N::nil()) {
            efficiency::real_units(v);
            efficiency::real_units(v * v);
        } else {
            let total = before.mass.plus(weight);
            let part = weight.over(total);
            assert(val(total) == val(before.mass) + w);
            assert(val(part) * val(total) == w);
            let delta = value.minus(before.mean);
            assert(m.mean == before.mean.plus(part.times(delta)));
            lemma_moves(val(before.mean), w, v, val(total), val(part));
            lemma_step(val(before.mass), val(before.mean), w, v, val(total), val(m.mean));
        }
    }
}

/// Weights that read alike give moments that read alike.
proof fn lemma_same_moments<N: Amount>(
    val: spec_fn(N) -> real,
    weights: Seq<N>,
    others: Seq<N>,
    values: Seq<N>,
    k: nat,
    m: ContributionMoments<N>,
    o: ContributionMoments<N>,
)
    requires
        efficiency::is_exact(val),
        is_ordered(val),
        are_masses(val, weights),
        k <= weights.len() == others.len(),
        forall|i: int| 0 <= i < weights.len() ==> val(#[trigger] weights[i]) == val(others[i]),
        root_cause::moments_of(weights, values, k) == Ok::<
            ContributionMoments<N>,
            AttributionError,
        >(m),
        root_cause::moments_of(others, values, k) == Ok::<
            ContributionMoments<N>,
            AttributionError,
        >(o),
    ensures
        val(m.mass) == val(o.mass),
        val(m.mean) == val(o.mean),
        val(m.m2) == val(o.m2),
    decreases k,
{
    if k > 0 {
        let a = root_cause::moments_of(weights, values, (k - 1) as nat)->Ok_0;
        let b = root_cause::moments_of(others, values, (k - 1) as nat)->Ok_0;
        lemma_same_moments(val, weights, others, values, (k - 1) as nat, a, b);
        law_moments_have_a_closed_form(val, weights, values, (k - 1) as nat, a);
        assert(val(weights[k - 1]) == val(others[k - 1]));
        let (left, right) = (weights[k - 1], others[k - 1]);
        assert(left.same(N::nil()) == right.same(N::nil()));
        if !left.same(N::nil()) {
            let (ta, tb) = (a.mass.plus(left), b.mass.plus(right));
            assert(val(ta) == val(a.mass) + val(left) && val(tb) == val(ta));
            let (pa, pb) = (left.over(ta), right.over(tb));
            assert(val(pa) * val(ta) == val(left));
            assert(val(pb) * val(tb) == val(right));
            efficiency::real_cancels(val(pa), val(pb), val(ta));
            let value = values[k - 1];
            assert(val(value.minus(a.mean)) == val(value.minus(b.mean)));
            assert(val(pa.times(value.minus(a.mean))) == val(pb.times(value.minus(b.mean))));
            assert(val(left.times(value.minus(a.mean))) == val(right.times(value.minus(b.mean))));
            assert(val(value.minus(m.mean)) == val(value.minus(o.mean)));
        }
    }
}

/// The largest of proportional weights.
proof fn lemma_largest_is_proportional<N: Amount>(
    val: spec_fn(N) -> real,
    weights: Seq<N>,
    others: Seq<N>,
    factor: real,
    k: nat,
)
    requires
        efficiency::is_additive(val),
        is_ordered(val),
        factor > 0 as real,
        k <= weights.len() == others.len(),
        forall|i: int|
            0 <= i < weights.len() ==> val(#[trigger] others[i]) == val(weights[i]) * factor,
    ensures
        val(root_cause::largest(others, k)) == val(root_cause::largest(weights, k)) * factor,
        val(root_cause::largest(weights, k)) >= 0 as real,
    decreases k,
{
    efficiency::real_units(factor);
    if k > 0 {
        lemma_largest_is_proportional(val, weights, others, factor, (k - 1) as nat);
        let a = val(root_cause::largest(weights, (k - 1) as nat));
        let b = val(weights[k - 1]);
        assert(val(others[k - 1]) == b * factor);
        if a < b {
            efficiency::real_orders(a, b, factor);
        } else if b < a {
            efficiency::real_orders(b, a, factor);
        }
    }
}

/// Ranks over graphs do not depend on the scale of the graphs' weights.
pub proof fn law_ranks_do_not_depend_on_the_scale_of_weights<N: Amount>(
    val: spec_fn(N) -> real,
    weights: Seq<N>,
    others: Seq<N>,
    factor: real,
    scale: N,
    other_scale: N,
    values: Seq<N>,
    m: ContributionMoments<N>,
    o: ContributionMoments<N>,
)
    requires
        efficiency::is_exact(val),
        is_ordered(val),
        factor > 0 as real,
        weights.len() == others.len(),
        forall|i: int|
            0 <= i < weights.len() ==> val(#[trigger] others[i]) == val(weights[i]) * factor,
        root_cause::scale_of(weights) == Ok::<N, AttributionError>(scale),
        root_cause::scale_of(others) == Ok::<N, AttributionError>(other_scale),
        root_cause::moments_of(
            root_cause::relative(weights, scale),
            values,
            weights.len(),
        ) == Ok::<ContributionMoments<N>, AttributionError>(m),
        root_cause::moments_of(
            root_cause::relative(others, other_scale),
            values,
            others.len(),
        ) == Ok::<ContributionMoments<N>, AttributionError>(o),
    ensures
        val(m.mass) == val(o.mass),
        val(m.mean) == val(o.mean),
        val(m.m2) == val(o.m2),
{
    lemma_largest_is_proportional(val, weights, others, factor, weights.len());
    let s = val(scale);
    assert(s > 0 as real);
    efficiency::real_units(factor);
    efficiency::real_orders(0 as real, s, factor);
    let (left, right) = (
        root_cause::relative(weights, scale),
        root_cause::relative(others, other_scale),
    );
    assert forall|i: int| 0 <= i < left.len() implies val(#[trigger] left[i]) == val(right[i])
        && val(left[i]) >= 0 as real by {
        let (x, y) = (val(left[i]), val(right[i]));
        assert(left[i] == weights[i].over(scale) && right[i] == others[i].over(other_scale));
        assert(x * s == val(weights[i]));
        assert(y * (s * factor) == val(others[i]));
        efficiency::real_regroups(y, s, factor);
        efficiency::real_cancels(y * s, x * s, factor);
        efficiency::real_cancels(x, y, s);
        assert(!weights[i].below(N::nil()));
        if x < 0 as real {
            efficiency::real_orders(x, 0 as real, s);
            efficiency::real_units(s);
        }
    }
    lemma_same_moments(val, left, right, values, weights.len(), m, o);
}

/// What player `i` adds in the `d`-th order that is drawn.
pub open spec fn marginal_at<N: Amount>(
    val: spec_fn(N) -> real,
    g: spec_fn(u64) -> Result<N, AttributionError>,
    seed: u64,
    n: nat,
    i: int,
    d: int,
) -> real {
    val(orders::marginals(g, orders::drawn_order(seed, n, d as nat), n)[i])
}

/// Sampled Shapley values in closed form: after `c` orders a player's value is the mean of its
/// marginals, and the spread behind its standard error is what their squares exceed the
/// squared mean by.
pub proof fn law_sampled_values_have_a_closed_form<N: Amount>(
    val: spec_fn(N) -> real,
    g: spec_fn(u64) -> Result<N, AttributionError>,
    seed: u64,
    n: nat,
    i: int,
    c: nat,
)
    requires
        efficiency::is_exact(val),
    ensures
        ({
            let (mean, spread) = shapley::running(g, seed, n, i, c);
            let x = |d: int| marginal_at(val, g, seed, n, i, d);
            let squares = |d: int|
                marginal_at(val, g, seed, n, i, d) * marginal_at(val, g, seed, n, i, d);
            &&& val(mean) * (c as real) == efficiency::sum(x, c)
            &&& val(spread) == efficiency::sum(squares, c) - (val(mean) * (c as real)) * val(mean)
        }),
    decreases c,
{
    if c == 0 {
        efficiency::real_units(0 as real);
    } else {
        law_sampled_values_have_a_closed_form(val, g, seed, n, i, (c - 1) as nat);
        let (mean, spread) = shapley::running(g, seed, n, i, (c - 1) as nat);
        let (moved, widened) = shapley::running(g, seed, n, i, c);
        let value = orders::marginals(g, orders::drawn_order(seed, n, (c - 1) as nat), n)[i];
        let v = val(value);
        assert(v == marginal_at(val, g, seed, n, i, c - 1));
        let delta = value.minus(mean);
        let part = delta.over(N::counted(c));
        assert(val(N::counted(c)) == c as real);
        assert(val(part) * (c as real) == v - val(mean));
        let one = 1 as real;
        efficiency::real_units(v - val(mean));
        assert((val(moved) - val(mean)) * (c as real) == one * (v - val(mean)));
        lemma_step(((c - 1) as nat) as real, val(mean), one, v, c as real, val(moved));
        efficiency::real_units(v);
        efficiency::real_units(v * v);
        assert(val(widened) == val(spread) + (v - val(mean)) * (v - val(moved)));
    }
}

} // verus!
