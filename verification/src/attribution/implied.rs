//! Equations that the moments of a linear model satisfy.
//!
//! The laws are about exact arithmetic: a valuation reads the numbers of a computation as real
//! numbers. They hold of the moments of the whole model, whatever order computed them.
//!
//! SPDX-License-Identifier: MIT OR Apache-2.0

use crate::attribution::amount::Amount;
use crate::attribution::efficiency;
use crate::attribution::fairness;
use crate::attribution::linear;
use crate::attribution::linear::Equation;
use crate::attribution::model::{LinearForm, MechanismSlot, ModelView};
use crate::attribution::shapley;
use crate::ids::DenseNodeId;
use vstd::prelude::*;

verus! {

/// A mechanism is linear in the parents, with an intercept, coefficients and a noise.
pub open spec fn has_form<N>(slot: MechanismSlot<N>, form: LinearForm<N>) -> bool {
    match slot {
        MechanismSlot::LinearGaussian { intercept, coeffs, sigma } => form == (LinearForm {
            intercept,
            coeffs: coeffs@,
            sigma,
        }),
        MechanismSlot::HierarchicalLinear { intercept, coeffs, sigma } => form == (LinearForm {
            intercept,
            coeffs: coeffs@,
            sigma,
        }),
        MechanismSlot::Bvar { intercept, coeffs, sigma } => form == (LinearForm {
            intercept,
            coeffs: coeffs@,
            sigma,
        }),
        _ => false,
    }
}

/// Coefficient of the `i`-th parent, read as a real number; zero where none was fitted.
pub open spec fn slope<N: Amount>(val: spec_fn(N) -> real, coeffs: Seq<N>, i: int) -> real {
    if i < coeffs.len() {
        val(coeffs[i])
    } else {
        0 as real
    }
}

proof fn lemma_weighted<N: Amount>(
    val: spec_fn(N) -> real,
    coeffs: Seq<N>,
    parents: Seq<DenseNodeId>,
    of: spec_fn(int) -> N,
    start: N,
    k: nat,
)
    requires
        efficiency::is_exact(val),
    ensures
        val(linear::weighted(coeffs, parents, of, start, k)) == val(start) + efficiency::sum(
            |i: int| slope(val, coeffs, i) * val(of(parents[i].raw as int)),
            k,
        ),
    decreases k,
{
    if k > 0 {
        lemma_weighted(val, coeffs, parents, of, start, (k - 1) as nat);
        assert(val(linear::coefficient(coeffs, k - 1)) == slope(val, coeffs, k - 1));
    }
}

/// Sum over the first `k` parents of slope times slope times covariance with parent `a`.
pub open spec fn row_sum<N: Amount>(
    val: spec_fn(N) -> real,
    coeffs: Seq<N>,
    parents: Seq<DenseNodeId>,
    cov: spec_fn(int, int) -> N,
    a: int,
    k: nat,
) -> real {
    efficiency::sum(
        |l: int|
            slope(val, coeffs, a) * slope(val, coeffs, l) * val(
                cov(parents[a].raw as int, parents[l].raw as int),
            ),
        k,
    )
}

proof fn lemma_variance_row<N: Amount>(
    val: spec_fn(N) -> real,
    coeffs: Seq<N>,
    parents: Seq<DenseNodeId>,
    cov: spec_fn(int, int) -> N,
    start: N,
    a: int,
    k: nat,
)
    requires
        efficiency::is_exact(val),
    ensures
        val(linear::variance_row(coeffs, parents, cov, start, a, k)) == val(start) + row_sum(
            val,
            coeffs,
            parents,
            cov,
            a,
            k,
        ),
    decreases k,
{
    if k > 0 {
        lemma_variance_row(val, coeffs, parents, cov, start, a, (k - 1) as nat);
        let left = linear::coefficient(coeffs, a);
        let right = linear::coefficient(coeffs, k - 1);
        let shared = cov(parents[a].raw as int, parents[k - 1].raw as int);
        assert(val(left) == slope(val, coeffs, a));
        assert(val(right) == slope(val, coeffs, k - 1));
        assert(val(left.times(right).times(shared)) == val(left) * val(right) * val(shared));
    }
}

proof fn lemma_variance_rows<N: Amount>(
    val: spec_fn(N) -> real,
    coeffs: Seq<N>,
    parents: Seq<DenseNodeId>,
    cov: spec_fn(int, int) -> N,
    start: N,
    a: nat,
    width: nat,
)
    requires
        efficiency::is_exact(val),
    ensures
        val(linear::variance_rows(coeffs, parents, cov, start, a, width)) == val(start)
            + efficiency::sum(|i: int| row_sum(val, coeffs, parents, cov, i, width), a),
    decreases a,
{
    if a > 0 {
        let before = linear::variance_rows(coeffs, parents, cov, start, (a - 1) as nat, width);
        lemma_variance_rows(val, coeffs, parents, cov, start, (a - 1) as nat, width);
        lemma_variance_row(val, coeffs, parents, cov, before, a - 1, width);
    }
}

/// A node that comes before a place comes at no later one.
proof fn lemma_placed_once(model: ModelView, x: int, k: int)
    requires
        model.well_formed(),
        0 <= k <= model.nodes(),
        model.comes_before(x, k),
    ensures
        forall|j: int| k <= j < model.nodes() ==> #[trigger] model.child(j) != x,
{
    reveal(ModelView::comes_before);
    let q = choose|q: int| 0 <= q < k && #[trigger] model.child(q) == x;
    assert forall|j: int| k <= j < model.nodes() implies #[trigger] model.child(j) != x by {
        assert(model.child(q) != model.child(j));
    }
}

proof fn lemma_means_stay<N: Amount>(
    model: ModelView,
    slots: spec_fn(int) -> MechanismSlot<N>,
    k: nat,
    n: nat,
    x: int,
)
    requires
        k <= n,
        forall|j: int| k <= j < n ==> #[trigger] model.child(j) != x,
    ensures
        linear::means(model, slots, n)(x) == linear::means(model, slots, k)(x),
    decreases n,
{
    if k < n {
        assert(model.child(n - 1) != x);
        lemma_means_stay(model, slots, k, (n - 1) as nat, x);
    }
}

proof fn lemma_covariances_stay<N: Amount>(
    model: ModelView,
    slots: spec_fn(int) -> MechanismSlot<N>,
    k: nat,
    n: nat,
    x: int,
    y: int,
)
    requires
        k <= n,
        forall|j: int| k <= j < n ==> #[trigger] model.child(j) != x && model.child(j) != y,
    ensures
        linear::covariances(model, slots, n)(x, y) == linear::covariances(model, slots, k)(x, y),
    decreases n,
{
    if k < n {
        assert(model.child(n - 1) != x);
        lemma_covariances_stay(model, slots, k, (n - 1) as nat, x, y);
    }
}

/// Mean that a whole model implies at a node.
pub open spec fn mean_at<N: Amount>(
    model: ModelView,
    slots: spec_fn(int) -> MechanismSlot<N>,
    x: int,
) -> N {
    linear::means(model, slots, model.nodes())(x)
}

/// Covariance that a whole model implies of two nodes.
pub open spec fn covariance_at<N: Amount>(
    model: ModelView,
    slots: spec_fn(int) -> MechanismSlot<N>,
    x: int,
    y: int,
) -> N {
    linear::covariances(model, slots, model.nodes())(x, y)
}

/// The mean of a linear node is its intercept and, for every parent, the parent's slope times
/// the parent's mean.
pub proof fn law_means_are_linear<N: Amount>(
    val: spec_fn(N) -> real,
    model: ModelView,
    slots: spec_fn(int) -> MechanismSlot<N>,
    k: int,
    form: LinearForm<N>,
)
    requires
        efficiency::is_exact(val),
        model.well_formed(),
        0 <= k < model.nodes(),
        has_form(slots(model.child(k)), form),
    ensures
        val(mean_at(model, slots, model.child(k))) == val(form.intercept) + efficiency::sum(
            |i: int|
                slope(val, form.coeffs, i) * val(
                    mean_at(model, slots, model.parents(k)[i].raw as int),
                ),
            model.parents(k).len(),
        ),
{
    let node = model.child(k);
    let parents = model.parents(k);
    let n = model.nodes();
    let before = linear::means(model, slots, k as nat);
    lemma_weighted(val, form.coeffs, parents, before, form.intercept, parents.len());
    assert forall|j: int| k < j < n implies #[trigger] model.child(j) != node by {
        assert(model.child(k) != model.child(j));
    }
    lemma_means_stay(model, slots, (k + 1) as nat, n, node);
    let early = |i: int| slope(val, form.coeffs, i) * val(before(parents[i].raw as int));
    let late = |i: int|
        slope(val, form.coeffs, i) * val(mean_at(model, slots, model.parents(k)[i].raw as int));
    assert forall|i: int| 0 <= i < parents.len() implies #[trigger] early(i) == late(i) by {
        let p = model.parents(k)[i].raw as int;
        assert(model.comes_before(p, k));
        lemma_placed_once(model, p, k);
        lemma_means_stay(model, slots, k as nat, n, p);
    }
    efficiency::lemma_sum_same(early, late, parents.len());
    assert(linear::equation(slots(node)) matches Some(eq) && eq.coeffs == form.coeffs
        && eq.intercept == form.intercept && eq.uses_parents);
}

proof fn lemma_cross<N: Amount>(
    val: spec_fn(N) -> real,
    model: ModelView,
    slots: spec_fn(int) -> MechanismSlot<N>,
    k: int,
    j: int,
    eq: Equation<N>,
)
    requires
        efficiency::is_exact(val),
        model.well_formed(),
        0 <= j < k < model.nodes(),
        linear::equation(slots(model.child(k))) == Some(eq),
    ensures
        val(covariance_at(model, slots, model.child(k), model.child(j))) == efficiency::sum(
            |i: int|
                slope(val, eq.coeffs, i) * val(
                    covariance_at(model, slots, model.parents(k)[i].raw as int, model.child(j)),
                ),
            linear::inputs(eq, model.parents(k)),
        ),
{
    let node = model.child(k);
    let other = model.child(j);
    let parents = model.parents(k);
    let n = model.nodes();
    let width = linear::inputs(eq, parents);
    let before = linear::covariances(model, slots, k as nat);
    assert(node != other);
    assert(model.comes_before(other, k)) by {
        reveal(ModelView::comes_before);
    }
    lemma_placed_once(model, other, k);
    assert forall|t: int| k < t < n implies #[trigger] model.child(t) != node && model.child(t)
        != other by {
        assert(model.child(k) != model.child(t));
    }
    lemma_covariances_stay(model, slots, (k + 1) as nat, n, node, other);
    let of = |p: int| before(p, other);
    lemma_weighted(val, eq.coeffs, parents, of, N::nil(), width);
    let early = |i: int| slope(val, eq.coeffs, i) * val(of(parents[i].raw as int));
    let late = |i: int|
        slope(val, eq.coeffs, i) * val(
            covariance_at(model, slots, model.parents(k)[i].raw as int, model.child(j)),
        );
    assert forall|i: int| 0 <= i < width implies #[trigger] early(i) == late(i) by {
        let p = model.parents(k)[i].raw as int;
        assert(model.comes_before(p, k));
        lemma_placed_once(model, p, k);
        lemma_covariances_stay(model, slots, k as nat, n, p, other);
    }
    efficiency::lemma_sum_same(early, late, width);
    assert(linear::covariances(model, slots, (k + 1) as nat)(node, other) == linear::cross(
        eq,
        parents,
        before,
        other,
    ));
}

/// The covariance of a linear node with one that stands before it is, over all its parents, the
/// sum of the parent's slope times the parent's covariance with that one.
pub proof fn law_covariances_are_linear<N: Amount>(
    val: spec_fn(N) -> real,
    model: ModelView,
    slots: spec_fn(int) -> MechanismSlot<N>,
    k: int,
    j: int,
    form: LinearForm<N>,
)
    requires
        efficiency::is_exact(val),
        model.well_formed(),
        0 <= j < k < model.nodes(),
        has_form(slots(model.child(k)), form),
    ensures
        val(covariance_at(model, slots, model.child(k), model.child(j))) == efficiency::sum(
            |i: int|
                slope(val, form.coeffs, i) * val(
                    covariance_at(model, slots, model.parents(k)[i].raw as int, model.child(j)),
                ),
            model.parents(k).len(),
        ),
        covariance_at(model, slots, model.child(j), model.child(k)) == covariance_at(
            model,
            slots,
            model.child(k),
            model.child(j),
        ),
{
    let eq = linear::equation(slots(model.child(k)))->0;
    lemma_cross(val, model, slots, k, j, eq);
    linear::law_covariances_are_symmetric(
        model,
        slots,
        model.nodes(),
        model.child(j),
        model.child(k),
    );
}

proof fn lemma_own<N: Amount>(
    val: spec_fn(N) -> real,
    model: ModelView,
    slots: spec_fn(int) -> MechanismSlot<N>,
    k: int,
    eq: Equation<N>,
)
    requires
        efficiency::is_exact(val),
        model.well_formed(),
        0 <= k < model.nodes(),
        linear::equation(slots(model.child(k))) == Some(eq),
    ensures
        val(covariance_at(model, slots, model.child(k), model.child(k))) == val(eq.noise)
            + efficiency::sum(
            |a: int|
                efficiency::sum(
                    |l: int|
                        slope(val, eq.coeffs, a) * slope(val, eq.coeffs, l) * val(
                            covariance_at(
                                model,
                                slots,
                                model.parents(k)[a].raw as int,
                                model.parents(k)[l].raw as int,
                            ),
                        ),
                    linear::inputs(eq, model.parents(k)),
                ),
            linear::inputs(eq, model.parents(k)),
        ),
{
    let node = model.child(k);
    let parents = model.parents(k);
    let n = model.nodes();
    let width = linear::inputs(eq, parents);
    let before = linear::covariances(model, slots, k as nat);
    let around = linear::crossed(before, model, eq, k, k);
    lemma_variance_rows(val, eq.coeffs, parents, around, eq.noise, width, width);
    assert forall|t: int| k < t < n implies #[trigger] model.child(t) != node by {
        assert(model.child(k) != model.child(t));
    }
    lemma_covariances_stay(model, slots, (k + 1) as nat, n, node, node);
    let early = |a: int| row_sum(val, eq.coeffs, parents, around, a, width);
    let late = |a: int|
        efficiency::sum(
            |l: int|
                slope(val, eq.coeffs, a) * slope(val, eq.coeffs, l) * val(
                    covariance_at(
                        model,
                        slots,
                        model.parents(k)[a].raw as int,
                        model.parents(k)[l].raw as int,
                    ),
                ),
            width,
        );
    assert forall|a: int| 0 <= a < width implies #[trigger] early(a) == late(a) by {
        let p = model.parents(k)[a].raw as int;
        assert(model.comes_before(p, k));
        lemma_placed_once(model, p, k);
        assert(p != node);
        let first = |l: int|
            slope(val, eq.coeffs, a) * slope(val, eq.coeffs, l) * val(
                around(parents[a].raw as int, parents[l].raw as int),
            );
        let second = |l: int|
            slope(val, eq.coeffs, a) * slope(val, eq.coeffs, l) * val(
                covariance_at(
                    model,
                    slots,
                    model.parents(k)[a].raw as int,
                    model.parents(k)[l].raw as int,
                ),
            );
        assert forall|l: int| 0 <= l < width implies #[trigger] first(l) == second(l) by {
            let q = model.parents(k)[l].raw as int;
            assert(model.comes_before(q, k));
            lemma_placed_once(model, q, k);
            assert(q != node);
            lemma_covariances_stay(model, slots, k as nat, n, p, q);
        }
        efficiency::lemma_sum_same(first, second, width);
    }
    efficiency::lemma_sum_same(early, late, width);
}

/// The variance of a linear node is its noise variance and, for every ordered pair of its
/// parents, the product of their slopes with their covariance.
pub proof fn law_variances_count_every_pair_of_parents<N: Amount>(
    val: spec_fn(N) -> real,
    model: ModelView,
    slots: spec_fn(int) -> MechanismSlot<N>,
    k: int,
    form: LinearForm<N>,
)
    requires
        efficiency::is_exact(val),
        model.well_formed(),
        0 <= k < model.nodes(),
        has_form(slots(model.child(k)), form),
    ensures
        val(covariance_at(model, slots, model.child(k), model.child(k))) == val(form.sigma) * val(
            form.sigma,
        ) + efficiency::sum(
            |a: int|
                efficiency::sum(
                    |l: int|
                        slope(val, form.coeffs, a) * slope(val, form.coeffs, l) * val(
                            covariance_at(
                                model,
                                slots,
                                model.parents(k)[a].raw as int,
                                model.parents(k)[l].raw as int,
                            ),
                        ),
                    model.parents(k).len(),
                ),
            model.parents(k).len(),
        ),
{
    let eq = linear::equation(slots(model.child(k)))->0;
    lemma_own(val, model, slots, k, eq);
    assert(val(form.sigma.times(form.sigma)) == val(form.sigma) * val(form.sigma));
}

/// A constant has its value for a mean, no variance, and no covariance with a node before it.
pub proof fn law_constants_do_not_vary<N: Amount>(
    val: spec_fn(N) -> real,
    model: ModelView,
    slots: spec_fn(int) -> MechanismSlot<N>,
    k: int,
    j: int,
    value: N,
)
    requires
        efficiency::is_exact(val),
        model.well_formed(),
        0 <= k < model.nodes(),
        slots(model.child(k)) == (MechanismSlot::Constant { value }),
    ensures
        mean_at(model, slots, model.child(k)) == value,
        val(covariance_at(model, slots, model.child(k), model.child(k))) == 0 as real,
        0 <= j < k ==> val(covariance_at(model, slots, model.child(k), model.child(j)))
            == 0 as real,
{
    let node = model.child(k);
    let n = model.nodes();
    let eq = linear::equation(slots(node))->0;
    assert forall|t: int| k < t < n implies #[trigger] model.child(t) != node by {
        assert(model.child(k) != model.child(t));
    }
    lemma_means_stay(model, slots, (k + 1) as nat, n, node);
    lemma_own(val, model, slots, k, eq);
    if 0 <= j < k {
        lemma_cross(val, model, slots, k, j, eq);
    }
}

/// Values that are paired with a weight.
pub open spec fn pairs<N>(support: Seq<N>, probs: Seq<N>) -> nat {
    if support.len() <= probs.len() {
        support.len()
    } else {
        probs.len()
    }
}

/// A choice among listed values has the weighted mean of the values for its mean and their
/// weighted squared distance from it for its variance, where the weights have a positive finite
/// total, and no moments otherwise.
pub proof fn law_choices_have_weighted_moments<N: Amount>(
    val: spec_fn(N) -> real,
    support: Seq<N>,
    probs: Seq<N>,
)
    requires
        efficiency::is_exact(val),
        val(shapley::total(probs)) != 0 as real,
    ensures
        linear::choice_moments(support, probs) is Some <==> N::nil().below(shapley::total(probs))
            && shapley::total(probs).bounded(),
        linear::choice_moments(support, probs) matches Some((mean, variance)) ==> {
            let mass = efficiency::sum(|i: int| val(probs[i]), probs.len());
            &&& val(mean) * mass == efficiency::sum(
                |i: int| val(support[i]) * val(probs[i]),
                pairs(support, probs),
            )
            &&& val(variance) * mass == efficiency::sum(
                |i: int|
                    (val(support[i]) - val(mean)) * (val(support[i]) - val(mean)) * val(probs[i]),
                pairs(support, probs),
            )
        },
{
    let total = shapley::total(probs);
    let mass = val(total);
    fairness::lemma_total_is_sum(val, probs);
    if let Some((mean, variance)) = linear::choice_moments(support, probs) {
        let n = pairs(support, probs);
        let terms = linear::mean_terms(support, probs);
        fairness::lemma_total_is_sum(val, terms);
        let shares = |i: int| val(terms[i]);
        let wholes = |i: int| val(support[i]) * val(probs[i]);
        assert forall|i: int| 0 <= i < n implies #[trigger] shares(i) * mass == wholes(i) by {
            assert(val(support[i].times(probs[i]).over(total)) * val(total) == val(
                support[i].times(probs[i]),
            ));
        }
        efficiency::lemma_scaled(mass, wholes, shares, n);
        let spreads = linear::spread_terms(support, probs, mean);
        fairness::lemma_total_is_sum(val, spreads);
        let parts = |i: int| val(spreads[i]);
        let gaps = |i: int|
            (val(support[i]) - val(mean)) * (val(support[i]) - val(mean)) * val(probs[i]);
        assert forall|i: int| 0 <= i < n implies #[trigger] parts(i) * mass == gaps(i) by {
            let gap = support[i].minus(mean);
            assert(val(gap.times(gap).times(probs[i]).over(total)) * val(total) == val(
                gap.times(gap).times(probs[i]),
            ));
            assert(val(gap.times(gap)) == val(gap) * val(gap));
        }
        efficiency::lemma_scaled(mass, gaps, parts, n);
    }
}

/// A choice that does not depend on the parents has the moments of the choice, whatever its
/// parents are.
pub proof fn law_choices_ignore_their_parents<N: Amount>(
    val: spec_fn(N) -> real,
    model: ModelView,
    slots: spec_fn(int) -> MechanismSlot<N>,
    k: int,
    j: int,
    support: Vec<N>,
    probs: Vec<N>,
    mean: N,
    variance: N,
)
    requires
        efficiency::is_exact(val),
        model.well_formed(),
        0 <= k < model.nodes(),
        slots(model.child(k)) == (MechanismSlot::Discrete { support, probs, logit_coeffs: None }),
        linear::choice_moments(support@, probs@) == Some((mean, variance)),
    ensures
        mean_at(model, slots, model.child(k)) == mean,
        val(covariance_at(model, slots, model.child(k), model.child(k))) == val(variance),
        0 <= j < k ==> val(covariance_at(model, slots, model.child(k), model.child(j)))
            == 0 as real,
{
    let node = model.child(k);
    let n = model.nodes();
    let eq = linear::equation(slots(node))->0;
    assert forall|t: int| k < t < n implies #[trigger] model.child(t) != node by {
        assert(model.child(k) != model.child(t));
    }
    lemma_means_stay(model, slots, (k + 1) as nat, n, node);
    lemma_own(val, model, slots, k, eq);
    if 0 <= j < k {
        lemma_cross(val, model, slots, k, j, eq);
    }
}

/// Moments are implied exactly where every mechanism is linear, constant, or a choice of its own
/// with moments.
pub proof fn law_solvable_models_have_equations<N: Amount>(
    model: ModelView,
    slots: spec_fn(int) -> MechanismSlot<N>,
)
    ensures
        linear::solvable(model, slots) <==> forall|k: int|
            0 <= k < model.nodes() ==> match slots(#[trigger] model.child(k)) {
                MechanismSlot::LinearGaussian { .. } => true,
                MechanismSlot::HierarchicalLinear { .. } => true,
                MechanismSlot::Bvar { .. } => true,
                MechanismSlot::Constant { .. } => true,
                MechanismSlot::Discrete { support, probs, logit_coeffs } => logit_coeffs is None
                    && linear::choice_moments(support@, probs@) is Some,
                MechanismSlot::Opaque => false,
            },
{
}

} // verus!
