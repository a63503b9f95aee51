//! Moments that a linear causal model implies.
//!
//! SPDX-License-Identifier: MIT OR Apache-2.0

use crate::attribution::amount::Amount;
use crate::attribution::error::AttributionError;
use crate::attribution::model::{CausalModel, MechanismSlot, ModelView};
use crate::attribution::shapley;
use crate::ids::DenseNodeId;
use vstd::prelude::*;

verus! {

/// Coefficient of a parent; zero where none was fitted.
pub open spec fn coefficient<N: Amount>(coeffs: Seq<N>, i: int) -> N {
    if i < coeffs.len() {
        coeffs[i]
    } else {
        N::nil()
    }
}

/// Coefficient of a parent; zero where none was fitted.
fn coefficient_at<N: Amount>(coeffs: &Vec<N>, i: usize) -> (value: N)
    ensures
        value == coefficient(coeffs@, i as int),
{
    if i < coeffs.len() {
        coeffs[i]
    } else {
        N::zero()
    }
}

/// Terms of a weighted mean over listed values: value times weight over the total.
pub open spec fn mean_terms<N: Amount>(support: Seq<N>, probs: Seq<N>) -> Seq<N> {
    let mass = shapley::total(probs);
    Seq::new(
        paired(support, probs),
        |i: int| support[i].times(probs[i]).over(mass),
    )
}

/// Number of values that have a weight.
pub open spec fn paired<N>(support: Seq<N>, probs: Seq<N>) -> nat {
    if support.len() <= probs.len() {
        support.len()
    } else {
        probs.len()
    }
}

/// Terms of a weighted variance over listed values.
pub open spec fn spread_terms<N: Amount>(support: Seq<N>, probs: Seq<N>, mean: N) -> Seq<N> {
    let mass = shapley::total(probs);
    Seq::new(
        paired(support, probs),
        |i: int|
            support[i].minus(mean).times(support[i].minus(mean)).times(probs[i]).over(mass),
    )
}

/// Mean and variance of a choice among listed values; none where the weights have no
/// positive finite total.
pub open spec fn choice_moments<N: Amount>(support: Seq<N>, probs: Seq<N>) -> Option<(N, N)> {
    let mass = shapley::total(probs);
    if !N::nil().below(mass) || !mass.bounded() {
        None
    } else {
        let mean = shapley::total(mean_terms(support, probs));
        Some((mean, shapley::total(spread_terms(support, probs, mean))))
    }
}

/// Mean and variance of a choice among listed values.
fn moments_of_choice<N: Amount>(support: &Vec<N>, probs: &Vec<N>) -> (r: Option<(N, N)>)
    ensures
        r == choice_moments(support@, probs@),
{
    let mass = shapley::sum_of(probs.as_slice());
    if !N::zero().is_below(mass) || !mass.is_bounded() {
        return None;
    }
    let count: usize = if support.len() <= probs.len() {
        support.len()
    } else {
        probs.len()
    };
    let mut terms: Vec<N> = Vec::new();
    while terms.len() < count
        invariant
            count == paired(support@, probs@),
            mass == shapley::total(probs@),
            terms@.len() <= count,
            terms@ == mean_terms(support@, probs@).take(terms@.len() as int),
        decreases count - terms.len(),
    {
        let i: usize = terms.len();
        let term = support[i].product(probs[i]).quotient(mass);
        terms.push(term);
        assert(terms@ =~= mean_terms(support@, probs@).take(terms@.len() as int));
    }
    assert(terms@ =~= mean_terms(support@, probs@));
    let mean = shapley::sum_of(terms.as_slice());
    let mut spreads: Vec<N> = Vec::new();
    while spreads.len() < count
        invariant
            count == paired(support@, probs@),
            mass == shapley::total(probs@),
            spreads@.len() <= count,
            spreads@ == spread_terms(support@, probs@, mean).take(spreads@.len() as int),
        decreases count - spreads.len(),
    {
        let i: usize = spreads.len();
        let gap = support[i].difference(mean);
        let term = gap.product(gap).product(probs[i]).quotient(mass);
        spreads.push(term);
        assert(spreads@ =~= spread_terms(support@, probs@, mean).take(spreads@.len() as int));
    }
    assert(spreads@ =~= spread_terms(support@, probs@, mean));
    Some((mean, shapley::sum_of(spreads.as_slice())))
}

/// A mechanism as an equation: intercept, coefficients of the parents, and the variance it
/// adds on its own.
pub struct Equation<N> {
    /// Value where every parent is zero.
    pub intercept: N,
    /// Coefficients; empty where the parents play no part.
    pub coeffs: Seq<N>,
    /// Variance of the mechanism's own noise.
    pub noise: N,
    /// Whether the parents play a part.
    pub uses_parents: bool,
}

/// The equation of a mechanism, where it has one: linear mechanisms, constants, and choices
/// that do not depend on the parents.
pub open spec fn equation<N: Amount>(slot: MechanismSlot<N>) -> Option<Equation<N>> {
    match slot.linear() {
        Some(form) => Some(
            Equation {
                intercept: form.intercept,
                coeffs: form.coeffs,
                noise: form.sigma.times(form.sigma),
                uses_parents: true,
            },
        ),
        None => match slot {
            MechanismSlot::Constant { value } => Some(
                Equation {
                    intercept: value,
                    coeffs: Seq::empty(),
                    noise: N::nil(),
                    uses_parents: false,
                },
            ),
            MechanismSlot::Discrete { support, probs, logit_coeffs } => if logit_coeffs is Some {
                None
            } else {
                match choice_moments(support@, probs@) {
                    Some((mean, variance)) => Some(
                        Equation {
                            intercept: mean,
                            coeffs: Seq::empty(),
                            noise: variance,
                            uses_parents: false,
                        },
                    ),
                    None => None,
                }
            },
            _ => None,
        },
    }
}

/// A mechanism as an equation.
struct EquationParts<N> {
    intercept: N,
    coeffs: Vec<N>,
    noise: N,
    uses_parents: bool,
}

fn copied<N: Copy>(list: &Vec<N>) -> (copy: Vec<N>)
    ensures
        copy@ == list@,
{
    let mut copy: Vec<N> = Vec::new();
    let mut i: usize = 0;
    while i < list.len()
        invariant
            0 <= i <= list.len(),
            copy@ == list@.take(i as int),
        decreases list.len() - i,
    {
        copy.push(list[i]);
        i = i + 1;
        assert(copy@ =~= list@.take(i as int));
    }
    assert(list@.take(list@.len() as int) =~= list@);
    copy
}

fn equation_of<N: Amount>(slot: &MechanismSlot<N>) -> (r: Option<EquationParts<N>>)
    ensures
        match r {
            Some(parts) => equation(*slot) matches Some(eq) && eq.intercept == parts.intercept
                && eq.coeffs == parts.coeffs@ && eq.noise == parts.noise && eq.uses_parents
                == parts.uses_parents,
            None => equation(*slot) is None,
        },
{
    match slot.linear_parts() {
        Some((intercept, coeffs, sigma)) => Some(
            EquationParts {
                intercept,
                coeffs: copied(coeffs),
                noise: sigma.product(sigma),
                uses_parents: true,
            },
        ),
        None => match slot {
            MechanismSlot::Constant { value } => {
                let coeffs: Vec<N> = Vec::new();
                assert(coeffs@ =~= Seq::empty());
                Some(
                    EquationParts {
                        intercept: *value,
                        coeffs,
                        noise: N::zero(),
                        uses_parents: false,
                    },
                )
            },
            MechanismSlot::Discrete { support, probs, logit_coeffs } => if logit_coeffs.is_some() {
                None
            } else {
                match moments_of_choice(support, probs) {
                    Some((mean, variance)) => {
                        let coeffs: Vec<N> = Vec::new();
                        assert(coeffs@ =~= Seq::empty());
                        Some(
                            EquationParts {
                                intercept: mean,
                                coeffs,
                                noise: variance,
                                uses_parents: false,
                            },
                        )
                    },
                    None => None,
                }
            },
            _ => None,
        },
    }
}

/// Sum of the first `k` coefficients times what their parents have.
pub open spec fn weighted<N: Amount>(
    coeffs: Seq<N>,
    parents: Seq<DenseNodeId>,
    of: spec_fn(int) -> N,
    start: N,
    k: nat,
) -> N
    decreases k,
{
    if k == 0 {
        start
    } else {
        weighted(coeffs, parents, of, start, (k - 1) as nat).plus(
            coefficient(coeffs, k - 1).times(of(parents[k - 1].raw as int)),
        )
    }
}

/// Parents that play a part in an equation.
pub open spec fn inputs<N>(eq: Equation<N>, parents: Seq<DenseNodeId>) -> nat {
    if eq.uses_parents {
        parents.len()
    } else {
        0
    }
}

/// Means of the nodes that come first in the order.
pub open spec fn means<N: Amount>(
    model: ModelView,
    slots: spec_fn(int) -> MechanismSlot<N>,
    k: nat,
) -> spec_fn(int) -> N
    decreases k,
{
    if k == 0 {
        |x: int| N::nil()
    } else {
        let before = means(model, slots, (k - 1) as nat);
        let node = model.child(k - 1);
        let eq = equation(slots(node))->0;
        let parents = model.parents(k - 1);
        let own = weighted(eq.coeffs, parents, before, eq.intercept, inputs(eq, parents));
        |x: int|
            if x == node {
                own
            } else {
                before(x)
            }
    }
}

/// Covariance of a new node with an earlier one.
pub open spec fn cross<N: Amount>(
    eq: Equation<N>,
    parents: Seq<DenseNodeId>,
    cov: spec_fn(int, int) -> N,
    other: int,
) -> N {
    weighted(
        eq.coeffs,
        parents,
        |p: int| cov(p, other),
        N::nil(),
        inputs(eq, parents),
    )
}

/// Contribution of the parents to a variance: row `a` up to column `k`.
pub open spec fn variance_row<N: Amount>(
    coeffs: Seq<N>,
    parents: Seq<DenseNodeId>,
    cov: spec_fn(int, int) -> N,
    start: N,
    a: int,
    k: nat,
) -> N
    decreases k,
{
    if k == 0 {
        start
    } else {
        variance_row(coeffs, parents, cov, start, a, (k - 1) as nat).plus(
            coefficient(coeffs, a).times(coefficient(coeffs, k - 1)).times(
                cov(parents[a].raw as int, parents[k - 1].raw as int),
            ),
        )
    }
}

/// Contribution of the parents to a variance: the first `a` rows of `width`.
pub open spec fn variance_rows<N: Amount>(
    coeffs: Seq<N>,
    parents: Seq<DenseNodeId>,
    cov: spec_fn(int, int) -> N,
    start: N,
    a: nat,
    width: nat,
) -> N
    decreases a,
{
    if a == 0 {
        start
    } else {
        variance_row(
            coeffs,
            parents,
            cov,
            variance_rows(coeffs, parents, cov, start, (a - 1) as nat, width),
            a - 1,
            width,
        )
    }
}

/// Covariances of the nodes that come first in the order; zero elsewhere.
pub open spec fn covariances<N: Amount>(
    model: ModelView,
    slots: spec_fn(int) -> MechanismSlot<N>,
    k: nat,
) -> spec_fn(int, int) -> N
    decreases k,
{
    if k == 0 {
        |x: int, y: int| N::nil()
    } else {
        let before = covariances(model, slots, (k - 1) as nat);
        let node = model.child(k - 1);
        let eq = equation(slots(node))->0;
        let parents = model.parents(k - 1);
        let width = inputs(eq, parents);
        let around = crossed(before, model, eq, k - 1, k - 1);
        let own = variance_rows(eq.coeffs, parents, around, eq.noise, width, width);
        |x: int, y: int|
            if x == node && y == node {
                own
            } else {
                around(x, y)
            }
    }
}

/// Covariances once a new node's covariances with the first `t` ones are in place.
pub open spec fn crossed<N: Amount>(
    before: spec_fn(int, int) -> N,
    model: ModelView,
    eq: Equation<N>,
    k: int,
    t: int,
) -> spec_fn(int, int) -> N {
    let node = model.child(k);
    let parents = model.parents(k);
    |x: int, y: int|
        if x == node && model.comes_before(y, t) {
            cross(eq, parents, before, y)
        } else if y == node && model.comes_before(x, t) {
            cross(eq, parents, before, x)
        } else {
            before(x, y)
        }
}

/// Every mechanism of the model has an equation.
pub open spec fn solvable<N: Amount>(
    model: ModelView,
    slots: spec_fn(int) -> MechanismSlot<N>,
) -> bool {
    forall|k: int|
        0 <= k < model.nodes() ==> equation(slots(#[trigger] model.child(k))) is Some
}

/// The covariance of two nodes does not depend on their order.
pub proof fn law_covariances_are_symmetric<N: Amount>(
    model: ModelView,
    slots: spec_fn(int) -> MechanismSlot<N>,
    k: nat,
    x: int,
    y: int,
)
    requires
        model.well_formed(),
        k <= model.nodes(),
    ensures
        covariances(model, slots, k)(x, y) == covariances(model, slots, k)(y, x),
    decreases k,
{
    if k > 0 {
        law_covariances_are_symmetric(model, slots, (k - 1) as nat, x, y);
        let node = model.child(k - 1);
        assert(!model.comes_before(node, k - 1)) by {
            reveal(ModelView::comes_before);
            assert forall|j: int| 0 <= j < k - 1 implies #[trigger] model.child(j) != node by {
                assert(model.child(j) != model.child(k - 1));
            }
        }
    }
}

/// Fitted mechanisms by node.
pub open spec fn by_node<N>(slots: Seq<&MechanismSlot<N>>) -> spec_fn(int) -> MechanismSlot<N> {
    |i: int| *slots[i]
}

fn square<N: Amount>(n: usize) -> (rows: Vec<Vec<N>>)
    ensures
        rows@.len() == n,
        forall|x: int| 0 <= x < n ==> (#[trigger] rows@[x])@.len() == n,
        forall|x: int, y: int|
            0 <= x < n && 0 <= y < n ==> #[trigger] rows@[x]@[y] == N::nil(),
{
    let mut rows: Vec<Vec<N>> = Vec::new();
    while rows.len() < n
        invariant
            rows@.len() <= n,
            forall|x: int| 0 <= x < rows@.len() ==> (#[trigger] rows@[x])@.len() == n,
            forall|x: int, y: int|
                0 <= x < rows@.len() && 0 <= y < n ==> #[trigger] rows@[x]@[y] == N::nil(),
        decreases n - rows.len(),
    {
        let mut row: Vec<N> = Vec::new();
        while row.len() < n
            invariant
                row@.len() <= n,
                forall|y: int| 0 <= y < row@.len() ==> #[trigger] row@[y] == N::nil(),
            decreases n - row.len(),
        {
            row.push(N::zero());
        }
        rows.push(row);
    }
    rows
}

/// The table holds the covariances.
#[verifier::opaque]
spec fn holds<N>(rows: Seq<Vec<N>>, cov: spec_fn(int, int) -> N, n: nat) -> bool {
    &&& rows.len() == n
    &&& forall|x: int| 0 <= x < n ==> (#[trigger] rows[x])@.len() == n
    &&& forall|x: int, y: int| 0 <= x < n && 0 <= y < n ==> #[trigger] rows[x]@[y] == cov(x, y)
}

fn read<N: Amount>(
    rows: &Vec<Vec<N>>,
    x: usize,
    y: usize,
    Ghost(cov): Ghost<spec_fn(int, int) -> N>,
    Ghost(n): Ghost<nat>,
) -> (value: N)
    requires
        holds(rows@, cov, n),
        x < n,
        y < n,
    ensures
        value == cov(x as int, y as int),
{
    proof {
        reveal(holds);
        assert(rows@[x as int]@.len() == n);
    }
    rows[x][y]
}

fn write<N: Amount>(
    rows: &mut Vec<Vec<N>>,
    x: usize,
    y: usize,
    value: N,
    Ghost(cov): Ghost<spec_fn(int, int) -> N>,
    Ghost(n): Ghost<nat>,
)
    requires
        holds(old(rows)@, cov, n),
        x < n,
        y < n,
    ensures
        holds(
            final(rows)@,
            |a: int, b: int|
                if a == x && b == y {
                    value
                } else {
                    cov(a, b)
                },
            n,
        ),
{
    proof {
        reveal(holds);
        assert(rows@[x as int]@.len() == n);
    }
    rows[x][y] = value;
    proof {
        assert forall|a: int| 0 <= a < n implies (#[trigger] rows@[a])@.len() == n by {
            assert(old(rows)@[a]@.len() == n);
        }
        assert forall|a: int, b: int| 0 <= a < n && 0 <= b < n implies #[trigger] rows@[a]@[b]
            == (|a: int, b: int|
            if a == x && b == y {
                value
            } else {
                cov(a, b)
            })(a, b) by {
            assert(old(rows)@[a]@[b] == cov(a, b));
            assert(old(rows)@[a]@.len() == n);
        }
    }
}

proof fn lemma_holds_same<N>(
    rows: Seq<Vec<N>>,
    a: spec_fn(int, int) -> N,
    b: spec_fn(int, int) -> N,
    n: nat,
)
    requires
        holds(rows, a, n),
        forall|x: int, y: int| 0 <= x < n && 0 <= y < n ==> #[trigger] a(x, y) == b(x, y),
    ensures
        holds(rows, b, n),
{
    reveal(holds);
}

/// The node at a place does not come before it.
proof fn lemma_not_before_itself(model: ModelView, k: int)
    requires
        model.well_formed(),
        0 <= k < model.nodes(),
    ensures
        forall|t: int| t <= k ==> !(#[trigger] model.comes_before(model.child(k), t)),
{
    reveal(ModelView::comes_before);
    assert forall|t: int| t <= k implies !(#[trigger] model.comes_before(model.child(k), t)) by {
        assert forall|j: int| 0 <= j < t implies #[trigger] model.child(j) != model.child(k) by {
            assert(model.child(j) != model.child(k));
        }
    }
}

proof fn lemma_before_step(model: ModelView, t: int, x: int)
    requires
        t >= 0,
    ensures
        model.comes_before(x, t + 1) == (x == model.child(t) || model.comes_before(x, t)),
{
    reveal(ModelView::comes_before);
    if model.comes_before(x, t + 1) {
        let j = choose|j: int| 0 <= j < t + 1 && #[trigger] model.child(j) == x;
        if j < t {
            assert(0 <= j < t && model.child(j) == x);
        }
    }
    if model.comes_before(x, t) {
        let j = choose|j: int| 0 <= j < t && #[trigger] model.child(j) == x;
        assert(0 <= j < t + 1 && model.child(j) == x);
    }
    if x == model.child(t) {
        assert(0 <= t < t + 1 && model.child(t) == x);
    }
}

/// Put a new node's covariances with the earlier ones in place.
fn add_crossed<N: Amount>(
    rows: &mut Vec<Vec<N>>,
    model: &CausalModel,
    k: usize,
    parts: &EquationParts<N>,
    Ghost(eq): Ghost<Equation<N>>,
    Ghost(before): Ghost<spec_fn(int, int) -> N>,
)
    requires
        model@.well_formed(),
        k < model@.nodes(),
        eq.coeffs == parts.coeffs@,
        eq.uses_parents == parts.uses_parents,
        holds(old(rows)@, before, model@.nodes()),
    ensures
        holds(final(rows)@, crossed(before, model@, eq, k as int, k as int), model@.nodes()),
{
    let ghost n = model@.nodes();
    let node: usize = model.gathers[k].child.raw as usize;
    let parents = &model.gathers[k].parents;
    let ghost listed = model@.parents(k as int);
    let width: usize = if parts.uses_parents {
        parents.len()
    } else {
        0
    };
    proof {
        assert(model@.child(k as int) == node);
        assert(model@.child(k as int) < n);
        lemma_not_before_itself(model@, k as int);
        assert forall|x: int| !(#[trigger] model@.comes_before(x, 0)) by {
            reveal(ModelView::comes_before);
        }
        lemma_holds_same(rows@, before, crossed(before, model@, eq, k as int, 0), n);
    }
    let mut t: usize = 0;
    while t < k
        invariant
            0 <= t <= k < n,
            n == model@.nodes(),
            model@.well_formed(),
            model@.child(k as int) == node,
            node < n,
            listed == model@.parents(k as int),
            parents@ == listed,
            eq.coeffs == parts.coeffs@,
            eq.uses_parents == parts.uses_parents,
            width == inputs(eq, listed),
            forall|t: int| t <= k ==> !(#[trigger] model@.comes_before(node as int, t)),
            holds(rows@, crossed(before, model@, eq, k as int, t as int), n),
        decreases k - t,
    {
        let other: usize = model.gathers[t].child.raw as usize;
        let ghost now = crossed(before, model@, eq, k as int, t as int);
        let ghost column = |p: int| before(p, other as int);
        proof {
            assert(model@.child(t as int) == other);
            assert(model@.child(t as int) < n);
            assert(model@.child(t as int) != model@.child(k as int));
        }
        let mut c = N::zero();
        let mut i: usize = 0;
        while i < width
            invariant
                0 <= i <= width,
                t < k < n,
                n == model@.nodes(),
                model@.well_formed(),
                model@.child(k as int) == node,
                node < n,
                other < n,
                other != node,
                listed == model@.parents(k as int),
                parents@ == listed,
                eq.coeffs == parts.coeffs@,
                width <= listed.len(),
                now == crossed(before, model@, eq, k as int, t as int),
                column == (|p: int| before(p, other as int)),
                holds(rows@, now, n),
                forall|t: int| t <= k ==> !(#[trigger] model@.comes_before(node as int, t)),
                c == weighted(eq.coeffs, listed, column, N::nil(), i as nat),
            decreases width - i,
        {
            let parent: usize = parents[i].raw as usize;
            proof {
                assert(listed[i as int].raw < n);
                assert(model@.comes_before(listed[i as int].raw as int, k as int));
                assert(parent != node);
            }
            let value = read(rows, parent, other, Ghost(now), Ghost(n));
            c = c.sum(coefficient_at(&parts.coeffs, i).product(value));
            i = i + 1;
        }
        assert(c == cross(eq, listed, before, other as int));
        write(rows, node, other, c, Ghost(now), Ghost(n));
        let ghost half = |a: int, b: int|
            if a == node && b == other {
                c
            } else {
                now(a, b)
            };
        write(rows, other, node, c, Ghost(half), Ghost(n));
        proof {
            let next = crossed(before, model@, eq, k as int, t + 1);
            let full = |a: int, b: int|
                if a == other && b == node {
                    c
                } else {
                    half(a, b)
                };
            assert forall|x: int, y: int| 0 <= x < n && 0 <= y < n implies #[trigger] full(x, y)
                == next(x, y) by {
                lemma_before_step(model@, t as int, x);
                lemma_before_step(model@, t as int, y);
            }
            lemma_holds_same(rows@, full, next, n);
        }
        t = t + 1;
    }
}

/// Variance of a new node.
fn variance_of<N: Amount>(
    rows: &Vec<Vec<N>>,
    model: &CausalModel,
    k: usize,
    parts: &EquationParts<N>,
    Ghost(eq): Ghost<Equation<N>>,
    Ghost(cov): Ghost<spec_fn(int, int) -> N>,
) -> (own: N)
    requires
        model@.well_formed(),
        k < model@.nodes(),
        eq.coeffs == parts.coeffs@,
        eq.noise == parts.noise,
        eq.uses_parents == parts.uses_parents,
        holds(rows@, cov, model@.nodes()),
    ensures
        own == variance_rows(
            eq.coeffs,
            model@.parents(k as int),
            cov,
            eq.noise,
            inputs(eq, model@.parents(k as int)),
            inputs(eq, model@.parents(k as int)),
        ),
{
    let ghost n = model@.nodes();
    let parents = &model.gathers[k].parents;
    let ghost listed = model@.parents(k as int);
    let width: usize = if parts.uses_parents {
        parents.len()
    } else {
        0
    };
    let mut own = parts.noise;
    let mut a: usize = 0;
    while a < width
        invariant
            0 <= a <= width <= listed.len(),
            k < n,
            n == model@.nodes(),
            model@.well_formed(),
            listed == model@.parents(k as int),
            parents@ == listed,
            eq.coeffs == parts.coeffs@,
            holds(rows@, cov, n),
            own == variance_rows(eq.coeffs, listed, cov, eq.noise, a as nat, width as nat),
        decreases width - a,
    {
        let ghost start = own;
        let first: usize = parents[a].raw as usize;
        let mut b: usize = 0;
        while b < width
            invariant
                0 <= b <= width <= listed.len(),
                a < width,
                k < n,
                n == model@.nodes(),
                model@.well_formed(),
                listed == model@.parents(k as int),
                parents@ == listed,
                eq.coeffs == parts.coeffs@,
                first == listed[a as int].raw,
                holds(rows@, cov, n),
                own == variance_row(eq.coeffs, listed, cov, start, a as int, b as nat),
            decreases width - b,
        {
            let second: usize = parents[b].raw as usize;
            proof {
                assert(listed[a as int].raw < n);
                assert(listed[b as int].raw < n);
            }
            let value = read(rows, first, second, Ghost(cov), Ghost(n));
            own = own.sum(
                coefficient_at(&parts.coeffs, a).product(coefficient_at(&parts.coeffs, b)).product(
                    value,
                ),
            );
            b = b + 1;
        }
        a = a + 1;
    }
    own
}

/// Variances of all nodes that a model implies: a node's variance is its own noise and, for
/// every two parents, the product of their coefficients with their covariance.
///
/// A mechanism without an equation makes the variances unavailable.
pub fn model_implied_variances<N: Amount>(
    model: &CausalModel,
    slots: &Vec<&MechanismSlot<N>>,
) -> (r: Result<Vec<N>, AttributionError>)
    requires
        model@.well_formed(),
        slots@.len() == model@.nodes(),
    ensures
        match r {
            Ok(variances) => {
                &&& solvable(model@, by_node(slots@))
                &&& variances@ == Seq::new(
                    model@.nodes(),
                    |x: int| covariances(model@, by_node(slots@), model@.nodes())(x, x),
                )
            },
            Err(error) => !solvable(model@, by_node(slots@)) && error
                == AttributionError::NonLinearGaussianMechanism,
        },
{
    let n: usize = model.n_nodes();
    let ghost fitted = by_node(slots@);
    let mut rows: Vec<Vec<N>> = square(n);
    proof {
        reveal(holds);
        assert(holds(rows@, covariances(model@, fitted, 0), n as nat));
    }
    let mut k: usize = 0;
    while k < n
        invariant
            0 <= k <= n,
            n == model@.nodes(),
            model@.well_formed(),
            slots@.len() == n,
            fitted == by_node(slots@),
            forall|j: int|
                0 <= j < k ==> equation(fitted(#[trigger] model@.child(j))) is Some,
            holds(rows@, covariances(model@, fitted, k as nat), n as nat),
        decreases n - k,
    {
        let node: usize = model.gathers[k].child.raw as usize;
        proof {
            assert(model@.child(k as int) == node);
            assert(model@.child(k as int) < n);
        }
        let parts = match equation_of(slots[node]) {
            Some(parts) => parts,
            None => {
                assert(equation(fitted(model@.child(k as int))) is None);
                return Err(AttributionError::NonLinearGaussianMechanism);
            },
        };
        let ghost eq = equation(fitted(node as int))->0;
        let ghost before = covariances(model@, fitted, k as nat);
        let ghost around = crossed(before, model@, eq, k as int, k as int);
        add_crossed(&mut rows, model, k, &parts, Ghost(eq), Ghost(before));
        let own = variance_of(&rows, model, k, &parts, Ghost(eq), Ghost(around));
        write(&mut rows, node, node, own, Ghost(around), Ghost(n as nat));
        proof {
            let next = covariances(model@, fitted, (k + 1) as nat);
            let now = |a: int, b: int|
                if a == node && b == node {
                    own
                } else {
                    around(a, b)
                };
            assert forall|x: int, y: int| 0 <= x < n && 0 <= y < n implies #[trigger] now(x, y)
                == next(x, y) by {}
            lemma_holds_same(rows@, now, next, n as nat);
        }
        k = k + 1;
    }
    let mut variances: Vec<N> = Vec::new();
    let ghost cov = covariances(model@, fitted, n as nat);
    while variances.len() < n
        invariant
            variances@.len() <= n,
            holds(rows@, cov, n as nat),
            variances@ == Seq::new(variances@.len(), |x: int| cov(x, x)),
        decreases n - variances.len(),
    {
        let x: usize = variances.len();
        let value = read(&rows, x, x, Ghost(cov), Ghost(n as nat));
        variances.push(value);
        assert(variances@ =~= Seq::new(variances@.len(), |x: int| cov(x, x)));
    }
    Ok(variances)
}

/// Means of all nodes that a model implies.
pub fn model_implied_means<N: Amount>(
    model: &CausalModel,
    slots: &Vec<&MechanismSlot<N>>,
) -> (r: Result<Vec<N>, AttributionError>)
    requires
        model@.well_formed(),
        slots@.len() == model@.nodes(),
    ensures
        match r {
            Ok(found) => {
                &&& solvable(model@, by_node(slots@))
                &&& found@ == Seq::new(
                    model@.nodes(),
                    |x: int| means(model@, by_node(slots@), model@.nodes())(x),
                )
            },
            Err(error) => !solvable(model@, by_node(slots@)) && error
                == AttributionError::NonLinearGaussianMechanism,
        },
{
    let n: usize = model.n_nodes();
    let ghost fitted = by_node(slots@);
    let mut found: Vec<N> = Vec::new();
    while found.len() < n
        invariant
            found@.len() <= n,
            forall|x: int| 0 <= x < found@.len() ==> #[trigger] found@[x] == N::nil(),
        decreases n - found.len(),
    {
        found.push(N::zero());
    }
    let mut k: usize = 0;
    while k < n
        invariant
            0 <= k <= n,
            n == model@.nodes(),
            model@.well_formed(),
            slots@.len() == n,
            found@.len() == n,
            fitted == by_node(slots@),
            forall|j: int|
                0 <= j < k ==> equation(fitted(#[trigger] model@.child(j))) is Some,
            forall|x: int|
                0 <= x < n ==> #[trigger] found@[x] == means(model@, fitted, k as nat)(x),
        decreases n - k,
    {
        let node: usize = model.gathers[k].child.raw as usize;
        let parents = &model.gathers[k].parents;
        let ghost listed = model@.parents(k as int);
        proof {
            assert(model@.child(k as int) == node);
            assert(model@.child(k as int) < n);
        }
        let parts = match equation_of(slots[node]) {
            Some(parts) => parts,
            None => {
                assert(equation(fitted(model@.child(k as int))) is None);
                return Err(AttributionError::NonLinearGaussianMechanism);
            },
        };
        let ghost eq = equation(fitted(node as int))->0;
        let ghost before = means(model@, fitted, k as nat);
        let width: usize = if parts.uses_parents {
            parents.len()
        } else {
            0
        };
        let mut own = parts.intercept;
        let mut i: usize = 0;
        while i < width
            invariant
                0 <= i <= width <= listed.len(),
                k < n,
                n == model@.nodes(),
                model@.well_formed(),
                found@.len() == n,
                listed == model@.parents(k as int),
                parents@ == listed,
                eq.coeffs == parts.coeffs@,
                eq.intercept == parts.intercept,
                forall|x: int| 0 <= x < n ==> #[trigger] found@[x] == before(x),
                own == weighted(eq.coeffs, listed, before, eq.intercept, i as nat),
            decreases width - i,
        {
            let parent: usize = parents[i].raw as usize;
            assert(listed[i as int].raw < n);
            own = own.sum(coefficient_at(&parts.coeffs, i).product(found[parent]));
            i = i + 1;
        }
        found.set(node, own);
        k = k + 1;
    }
    assert(found@ =~= Seq::new(
        model@.nodes(),
        |x: int| means(model@, by_node(slots@), model@.nodes())(x),
    ));
    Ok(found)
}

} // verus!
