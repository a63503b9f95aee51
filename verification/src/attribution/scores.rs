//! What scores of anomalies, their shares, and strengths of arrows amount to.
//!
//! Where a law is about numbers, it is about exact arithmetic: a valuation reads the numbers of
//! a computation as real numbers.
//!
//! SPDX-License-Identifier: MIT OR Apache-2.0

use crate::attribution::amount::Amount;
use crate::attribution::anomaly;
use crate::attribution::anomaly::{ArrowStrength, OutlierTail};
use crate::attribution::arrange;
use crate::attribution::arrange::Placed;
use crate::attribution::coalition;
use crate::attribution::distribution;
use crate::attribution::efficiency;
use crate::attribution::engine::Engine;
use crate::attribution::error::AttributionError;
use crate::attribution::fairness;
use crate::attribution::implied;
use crate::attribution::model::{LinearForm, MechanismSlot, ModelView};
use crate::attribution::moments;
use crate::attribution::shapley;
use crate::attribution::table;
use crate::attribution::table::NodeTable;
use crate::order;
use vstd::arithmetic::power2;
use vstd::prelude::*;

verus! {

/// A valuation that respects absolute values.
pub open spec fn reads_sizes<N: Amount>(val: spec_fn(N) -> real) -> bool {
    forall|a: N| #[trigger]
        val(a.size()) == if val(a) < 0 as real {
            -val(a)
        } else {
            val(a)
        }
}

/// Twice the median of values in order is the sum of the two in the middle, which are one where
/// their number is odd.
pub proof fn law_medians_lie_in_the_middle<N: Amount>(val: spec_fn(N) -> real, sorted: Seq<N>)
    requires
        efficiency::is_exact(val),
        sorted.len() > 0,
    ensures
        (2 as real) * val(anomaly::median(sorted)) == val(sorted[(sorted.len() - 1) / 2]) + val(
            sorted[sorted.len() as int / 2],
        ),
{
    let n = sorted.len() as int;
    if n % 2 == 1 {
        assert((n - 1) / 2 == n / 2);
    } else {
        assert((n - 1) / 2 == n / 2 - 1);
        let a = sorted[n / 2 - 1];
        let b = sorted[n / 2];
        let one = N::counted(1);
        let two = N::counted(2);
        let half = one.over(two);
        assert(val(half) * val(two) == val(one));
        assert(val(two) == 2 as real);
        let middle = half.times(a.plus(b));
        assert(val(middle) == val(half) * val(a.plus(b)));
        efficiency::real_regroups(val(half), val(a) + val(b), 2 as real);
        efficiency::real_regroups(val(half), 2 as real, val(a) + val(b));
        efficiency::real_units(val(a) + val(b));
        efficiency::real_regroups(val(a) + val(b), 2 as real, 0 as real);
        assert(val(half) * (2 as real) == 1 as real);
        assert(val(middle) * (2 as real) == val(a) + val(b));
        efficiency::real_regroups(val(middle), 2 as real, 0 as real);
        assert(anomaly::median(sorted) == middle);
    }
}

/// The spread of distances is their median times 1.482602218505602 where that is positive, else
/// their mean where that is, and else one: it is always positive.
pub proof fn law_spreads_are_positive<N: Amount>(val: spec_fn(N) -> real, distances: Seq<N>)
    requires
        efficiency::is_exact(val),
        moments::is_ordered(val),
        distances.len() > 0,
    ensures
        val(anomaly::spread(distances)) > 0 as real,
        val(anomaly::median(distances)) > 0 as real ==> val(anomaly::spread(distances))
            * (1_000_000_000_000_000 as real) == (1_482_602_218_505_602 as real) * val(
            anomaly::median(distances),
        ),
        val(anomaly::median(distances)) <= 0 as real && efficiency::sum(
            |i: int| val(distances[i]),
            distances.len(),
        ) > 0 as real ==> val(anomaly::spread(distances)) * (distances.len() as real)
            == efficiency::sum(|i: int| val(distances[i]), distances.len()),
        val(anomaly::median(distances)) <= 0 as real && efficiency::sum(
            |i: int| val(distances[i]),
            distances.len(),
        ) <= 0 as real ==> val(anomaly::spread(distances)) == 1 as real,
{
    let mad = anomaly::median(distances);
    let n = distances.len();
    let all = shapley::total(distances);
    let count = N::counted(n);
    let mean = all.over(count);
    fairness::lemma_total_is_sum(val, distances);
    assert(val(mean) * val(count) == val(all));
    assert(val(count) == n as real);
    lemma_sign_of_quotient(val(mean), n as real, val(all));
    if val(mad) > 0 as real {
        let top = N::counted(1_482_602_218_505_602);
        let bottom = N::counted(1_000_000_000_000_000);
        let factor = top.over(bottom);
        assert(val(factor) * val(bottom) == val(top));
        assert(anomaly::spread(distances) == factor.times(mad));
        assert(val(factor.times(mad)) == val(factor) * val(mad));
        efficiency::real_regroups(val(factor), val(mad), val(bottom));
        efficiency::real_regroups(val(mad), val(bottom), 0 as real);
        efficiency::real_regroups(val(factor), val(bottom), val(mad));
        lemma_sign_of_quotient(val(factor), val(bottom), val(top));
        lemma_product_is_positive(val(factor), val(mad));
    }
}

proof fn lemma_sign_of_quotient(a: real, b: real, c: real)
    requires
        a * b == c,
        b > 0 as real,
    ensures
        a > 0 as real <==> c > 0 as real,
{
    if a > 0 as real {
        lemma_product_is_positive(a, b);
    }
    if a < 0 as real {
        lemma_product_is_positive(-a, b);
        assert((-a) * b == -(a * b)) by (nonlinear_arith);
    }
    if a == 0 as real {
        efficiency::real_units(b);
    }
}

proof fn lemma_product_is_positive(a: real, b: real)
    requires
        a > 0 as real,
        b > 0 as real,
    ensures
        a * b > 0 as real,
{
    assert(a * b > 0 as real) by (nonlinear_arith)
        requires
            a > 0 as real,
            b > 0 as real,
    ;
}

/// Distances from a centre, read as real numbers, and their absolute total.
pub proof fn law_distances_are_absolute<N: Amount>(
    val: spec_fn(N) -> real,
    values: Seq<N>,
    center: N,
    i: int,
)
    requires
        efficiency::is_exact(val),
        reads_sizes(val),
        0 <= i < values.len(),
    ensures
        anomaly::deviations(values, center).len() == values.len(),
        val(anomaly::deviations(values, center)[i]) == if val(values[i]) < val(center) {
            val(center) - val(values[i])
        } else {
            val(values[i]) - val(center)
        },
        val(anomaly::absolute_total(values)) == efficiency::sum(
            |j: int|
                if val(values[j]) < 0 as real {
                    -val(values[j])
                } else {
                    val(values[j])
                },
            values.len(),
        ),
{
    let sizes = values.map_values(|v: N| v.size());
    fairness::lemma_total_is_sum(val, sizes);
    efficiency::lemma_sum_same(
        |j: int| val(sizes[j]),
        |j: int|
            if val(values[j]) < 0 as real {
                -val(values[j])
            } else {
                val(values[j])
            },
        values.len(),
    );
}

/// The reference of values has, for its centre, the median of the finite ones in order and, for
/// its scale, the spread of their distances from it in order. Without a finite value the centre
/// is zero and the scale one.
pub proof fn law_references_describe_the_finite_values<N: Amount>(
    values: Seq<N>,
    sorted: Seq<N>,
    distances: Seq<N>,
)
    requires
        arrange::is_weak_order::<N>(),
        sorted == arrange::arranged(anomaly::finite(values)),
        distances == arrange::arranged(
            anomaly::deviations(sorted, anomaly::reference(values).center),
        ),
    ensures
        anomaly::finite(values).len() > 0 ==> anomaly::reference(values) == (OutlierTail {
            center: anomaly::median(sorted),
            scale: anomaly::spread(distances),
        }),
        anomaly::finite(values).len() == 0 ==> anomaly::reference(values) == (OutlierTail {
            center: N::nil(),
            scale: N::counted(1),
        }),
        forall|i: int, j: int|
            #![trigger sorted[i], sorted[j]]
            0 <= i < j < sorted.len() ==> !sorted[j].below(sorted[i]),
        forall|i: int, j: int|
            #![trigger distances[i], distances[j]]
            0 <= i < j < distances.len() ==> !distances[j].below(distances[i]),
        forall|v: N| #[trigger] sorted.contains(v) <==> values.contains(v) && v.bounded(),
        sorted.len() == anomaly::finite(values).len(),
{
    let kept = anomaly::finite(values);
    arrange::law_arranging_keeps_values(kept);
    arrange::law_arranged_values_are_in_order(kept);
    arrange::law_arranged_values_are_in_order(
        anomaly::deviations(sorted, anomaly::reference(values).center),
    );
    assert forall|i: int, j: int|
        #![trigger sorted[i], sorted[j]]
        0 <= i < j < sorted.len() implies !sorted[j].below(sorted[i]) by {
        assert(!sorted[j].goes_before(sorted[i]));
    }
    assert forall|i: int, j: int|
        #![trigger distances[i], distances[j]]
        0 <= i < j < distances.len() implies !distances[j].below(distances[i]) by {
        assert(!distances[j].goes_before(distances[i]));
    }
    let keep = |v: N| v.bounded();
    assert forall|v: N| #[trigger] sorted.contains(v) <==> values.contains(v) && v.bounded() by {
        order::lemma_same_members(sorted, kept, v);
        lemma_kept(values, keep, v);
    }
}

proof fn lemma_kept<N>(list: Seq<N>, keep: spec_fn(N) -> bool, v: N)
    ensures
        list.filter(keep).contains(v) <==> list.contains(v) && keep(v),
    decreases list.len(),
{
    reveal(Seq::filter);
    if list.len() > 0 {
        let rest = list.drop_last();
        lemma_kept(rest, keep, v);
        let last = list.last();
        assert(list.contains(v) <==> rest.contains(v) || v == last) by {
            if rest.contains(v) {
                let i = choose|i: int| 0 <= i < rest.len() && rest[i] == v;
                assert(list[i] == v);
            }
            if list.contains(v) && v != last {
                let i = choose|i: int| 0 <= i < list.len() && list[i] == v;
                assert(rest[i] == v);
            }
            assert(list[list.len() - 1] == last);
        }
        let before = rest.filter(keep);
        if keep(last) {
            let after = before.push(last);
            if before.contains(v) {
                let i = choose|i: int| 0 <= i < before.len() && before[i] == v;
                assert(after[i] == v);
            }
            assert(after[before.len() as int] == last);
            if after.contains(v) && v != last {
                let i = choose|i: int| 0 <= i < after.len() && after[i] == v;
                assert(before[i] == v);
            }
        }
    }
}

/// A finite value has the tail score of its distance from the centre at the scale, and any
/// other has none.
pub proof fn law_only_finite_values_score<N: Amount, E: Engine<N>>(
    engine: E,
    center: N,
    scale: N,
    value: N,
)
    ensures
        value.bounded() ==> anomaly::scored(engine, OutlierTail { center, scale }, value)
            == engine.tail(center, scale, value),
        !value.bounded() ==> anomaly::scored(engine, OutlierTail { center, scale }, value)
            == N::nil(),
{
}

/// Values satisfy a model: every node has what its mechanism makes of its parents' values and
/// its own noise.
pub open spec fn satisfies<N: Amount, E: Engine<N>>(
    engine: E,
    model: ModelView,
    slots: Seq<MechanismSlot<N>>,
    noise: Seq<N>,
    values: Seq<N>,
) -> bool {
    &&& values.len() == model.nodes()
    &&& forall|k: int|
        0 <= k < model.nodes() ==> engine.evaluated(
            slots[#[trigger] model.child(k)],
            Seq::new(
                model.parents(k).len(),
                |i: int| values[model.parents(k)[i].raw as int],
            ),
            noise[model.child(k)],
        ) == Ok::<N, AttributionError>(values[model.child(k)])
}

proof fn lemma_rebuilt_length<N: Amount, E: Engine<N>>(
    engine: E,
    model: ModelView,
    slots: Seq<MechanismSlot<N>>,
    noise: Seq<N>,
    k: nat,
)
    requires
        model.well_formed(),
        k <= model.nodes(),
        anomaly::rebuilt(engine, model, slots, noise, k) is Ok,
    ensures
        anomaly::rebuilt(engine, model, slots, noise, k)->Ok_0.len() == model.nodes(),
    decreases k,
{
    if k > 0 {
        assert(model.child(k - 1) < model.nodes());
        lemma_rebuilt_length(engine, model, slots, noise, (k - 1) as nat);
    }
}

proof fn lemma_rebuilt_stays<N: Amount, E: Engine<N>>(
    engine: E,
    model: ModelView,
    slots: Seq<MechanismSlot<N>>,
    noise: Seq<N>,
    k: nat,
    n: nat,
    x: int,
)
    requires
        model.well_formed(),
        k <= n <= model.nodes(),
        0 <= x < model.nodes(),
        forall|j: int| k <= j < n ==> #[trigger] model.child(j) != x,
        anomaly::rebuilt(engine, model, slots, noise, n) is Ok,
    ensures
        anomaly::rebuilt(engine, model, slots, noise, k) is Ok,
        anomaly::rebuilt(engine, model, slots, noise, n)->Ok_0[x] == anomaly::rebuilt(
            engine,
            model,
            slots,
            noise,
            k,
        )->Ok_0[x],
    decreases n,
{
    if k < n {
        assert(model.child(n - 1) != x);
        assert(model.child(n - 1) < model.nodes());
        lemma_rebuilt_length(engine, model, slots, noise, (n - 1) as nat);
        lemma_rebuilt_stays(engine, model, slots, noise, k, (n - 1) as nat, x);
    }
}

/// Values rebuilt from noise satisfy the model.
pub proof fn law_rebuilt_values_satisfy_the_model<N: Amount, E: Engine<N>>(
    engine: E,
    model: ModelView,
    slots: Seq<MechanismSlot<N>>,
    noise: Seq<N>,
    values: Seq<N>,
)
    requires
        model.well_formed(),
        anomaly::rebuilt(engine, model, slots, noise, model.nodes()) == Ok::<
            Seq<N>,
            AttributionError,
        >(values),
    ensures
        satisfies(engine, model, slots, noise, values),
{
    let n = model.nodes();
    lemma_rebuilt_length(engine, model, slots, noise, n);
    assert forall|k: int| 0 <= k < n implies engine.evaluated(
        slots[#[trigger] model.child(k)],
        Seq::new(model.parents(k).len(), |i: int| values[model.parents(k)[i].raw as int]),
        noise[model.child(k)],
    ) == Ok::<N, AttributionError>(values[model.child(k)]) by {
        let node = model.child(k);
        assert forall|j: int| k < j < n implies #[trigger] model.child(j) != node by {
            assert(model.child(k) != model.child(j));
        }
        lemma_rebuilt_stays(engine, model, slots, noise, (k + 1) as nat, n, node);
        let before = anomaly::rebuilt(engine, model, slots, noise, k as nat);
        lemma_rebuilt_length(engine, model, slots, noise, k as nat);
        let parents = model.parents(k);
        assert forall|i: int| 0 <= i < parents.len() implies before->Ok_0[(
        #[trigger] parents[i]).raw as int] == values[parents[i].raw as int] by {
            let p = model.parents(k)[i].raw as int;
            assert(model.comes_before(p, k));
            assert forall|j: int| k <= j < n implies #[trigger] model.child(j) != p by {
                reveal(ModelView::comes_before);
                let q = choose|q: int| 0 <= q < k && #[trigger] model.child(q) == p;
                assert(model.child(q) != model.child(j));
            }
            lemma_rebuilt_stays(engine, model, slots, noise, k as nat, n, p);
        }
        assert(anomaly::gathered(parents, before->Ok_0) =~= Seq::new(
            parents.len(),
            |i: int| values[parents[i].raw as int],
        ));
    }
}

/// A coalition keeps the noise of its members and of the nodes that do not play; the noise of
/// every other player is zero.
pub proof fn law_coalitions_keep_their_own_noise<N: Amount>(
    noise: NodeTable<N>,
    row: int,
    players: Seq<int>,
    mask: u64,
    x: int,
)
    requires
        0 <= x < noise.columns@.len(),
    ensures
        anomaly::coalition_noise(noise, row, players, mask).len() == noise.columns@.len(),
        !players.contains(x) ==> anomaly::coalition_noise(noise, row, players, mask)[x]
            == noise.columns@[x]@[row],
        forall|i: int|
            0 <= i < players.len() && #[trigger] players[i] == x && mask & (1u64 << (i as u64))
                == 0 ==> anomaly::coalition_noise(noise, row, players, mask)[x] == N::nil(),
        players.no_duplicates() ==> forall|i: int|
            0 <= i < players.len() && #[trigger] players[i] == x && mask & (1u64 << (i as u64))
                != 0 ==> anomaly::coalition_noise(noise, row, players, mask)[x]
                == noise.columns@[x]@[row],
{
    assert forall|i: int| #[trigger] coalition::member(mask, i) == (mask & (1u64 << (i as u64))
        != 0) by {}
    if !players.contains(x) {
        assert forall|i: int| 0 <= i < players.len() implies #[trigger] players[i] != x by {}
    }
    assert forall|i: int|
        0 <= i < players.len() && #[trigger] players[i] == x && mask & (1u64 << (i as u64))
            == 0 implies anomaly::coalition_noise(noise, row, players, mask)[x] == N::nil() by {
        assert(anomaly::muted(players, mask, x));
    }
    if players.no_duplicates() {
        assert forall|i: int|
            0 <= i < players.len() && #[trigger] players[i] == x && mask & (1u64 << (i as u64))
                != 0 implies anomaly::coalition_noise(noise, row, players, mask)[x]
            == noise.columns@[x]@[row] by {
            assert forall|j: int| 0 <= j < players.len() && #[trigger] players[j] == x implies j
                == i by {}
            assert(coalition::member(mask, i));
            assert(!anomaly::muted(players, mask, x));
        }
    }
}

/// A coalition is worth the score of the target in values that satisfy the model under the
/// coalition's noise; everybody together is worth the score under the noise as it was.
pub proof fn law_coalitions_are_worth_a_score<N: Amount, E: Engine<N>>(
    engine: E,
    model: ModelView,
    slots: Seq<MechanismSlot<N>>,
    noise: NodeTable<N>,
    players: Seq<int>,
    target: int,
    tail: OutlierTail<N>,
    row: int,
    mask: u64,
    worth: N,
)
    requires
        model.well_formed(),
        noise.fits(model.nodes()),
        players.len() <= 64,
        anomaly::noise_game(engine, model, slots, noise, players, target, tail, row)(mask) == Ok::<
            N,
            AttributionError,
        >(worth),
    ensures
        exists|values: Seq<N>| #[trigger]
            satisfies(
                engine,
                model,
                slots,
                anomaly::coalition_noise(noise, row, players, mask),
                values,
            ) && worth == anomaly::scored(engine, tail, values[target]),
        mask == power2::pow2(players.len()) - 1 ==> anomaly::coalition_noise(
            noise,
            row,
            players,
            mask,
        ) == Seq::new(model.nodes(), |x: int| noise.columns@[x]@[row]),
{
    let own = anomaly::coalition_noise(noise, row, players, mask);
    let values = anomaly::rebuilt(engine, model, slots, own, model.nodes())->Ok_0;
    law_rebuilt_values_satisfy_the_model(engine, model, slots, own, values);
    if mask == power2::pow2(players.len()) - 1 {
        assert forall|x: int| 0 <= x < model.nodes() implies #[trigger] own[x]
            == noise.columns@[x]@[row] by {
            assert forall|i: int| 0 <= i < players.len() implies #[trigger] coalition::member(
                mask,
                i,
            ) by {
                efficiency::lemma_full_members(mask, players.len(), i);
            }
            assert(!anomaly::muted(players, mask, x));
        }
        assert(own =~= Seq::new(model.nodes(), |x: int| noise.columns@[x]@[row]));
    }
}

proof fn lemma_arrow_place<N: Amount>(
    model: ModelView,
    slots: spec_fn(int) -> MechanismSlot<N>,
    k: int,
    i: int,
    n: nat,
) -> (place: int)
    requires
        0 <= k < n,
        0 <= i < model.parents(k).len(),
    ensures
        0 <= place < anomaly::arrows(model, slots, n).len(),
        anomaly::arrows(model, slots, n)[place] == anomaly::arrow(model, slots, k, i),
    decreases n,
{
    let before = anomaly::arrows(model, slots, (n - 1) as nat);
    if k == n - 1 {
        before.len() + i
    } else {
        lemma_arrow_place(model, slots, k, i, (n - 1) as nat)
    }
}

/// An entry describes the arrow from the `i`-th parent of the `k`-th node: its strength is the
/// square of its slope times the variance of its parent.
pub open spec fn describes<N: Amount>(
    val: spec_fn(N) -> real,
    model: ModelView,
    slots: spec_fn(int) -> MechanismSlot<N>,
    k: int,
    i: int,
    slope: real,
    entry: ArrowStrength<N>,
) -> bool {
    let parent = model.parents(k)[i].raw as int;
    &&& entry.parent == model.variables[parent]
    &&& entry.child == model.variables[model.child(k)]
    &&& val(entry.coefficient) == slope
    &&& val(entry.strength) == slope * slope * val(
        implied::covariance_at(model, slots, parent, parent),
    )
}

/// Every arrow of the model has a strength, which is the square of its slope times the variance
/// of its parent.
pub proof fn law_every_arrow_has_its_strength<N: Amount>(
    val: spec_fn(N) -> real,
    model: ModelView,
    slots: spec_fn(int) -> MechanismSlot<N>,
    k: int,
    i: int,
    form: LinearForm<N>,
)
    requires
        efficiency::is_exact(val),
        0 <= k < model.nodes(),
        0 <= i < model.parents(k).len(),
        implied::has_form(slots(model.child(k)), form),
    ensures
        exists|place: int|
            0 <= place < anomaly::arrows(model, slots, model.nodes()).len() && describes(
                val,
                model,
                slots,
                k,
                i,
                implied::slope(val, form.coeffs, i),
                #[trigger] anomaly::arrows(model, slots, model.nodes())[place],
            ),
{
    let place = lemma_arrow_place(model, slots, k, i, model.nodes());
    let entry = anomaly::arrows(model, slots, model.nodes())[place];
    let parent = model.parents(k)[i].raw as int;
    let slope = implied::slope(val, form.coeffs, i);
    let beta = entry.coefficient;
    assert(val(beta) == slope);
    assert(val(beta.times(beta)) == slope * slope);
    assert(entry.strength == beta.times(beta).times(
        implied::covariance_at(model, slots, parent, parent),
    ));
    assert(describes(val, model, slots, k, i, slope, entry));
}

/// Arrows that precede a place of the order.
pub open spec fn arrows_before(model: ModelView, k: nat) -> nat
    decreases k,
{
    if k == 0 {
        0
    } else {
        arrows_before(model, (k - 1) as nat) + model.parents(k - 1).len()
    }
}

/// There are as many strengths as arrows.
pub proof fn law_only_arrows_have_strengths<N: Amount>(
    model: ModelView,
    slots: spec_fn(int) -> MechanismSlot<N>,
    k: nat,
)
    ensures
        anomaly::arrows(model, slots, k).len() == arrows_before(model, k),
    decreases k,
{
    if k > 0 {
        law_only_arrows_have_strengths(model, slots, (k - 1) as nat);
    }
}

/// The mean of a column times its length is the column's sum.
pub proof fn law_column_means_share_the_sum<N: Amount>(val: spec_fn(N) -> real, column: Seq<N>)
    requires
        efficiency::is_exact(val),
        column.len() > 0,
    ensures
        val(table::mean(column)) * (column.len() as real) == efficiency::sum(
            |i: int| val(column[i]),
            column.len(),
        ),
{
    fairness::lemma_total_is_sum(val, column);
    let count = N::counted(column.len());
    assert(val(count) == column.len() as real);
    assert(val(shapley::total(column).over(count)) * val(count) == val(shapley::total(column)));
}

/// Where rows are listed, those are scored, in their order; otherwise all are.
pub proof fn law_rows_are_those_asked_for(listed: Vec<usize>, n_rows: usize, i: int)
    ensures
        table::rows_asked(Some(listed), n_rows) == listed@,
        table::rows_asked(None, n_rows).len() == n_rows,
        0 <= i < n_rows ==> table::rows_asked(None, n_rows)[i] == i,
{
}

proof fn lemma_upstream_nodes(model: ModelView, outcome: int, k: nat, x: int)
    requires
        k <= model.nodes(),
    ensures
        distribution::upstream(model, outcome, k).contains(x) <==> model.comes_before(x, k as int)
            && model.is_ancestor(x, outcome),
    decreases k,
{
    reveal(ModelView::comes_before);
    if k > 0 {
        lemma_upstream_nodes(model, outcome, (k - 1) as nat, x);
        let before = distribution::upstream(model, outcome, (k - 1) as nat);
        let node = model.child(k - 1);
        if before.contains(x) {
            let j = choose|j: int| 0 <= j < k - 1 && #[trigger] model.child(j) == x;
            assert(0 <= j < k && model.child(j) == x);
        }
        if model.comes_before(x, k as int) && x != node {
            let j = choose|j: int| 0 <= j < k && #[trigger] model.child(j) == x;
            assert(0 <= j < k - 1 && model.child(j) == x);
        }
        if model.is_ancestor(node, outcome) {
            let after = before.push(node);
            if before.contains(x) {
                let i = choose|i: int| 0 <= i < before.len() && before[i] == x;
                assert(after[i] == x);
            }
            assert(after[before.len() as int] == node);
            if after.contains(x) && x != node {
                let i = choose|i: int| 0 <= i < after.len() && after[i] == x;
                assert(before[i] == x);
            }
        }
    }
}

/// The players whose noise a score is shared among are exactly the target and its ancestors.
pub proof fn law_players_are_the_ancestors(model: ModelView, target: int, x: int)
    requires
        model.comes_before(x, model.nodes() as int),
    ensures
        anomaly::noise_players(model, target).contains(x) <==> model.is_ancestor(x, target),
{
    lemma_upstream_nodes(model, target, model.nodes(), x);
}

} // verus!
