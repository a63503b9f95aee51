//! How p-values are adjusted, and how whole numbers stand for amounts.
//!
//! Where a law is about p-values, it is about exact arithmetic: a valuation reads the numbers of
//! a computation as real numbers.
//!
//! SPDX-License-Identifier: MIT OR Apache-2.0

use crate::attribution::amount;
use crate::attribution::amount::{Amount, Whole};
use crate::attribution::efficiency;
use crate::attribution::mechanism_change::{FdrMethod, ResidualTests};
use crate::attribution::moments;
use crate::attribution::recorded;
use crate::attribution::recorded::{RecordedTests, ResidualRecord, ShiftRecord};
use crate::ids::VariableId;
use vstd::prelude::*;

verus! {

/// The first `k` values that do not exceed the `j`-th.
pub open spec fn up_to<N: Amount>(val: spec_fn(N) -> real, values: Seq<N>, j: int, k: nat) -> Set<
    int,
> {
    Set::new(|i: int| 0 <= i < k && val(values[i]) <= val(values[j]))
}

proof fn lemma_ranks<N: Amount>(val: spec_fn(N) -> real, values: Seq<N>, j: int, k: nat)
    requires
        moments::is_ordered(val),
    ensures
        up_to(val, values, j, k).finite(),
        recorded::rank_of(values, j, k) == up_to(val, values, j, k).len(),
    decreases k,
{
    if k == 0 {
        assert(up_to(val, values, j, 0) =~= Set::empty());
    } else {
        let before = up_to(val, values, j, (k - 1) as nat);
        lemma_ranks(val, values, j, (k - 1) as nat);
        if values[j].below(values[k - 1]) {
            assert(up_to(val, values, j, k) =~= before);
        } else {
            assert(up_to(val, values, j, k) =~= before.insert(k - 1));
        }
    }
}

/// The rank of a value is the number of values that do not exceed it.
pub proof fn law_ranks_count_values<N: Amount>(val: spec_fn(N) -> real, values: Seq<N>, j: int)
    requires
        moments::is_ordered(val),
        0 <= j < values.len(),
    ensures
        up_to(val, values, j, values.len()).finite(),
        recorded::rank_of(values, j, values.len()) == up_to(val, values, j, values.len()).len(),
        recorded::rank_of(values, j, values.len()) > 0,
{
    lemma_ranks(val, values, j, values.len());
    let own = up_to(val, values, j, values.len());
    assert(own.contains(j));
    if own.len() == 0 {
        assert(own =~= Set::empty());
    }
}

/// Independent tests need no factor; for any dependence it grows by one over the number of
/// tests with each test.
pub proof fn law_dependence_adds_up_inverses<N: Amount>(val: spec_fn(N) -> real, n: nat)
    requires
        efficiency::is_exact(val),
    ensures
        val(recorded::dependence::<N>(FdrMethod::BenjaminiHochberg, n)) == 1 as real,
        val(recorded::dependence::<N>(FdrMethod::BenjaminiYekutieli, 0)) == 0 as real,
        (val(recorded::dependence::<N>(FdrMethod::BenjaminiYekutieli, n + 1)) - val(
            recorded::dependence::<N>(FdrMethod::BenjaminiYekutieli, n),
        )) * ((n + 1) as real) == 1 as real,
{
    assert(val(N::counted(1).over(N::counted(n + 1))) * val(N::counted(n + 1)) == val(
        N::counted(1),
    ));
}

/// The `j`-th p-value counts for the `i`-th, and `x` is what it comes to against its rank.
pub open spec fn comes_to<N: Amount>(
    val: spec_fn(N) -> real,
    factor: N,
    p_values: Seq<N>,
    i: int,
    j: int,
    x: real,
) -> bool {
    &&& 0 <= j < p_values.len()
    &&& val(p_values[i]) <= val(p_values[j])
    &&& x * (up_to(val, p_values, j, p_values.len()).len() as real) == val(p_values[j]) * ((
    p_values.len() as real) * val(factor))
}

proof fn lemma_against<N: Amount>(
    val: spec_fn(N) -> real,
    factor: N,
    p_values: Seq<N>,
    i: int,
    j: int,
)
    requires
        efficiency::is_exact(val),
        moments::is_ordered(val),
        0 <= j < p_values.len(),
        val(p_values[i]) <= val(p_values[j]),
    ensures
        comes_to(val, factor, p_values, i, j, val(recorded::against_rank(factor, p_values, j))),
{
    law_ranks_count_values(val, p_values, j);
    let n = p_values.len();
    let rank = recorded::rank_of(p_values, j, n);
    let top = p_values[j].times(N::counted(n).times(factor));
    assert(val(top) == val(p_values[j]) * (val(N::counted(n)) * val(factor)));
    assert(val(N::counted(rank)) == rank as real);
    assert(val(top.over(N::counted(rank))) * val(N::counted(rank)) == val(top));
}

proof fn lemma_comes_to<N: Amount>(
    val: spec_fn(N) -> real,
    factor: N,
    p_values: Seq<N>,
    i: int,
    j: int,
    x: real,
    y: real,
)
    requires
        moments::is_ordered(val),
        comes_to(val, factor, p_values, i, j, x),
        comes_to(val, factor, p_values, i, j, y),
    ensures
        x == y,
{
    law_ranks_count_values(val, p_values, j);
    efficiency::real_cancels(x, y, up_to(val, p_values, j, p_values.len()).len() as real);
}

proof fn lemma_stepped_up<N: Amount>(
    val: spec_fn(N) -> real,
    factor: N,
    p_values: Seq<N>,
    i: int,
    k: nat,
)
    requires
        efficiency::is_exact(val),
        moments::is_ordered(val),
        0 <= i < p_values.len(),
        k <= p_values.len(),
    ensures
        val(recorded::stepped_up(factor, p_values, i, k)) <= 1 as real,
        forall|j: int|
            0 <= j < k && val(#[trigger] p_values[j]) >= val(p_values[i]) ==> val(
                recorded::stepped_up(factor, p_values, i, k),
            ) <= val(recorded::against_rank(factor, p_values, j)),
        val(recorded::stepped_up(factor, p_values, i, k)) == 1 as real || exists|j: int|
            0 <= j < k && #[trigger] comes_to(
                val,
                factor,
                p_values,
                i,
                j,
                val(recorded::stepped_up(factor, p_values, i, k)),
            ),
    decreases k,
{
    if k > 0 {
        lemma_stepped_up(val, factor, p_values, i, (k - 1) as nat);
        let best = recorded::stepped_up(factor, p_values, i, (k - 1) as nat);
        let next = recorded::against_rank(factor, p_values, k - 1);
        if !p_values[k - 1].below(p_values[i]) {
            lemma_against(val, factor, p_values, i, k - 1);
        }
        if !p_values[k - 1].below(p_values[i]) && next.below(best) {
            assert(comes_to(val, factor, p_values, i, k - 1, val(next)));
        } else if val(best) != 1 as real {
            let j = choose|j: int|
                0 <= j < k - 1 && #[trigger] comes_to(val, factor, p_values, i, j, val(best));
            assert(comes_to(
                val,
                factor,
                p_values,
                i,
                j,
                val(recorded::stepped_up(factor, p_values, i, k)),
            ));
        }
    }
}

/// An adjusted p-value is the smallest of one and what the p-values that are not smaller come to
/// against their ranks: it exceeds none of these, and is one of them.
pub proof fn law_adjusted_values_are_smallest<N: Amount>(
    val: spec_fn(N) -> real,
    tests: RecordedTests<N>,
    method: FdrMethod,
    p_values: Seq<N>,
    i: int,
    factor: N,
    adjusted: N,
)
    requires
        efficiency::is_exact(val),
        moments::is_ordered(val),
        0 <= i < p_values.len(),
        factor == recorded::dependence::<N>(method, p_values.len()),
        adjusted == tests.adjusted(method, p_values)[i],
    ensures
        tests.adjusted(method, p_values).len() == p_values.len(),
        val(adjusted) <= 1 as real,
        forall|j: int, x: real|
            #[trigger] comes_to(val, factor, p_values, i, j, x) ==> val(adjusted) <= x,
        val(adjusted) == 1 as real || exists|j: int| #[trigger]
            comes_to(val, factor, p_values, i, j, val(adjusted)),
{
    lemma_stepped_up(val, factor, p_values, i, p_values.len());
    assert forall|j: int, x: real| #[trigger]
        comes_to(val, factor, p_values, i, j, x) implies val(adjusted) <= x by {
        lemma_against(val, factor, p_values, i, j);
        lemma_comes_to(
            val,
            factor,
            p_values,
            i,
            j,
            x,
            val(recorded::against_rank(factor, p_values, j)),
        );
        assert(val(p_values[j]) >= val(p_values[i]));
    }
}

/// Adjusting keeps the order of p-values.
pub proof fn law_adjusting_keeps_the_order<N: Amount>(
    val: spec_fn(N) -> real,
    tests: RecordedTests<N>,
    method: FdrMethod,
    p_values: Seq<N>,
    i: int,
    k: int,
)
    requires
        efficiency::is_exact(val),
        moments::is_ordered(val),
        0 <= i < p_values.len(),
        0 <= k < p_values.len(),
        val(p_values[i]) <= val(p_values[k]),
    ensures
        val(tests.adjusted(method, p_values)[i]) <= val(tests.adjusted(method, p_values)[k]),
{
    let factor = recorded::dependence::<N>(method, p_values.len());
    let low = tests.adjusted(method, p_values)[i];
    let high = tests.adjusted(method, p_values)[k];
    law_adjusted_values_are_smallest(val, tests, method, p_values, i, factor, low);
    law_adjusted_values_are_smallest(val, tests, method, p_values, k, factor, high);
    if val(high) != 1 as real {
        let j = choose|j: int| #[trigger] comes_to(val, factor, p_values, k, j, val(high));
        assert(comes_to(val, factor, p_values, i, j, val(high)));
    }
}

proof fn lemma_shift<N>(records: Seq<ShiftRecord<N>>, variable: VariableId, k: nat)
    requires
        k <= records.len(),
    ensures
        match recorded::shift_of(records, variable, k) {
            Some(p) => exists|at: int|
                k <= at < records.len() && (#[trigger] records[at]).variable == variable
                    && records[at].p_value == p && forall|i: int|
                    k <= i < at ==> (#[trigger] records[i]).variable != variable,
            None => forall|i: int|
                k <= i < records.len() ==> (#[trigger] records[i]).variable != variable,
        },
    decreases records.len() - k,
{
    if k < records.len() {
        if records[k as int].variable == variable {
            assert(records[k as int].variable == variable);
        } else {
            lemma_shift(records, variable, k + 1);
        }
    }
}

/// The shift of a variable is the first one recorded of it; there is none exactly where none is
/// recorded.
pub proof fn law_first_shifts_count<N: Amount>(tests: RecordedTests<N>, variable: VariableId)
    ensures
        match tests.shifted(variable) {
            Ok(Some(p)) => exists|at: int|
                0 <= at < tests.shifts@.len() && (#[trigger] tests.shifts@[at]).variable == variable
                    && tests.shifts@[at].p_value == p && forall|i: int|
                    0 <= i < at ==> (#[trigger] tests.shifts@[i]).variable != variable,
            Ok(None) => forall|i: int|
                0 <= i < tests.shifts@.len() ==> (#[trigger] tests.shifts@[i]).variable
                    != variable,
            Err(_) => false,
        },
{
    lemma_shift(tests.shifts@, variable, 0);
}

proof fn lemma_record<N>(records: Seq<ResidualRecord<N>>, target: VariableId, k: nat)
    requires
        k <= records.len(),
    ensures
        match recorded::record_of(records, target, k) {
            Some(record) => exists|at: int|
                k <= at < records.len() && #[trigger] records[at] == record && record.target
                    == target && forall|i: int|
                    k <= i < at ==> (#[trigger] records[i]).target != target,
            None => forall|i: int|
                k <= i < records.len() ==> (#[trigger] records[i]).target != target,
        },
    decreases records.len() - k,
{
    if k < records.len() {
        if records[k as int].target == target {
            assert(records[k as int].target == target);
        } else {
            lemma_record(records, target, k + 1);
        }
    }
}

/// Residuals of a target are those first recorded of it, by fold and on the comparison; a target
/// with no record, and a fold that the record does not have, is an error.
pub proof fn law_first_records_count<N: Amount>(
    tests: RecordedTests<N>,
    folds: Seq<Seq<usize>>,
    fold: int,
    target: VariableId,
    state: u64,
    at: int,
)
    requires
        0 <= fold,
        0 <= at < tests.residuals@.len(),
        forall|i: int| 0 <= i < at ==> (#[trigger] tests.residuals@[i]).target != target,
    ensures
        tests.residuals@[at].target == target ==> {
            &&& match tests.held_out(folds, fold, target, state) {
                Ok(values) => fold < tests.residuals@[at].by_fold@.len() && values
                    == tests.residuals@[at].by_fold@[fold]@,
                Err(_) => fold >= tests.residuals@[at].by_fold@.len(),
            }
            &&& tests.compared(target, state) matches Ok(values) && values
                == tests.residuals@[at].comparison@
        },
        tests.residuals@[at].target != target && at + 1 == tests.residuals@.len() ==> tests.held_out(
            folds,
            fold,
            target,
            state,
        ) is Err && tests.compared(target, state) is Err,
{
    lemma_record(tests.residuals@, target, 0);
    match recorded::record_of(tests.residuals@, target, 0) {
        Some(record) => {
            let own = choose|own: int|
                0 <= own < tests.residuals@.len() && #[trigger] tests.residuals@[own] == record
                    && record.target == target && forall|i: int|
                    0 <= i < own ==> (#[trigger] tests.residuals@[i]).target != target;
            if own < at {
                assert(tests.residuals@[own].target != target);
            }
            if at < own {
                assert(tests.residuals@[at].target != target);
            }
        },
        None => {
            assert(tests.residuals@[at].target != target);
        },
    }
}

/// Distance of two integers.
pub open spec fn distance(a: int, b: int) -> int {
    if a < b {
        b - a
    } else {
        a - b
    }
}

/// No whole number is closer to an integer.
pub open spec fn is_closest(w: Whole, n: int) -> bool {
    forall|v: i64| distance(w.value as int, n) <= #[trigger] distance(v as int, n)
}

/// Sums, differences and products of whole numbers are the closest there are to the exact ones,
/// and so are counts and absolute values.
pub proof fn law_whole_numbers_saturate(a: Whole, b: Whole, n: nat)
    ensures
        is_closest(a.plus(b), a.value + b.value),
        is_closest(a.minus(b), a.value - b.value),
        is_closest(a.times(b), a.value * b.value),
        is_closest(Whole::counted(n), n as int),
        is_closest(a.size(), distance(a.value as int, 0)),
{
}

proof fn lemma_divides(a: int, b: int)
    requires
        a >= 0,
        b > 0,
    ensures
        0 <= a - (a / b) * b < b,
        0 <= a / b <= a,
{
    assert(0 <= a - (a / b) * b < b && 0 <= a / b <= a) by (nonlinear_arith)
        requires
            a >= 0,
            b > 0,
    ;
}

/// Quotients of whole numbers are cut towards zero: what is left is smaller than the divisor and
/// has the sign of the dividend.
pub proof fn law_whole_quotients_are_cut(a: Whole, b: Whole)
    requires
        b.value != 0,
        !(a.value == i64::MIN && b.value == -1),
    ensures
        distance(a.value as int, a.over(b).value * b.value) < distance(b.value as int, 0),
        a.value >= 0 ==> a.over(b).value * b.value <= a.value,
        a.value <= 0 ==> a.over(b).value * b.value >= a.value,
{
    let x = a.value as int;
    let y = b.value as int;
    let size_x = distance(x, 0);
    let size_y = distance(y, 0);
    lemma_divides(size_x, size_y);
    let q = size_x / size_y;
    if y < -1 || y > 1 {
        assert(q <= size_x / 2) by (nonlinear_arith)
            requires
                size_y >= 2,
                size_x >= 0,
                q == size_x / size_y,
        ;
    }
    assert(q <= i64::MAX || (y == 1 && x == i64::MIN));
    assert((-q) * y == -(q * y) && (-q) * (-y) == q * y && q * (-y) == -(q * y))
        by (nonlinear_arith);
}

proof fn lemma_root(n: int) -> (r: int)
    requires
        n >= 0,
    ensures
        amount::is_floor_root(r, n),
        r <= n,
    decreases n,
{
    if n == 0 {
        0
    } else {
        let s = lemma_root(n - 1);
        if (s + 1) * (s + 1) <= n {
            assert((s + 2) * (s + 2) > (s + 1) * (s + 1) && s + 1 <= (s + 1) * (s + 1))
                by (nonlinear_arith)
                requires
                    s >= 0,
            ;
            s + 1
        } else {
            s
        }
    }
}

/// The root of a whole number is the largest whole number whose square does not exceed it, and
/// nought for negative numbers.
pub proof fn law_whole_roots_are_floors(a: Whole)
    ensures
        a.root().value >= 0,
        a.value >= 0 ==> a.root().value * a.root().value <= a.value < (a.root().value + 1) * (
        a.root().value + 1),
        a.value < 0 ==> a.root().value == 0,
{
    if a.value > 0 {
        let r = lemma_root(a.value as int);
        let root = amount::floor_root(a.value as int);
        assert(amount::is_floor_root(root, a.value as int));
        assert(root <= root * root) by (nonlinear_arith)
            requires
                root >= 0,
        ;
    }
}

} // verus!
