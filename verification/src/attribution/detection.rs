//! What a detection of changed mechanisms says of the populations.
//!
//! SPDX-License-Identifier: MIT OR Apache-2.0

use crate::attribution::amount::Amount;
use crate::attribution::distribution;
use crate::attribution::error::AttributionError;
use crate::attribution::mechanism_change;
use crate::attribution::mechanism_change::{
    FdrAdjustment, MechanismChangeMethod, ResidualTests,
};
use crate::attribution::model::ModelView;
use crate::attribution::result::MechanismChangeDetection;
use crate::execution::RngFactory;
use crate::ids::{DenseNodeId, VariableId};
use crate::query::attribution::MechanismChangeQuery;
use vstd::arithmetic::div_mod;
use vstd::prelude::*;

verus! {

/// A parent's mean differs between the populations: its p-value lies below one in ten thousand.
pub open spec fn stands_out<N: Amount, T: ResidualTests<N>>(
    model: ModelView,
    tests: T,
    parent: DenseNodeId,
) -> bool {
    &&& tests.shifted(model.variables[parent.raw as int]) matches Ok(Some(p))
    &&& p.below(N::counted(1).over(N::counted(10_000)))
}

/// A parent can be read in both populations.
pub open spec fn is_readable<N: Amount, T: ResidualTests<N>>(
    model: ModelView,
    tests: T,
    parent: DenseNodeId,
) -> bool {
    tests.shifted(model.variables[parent.raw as int]) is Ok
}

proof fn lemma_parent_shift<N: Amount, T: ResidualTests<N>>(
    model: ModelView,
    tests: T,
    parents: Seq<DenseNodeId>,
    k: nat,
)
    requires
        k <= parents.len(),
        forall|i: int|
            0 <= i < k ==> is_readable::<N, T>(model, tests, #[trigger] parents[i]),
    ensures
        mechanism_change::parent_shift::<N, T>(model, tests, parents, k) == Ok::<
            bool,
            AttributionError,
        >(
            exists|i: int|
                0 <= i < k && stands_out::<N, T>(model, tests, #[trigger] parents[i]),
        ),
    decreases k,
{
    if k > 0 {
        lemma_parent_shift::<N, T>(model, tests, parents, (k - 1) as nat);
        let last = parents[k - 1];
        assert(is_readable::<N, T>(model, tests, last));
        if exists|i: int|
            0 <= i < k - 1 && stands_out::<N, T>(model, tests, #[trigger] parents[i]) {
            assert(exists|i: int|
                0 <= i < k && stands_out::<N, T>(model, tests, #[trigger] parents[i]));
        } else if stands_out::<N, T>(model, tests, last) {
            assert(stands_out::<N, T>(model, tests, parents[k - 1]));
        } else {
            assert forall|i: int| 0 <= i < k implies !stands_out::<N, T>(
                model,
                tests,
                #[trigger] parents[i],
            ) by {}
        }
    }
}

/// Where every parent can be read, a shift is found exactly where some parent, at any place of
/// the list, stands out.
pub proof fn law_any_parent_that_stands_out_is_found<N: Amount, T: ResidualTests<N>>(
    model: ModelView,
    tests: T,
    parents: Seq<DenseNodeId>,
)
    requires
        forall|i: int|
            0 <= i < parents.len() ==> is_readable::<N, T>(model, tests, #[trigger] parents[i]),
    ensures
        mechanism_change::parent_shift::<N, T>(model, tests, parents, parents.len()) is Ok,
        mechanism_change::parent_shift::<N, T>(model, tests, parents, parents.len()) == Ok::<
            bool,
            AttributionError,
        >(true) <==> exists|i: int|
            0 <= i < parents.len() && stands_out::<N, T>(model, tests, #[trigger] parents[i]),
{
    lemma_parent_shift::<N, T>(model, tests, parents, parents.len());
}

/// The verdict on parents that can be read does not depend on their order, nor on how often
/// one is listed.
pub proof fn law_the_order_of_parents_is_irrelevant<N: Amount, T: ResidualTests<N>>(
    model: ModelView,
    tests: T,
    parents: Seq<DenseNodeId>,
    others: Seq<DenseNodeId>,
)
    requires
        forall|i: int|
            0 <= i < parents.len() ==> is_readable::<N, T>(model, tests, #[trigger] parents[i]),
        forall|p: DenseNodeId| #[trigger] parents.contains(p) <==> others.contains(p),
    ensures
        mechanism_change::parent_shift::<N, T>(model, tests, parents, parents.len())
            == mechanism_change::parent_shift::<N, T>(model, tests, others, others.len()),
{
    assert forall|i: int| 0 <= i < others.len() implies is_readable::<N, T>(
        model,
        tests,
        #[trigger] others[i],
    ) by {
        assert(others.contains(others[i]));
        assert(parents.contains(others[i]));
    }
    lemma_parent_shift::<N, T>(model, tests, parents, parents.len());
    lemma_parent_shift::<N, T>(model, tests, others, others.len());
    if exists|i: int|
        0 <= i < parents.len() && stands_out::<N, T>(model, tests, #[trigger] parents[i]) {
        let i = choose|i: int|
            0 <= i < parents.len() && stands_out::<N, T>(model, tests, #[trigger] parents[i]);
        assert(parents.contains(parents[i]));
        let j = choose|j: int| 0 <= j < others.len() && others[j] == parents[i];
        assert(stands_out::<N, T>(model, tests, others[j]));
    }
    if exists|i: int|
        0 <= i < others.len() && stands_out::<N, T>(model, tests, #[trigger] others[i]) {
        let i = choose|i: int|
            0 <= i < others.len() && stands_out::<N, T>(model, tests, #[trigger] others[i]);
        assert(others.contains(others[i]));
        assert(parents.contains(others[i]));
        let j = choose|j: int| 0 <= j < parents.len() && parents[j] == others[i];
        assert(stands_out::<N, T>(model, tests, parents[j]));
    }
}

proof fn lemma_shift_up_to<N: Amount, T: ResidualTests<N>>(
    model: ModelView,
    tests: T,
    parents: Seq<DenseNodeId>,
    k: nat,
    n: nat,
)
    requires
        k < n <= parents.len(),
        forall|i: int|
            0 <= i < k ==> is_readable::<N, T>(model, tests, #[trigger] parents[i])
                && !stands_out::<N, T>(model, tests, parents[i]),
        tests.shifted(model.variables[parents[k as int].raw as int]) is Err,
    ensures
        mechanism_change::parent_shift::<N, T>(model, tests, parents, n) == Err::<
            bool,
            AttributionError,
        >(tests.shifted(model.variables[parents[k as int].raw as int])->Err_0),
    decreases n,
{
    if k + 1 < n {
        lemma_shift_up_to::<N, T>(model, tests, parents, k, (n - 1) as nat);
    } else {
        lemma_parent_shift::<N, T>(model, tests, parents, k);
    }
}

/// A parent that cannot be read stops the test with its error where no parent before it stands
/// out.
pub proof fn law_unreadable_parents_are_errors<N: Amount, T: ResidualTests<N>>(
    model: ModelView,
    tests: T,
    parents: Seq<DenseNodeId>,
    k: nat,
)
    requires
        k < parents.len(),
        forall|i: int|
            0 <= i < k ==> is_readable::<N, T>(model, tests, #[trigger] parents[i])
                && !stands_out::<N, T>(model, tests, parents[i]),
        tests.shifted(model.variables[parents[k as int].raw as int]) is Err,
    ensures
        mechanism_change::parent_shift::<N, T>(model, tests, parents, parents.len()) == Err::<
            bool,
            AttributionError,
        >(tests.shifted(model.variables[parents[k as int].raw as int])->Err_0),
{
    lemma_shift_up_to::<N, T>(model, tests, parents, k, parents.len());
}

proof fn lemma_no_shift<N: Amount, T: ResidualTests<N>>(
    model: ModelView,
    tests: T,
    parents: Seq<DenseNodeId>,
    k: nat,
)
    requires
        k <= parents.len(),
        mechanism_change::parent_shift::<N, T>(model, tests, parents, k) == Ok::<
            bool,
            AttributionError,
        >(false),
    ensures
        forall|i: int|
            0 <= i < k ==> is_readable::<N, T>(model, tests, #[trigger] parents[i])
                && !stands_out::<N, T>(model, tests, parents[i]),
    decreases k,
{
    if k > 0 {
        lemma_no_shift::<N, T>(model, tests, parents, (k - 1) as nat);
    }
}

proof fn lemma_no_refusal<N: Amount, T: ResidualTests<N>>(
    model: ModelView,
    tests: T,
    targets: Seq<VariableId>,
    k: nat,
    t: int,
)
    requires
        0 <= t < k <= targets.len(),
        mechanism_change::covariate_refusal::<N, T>(model, tests, targets, k) is None,
    ensures
        distribution::dense(model, targets[t]) is Some,
        ({
            let parents = distribution::parents_of(
                model,
                distribution::dense(model, targets[t])->0 as int,
            );
            mechanism_change::parent_shift::<N, T>(model, tests, parents, parents.len()) == Ok::<
                bool,
                AttributionError,
            >(false)
        }),
    decreases k,
{
    if t < k - 1 {
        lemma_no_refusal::<N, T>(model, tests, targets, (k - 1) as nat, t);
    }
}

/// A detection tests only targets that the model knows, in populations of ten rows or more,
/// and only where no parent of any target stands out, at whatever place of the order the target
/// is.
pub proof fn law_detections_rule_out_shifted_parents<N: Amount, T: ResidualTests<N>>(
    found: Vec<MechanismChangeDetection<N>>,
    model: ModelView,
    tests: T,
    rng: RngFactory,
    query: MechanismChangeQuery,
    method: MechanismChangeMethod,
    baseline_rows: usize,
    comparison_rows: usize,
    correction: Option<FdrAdjustment>,
    t: int,
    k: int,
    i: int,
)
    requires
        model.well_formed(),
        mechanism_change::is_detection::<N, T>(
            Ok(found),
            model,
            tests,
            rng,
            query,
            method,
            baseline_rows,
            comparison_rows,
            correction,
        ),
        0 <= t < query.targets@.len(),
        0 <= k < model.nodes(),
        model.variables.len() == model.nodes(),
        model.variables[model.child(k)] == query.targets@[t],
        model.variables.no_duplicates(),
        0 <= i < model.parents(k).len(),
    ensures
        baseline_rows >= 10,
        comparison_rows >= 10,
        query.targets@.len() <= query.max_targets,
        is_readable::<N, T>(model, tests, model.parents(k)[i]),
        !stands_out::<N, T>(model, tests, model.parents(k)[i]),
{
    let targets = query.targets@;
    lemma_no_refusal::<N, T>(model, tests, targets, targets.len(), t);
    let x = distribution::dense(model, targets[t])->0 as int;
    assert(model.variables.contains(targets[t]));
    let at = model.variables.index_of(targets[t]);
    assert(model.variables[at] == targets[t] && 0 <= at < model.variables.len());
    assert(model.child(k) < model.nodes());
    assert(at == model.child(k));
    assert(x == at);
    let c = choose|c: int| 0 <= c < model.nodes() && #[trigger] model.child(c) == x;
    assert(model.child(c) == model.child(k));
    assert(c == k);
    let parents = distribution::parents_of(model, x);
    assert(parents == model.parents(k));
    lemma_no_shift::<N, T>(model, tests, parents, parents.len());
}

/// A detection reports every target in its turn. A target counts as changed exactly where the
/// p-value that decides lies below the level of the query: the unadjusted one where no
/// correction is asked for, and otherwise the one that the correction's procedure gives it among
/// the unadjusted p-values of all targets.
pub proof fn law_detections_compare_with_the_level<N: Amount, T: ResidualTests<N>>(
    found: Vec<MechanismChangeDetection<N>>,
    model: ModelView,
    tests: T,
    rng: RngFactory,
    query: MechanismChangeQuery,
    method: MechanismChangeMethod,
    baseline_rows: usize,
    comparison_rows: usize,
    correction: Option<FdrAdjustment>,
    i: int,
)
    requires
        mechanism_change::is_detection::<N, T>(
            Ok(found),
            model,
            tests,
            rng,
            query,
            method,
            baseline_rows,
            comparison_rows,
            correction,
        ),
        0 <= i < query.targets@.len(),
    ensures
        found@.len() == query.targets@.len(),
        found@[i].variable == query.targets@[i],
        found@[i].method == method.label(),
        match correction {
            None => {
                &&& found@[i].adjusted_p_value is None
                &&& found@[i].changed == found@[i].p_value.below(
                    tests.level_of(query.significance_level),
                )
            },
            Some(adjustment) => {
                let all = Seq::new(found@.len(), |j: int| found@[j].p_value);
                let own = tests.adjusted(adjustment.method, all)[i];
                &&& found@[i].adjusted_p_value == Some(own)
                &&& found@[i].changed == own.below(tests.level_of(query.significance_level))
            },
        },
{
    let targets = query.targets@;
    let raw = mechanism_change::raw_p_values::<N, T>(tests, rng, baseline_rows, method, targets);
    assert(Seq::new(found@.len(), |j: int| found@[j].p_value) =~= raw);
}

proof fn lemma_targets_succeed<N: Amount, T: ResidualTests<N>>(
    tests: T,
    rng: RngFactory,
    n_rows: usize,
    method: MechanismChangeMethod,
    targets: Seq<VariableId>,
    k: nat,
    t: int,
)
    requires
        0 <= t < k <= targets.len(),
        mechanism_change::target_failure::<N, T>(tests, rng, n_rows, method, targets, k) is None,
    ensures
        mechanism_change::verdict_on::<N, T>(tests, rng, n_rows, method, targets[t]) is Ok,
    decreases k,
{
    if t < k - 1 {
        lemma_targets_succeed::<N, T>(tests, rng, n_rows, method, targets, (k - 1) as nat, t);
    }
}

proof fn lemma_folds_succeed<N: Amount, T: ResidualTests<N>>(
    tests: T,
    folds: Seq<Seq<usize>>,
    target: VariableId,
    state: u64,
    k: nat,
    f: int,
)
    requires
        0 <= f < k,
        mechanism_change::fold_failure::<N, T>(tests, folds, target, state, k) is None,
    ensures
        tests.held_out(folds, f, target, state) is Ok,
    decreases k,
{
    if f < k - 1 {
        lemma_folds_succeed::<N, T>(tests, folds, target, state, (k - 1) as nat, f);
    }
}

/// Baseline residuals are out of sample: with five folds for thirty rows or more and three for
/// fewer, a row has the residual that its own fold gives it, under mechanisms that were fitted
/// without that fold.
pub proof fn law_baseline_residuals_are_out_of_sample<N: Amount, T: ResidualTests<N>>(
    tests: T,
    n_rows: usize,
    target: VariableId,
    state: u64,
    residuals: Seq<N>,
    folds: Seq<Seq<usize>>,
    k: int,
    row: int,
)
    requires
        k == if n_rows >= 30 {
            5int
        } else {
            3int
        },
        folds == mechanism_change::cross_folds(n_rows),
        mechanism_change::cross_fitted::<N, T>(tests, n_rows, target, state) == Ok::<
            Seq<N>,
            AttributionError,
        >(residuals),
        0 <= row < n_rows,
    ensures
        residuals.len() == n_rows,
        folds.len() == k,
        folds[row % k].contains(row as usize),
        folds[row % k][row / k] == row,
        mechanism_change::trainings(n_rows, folds).len() == k,
        !mechanism_change::trainings(n_rows, folds)[row % k].contains(row as usize),
        tests.held_out(folds, row % k, target, state) is Ok,
        row / k < tests.held_out(folds, row % k, target, state)->Ok_0.len() ==> residuals[row]
            == tests.held_out(folds, row % k, target, state)->Ok_0[row / k],
{
    div_mod::lemma_mod_bound(row, k);
    mechanism_change::law_folds_partition_rows(n_rows as nat, k as nat, row, row % k);
    mechanism_change::law_training_rows_exclude_the_fold(
        n_rows as nat,
        folds[row % k],
        row as usize,
    );
    lemma_folds_succeed::<N, T>(tests, folds, target, state, folds.len(), row % k);
    let parts = Seq::new(folds.len(), |f: int| tests.held_out(folds, f, target, state)->Ok_0);
    assert(parts[row % k] == tests.held_out(folds, row % k, target, state)->Ok_0);
}

/// What is reported of a target is the test of its baseline residuals against its comparison
/// residuals, in that order, each drawn for that target and that population.
pub proof fn law_detections_test_the_residuals<N: Amount, T: ResidualTests<N>>(
    found: Vec<MechanismChangeDetection<N>>,
    model: ModelView,
    tests: T,
    rng: RngFactory,
    query: MechanismChangeQuery,
    method: MechanismChangeMethod,
    baseline_rows: usize,
    comparison_rows: usize,
    correction: Option<FdrAdjustment>,
    i: int,
    baseline: Seq<N>,
    comparison: Seq<N>,
)
    requires
        mechanism_change::is_detection::<N, T>(
            Ok(found),
            model,
            tests,
            rng,
            query,
            method,
            baseline_rows,
            comparison_rows,
            correction,
        ),
        0 <= i < query.targets@.len(),
        mechanism_change::cross_fitted::<N, T>(
            tests,
            baseline_rows,
            query.targets@[i],
            mechanism_change::residual_state(rng, query.targets@[i], 0),
        ) == Ok::<Seq<N>, AttributionError>(baseline),
        tests.compared(
            query.targets@[i],
            mechanism_change::residual_state(rng, query.targets@[i], 1),
        ) == Ok::<Seq<N>, AttributionError>(comparison),
    ensures
        tests.tested(
            method,
            baseline,
            comparison,
            mechanism_change::kernel_seed_of(query.targets@[i]) as u64,
        ) == Ok::<(N, N), AttributionError>((found@[i].statistic, found@[i].p_value)),
{
    lemma_targets_succeed::<N, T>(
        tests,
        rng,
        baseline_rows,
        method,
        query.targets@,
        query.targets@.len(),
        i,
    );
}

/// A target is reported only where its residuals could be had in both populations.
pub proof fn law_detected_targets_have_residuals<N: Amount, T: ResidualTests<N>>(
    found: Vec<MechanismChangeDetection<N>>,
    model: ModelView,
    tests: T,
    rng: RngFactory,
    query: MechanismChangeQuery,
    method: MechanismChangeMethod,
    baseline_rows: usize,
    comparison_rows: usize,
    correction: Option<FdrAdjustment>,
    i: int,
)
    requires
        mechanism_change::is_detection::<N, T>(
            Ok(found),
            model,
            tests,
            rng,
            query,
            method,
            baseline_rows,
            comparison_rows,
            correction,
        ),
        0 <= i < query.targets@.len(),
    ensures
        mechanism_change::cross_fitted::<N, T>(
            tests,
            baseline_rows,
            query.targets@[i],
            mechanism_change::residual_state(rng, query.targets@[i], 0),
        ) is Ok,
        tests.compared(
            query.targets@[i],
            mechanism_change::residual_state(rng, query.targets@[i], 1),
        ) is Ok,
{
    lemma_targets_succeed::<N, T>(
        tests,
        rng,
        baseline_rows,
        method,
        query.targets@,
        query.targets@.len(),
        i,
    );
}

/// Targets have kernel tests with seeds of their own.
pub proof fn law_kernel_seeds_are_distinct(left: VariableId, right: VariableId)
    requires
        left != right,
    ensures
        mechanism_change::kernel_seed_of(left) != mechanism_change::kernel_seed_of(right),
        0 <= mechanism_change::kernel_seed_of(left) <= u64::MAX,
{
    let a = 0x4E12_A001 + left.raw;
    let b = 0x4E12_A001 + right.raw;
    if left.raw == right.raw {
        assert(left == right);
    }
    assert(a * 0x9E37_79B9 != b * 0x9E37_79B9);
    assert(a * 0x9E37_79B9 <= u64::MAX) by (nonlinear_arith)
        requires
            a <= 0x4E12_A001 + 0xFFFF_FFFF,
    ;
}

} // verus!
