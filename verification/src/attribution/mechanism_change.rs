//! Detection of mechanisms that differ between two populations.
//!
//! Detection is no attribution: a mechanism that changed need not drive an outcome. Residuals
//! of the baseline population come from mechanisms fitted without them, so that both
//! populations are predicted out of sample.
//!
//! SPDX-License-Identifier: MIT OR Apache-2.0

use crate::attribution::amount::Amount;
use crate::attribution::distribution;
use crate::attribution::error::AttributionError;
use crate::attribution::model::{CausalModel, ModelView};
use crate::attribution::result::MechanismChangeDetection;
use crate::execution;
use crate::execution::{CausalRng, ExecutionContext, RngFactory, StreamDomain};
use crate::ids::{DenseNodeId, VariableId};
use crate::level::OrderedFloatBits;
use crate::query::attribution::MechanismChangeQuery;
use vstd::arithmetic::div_mod;
use vstd::prelude::*;

verus! {

/// Fewest rows of a population.
pub const MIN_POPULATION_ROWS: usize = 10;

/// Fewest rows that are split into the larger number of folds.
pub const MANY_ROWS: usize = 30;

/// First stream of residuals.
pub const RESIDUAL_STREAM: u64 = 0x5EED_C0DE;

/// First seed of the kernel test.
pub const KERNEL_SEED: u64 = 0x4E12_A001;

/// Distance between the streams of neighbouring targets.
pub const STREAM_STEP: u64 = 0x9E37_79B9;

/// Inverse of the level at which parents count as shifted.
pub const PARENT_SHIFT_ODDS: u64 = 10_000;

/// Message for a population that is too small.
pub const TOO_FEW_ROWS: &'static str =
    "baseline and comparison populations need at least 10 rows each: fewer cannot support a calibrated residual distribution and risk a degenerate (e.g. constant) segment";

/// Message for parents that are distributed differently.
pub const COVARIATE_SHIFT: &'static str =
    "baseline and comparison populations differ materially in a tested mechanism's parent covariates; residual two-sample tests are not calibrated under a covariate shift with no accompanying mechanism change, so the comparison is refused";

/// Test of two samples of residuals.
#[derive(Clone, Copy, Debug, PartialEq, Eq, Hash, Structural)]
#[non_exhaustive]
pub enum MechanismChangeMethod {
    /// Likelihood ratio of normal segments.
    LikelihoodRatio,
    /// Difference in means.
    MeanDiff,
    /// Accuracy of a classifier.
    ClassifierTwoSample,
    /// Maximum mean discrepancy under a kernel.
    KernelTwoSample,
    /// Change point at a known split.
    ChangePoint,
}

impl MechanismChangeMethod {
    /// Name of the test.
    pub open spec fn label(self) -> &'static str {
        match self {
            MechanismChangeMethod::LikelihoodRatio => "likelihood_ratio",
            MechanismChangeMethod::MeanDiff => "mean_diff",
            MechanismChangeMethod::ClassifierTwoSample => "classifier_two_sample",
            MechanismChangeMethod::KernelTwoSample => "kernel_two_sample",
            MechanismChangeMethod::ChangePoint => "change_point",
        }
    }

    /// Name of the test.
    #[must_use]
    pub fn name(self) -> (name: &'static str)
        ensures
            name == self.label(),
    {
        match self {
            MechanismChangeMethod::LikelihoodRatio => "likelihood_ratio",
            MechanismChangeMethod::MeanDiff => "mean_diff",
            MechanismChangeMethod::ClassifierTwoSample => "classifier_two_sample",
            MechanismChangeMethod::KernelTwoSample => "kernel_two_sample",
            MechanismChangeMethod::ChangePoint => "change_point",
        }
    }
}

/// Procedure by which p-values are adjusted for their number.
#[derive(Clone, Copy, Debug, PartialEq, Eq, Hash, Structural)]
#[non_exhaustive]
pub enum FdrMethod {
    /// Benjamini and Hochberg: step up, for independent or positively dependent tests.
    BenjaminiHochberg,
    /// Benjamini and Yekutieli: step up, for tests of any dependence.
    BenjaminiYekutieli,
}

/// Adjustment of a family of p-values.
#[derive(Clone, Copy, Debug, PartialEq, Eq, Hash, Structural)]
pub struct FdrAdjustment {
    /// Procedure.
    pub method: FdrMethod,
}

impl FdrAdjustment {
    /// Benjamini and Hochberg's adjustment.
    #[must_use]
    pub fn bh() -> (adjustment: Self)
        ensures
            adjustment == (FdrAdjustment { method: FdrMethod::BenjaminiHochberg }),
    {
        FdrAdjustment { method: FdrMethod::BenjaminiHochberg }
    }
}

/// Stream of a target's residuals in a population, in wrapping arithmetic.
pub open spec fn residual_stream(target: VariableId, population: u64) -> int {
    ((RESIDUAL_STREAM + target.raw) * STREAM_STEP + population) % 0x1_0000_0000_0000_0000
}

proof fn lemma_stream_place(target: VariableId)
    ensures
        (RESIDUAL_STREAM + target.raw) * STREAM_STEP + STREAM_STEP <= u64::MAX,
{
    let place = RESIDUAL_STREAM + target.raw;
    assert(place * 0x9E37_79B9 + 0x9E37_79B9 <= u64::MAX) by (nonlinear_arith)
        requires
            place <= 0x5EED_C0DE + 0xFFFF_FFFF,
    ;
}

/// Stream of a target's residuals in a population.
#[must_use]
pub fn residual_stream_id(target: VariableId, population: u64) -> (stream: u64)
    ensures
        stream == residual_stream(target, population),
{
    proof {
        lemma_stream_place(target);
    }
    let place: u64 = (RESIDUAL_STREAM + target.raw as u64) * STREAM_STEP;
    place.wrapping_add(population)
}

/// Targets and populations draw from streams of their own.
pub proof fn law_residual_streams_are_distinct(
    left: VariableId,
    left_population: u64,
    right: VariableId,
    right_population: u64,
)
    requires
        left_population < STREAM_STEP,
        right_population < STREAM_STEP,
        left != right || left_population != right_population,
    ensures
        residual_stream(left, left_population) != residual_stream(right, right_population),
{
    lemma_stream_place(left);
    lemma_stream_place(right);
    let a = RESIDUAL_STREAM + left.raw;
    let b = RESIDUAL_STREAM + right.raw;
    let step = STREAM_STEP as int;
    if left.raw == right.raw {
        assert(left == right);
    } else if a < b {
        assert(a * step + step <= b * step) by (nonlinear_arith)
            requires
                a + 1 <= b,
                step > 0,
        ;
    } else {
        assert(b * step + step <= a * step) by (nonlinear_arith)
            requires
                b + 1 <= a,
                step > 0,
        ;
    }
}

/// State of the context's generator for a target's residuals in a population.
pub open spec fn residual_state(rng: RngFactory, target: VariableId, population: u64) -> u64 {
    execution::mixed(
        rng.master_seed,
        execution::packed(
            StreamDomain::Attribution,
            residual_stream(target, population) as u64,
        ),
    ) ^ execution::STATE_STEP
}

/// Generator for a target's residuals in a population.
fn residual_rng(rng: &RngFactory, target: VariableId, population: u64) -> (generator: CausalRng)
    ensures
        generator.state == residual_state(*rng, target, population),
{
    rng.stream_for(StreamDomain::Attribution, residual_stream_id(target, population))
}

/// Contexts with different seeds draw a target's residuals from different states.
pub proof fn law_residuals_depend_on_the_seed_of_the_context(
    left: RngFactory,
    right: RngFactory,
    target: VariableId,
    population: u64,
)
    requires
        left.master_seed != right.master_seed,
    ensures
        residual_state(left, target, population) != residual_state(right, target, population),
{
    let id = execution::packed(
        StreamDomain::Attribution,
        residual_stream(target, population) as u64,
    );
    let a = execution::mixed(left.master_seed, id);
    let b = execution::mixed(right.master_seed, id);
    execution::law_streams_of_one_id_are_distinct(left.master_seed, right.master_seed, id);
    assert(a ^ 0x9E37_79B9_7F4A_7C15u64 == b ^ 0x9E37_79B9_7F4A_7C15u64 ==> a == b) by (bit_vector);
}

/// Seed of a target's kernel test.
pub open spec fn kernel_seed_of(target: VariableId) -> int {
    (KERNEL_SEED + target.raw) * STREAM_STEP
}

/// Seed of a target's kernel test.
#[must_use]
pub fn kernel_seed(target: VariableId) -> (seed: u64)
    ensures
        seed == kernel_seed_of(target),
{
    let place: u64 = KERNEL_SEED + target.raw as u64;
    assert(place * STREAM_STEP <= u64::MAX) by (nonlinear_arith)
        requires
            place <= 0x4E12_A001 + 0xFFFF_FFFF,
            STREAM_STEP == 0x9E37_79B9,
    ;
    place * STREAM_STEP
}

/// Rows below `n` that are dealt to a fold.
pub open spec fn dealt(n: nat, k: nat, fold: int) -> Seq<usize>
    decreases n,
{
    if n == 0 {
        Seq::empty()
    } else if (n - 1) % (k as int) == fold {
        dealt((n - 1) as nat, k, fold).push((n - 1) as usize)
    } else {
        dealt((n - 1) as nat, k, fold)
    }
}

/// Number of folds: at least one.
pub open spec fn at_least_one(k: usize) -> nat {
    if k == 0 {
        1
    } else {
        k as nat
    }
}

/// Rows of every fold.
pub open spec fn folds_of(n: nat, k: nat) -> Seq<Seq<usize>> {
    Seq::new(k, |fold: int| dealt(n, k, fold))
}

/// Vectors as sequences.
pub open spec fn lists<T>(all: Seq<Vec<T>>) -> Seq<Seq<T>> {
    all.map_values(|one: Vec<T>| one@)
}

/// Split rows into folds, one row after another.
#[must_use]
pub fn kfold_row_indices(n: usize, k: usize) -> (folds: Vec<Vec<usize>>)
    ensures
        lists(folds@) == folds_of(n as nat, at_least_one(k)),
{
    let k: usize = if k == 0 {
        1
    } else {
        k
    };
    let mut folds: Vec<Vec<usize>> = Vec::new();
    while folds.len() < k
        invariant
            folds@.len() <= k,
            forall|f: int| 0 <= f < folds@.len() ==> (#[trigger] folds@[f])@.len() == 0,
        decreases k - folds.len(),
    {
        folds.push(Vec::new());
    }
    assert forall|f: int| 0 <= f < k implies (#[trigger] folds@[f])@ == dealt(0, k as nat, f) by {
        assert(folds@[f]@ =~= Seq::empty());
    }
    let mut row: usize = 0;
    while row < n
        invariant
            0 <= row <= n,
            k > 0,
            folds@.len() == k,
            forall|f: int|
                0 <= f < k ==> (#[trigger] folds@[f])@ == dealt(row as nat, k as nat, f),
        decreases n - row,
    {
        let fold: usize = row % k;
        let ghost before = folds@;
        folds[fold].push(row);
        proof {
            assert forall|f: int| 0 <= f < k implies (#[trigger] folds@[f])@ == dealt(
                (row + 1) as nat,
                k as nat,
                f,
            ) by {
                assert(before[f]@ == dealt(row as nat, k as nat, f));
                if f != fold {
                    assert(folds@[f] == before[f]);
                }
            }
        }
        row = row + 1;
    }
    assert(lists(folds@) =~= folds_of(n as nat, k as nat));
    folds
}

proof fn lemma_dealt_len(n: nat, k: nat, fold: int)
    requires
        k > 0,
        0 <= fold < k,
    ensures
        dealt(n, k, fold).len() == n / k + if fold < n % k {
            1int
        } else {
            0
        },
    decreases n,
{
    if n == 0 {
        assert(0nat / k == 0 && 0nat % k == 0) by (nonlinear_arith)
            requires
                k > 0,
        ;
    } else {
        lemma_dealt_len((n - 1) as nat, k, fold);
        let d = k as int;
        let m = n - 1;
        let q = m / d;
        let r = m % d;
        div_mod::lemma_fundamental_div_mod(m, d);
        if r + 1 < d {
            div_mod::lemma_fundamental_div_mod_converse(n as int, d, q, r + 1);
        } else {
            assert(n == d * (q + 1) + 0) by (nonlinear_arith)
                requires
                    n == d * q + r + 1,
                    r + 1 == d,
            ;
            div_mod::lemma_fundamental_div_mod_converse(n as int, d, q + 1, 0);
        }
    }
}

/// Folds differ in size by at most one row.
pub proof fn law_folds_are_balanced(n: nat, k: nat, left: int, right: int)
    requires
        0 <= left < k,
        0 <= right < k,
    ensures
        dealt(n, k, left).len() <= dealt(n, k, right).len() + 1,
{
    lemma_dealt_len(n, k, left);
    lemma_dealt_len(n, k, right);
}

proof fn lemma_dealt_rows(n: nat, k: nat, fold: int)
    requires
        k > 0,
        0 <= fold < k,
    ensures
        forall|j: int|
            0 <= j < dealt(n, k, fold).len() ==> {
                &&& (#[trigger] dealt(n, k, fold)[j]) == (fold + j * k) as usize
                &&& fold + j * k < n
            },
    decreases n,
{
    if n > 0 {
        let m = (n - 1) as nat;
        lemma_dealt_rows(m, k, fold);
        if m % k == fold {
            lemma_dealt_len(m, k, fold);
            div_mod::lemma_fundamental_div_mod(m as int, k as int);
            let j = dealt(m, k, fold).len() as int;
            assert(j == m / k);
            assert(fold + j * k == m) by (nonlinear_arith)
                requires
                    m == k * j + fold,
            ;
        }
    }
}

/// Every row is held out by exactly one fold: row `r` by fold `r % k`, at place `r / k`.
pub proof fn law_folds_partition_rows(n: nat, k: nat, row: int, fold: int)
    requires
        n <= usize::MAX,
        0 <= row < n,
        0 <= fold < k,
    ensures
        dealt(n, k, fold).contains(row as usize) <==> fold == row % (k as int),
        fold == row % (k as int) ==> row / (k as int) < dealt(n, k, fold).len() && dealt(
            n,
            k,
            fold,
        )[row / (k as int)] == row,
    decreases n,
{
    lemma_dealt_rows(n, k, fold);
    lemma_dealt_len(n, k, fold);
    let d = k as int;
    div_mod::lemma_fundamental_div_mod(row, d);
    let list = dealt(n, k, fold);
    if fold == row % d {
        let j = row / d;
        assert(fold + j * d == row) by (nonlinear_arith)
            requires
                row == d * j + fold,
        ;
        assert(j < list.len()) by {
            div_mod::lemma_fundamental_div_mod(n as int, d);
            let q = n as int / d;
            let r = n as int % d;
            assert(j <= q) by (nonlinear_arith)
                requires
                    d * j + fold < d * q + r,
                    r < d,
                    fold >= 0,
                    d > 0,
            ;
            if j == q {
                assert(fold < r) by (nonlinear_arith)
                    requires
                        d * j + fold < d * q + r,
                        j == q,
                ;
            }
        }
        assert(j >= 0) by (nonlinear_arith)
            requires
                d * j + fold >= 0,
                fold < d,
                d > 0,
        ;
        assert(list[j] == (fold + j * k) as usize);
        assert(list.contains(row as usize));
    } else if list.contains(row as usize) {
        let j = choose|j: int| 0 <= j < list.len() && list[j] == row as usize;
        assert(fold + j * k < n);
        assert(fold + j * d >= 0) by (nonlinear_arith)
            requires
                fold >= 0,
                j >= 0,
                d > 0,
        ;
        assert(row == fold + j * d);
        assert(row == j * d + fold);
        div_mod::lemma_fundamental_div_mod_converse(row, d, j, fold);
    }
}

/// Number of folds for a population.
pub open spec fn fold_count(n: usize) -> usize {
    if n >= MANY_ROWS {
        5
    } else {
        3
    }
}

/// Number of folds for a population.
#[must_use]
pub fn baseline_cross_fit_folds(n: usize) -> (k: usize)
    ensures
        k == fold_count(n),
{
    if n >= MANY_ROWS {
        5
    } else {
        3
    }
}

/// Rows below `n` that are not held out.
pub open spec fn kept_rows(n: nat, held_out: Seq<usize>) -> Seq<usize>
    decreases n,
{
    if n == 0 {
        Seq::empty()
    } else if held_out.contains((n - 1) as usize) {
        kept_rows((n - 1) as nat, held_out)
    } else {
        kept_rows((n - 1) as nat, held_out).push((n - 1) as usize)
    }
}

/// List the rows that a fold's mechanisms are fitted on.
#[must_use]
pub fn training_rows(n: usize, held_out: &Vec<usize>) -> (rows: Vec<usize>)
    ensures
        rows@ == kept_rows(n as nat, held_out@),
{
    let mut rows: Vec<usize> = Vec::new();
    let mut row: usize = 0;
    while row < n
        invariant
            0 <= row <= n,
            rows@ == kept_rows(row as nat, held_out@),
        decreases n - row,
    {
        let mut held: bool = false;
        let mut j: usize = 0;
        while j < held_out.len()
            invariant
                0 <= j <= held_out@.len(),
                held == exists|i: int| 0 <= i < j && #[trigger] held_out@[i] == row,
            decreases held_out.len() - j,
        {
            if held_out[j] == row {
                held = true;
            }
            j = j + 1;
        }
        if !held {
            rows.push(row);
        }
        row = row + 1;
    }
    rows
}

/// No row is both held out and fitted on, and every other row is fitted on.
pub proof fn law_training_rows_exclude_the_fold(n: nat, held_out: Seq<usize>, row: usize)
    requires
        n <= usize::MAX,
        row < n,
    ensures
        kept_rows(n, held_out).contains(row) <==> !held_out.contains(row),
{
    lemma_kept_rows(n, held_out, row);
}

proof fn lemma_kept_rows(n: nat, held_out: Seq<usize>, row: usize)
    requires
        n <= usize::MAX,
    ensures
        kept_rows(n, held_out).contains(row) <==> row < n && !held_out.contains(row),
    decreases n,
{
    if n > 0 {
        let before = kept_rows((n - 1) as nat, held_out);
        lemma_kept_rows((n - 1) as nat, held_out, row);
        if !held_out.contains((n - 1) as usize) {
            let after = before.push((n - 1) as usize);
            if before.contains(row) {
                let j = choose|j: int| 0 <= j < before.len() && before[j] == row;
                assert(after[j] == row);
            }
            if row == n - 1 {
                assert(after[before.len() as int] == row);
            }
            if after.contains(row) {
                let j = choose|j: int| 0 <= j < after.len() && after[j] == row;
                if j < before.len() {
                    assert(before[j] == row);
                }
            }
        }
    }
}

/// Residuals of all rows: row `r` has the one that its own fold gives it.
pub open spec fn assembled<N: Amount>(residuals: Seq<Seq<N>>, n: nat, k: nat) -> Seq<N> {
    Seq::new(
        n,
        |row: int|
            if row / (k as int) < residuals[row % (k as int)].len() {
                residuals[row % (k as int)][row / (k as int)]
            } else {
                N::nil()
            },
    )
}

/// Put the residuals of folds back in the order of rows.
#[must_use]
pub fn assemble_residuals<N: Amount>(
    folds: &Vec<Vec<usize>>,
    residuals: &Vec<Vec<N>>,
    n: usize,
) -> (all: Vec<N>)
    requires
        folds@.len() > 0,
        lists(folds@) == folds_of(n as nat, folds@.len()),
        residuals@.len() == folds@.len(),
    ensures
        all@ == assembled(lists(residuals@), n as nat, folds@.len()),
{
    let k: usize = folds.len();
    let ghost parts = lists(residuals@);
    let ghost whole = assembled(parts, n as nat, k as nat);
    let mut all: Vec<N> = Vec::new();
    while all.len() < n
        invariant
            all@.len() <= n,
            forall|r: int| 0 <= r < all@.len() ==> #[trigger] all@[r] == N::nil(),
        decreases n - all.len(),
    {
        all.push(N::zero());
    }
    proof {
        assert forall|r: int| 0 <= r < n implies #[trigger] all@[r] == if r % (k as int) < 0 {
            whole[r]
        } else {
            N::nil()
        } by {
            div_mod::lemma_mod_bound(r, k as int);
        }
    }
    let mut f: usize = 0;
    while f < k
        invariant
            0 <= f <= k,
            k == folds@.len(),
            k > 0,
            lists(folds@) == folds_of(n as nat, k as nat),
            residuals@.len() == k,
            parts == lists(residuals@),
            whole == assembled(parts, n as nat, k as nat),
            all@.len() == n,
            forall|r: int|
                0 <= r < n ==> #[trigger] all@[r] == if r % (k as int) < f {
                    whole[r]
                } else {
                    N::nil()
                },
        decreases k - f,
    {
        let rows = &folds[f];
        let values = &residuals[f];
        proof {
            assert(lists(folds@)[f as int] == folds@[f as int]@);
            assert(rows@ == dealt(n as nat, k as nat, f as int));
            assert(parts[f as int] == values@);
            lemma_dealt_rows(n as nat, k as nat, f as int);
        }
        let mut j: usize = 0;
        while j < rows.len() && j < values.len()
            invariant
                0 <= j <= rows@.len(),
                j <= values@.len(),
                f < k,
                rows@ == dealt(n as nat, k as nat, f as int),
                parts[f as int] == values@,
                whole == assembled(parts, n as nat, k as nat),
                all@.len() == n,
                forall|i: int|
                    0 <= i < rows@.len() ==> {
                        &&& (#[trigger] rows@[i]) == (f + i * k) as usize
                        &&& f + i * k < n
                    },
                forall|r: int|
                    0 <= r < n ==> #[trigger] all@[r] == if r % (k as int) < f || (r % (k as int)
                        == f && r / (k as int) < j) {
                        whole[r]
                    } else {
                        N::nil()
                    },
            decreases rows.len() - j,
        {
            let row: usize = rows[j];
            proof {
                assert(rows@[j as int] == (f + j * k) as usize);
                assert(f + j * k >= 0) by (nonlinear_arith)
                    requires
                        f >= 0,
                        j >= 0,
                        k >= 0,
                ;
                assert(row == j * k + f);
                div_mod::lemma_fundamental_div_mod_converse(
                    row as int,
                    k as int,
                    j as int,
                    f as int,
                );
            }
            let ghost before = all@;
            all.set(row, values[j]);
            proof {
                assert(whole[row as int] == values@[j as int]);
                assert forall|r: int| 0 <= r < n implies #[trigger] all@[r] == if r % (k as int)
                    < f || (r % (k as int) == f && r / (k as int) < j + 1) {
                    whole[r]
                } else {
                    N::nil()
                } by {
                    if r != row {
                        assert(all@[r] == before[r]);
                        if r % (k as int) == f && r / (k as int) == j {
                            div_mod::lemma_fundamental_div_mod(r, k as int);
                            div_mod::lemma_fundamental_div_mod(row as int, k as int);
                        }
                    }
                }
            }
            j = j + 1;
        }
        proof {
            assert forall|r: int| 0 <= r < n implies #[trigger] all@[r] == if r % (k as int) < f
                + 1 {
                whole[r]
            } else {
                N::nil()
            } by {
                if r % (k as int) == f && r / (k as int) >= j {
                    law_folds_partition_rows(n as nat, k as nat, r, f as int);
                }
            }
        }
        f = f + 1;
    }
    proof {
        assert forall|r: int| 0 <= r < n implies #[trigger] all@[r] == whole[r] by {
            div_mod::lemma_mod_bound(r, k as int);
        }
        assert(all@ =~= whole);
    }
    all
}

/// Fits and tests that detection is built on.
///
/// What an operation returns depends on its arguments alone: a residual that is drawn is
/// drawn from the generator that [`CausalRng::from_state`] restores at the state it is given.
pub trait ResidualTests<N: Amount> {
    /// The number that a level stands for.
    open spec fn level_of(&self, level: OrderedFloatBits) -> N {
        arbitrary()
    }

    /// P-value for a difference between the populations in the mean of a variable, where it
    /// can be tested, or why the variable cannot be read.
    open spec fn shifted(&self, variable: VariableId) -> Result<Option<N>, AttributionError> {
        arbitrary()
    }

    /// Outcome of fitting on the whole baseline and on the rows that each fold leaves.
    open spec fn fitted(&self, training: Seq<Seq<usize>>) -> Result<(), AttributionError> {
        arbitrary()
    }

    /// Residuals of a fold's rows under the mechanism fitted without them.
    open spec fn held_out(
        &self,
        folds: Seq<Seq<usize>>,
        fold: int,
        target: VariableId,
        state: u64,
    ) -> Result<Seq<N>, AttributionError> {
        arbitrary()
    }

    /// Residuals of the comparison population under the mechanism fitted on the baseline.
    open spec fn compared(&self, target: VariableId, state: u64) -> Result<
        Seq<N>,
        AttributionError,
    > {
        arbitrary()
    }

    /// Statistic and p-value of a test.
    open spec fn tested(
        &self,
        method: MechanismChangeMethod,
        baseline: Seq<N>,
        comparison: Seq<N>,
        seed: u64,
    ) -> Result<(N, N), AttributionError> {
        arbitrary()
    }

    /// P-values adjusted for their number by a procedure.
    open spec fn adjusted(&self, method: FdrMethod, p_values: Seq<N>) -> Seq<N> {
        arbitrary()
    }

    /// The number that a level stands for.
    fn level(&self, level: OrderedFloatBits) -> (value: N)
        ensures
            value == self.level_of(level),
    ;

    /// Test a variable for a difference in means. A test that fails yields no p-value; a
    /// variable that cannot be read is an error.
    fn mean_shift(&self, variable: VariableId) -> (r: Result<Option<N>, AttributionError>)
        ensures
            r == self.shifted(variable),
    ;

    /// Fit on the whole baseline and on the rows that each fold leaves.
    fn fit(&self, training: &Vec<Vec<usize>>) -> (r: Result<(), AttributionError>)
        ensures
            r == self.fitted(lists(training@)),
    ;

    /// Residuals of a fold's rows. One generator serves all folds of a target: draws of a
    /// fold continue where those of the folds before it end.
    fn fold_residuals(
        &self,
        folds: &Vec<Vec<usize>>,
        fold: usize,
        target: VariableId,
        state: u64,
    ) -> (r: Result<Vec<N>, AttributionError>)
        requires
            fold < folds@.len(),
        ensures
            same_list(r, self.held_out(lists(folds@), fold as int, target, state)),
    ;

    /// Residuals of the comparison population.
    fn comparison_residuals(&self, target: VariableId, state: u64) -> (r: Result<
        Vec<N>,
        AttributionError,
    >)
        ensures
            same_list(r, self.compared(target, state)),
    ;

    /// Test two samples of residuals.
    fn two_sample(
        &self,
        method: MechanismChangeMethod,
        baseline: &Vec<N>,
        comparison: &Vec<N>,
        seed: u64,
    ) -> (r: Result<(N, N), AttributionError>)
        ensures
            r == self.tested(method, baseline@, comparison@, seed),
    ;

    /// Adjust p-values for their number by a procedure.
    fn adjust(&self, method: FdrMethod, p_values: &Vec<N>) -> (r: Vec<N>)
        ensures
            r@ == self.adjusted(method, p_values@),
            r@.len() == p_values@.len(),
    ;
}

/// A list or a failure, as sequences.
pub open spec fn same_list<N>(
    r: Result<Vec<N>, AttributionError>,
    expected: Result<Seq<N>, AttributionError>,
) -> bool {
    match r {
        Ok(list) => expected == Ok::<Seq<N>, AttributionError>(list@),
        Err(error) => expected == Err::<Seq<N>, AttributionError>(error),
    }
}

/// Level at which parents count as shifted.
pub open spec fn parent_shift_level<N: Amount>() -> N {
    N::counted(1).over(N::counted(PARENT_SHIFT_ODDS as nat))
}

/// Whether one of the first `k` parents is distributed differently, or why one before it
/// cannot be read.
pub open spec fn parent_shift<N: Amount, T: ResidualTests<N>>(
    model: ModelView,
    tests: T,
    parents: Seq<DenseNodeId>,
    k: nat,
) -> Result<bool, AttributionError>
    decreases k,
{
    if k == 0 {
        Ok(false)
    } else {
        match parent_shift::<N, T>(model, tests, parents, (k - 1) as nat) {
            Ok(false) => match tests.shifted(model.variables[parents[k - 1].raw as int]) {
                Ok(Some(p)) => Ok(p.below(parent_shift_level::<N>())),
                Ok(None) => Ok(false),
                Err(error) => Err(error),
            },
            settled => settled,
        }
    }
}

proof fn lemma_parent_shift_stays<N: Amount, T: ResidualTests<N>>(
    model: ModelView,
    tests: T,
    parents: Seq<DenseNodeId>,
    k: nat,
    n: nat,
)
    requires
        k <= n,
        parent_shift::<N, T>(model, tests, parents, k) != Ok::<bool, AttributionError>(false),
    ensures
        parent_shift::<N, T>(model, tests, parents, n) == parent_shift::<N, T>(
            model,
            tests,
            parents,
            k,
        ),
    decreases n,
{
    if k < n {
        lemma_parent_shift_stays::<N, T>(model, tests, parents, k, (n - 1) as nat);
    }
}

/// Why one of the first `k` targets is refused: it is not in the model, a parent cannot be
/// read, or a parent is distributed differently.
pub open spec fn covariate_refusal<N: Amount, T: ResidualTests<N>>(
    model: ModelView,
    tests: T,
    targets: Seq<VariableId>,
    k: nat,
) -> Option<AttributionError>
    decreases k,
{
    if k == 0 {
        None
    } else {
        let before = covariate_refusal::<N, T>(model, tests, targets, (k - 1) as nat);
        if before is Some {
            before
        } else {
            match distribution::dense(model, targets[k - 1]) {
                None => Some(
                    AttributionError::MissingVariable { role: "target", id: targets[k - 1] },
                ),
                Some(node) => {
                    let parents = distribution::parents_of(model, node as int);
                    match parent_shift::<N, T>(model, tests, parents, parents.len()) {
                        Ok(true) => Some(
                            AttributionError::InvalidInput { message: COVARIATE_SHIFT },
                        ),
                        Ok(false) => None,
                        Err(error) => Some(error),
                    }
                },
            }
        }
    }
}

proof fn lemma_covariate_refusal_stays<N: Amount, T: ResidualTests<N>>(
    model: ModelView,
    tests: T,
    targets: Seq<VariableId>,
    k: nat,
    n: nat,
)
    requires
        k <= n,
        covariate_refusal::<N, T>(model, tests, targets, k) is Some,
    ensures
        covariate_refusal::<N, T>(model, tests, targets, n) == covariate_refusal::<N, T>(
            model,
            tests,
            targets,
            k,
        ),
    decreases n,
{
    if k < n {
        lemma_covariate_refusal_stays::<N, T>(model, tests, targets, k, (n - 1) as nat);
    }
}

/// Test whether the parents of a target are distributed differently.
pub fn parent_covariate_shift_detected<N: Amount, T: ResidualTests<N>>(
    model: &CausalModel,
    tests: &T,
    target: VariableId,
) -> (r: Result<bool, AttributionError>)
    requires
        model@.well_formed(),
        model@.variables.no_duplicates(),
    ensures
        match distribution::dense(model@, target) {
            None => r == Err::<bool, _>(
                AttributionError::MissingVariable { role: "target", id: target },
            ),
            Some(node) => {
                let parents = distribution::parents_of(model@, node as int);
                r == parent_shift::<N, T>(model@, *tests, parents, parents.len())
            },
        },
{
    let node: usize = match distribution::find_node(model, target) {
        Some(node) => node,
        None => {
            return Err(AttributionError::missing_var("target", target));
        },
    };
    let parents = distribution::parents_of_node(model, node);
    let level = N::count(1).quotient(N::count(PARENT_SHIFT_ODDS));
    let mut i: usize = 0;
    while i < parents.len()
        invariant
            0 <= i <= parents@.len(),
            model@.well_formed(),
            distribution::dense(model@, target) == Some(node),
            parents@ == distribution::parents_of(model@, node as int),
            forall|j: int|
                0 <= j < parents@.len() ==> (#[trigger] parents@[j]).raw < model@.nodes(),
            level == parent_shift_level::<N>(),
            parent_shift::<N, T>(model@, *tests, parents@, i as nat) == Ok::<
                bool,
                AttributionError,
            >(false),
        decreases parents.len() - i,
    {
        assert(parents@[i as int].raw < model@.nodes());
        proof {
            if parent_shift::<N, T>(model@, *tests, parents@, (i + 1) as nat) != Ok::<
                bool,
                AttributionError,
            >(false) {
                lemma_parent_shift_stays::<N, T>(
                    model@,
                    *tests,
                    parents@,
                    (i + 1) as nat,
                    parents@.len(),
                );
            }
        }
        match tests.mean_shift(model.variables[parents[i].raw as usize]) {
            Ok(Some(p)) => {
                if p.is_below(level) {
                    return Ok(true);
                }
            },
            Ok(None) => {},
            Err(error) => {
                return Err(error);
            },
        }
        i = i + 1;
    }
    Ok(false)
}

/// Folds of a population.
pub open spec fn cross_folds(n_rows: usize) -> Seq<Seq<usize>> {
    folds_of(n_rows as nat, fold_count(n_rows) as nat)
}

/// Rows that each fold leaves to fit on.
pub open spec fn trainings(n_rows: usize, folds: Seq<Seq<usize>>) -> Seq<Seq<usize>> {
    folds.map_values(|fold: Seq<usize>| kept_rows(n_rows as nat, fold))
}

/// The first failure among the first `k` folds.
pub open spec fn fold_failure<N: Amount, T: ResidualTests<N>>(
    tests: T,
    folds: Seq<Seq<usize>>,
    target: VariableId,
    state: u64,
    k: nat,
) -> Option<AttributionError>
    decreases k,
{
    if k == 0 {
        None
    } else {
        let before = fold_failure::<N, T>(tests, folds, target, state, (k - 1) as nat);
        match before {
            Some(error) => Some(error),
            None => match tests.held_out(folds, k - 1, target, state) {
                Ok(_) => None,
                Err(error) => Some(error),
            },
        }
    }
}

proof fn lemma_fold_failure_stays<N: Amount, T: ResidualTests<N>>(
    tests: T,
    folds: Seq<Seq<usize>>,
    target: VariableId,
    state: u64,
    k: nat,
    n: nat,
)
    requires
        k <= n,
        fold_failure::<N, T>(tests, folds, target, state, k) is Some,
    ensures
        fold_failure::<N, T>(tests, folds, target, state, n) == fold_failure::<N, T>(
            tests,
            folds,
            target,
            state,
            k,
        ),
    decreases n,
{
    if k < n {
        lemma_fold_failure_stays::<N, T>(tests, folds, target, state, k, (n - 1) as nat);
    }
}

/// Residuals of all baseline rows, each out of sample, or the first failure.
pub open spec fn cross_fitted<N: Amount, T: ResidualTests<N>>(
    tests: T,
    n_rows: usize,
    target: VariableId,
    state: u64,
) -> Result<Seq<N>, AttributionError> {
    let folds = cross_folds(n_rows);
    match fold_failure::<N, T>(tests, folds, target, state, folds.len()) {
        Some(error) => Err(error),
        None => Ok(
            assembled(
                Seq::new(
                    folds.len(),
                    |f: int| tests.held_out(folds, f, target, state)->Ok_0,
                ),
                n_rows as nat,
                folds.len(),
            ),
        ),
    }
}

/// Residuals of all baseline rows, each out of sample.
pub fn cross_fitted_residuals<N: Amount, T: ResidualTests<N>>(
    tests: &T,
    folds: &Vec<Vec<usize>>,
    n_rows: usize,
    target: VariableId,
    state: u64,
) -> (r: Result<Vec<N>, AttributionError>)
    requires
        lists(folds@) == cross_folds(n_rows),
    ensures
        same_list(r, cross_fitted::<N, T>(*tests, n_rows, target, state)),
{
    let ghost parts = lists(folds@);
    let k: usize = folds.len();
    let mut residuals: Vec<Vec<N>> = Vec::new();
    while residuals.len() < k
        invariant
            k == folds@.len(),
            parts == lists(folds@),
            parts == cross_folds(n_rows),
            residuals@.len() <= k,
            fold_failure::<N, T>(*tests, parts, target, state, residuals@.len()) is None,
            forall|f: int|
                0 <= f < residuals@.len() ==> tests.held_out(parts, f, target, state) == Ok::<
                    Seq<N>,
                    AttributionError,
                >((#[trigger] residuals@[f])@),
        decreases k - residuals.len(),
    {
        let f: usize = residuals.len();
        match tests.fold_residuals(folds, f, target, state) {
            Ok(values) => {
                residuals.push(values);
            },
            Err(error) => {
                proof {
                    lemma_fold_failure_stays::<N, T>(
                        *tests,
                        parts,
                        target,
                        state,
                        (f + 1) as nat,
                        k as nat,
                    );
                }
                return Err(error);
            },
        }
    }
    proof {
        assert(parts.len() == k);
        assert(lists(residuals@) =~= Seq::new(
            k as nat,
            |f: int| tests.held_out(parts, f, target, state)->Ok_0,
        )) by {
            assert forall|f: int| 0 <= f < k implies lists(residuals@)[f] == tests.held_out(
                parts,
                f,
                target,
                state,
            )->Ok_0 by {
                assert(residuals@[f]@ == lists(residuals@)[f]);
            }
        }
    }
    Ok(assemble_residuals(folds, &residuals, n_rows))
}

/// Statistic and p-value of a target, or the first failure.
pub open spec fn verdict_on<N: Amount, T: ResidualTests<N>>(
    tests: T,
    rng: RngFactory,
    n_rows: usize,
    method: MechanismChangeMethod,
    target: VariableId,
) -> Result<(N, N), AttributionError> {
    match cross_fitted::<N, T>(tests, n_rows, target, residual_state(rng, target, 0)) {
        Err(error) => Err(error),
        Ok(baseline) => match tests.compared(target, residual_state(rng, target, 1)) {
            Err(error) => Err(error),
            Ok(comparison) => tests.tested(
                method,
                baseline,
                comparison,
                kernel_seed_of(target) as u64,
            ),
        },
    }
}

/// Why detection is refused before anything is fitted.
pub open spec fn detection_refusal<N: Amount, T: ResidualTests<N>>(
    model: ModelView,
    tests: T,
    query: MechanismChangeQuery,
    baseline_rows: usize,
    comparison_rows: usize,
) -> Option<AttributionError> {
    if query.refusal() is Some {
        Some(AttributionError::Query(query.refusal()->0))
    } else if query.targets@.len() > query.max_targets {
        Some(
            AttributionError::SizeLimit {
                kind: "targets",
                requested: query.targets@.len() as usize,
                max: query.max_targets,
            },
        )
    } else if baseline_rows < MIN_POPULATION_ROWS || comparison_rows < MIN_POPULATION_ROWS {
        Some(AttributionError::InvalidInput { message: TOO_FEW_ROWS })
    } else {
        covariate_refusal::<N, T>(model, tests, query.targets@, query.targets@.len())
    }
}

/// The first failure among the first `k` targets.
pub open spec fn target_failure<N: Amount, T: ResidualTests<N>>(
    tests: T,
    rng: RngFactory,
    n_rows: usize,
    method: MechanismChangeMethod,
    targets: Seq<VariableId>,
    k: nat,
) -> Option<AttributionError>
    decreases k,
{
    if k == 0 {
        None
    } else {
        match target_failure::<N, T>(tests, rng, n_rows, method, targets, (k - 1) as nat) {
            Some(error) => Some(error),
            None => match verdict_on::<N, T>(tests, rng, n_rows, method, targets[k - 1]) {
                Ok(_) => None,
                Err(error) => Some(error),
            },
        }
    }
}

proof fn lemma_target_failure_stays<N: Amount, T: ResidualTests<N>>(
    tests: T,
    rng: RngFactory,
    n_rows: usize,
    method: MechanismChangeMethod,
    targets: Seq<VariableId>,
    k: nat,
    n: nat,
)
    requires
        k <= n,
        target_failure::<N, T>(tests, rng, n_rows, method, targets, k) is Some,
    ensures
        target_failure::<N, T>(tests, rng, n_rows, method, targets, n) == target_failure::<N, T>(
            tests,
            rng,
            n_rows,
            method,
            targets,
            k,
        ),
    decreases n,
{
    if k < n {
        lemma_target_failure_stays::<N, T>(tests, rng, n_rows, method, targets, k, (n - 1) as nat);
    }
}

/// Unadjusted p-values of targets.
pub open spec fn raw_p_values<N: Amount, T: ResidualTests<N>>(
    tests: T,
    rng: RngFactory,
    n_rows: usize,
    method: MechanismChangeMethod,
    targets: Seq<VariableId>,
) -> Seq<N> {
    targets.map_values(
        |target: VariableId| verdict_on::<N, T>(tests, rng, n_rows, method, target)->Ok_0.1,
    )
}

/// The detection for the `i`-th target. Where a correction is asked for, the p-value adjusted
/// by its procedure decides, and the unadjusted one is reported beside it.
pub open spec fn detection<N: Amount, T: ResidualTests<N>>(
    tests: T,
    rng: RngFactory,
    n_rows: usize,
    method: MechanismChangeMethod,
    targets: Seq<VariableId>,
    alpha: N,
    correction: Option<FdrAdjustment>,
    i: int,
) -> MechanismChangeDetection<N> {
    let (statistic, p_value) = verdict_on::<N, T>(tests, rng, n_rows, method, targets[i])->Ok_0;
    let adjusted = match correction {
        Some(adjustment) => Some(
            tests.adjusted(
                adjustment.method,
                raw_p_values::<N, T>(tests, rng, n_rows, method, targets),
            )[i],
        ),
        None => None,
    };
    MechanismChangeDetection {
        variable: targets[i],
        changed: match adjusted {
            Some(p) => p.below(alpha),
            None => p_value.below(alpha),
        },
        statistic,
        p_value,
        adjusted_p_value: adjusted,
        method: method.label(),
    }
}

/// What detection returns.
pub open spec fn is_detection<N: Amount, T: ResidualTests<N>>(
    r: Result<Vec<MechanismChangeDetection<N>>, AttributionError>,
    model: ModelView,
    tests: T,
    rng: RngFactory,
    query: MechanismChangeQuery,
    method: MechanismChangeMethod,
    baseline_rows: usize,
    comparison_rows: usize,
    correction: Option<FdrAdjustment>,
) -> bool {
    let refusal = detection_refusal::<N, T>(
        model,
        tests,
        query,
        baseline_rows,
        comparison_rows,
    );
    let fit = tests.fitted(trainings(baseline_rows, cross_folds(baseline_rows)));
    let targets = query.targets@;
    let failure = target_failure::<N, T>(tests, rng, baseline_rows, method, targets, targets.len());
    match r {
        Ok(found) => {
            &&& refusal is None
            &&& fit is Ok
            &&& failure is None
            &&& found@ == Seq::new(
                targets.len(),
                |i: int|
                    detection::<N, T>(
                        tests,
                        rng,
                        baseline_rows,
                        method,
                        targets,
                        tests.level_of(query.significance_level),
                        correction,
                        i,
                    ),
            )
        },
        Err(error) => if refusal is Some {
            refusal == Some(error)
        } else if fit is Err {
            fit == Err::<(), _>(error)
        } else {
            failure == Some(error)
        },
    }
}

/// Detect mechanisms that differ between two populations, with a choice of whether and by which
/// procedure p-values are adjusted for the number of targets.
pub fn detect_mechanism_changes_with_correction<N: Amount, T: ResidualTests<N>>(
    model: &CausalModel,
    query: &MechanismChangeQuery,
    method: MechanismChangeMethod,
    baseline_rows: usize,
    comparison_rows: usize,
    tests: &T,
    ctx: &ExecutionContext,
    correction: Option<FdrAdjustment>,
) -> (r: Result<Vec<MechanismChangeDetection<N>>, AttributionError>)
    requires
        model@.well_formed(),
        model@.variables.no_duplicates(),
    ensures
        is_detection(
            r,
            model@,
            *tests,
            ctx.rng,
            *query,
            method,
            baseline_rows,
            comparison_rows,
            correction,
        ),
{
    match query.validate() {
        Ok(_) => {},
        Err(error) => {
            return Err(AttributionError::Query(error));
        },
    }
    if query.targets.len() > query.max_targets {
        return Err(
            AttributionError::SizeLimit {
                kind: "targets",
                requested: query.targets.len(),
                max: query.max_targets,
            },
        );
    }
    let alpha = tests.level(query.significance_level);
    if baseline_rows < MIN_POPULATION_ROWS || comparison_rows < MIN_POPULATION_ROWS {
        return Err(AttributionError::invalid_input(TOO_FEW_ROWS));
    }
    let ghost targets = query.targets@;
    let count: usize = query.targets.len();
    let mut t: usize = 0;
    while t < count
        invariant
            0 <= t <= count,
            count == targets.len(),
            targets == query.targets@,
            model@.well_formed(),
            model@.variables.no_duplicates(),
            query.refusal() is None,
            count <= query.max_targets,
            baseline_rows >= MIN_POPULATION_ROWS,
            comparison_rows >= MIN_POPULATION_ROWS,
            covariate_refusal::<N, T>(model@, *tests, targets, t as nat) is None,
        decreases count - t,
    {
        let target = query.targets[t];
        let shifted = parent_covariate_shift_detected::<N, T>(model, tests, target);
        proof {
            if covariate_refusal::<N, T>(model@, *tests, targets, (t + 1) as nat) is Some {
                lemma_covariate_refusal_stays::<N, T>(
                    model@,
                    *tests,
                    targets,
                    (t + 1) as nat,
                    count as nat,
                );
            }
        }
        match shifted {
            Ok(true) => {
                return Err(AttributionError::invalid_input(COVARIATE_SHIFT));
            },
            Ok(false) => {},
            Err(error) => {
                return Err(error);
            },
        }
        t = t + 1;
    }
    let folds = kfold_row_indices(baseline_rows, baseline_cross_fit_folds(baseline_rows));
    assert(lists(folds@) == cross_folds(baseline_rows));
    let mut training: Vec<Vec<usize>> = Vec::new();
    while training.len() < folds.len()
        invariant
            training@.len() <= folds@.len(),
            forall|f: int|
                0 <= f < training@.len() ==> (#[trigger] training@[f])@ == kept_rows(
                    baseline_rows as nat,
                    folds@[f]@,
                ),
        decreases folds.len() - training.len(),
    {
        training.push(training_rows(baseline_rows, &folds[training.len()]));
    }
    proof {
        assert(lists(training@) =~= trainings(baseline_rows, lists(folds@)));
    }
    match tests.fit(&training) {
        Ok(_) => {},
        Err(error) => {
            return Err(error);
        },
    }
    let mut outcomes: Vec<(N, N)> = Vec::new();
    let mut p_values: Vec<N> = Vec::new();
    while outcomes.len() < count
        invariant
            count == targets.len(),
            targets == query.targets@,
            lists(folds@) == cross_folds(baseline_rows),
            detection_refusal::<N, T>(
                model@,
                *tests,
                *query,
                baseline_rows,
                comparison_rows,
            ) is None,
            tests.fitted(trainings(baseline_rows, cross_folds(baseline_rows))) is Ok,
            outcomes@.len() <= count,
            p_values@.len() == outcomes@.len(),
            target_failure::<N, T>(
                *tests,
                ctx.rng,
                baseline_rows,
                method,
                targets,
                outcomes@.len(),
            ) is None,
            forall|i: int|
                0 <= i < outcomes@.len() ==> verdict_on::<N, T>(
                    *tests,
                    ctx.rng,
                    baseline_rows,
                    method,
                    targets[i],
                ) == Ok::<(N, N), AttributionError>(#[trigger] outcomes@[i]),
            forall|i: int| 0 <= i < p_values@.len() ==> #[trigger] p_values@[i] == outcomes@[i].1,
        decreases count - outcomes.len(),
    {
        let i: usize = outcomes.len();
        let target = query.targets[i];
        proof {
            if target_failure::<N, T>(
                *tests,
                ctx.rng,
                baseline_rows,
                method,
                targets,
                (i + 1) as nat,
            ) is Some {
                lemma_target_failure_stays::<N, T>(
                    *tests,
                    ctx.rng,
                    baseline_rows,
                    method,
                    targets,
                    (i + 1) as nat,
                    count as nat,
                );
            }
        }
        let baseline = match cross_fitted_residuals::<N, T>(
            tests,
            &folds,
            baseline_rows,
            target,
            residual_rng(&ctx.rng, target, 0).state(),
        ) {
            Ok(residuals) => residuals,
            Err(error) => {
                return Err(error);
            },
        };
        let comparison = match tests.comparison_residuals(
            target,
            residual_rng(&ctx.rng, target, 1).state(),
        ) {
            Ok(residuals) => residuals,
            Err(error) => {
                return Err(error);
            },
        };
        match tests.two_sample(method, &baseline, &comparison, kernel_seed(target)) {
            Ok(outcome) => {
                outcomes.push(outcome);
                p_values.push(outcome.1);
            },
            Err(error) => {
                return Err(error);
            },
        }
    }
    proof {
        assert(p_values@ =~= raw_p_values::<N, T>(*tests, ctx.rng, baseline_rows, method, targets)) by {
            assert forall|i: int| 0 <= i < count implies p_values@[i] == raw_p_values::<N, T>(
                *tests,
                ctx.rng,
                baseline_rows,
                method,
                targets,
            )[i] by {
                assert(p_values@[i] == outcomes@[i].1);
            }
        }
    }
    let adjusted: Option<Vec<N>> = match correction {
        Some(adjustment) => Some(tests.adjust(adjustment.method, &p_values)),
        None => None,
    };
    let mut found: Vec<MechanismChangeDetection<N>> = Vec::new();
    while found.len() < count
        invariant
            count == targets.len(),
            targets == query.targets@,
            outcomes@.len() == count,
            correction is Some == adjusted is Some,
            alpha == tests.level_of(query.significance_level),
            adjusted matches Some(list) ==> list@.len() == count && list@ == tests.adjusted(
                correction->0.method,
                raw_p_values::<N, T>(*tests, ctx.rng, baseline_rows, method, targets),
            ),
            forall|i: int|
                0 <= i < outcomes@.len() ==> verdict_on::<N, T>(
                    *tests,
                    ctx.rng,
                    baseline_rows,
                    method,
                    targets[i],
                ) == Ok::<(N, N), AttributionError>(#[trigger] outcomes@[i]),
            found@.len() <= count,
            forall|i: int|
                0 <= i < found@.len() ==> #[trigger] found@[i] == detection::<N, T>(
                    *tests,
                    ctx.rng,
                    baseline_rows,
                    method,
                    targets,
                    alpha,
                    correction,
                    i,
                ),
        decreases count - found.len(),
    {
        let i: usize = found.len();
        let (statistic, p_value) = outcomes[i];
        assert(verdict_on::<N, T>(*tests, ctx.rng, baseline_rows, method, targets[i as int]) == Ok::<
            (N, N),
            AttributionError,
        >(outcomes@[i as int]));
        let adjusted_p_value: Option<N> = match &adjusted {
            Some(list) => Some(list[i]),
            None => None,
        };
        let decisive = match adjusted_p_value {
            Some(p) => p,
            None => p_value,
        };
        found.push(
            MechanismChangeDetection {
                variable: query.targets[i],
                changed: decisive.is_below(alpha),
                statistic,
                p_value,
                adjusted_p_value,
                method: method.name(),
            },
        );
    }
    proof {
        assert(found@ =~= Seq::new(
            targets.len(),
            |i: int|
                detection::<N, T>(*tests, ctx.rng, baseline_rows, method, targets, alpha, correction, i),
        ));
    }
    Ok(found)
}

/// Detect mechanisms that differ between two populations, with p-values adjusted for the
/// number of targets by Benjamini and Hochberg's procedure.
pub fn detect_mechanism_changes<N: Amount, T: ResidualTests<N>>(
    model: &CausalModel,
    query: &MechanismChangeQuery,
    method: MechanismChangeMethod,
    baseline_rows: usize,
    comparison_rows: usize,
    tests: &T,
    ctx: &ExecutionContext,
) -> (r: Result<Vec<MechanismChangeDetection<N>>, AttributionError>)
    requires
        model@.well_formed(),
        model@.variables.no_duplicates(),
    ensures
        is_detection(
            r,
            model@,
            *tests,
            ctx.rng,
            *query,
            method,
            baseline_rows,
            comparison_rows,
            Some(FdrAdjustment { method: FdrMethod::BenjaminiHochberg }),
        ),
{
    detect_mechanism_changes_with_correction(
        model,
        query,
        method,
        baseline_rows,
        comparison_rows,
        tests,
        ctx,
        Some(FdrAdjustment::bh()),
    )
}

} // verus!
