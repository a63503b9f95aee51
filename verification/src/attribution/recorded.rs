//! Residuals computed ahead, tested by the distance of their means.
//!
//! SPDX-License-Identifier: MIT OR Apache-2.0

use crate::attribution::amount::Amount;
use crate::attribution::error::AttributionError;
use crate::attribution::mechanism_change::{FdrMethod, MechanismChangeMethod, ResidualTests};
use crate::attribution::table;
use crate::ids::VariableId;
use crate::level::OrderedFloatBits;
use vstd::prelude::*;

verus! {

/// Message for residuals that were not computed.
pub const NO_RESIDUALS: &'static str = "missing residuals";

/// Residuals of one target.
#[derive(Clone, Debug, PartialEq)]
pub struct ResidualRecord<N> {
    /// Target.
    pub target: VariableId,
    /// Residuals of the baseline population, fold by fold.
    pub by_fold: Vec<Vec<N>>,
    /// Residuals of the comparison population.
    pub comparison: Vec<N>,
}

/// P-value for a shift of one variable.
#[derive(Clone, Copy, Debug, PartialEq)]
pub struct ShiftRecord<N> {
    /// Variable.
    pub variable: VariableId,
    /// P-value.
    pub p_value: N,
}

/// Residuals and shifts computed ahead.
///
/// Samples whose means differ by more than the margin have the p-value zero, and all others
/// have one. Variables without a recorded shift count as untested. P-values are adjusted by
/// stepping up.
#[derive(Clone, Debug, PartialEq)]
pub struct RecordedTests<N> {
    /// Significance level.
    pub alpha: N,
    /// Largest distance of means that does not count.
    pub margin: N,
    /// Shifts.
    pub shifts: Vec<ShiftRecord<N>>,
    /// Residuals.
    pub residuals: Vec<ResidualRecord<N>>,
}

/// The first of the last `len - k` records of a target.
pub open spec fn record_of<N>(
    records: Seq<ResidualRecord<N>>,
    target: VariableId,
    k: nat,
) -> Option<ResidualRecord<N>>
    decreases records.len() - k,
{
    if k >= records.len() {
        None
    } else if records[k as int].target == target {
        Some(records[k as int])
    } else {
        record_of(records, target, k + 1)
    }
}

/// The first of the last `len - k` shifts of a variable.
pub open spec fn shift_of<N>(
    records: Seq<ShiftRecord<N>>,
    variable: VariableId,
    k: nat,
) -> Option<N>
    decreases records.len() - k,
{
    if k >= records.len() {
        None
    } else if records[k as int].variable == variable {
        Some(records[k as int].p_value)
    } else {
        shift_of(records, variable, k + 1)
    }
}

/// How many of the first `k` values do not lie above the `j`-th.
pub open spec fn rank_of<N: Amount>(values: Seq<N>, j: int, k: nat) -> nat
    decreases k,
{
    if k == 0 {
        0
    } else {
        let before = rank_of(values, j, (k - 1) as nat);
        if values[j].below(values[k - 1]) {
            before
        } else {
            before + 1
        }
    }
}

/// Sum of the inverses of the first `k` counts.
pub open spec fn harmonic<N: Amount>(k: nat) -> N
    decreases k,
{
    if k == 0 {
        N::nil()
    } else {
        harmonic::<N>((k - 1) as nat).plus(N::counted(1).over(N::counted(k)))
    }
}

/// Factor on `n` p-values that a procedure needs for the dependence it allows.
pub open spec fn dependence<N: Amount>(method: FdrMethod, n: nat) -> N {
    match method {
        FdrMethod::BenjaminiHochberg => N::counted(1),
        FdrMethod::BenjaminiYekutieli => harmonic(n),
    }
}

/// The `j`-th p-value against its rank among all.
pub open spec fn against_rank<N: Amount>(factor: N, p_values: Seq<N>, j: int) -> N {
    p_values[j].times(N::counted(p_values.len()).times(factor)).over(
        N::counted(rank_of(p_values, j, p_values.len())),
    )
}

/// Smallest of one and what the first `k` p-values that do not lie below the `i`-th come to
/// against their ranks.
pub open spec fn stepped_up<N: Amount>(factor: N, p_values: Seq<N>, i: int, k: nat) -> N
    decreases k,
{
    if k == 0 {
        N::counted(1)
    } else {
        let best = stepped_up(factor, p_values, i, (k - 1) as nat);
        let next = against_rank(factor, p_values, k - 1);
        if !p_values[k - 1].below(p_values[i]) && next.below(best) {
            next
        } else {
            best
        }
    }
}

/// Rank of a value.
fn rank<N: Amount>(values: &Vec<N>, j: usize) -> (r: usize)
    requires
        j < values@.len(),
    ensures
        r == rank_of(values@, j as int, values@.len()),
{
    let mut r: usize = 0;
    let mut k: usize = 0;
    while k < values.len()
        invariant
            j < values@.len(),
            0 <= k <= values@.len(),
            r <= k,
            r == rank_of(values@, j as int, k as nat),
        decreases values.len() - k,
    {
        if !values[j].is_below(values[k]) {
            r = r + 1;
        }
        k = k + 1;
    }
    r
}

/// Factor of a procedure on `n` p-values.
fn dependence_factor<N: Amount>(method: FdrMethod, n: usize) -> (factor: N)
    ensures
        factor == dependence::<N>(method, n as nat),
{
    match method {
        FdrMethod::BenjaminiHochberg => N::count(1),
        FdrMethod::BenjaminiYekutieli => {
            let mut sum = N::zero();
            let mut k: usize = 0;
            while k < n
                invariant
                    0 <= k <= n,
                    sum == harmonic::<N>(k as nat),
                decreases n - k,
            {
                k = k + 1;
                sum = sum.sum(N::count(1).quotient(N::count(k as u64)));
            }
            sum
        },
    }
}

fn copied<N: Copy>(values: &Vec<N>) -> (copy: Vec<N>)
    ensures
        copy@ == values@,
{
    let mut copy: Vec<N> = Vec::new();
    while copy.len() < values.len()
        invariant
            copy@.len() <= values@.len(),
            copy@ == values@.take(copy@.len() as int),
        decreases values.len() - copy.len(),
    {
        copy.push(values[copy.len()]);
        assert(copy@ =~= values@.take(copy@.len() as int));
    }
    assert(copy@ =~= values@);
    copy
}

impl<N: Amount> RecordedTests<N> {
    /// Find the residuals of a target.
    fn find(&self, target: VariableId) -> (found: Option<&ResidualRecord<N>>)
        ensures
            match found {
                Some(record) => record_of(self.residuals@, target, 0) == Some(*record),
                None => record_of(self.residuals@, target, 0) is None,
            },
    {
        let mut k: usize = 0;
        while k < self.residuals.len()
            invariant
                0 <= k <= self.residuals@.len(),
                record_of(self.residuals@, target, 0) == record_of(
                    self.residuals@,
                    target,
                    k as nat,
                ),
            decreases self.residuals.len() - k,
        {
            if self.residuals[k].target.raw == target.raw {
                return Some(&self.residuals[k]);
            }
            k = k + 1;
        }
        None
    }
}

impl<N: Amount> ResidualTests<N> for RecordedTests<N> {
    open spec fn level_of(&self, level: OrderedFloatBits) -> N {
        self.alpha
    }

    open spec fn shifted(&self, variable: VariableId) -> Result<Option<N>, AttributionError> {
        Ok(shift_of(self.shifts@, variable, 0))
    }

    open spec fn fitted(&self, training: Seq<Seq<usize>>) -> Result<(), AttributionError> {
        Ok(())
    }

    open spec fn held_out(
        &self,
        folds: Seq<Seq<usize>>,
        fold: int,
        target: VariableId,
        state: u64,
    ) -> Result<Seq<N>, AttributionError> {
        match record_of(self.residuals@, target, 0) {
            Some(record) => if fold < record.by_fold@.len() {
                Ok(record.by_fold@[fold]@)
            } else {
                Err(AttributionError::MissingArtifact(NO_RESIDUALS))
            },
            None => Err(AttributionError::MissingArtifact(NO_RESIDUALS)),
        }
    }

    open spec fn compared(&self, target: VariableId, state: u64) -> Result<
        Seq<N>,
        AttributionError,
    > {
        match record_of(self.residuals@, target, 0) {
            Some(record) => Ok(record.comparison@),
            None => Err(AttributionError::MissingArtifact(NO_RESIDUALS)),
        }
    }

    open spec fn tested(
        &self,
        method: MechanismChangeMethod,
        baseline: Seq<N>,
        comparison: Seq<N>,
        seed: u64,
    ) -> Result<(N, N), AttributionError> {
        let distance = table::mean(comparison).minus(table::mean(baseline)).size();
        Ok(
            (
                distance,
                if self.margin.below(distance) {
                    N::nil()
                } else {
                    N::counted(1)
                },
            ),
        )
    }

    open spec fn adjusted(&self, method: FdrMethod, p_values: Seq<N>) -> Seq<N> {
        let n = p_values.len();
        Seq::new(n, |i: int| stepped_up(dependence::<N>(method, n), p_values, i, n))
    }

    fn level(&self, level: OrderedFloatBits) -> N {
        self.alpha
    }

    fn mean_shift(&self, variable: VariableId) -> Result<Option<N>, AttributionError> {
        let mut k: usize = 0;
        while k < self.shifts.len()
            invariant
                0 <= k <= self.shifts@.len(),
                shift_of(self.shifts@, variable, 0) == shift_of(
                    self.shifts@,
                    variable,
                    k as nat,
                ),
            decreases self.shifts.len() - k,
        {
            if self.shifts[k].variable.raw == variable.raw {
                return Ok(Some(self.shifts[k].p_value));
            }
            k = k + 1;
        }
        Ok(None)
    }

    fn fit(&self, training: &Vec<Vec<usize>>) -> Result<(), AttributionError> {
        Ok(())
    }

    fn fold_residuals(
        &self,
        folds: &Vec<Vec<usize>>,
        fold: usize,
        target: VariableId,
        state: u64,
    ) -> Result<Vec<N>, AttributionError> {
        match self.find(target) {
            Some(record) => {
                if fold < record.by_fold.len() {
                    Ok(copied(&record.by_fold[fold]))
                } else {
                    Err(AttributionError::MissingArtifact(NO_RESIDUALS))
                }
            },
            None => Err(AttributionError::MissingArtifact(NO_RESIDUALS)),
        }
    }

    fn comparison_residuals(&self, target: VariableId, state: u64) -> Result<
        Vec<N>,
        AttributionError,
    > {
        match self.find(target) {
            Some(record) => Ok(copied(&record.comparison)),
            None => Err(AttributionError::MissingArtifact(NO_RESIDUALS)),
        }
    }

    fn two_sample(
        &self,
        method: MechanismChangeMethod,
        baseline: &Vec<N>,
        comparison: &Vec<N>,
        seed: u64,
    ) -> Result<(N, N), AttributionError> {
        let distance = table::mean_of(comparison).difference(
            table::mean_of(baseline),
        ).magnitude();
        let p = if self.margin.is_below(distance) {
            N::zero()
        } else {
            N::count(1)
        };
        Ok((distance, p))
    }

    fn adjust(&self, method: FdrMethod, p_values: &Vec<N>) -> Vec<N> {
        let n: usize = p_values.len();
        let factor = dependence_factor::<N>(method, n);
        let mut candidates: Vec<N> = Vec::new();
        while candidates.len() < n
            invariant
                n == p_values@.len(),
                candidates@.len() <= n,
                forall|j: int|
                    0 <= j < candidates@.len() ==> #[trigger] candidates@[j] == against_rank(
                        factor,
                        p_values@,
                        j,
                    ),
            decreases n - candidates.len(),
        {
            let j: usize = candidates.len();
            let place: usize = rank(p_values, j);
            candidates.push(
                p_values[j].product(N::count(n as u64).product(factor)).quotient(
                    N::count(place as u64),
                ),
            );
        }
        let mut all: Vec<N> = Vec::new();
        while all.len() < n
            invariant
                n == p_values@.len(),
                candidates@.len() == n,
                forall|j: int|
                    0 <= j < n ==> #[trigger] candidates@[j] == against_rank(
                        factor,
                        p_values@,
                        j,
                    ),
                all@.len() <= n,
                forall|i: int|
                    0 <= i < all@.len() ==> #[trigger] all@[i] == stepped_up(
                        factor,
                        p_values@,
                        i,
                        n as nat,
                    ),
            decreases n - all.len(),
        {
            let i: usize = all.len();
            let mut best = N::count(1);
            let mut k: usize = 0;
            while k < n
                invariant
                    i < n,
                    0 <= k <= n,
                    n == p_values@.len(),
                    candidates@.len() == n,
                    forall|j: int|
                        0 <= j < n ==> #[trigger] candidates@[j] == against_rank(
                            factor,
                            p_values@,
                            j,
                        ),
                    best == stepped_up(factor, p_values@, i as int, k as nat),
                decreases n - k,
            {
                if !p_values[k].is_below(p_values[i]) && candidates[k].is_below(best) {
                    best = candidates[k];
                }
                k = k + 1;
            }
            all.push(best);
        }
        assert(all@ =~= self.adjusted(method, p_values@));
        all
    }
}

} // verus!
