//! Causal-response result and support vocabulary.
//!
//! SPDX-License-Identifier: MIT OR Apache-2.0

use crate::assumption::AssumptionSet;
use crate::diagnostic::Diagnostic;
use crate::identification::IdentificationStatus;
use crate::level::OrderedFloatBits;
use crate::query::response::ResponseFunctional;
use crate::temporal::TemporalNodeKey;
use vstd::prelude::*;

verus! {

/// Empirical support classification, orthogonal to structural identification.
///
/// On a static curve, [`SupportReport::status`] is the worst label over requested
/// points. On a temporal dose by horizon surface it is a three-way summary of
/// [`SupportReport::point_status`]: every cell supported, mixed (partially
/// extrapolative), or no cell supported.
#[derive(Clone, Copy, Debug, PartialEq, Eq, Hash, Structural)]
pub enum SupportStatus {
    /// Requested region is empirically supported under configured diagnostics.
    Supported,
    /// Support exists but overlap or local effective sample information is weak.
    WeakOverlap,
    /// Result relies on fitted-model extrapolation within the marginal observed range;
    /// on a temporal surface also the mixed-cell summary.
    Extrapolative,
    /// At least one requested coordinate is outside marginal empirical support; on a
    /// temporal surface, no requested cell sits inside its treatment range.
    OutsideEmpiricalSupport,
}

impl SupportStatus {
    /// The name as text.
    pub open spec fn name(self) -> Seq<char> {
        match self {
            SupportStatus::Supported => "supported"@,
            SupportStatus::WeakOverlap => "weak_overlap"@,
            SupportStatus::Extrapolative => "extrapolative"@,
            SupportStatus::OutsideEmpiricalSupport => "outside_empirical_support"@,
        }
    }

    /// Stable `snake_case` name.
    #[must_use]
    pub fn as_str(self) -> (out: &'static str)
        ensures
            out@ == self.name(),
    {
        match self {
            SupportStatus::Supported => "supported",
            SupportStatus::WeakOverlap => "weak_overlap",
            SupportStatus::Extrapolative => "extrapolative",
            SupportStatus::OutsideEmpiricalSupport => "outside_empirical_support",
        }
    }
}

/// Different variants of [`SupportStatus`] have different names.
pub proof fn law_support_status_names_are_distinct(a: SupportStatus, b: SupportStatus)
    requires
        a.name() == b.name(),
    ensures
        a == b,
{
    reveal_strlit("supported");
    assert("supported"@.len() == 9);
    reveal_strlit("weak_overlap");
    assert("weak_overlap"@.len() == 12);
    reveal_strlit("extrapolative");
    assert("extrapolative"@.len() == 13);
    reveal_strlit("outside_empirical_support");
    assert("outside_empirical_support"@.len() == 25);
}
/// Region assessed by support diagnostics.
#[derive(Clone, Debug, PartialEq)]
pub struct SupportRegion {
    /// Minimum coordinate per treatment dimension.
    pub minima: Vec<OrderedFloatBits>,
    /// Maximum coordinate per treatment dimension.
    pub maxima: Vec<OrderedFloatBits>,
}

/// One machine-readable empirical support diagnostic.
#[derive(Clone, Debug, PartialEq)]
pub struct SupportDiagnostic {
    /// Stable diagnostic id.
    pub id: String,
    /// Per-grid values, if applicable.
    pub values: Vec<OrderedFloatBits>,
    /// Human-readable interpretation.
    pub detail: String,
}

/// Scientific support report retained on every response result.
#[derive(Clone, Debug, PartialEq)]
pub struct SupportReport {
    /// Surface-level status.
    pub status: SupportStatus,
    /// Assessed query region.
    pub query_region: SupportRegion,
    /// Structured diagnostics such as local effective sample size.
    pub diagnostics: Vec<SupportDiagnostic>,
    /// Non-fatal warnings.
    pub warnings: Vec<Diagnostic>,
    /// Per-cell status on a temporal surface, dose-major like the mean: cell `(d, h)`
    /// stands at `d * n_horizons + h`. `None` on static curves.
    pub point_status: Option<Vec<SupportStatus>>,
}

/// Closed lower and upper identified set.
#[derive(Clone, Copy, Debug, PartialEq, Eq, Structural)]
pub struct IdentifiedSet<T> {
    /// Lower endpoint or envelope.
    pub lower: T,
    /// Upper endpoint or envelope.
    pub upper: T,
}

/// The larger of two levels; where one is NaN the other, where they are numerically
/// equal the first.
pub open spec fn maximum(a: OrderedFloatBits, b: OrderedFloatBits) -> OrderedFloatBits {
    if a.nan() || a.lt(b) {
        b
    } else {
        a
    }
}

/// The smaller of two levels; where one is NaN the other, where they are numerically
/// equal the first.
pub open spec fn minimum(a: OrderedFloatBits, b: OrderedFloatBits) -> OrderedFloatBits {
    if a.nan() || b.lt(a) {
        b
    } else {
        a
    }
}

impl IdentifiedSet<OrderedFloatBits> {
    /// Finite endpoints in order.
    pub open spec fn well_formed(self) -> bool {
        self.lower.finite() && self.upper.finite() && self.lower.le(self.upper)
    }

    /// A level lies between the endpoints.
    pub open spec fn covers(self, level: OrderedFloatBits) -> bool {
        self.lower.le(level) && level.le(self.upper)
    }

    /// Construct a finite scalar identified interval.
    pub fn try_new(lower: OrderedFloatBits, upper: OrderedFloatBits) -> (r: Result<
        Self,
        &'static str,
    >)
        ensures
            match r {
                Ok(set) => set == (IdentifiedSet { lower, upper }) && set.well_formed(),
                Err(message) => !(IdentifiedSet { lower, upper }).well_formed() && message@
                    == "identified interval requires finite lower <= upper"@,
            },
    {
        if !lower.is_finite() || !upper.is_finite() || !lower.at_most(upper) {
            return Err("identified interval requires finite lower <= upper");
        }
        Ok(IdentifiedSet { lower, upper })
    }

    /// Intersect two scalar identified intervals.
    #[must_use]
    pub fn intersect(&self, other: &Self) -> (common: Option<Self>)
        ensures
            ({
                let lower = maximum(self.lower, other.lower);
                let upper = minimum(self.upper, other.upper);
                common == if lower.le(upper) {
                    Some(IdentifiedSet { lower, upper })
                } else {
                    None
                }
            }),
    {
        let lower = if self.lower.is_nan() || self.lower.less(other.lower) {
            other.lower
        } else {
            self.lower
        };
        let upper = if self.upper.is_nan() || other.upper.less(self.upper) {
            other.upper
        } else {
            self.upper
        };
        if lower.at_most(upper) {
            Some(IdentifiedSet { lower, upper })
        } else {
            None
        }
    }
}

/// An intersection never widens: it covers exactly what both intervals cover, is well
/// formed where they are, and is absent only where they share no level.
pub proof fn law_intersection_never_widens(
    a: IdentifiedSet<OrderedFloatBits>,
    b: IdentifiedSet<OrderedFloatBits>,
    level: OrderedFloatBits,
)
    requires
        a.well_formed(),
        b.well_formed(),
    ensures
        ({
            let common = IdentifiedSet {
                lower: maximum(a.lower, b.lower),
                upper: minimum(a.upper, b.upper),
            };
            &&& common.covers(level) <==> a.covers(level) && b.covers(level)
            &&& common.lower.le(common.upper) ==> common.well_formed()
            &&& !common.lower.le(common.upper) ==> !(a.covers(level) && b.covers(level))
        }),
{
}

/// Function-valued identified envelope on a shared grid.
#[derive(Clone, Debug, PartialEq)]
pub struct ResponseEnvelope {
    /// Row-major grid coordinates.
    pub grid: Vec<OrderedFloatBits>,
    /// Coordinate dimension.
    pub dimension: usize,
    /// Lower response at each grid row.
    pub lower: Vec<OrderedFloatBits>,
    /// Upper response at each grid row.
    pub upper: Vec<OrderedFloatBits>,
}

/// Numerical response payload.
#[derive(Clone, Debug, PartialEq)]
pub enum ResponseValue {
    /// Scalar functional such as an average derivative.
    Scalar(OrderedFloatBits),
    /// Scalar-outcome curve or surface on a row-major grid.
    Surface {
        /// Grid coordinates.
        grid: Vec<OrderedFloatBits>,
        /// Coordinate dimension.
        dimension: usize,
        /// Mean response per grid row.
        mean: Vec<OrderedFloatBits>,
    },
    /// Outcome vector.
    Vector(Vec<OrderedFloatBits>),
    /// Row-major outcomes-by-treatments Jacobian.
    Jacobian {
        /// Number of outcomes (rows).
        outcomes: usize,
        /// Number of treatments (columns).
        treatments: usize,
        /// Matrix values in row-major order.
        values: Vec<OrderedFloatBits>,
    },
    /// Function-valued lower and upper envelope.
    Envelope(ResponseEnvelope),
}

/// What an interval's level means: repeated-sampling coverage or posterior probability.
///
/// A credible interval holds its level of the posterior mass given model and prior; it
/// makes no frequentist coverage claim. The two are never interchangeable.
#[derive(Clone, Copy, Debug, PartialEq, Eq, Hash, Structural)]
pub enum IntervalInterpretation {
    /// Frequentist confidence interval (sampling coverage).
    Confidence,
    /// Bayesian credible interval (posterior probability).
    Credible,
}

impl IntervalInterpretation {
    /// The name as text.
    pub open spec fn name(self) -> Seq<char> {
        match self {
            IntervalInterpretation::Confidence => "confidence"@,
            IntervalInterpretation::Credible => "credible"@,
        }
    }

    /// Stable `snake_case` name.
    #[must_use]
    pub fn as_str(self) -> (out: &'static str)
        ensures
            out@ == self.name(),
    {
        match self {
            IntervalInterpretation::Confidence => "confidence",
            IntervalInterpretation::Credible => "credible",
        }
    }
}

/// Different variants of [`IntervalInterpretation`] have different names.
pub proof fn law_interval_interpretation_names_are_distinct(a: IntervalInterpretation, b: IntervalInterpretation)
    requires
        a.name() == b.name(),
    ensures
        a == b,
{
    reveal_strlit("confidence");
    assert("confidence"@.len() == 10);
    reveal_strlit("credible");
    assert("credible"@.len() == 8);
}
/// The posterior draws a credible interval's endpoints were read from.
///
/// Retaining the draw vector lets a consumer summarize the same posterior again at
/// another level without a second execution. In-process only: the draws are not part
/// of the wire encoding of a response.
#[derive(Clone, Debug, PartialEq)]
pub struct CredibleDraws {
    /// Draws per coordinate.
    pub n_draws: usize,
    /// Column-major draws: coordinate `j` holds entries `j * n_draws` up to
    /// `(j + 1) * n_draws`, in the order the estimator produced them.
    pub values: Vec<OrderedFloatBits>,
}

impl CredibleDraws {
    /// Number of coordinates.
    pub open spec fn coordinates(self) -> int {
        if self.n_draws == 0 {
            0
        } else {
            self.values@.len() as int / self.n_draws as int
        }
    }

    /// The draws of coordinate `j`.
    pub open spec fn draws_of(self, j: int) -> Seq<OrderedFloatBits> {
        self.values@.subrange(j * self.n_draws, (j + 1) * self.n_draws)
    }

    /// Retain one coordinate's draw vector.
    #[must_use]
    pub fn scalar(values: Vec<OrderedFloatBits>) -> (draws: Self)
        ensures
            draws.n_draws == values@.len(),
            draws.values == values,
            values@.len() > 0 ==> draws.coordinates() == 1 && draws.draws_of(0) == values@,
    {
        let draws = CredibleDraws { n_draws: values.len(), values };
        proof {
            if values@.len() > 0 {
                vstd::arithmetic::div_mod::lemma_div_by_self(values@.len() as int);
                assert(draws.draws_of(0) =~= values@);
            }
        }
        draws
    }

    /// Retain `n_draws` draws of each of several coordinates, given coordinate by
    /// coordinate.
    #[must_use]
    pub fn columns(n_draws: usize, columns: &Vec<Vec<OrderedFloatBits>>) -> (draws: Self)
        requires
            forall|j: int| 0 <= j < columns@.len() ==> (#[trigger] columns@[j])@.len() == n_draws,
        ensures
            draws.n_draws == n_draws,
            draws.values@.len() == n_draws * columns@.len(),
            n_draws > 0 ==> draws.coordinates() == columns@.len(),
            forall|j: int|
                0 <= j < columns@.len() ==> draws.draws_of(j) == (#[trigger] columns@[j])@,
    {
        let mut values: Vec<OrderedFloatBits> = Vec::new();
        let mut j: usize = 0;
        assert(n_draws * 0 == 0) by (nonlinear_arith);
        while j < columns.len()
            invariant
                0 <= j <= columns.len(),
                forall|k: int|
                    0 <= k < columns@.len() ==> (#[trigger] columns@[k])@.len() == n_draws,
                values@.len() == n_draws * j,
                forall|k: int|
                    0 <= k < j ==> values@.subrange(k * n_draws, (k + 1) * n_draws) == (
                    #[trigger] columns@[k])@,
            decreases columns.len() - j,
        {
            let ghost before = values@;
            append_levels(&mut values, &columns[j]);
            proof {
                let n = n_draws as int;
                assert(n * (j + 1) == n * j + n) by (nonlinear_arith);
                assert forall|k: int| 0 <= k < j + 1 implies values@.subrange(
                    k * n_draws,
                    (k + 1) * n_draws,
                ) == (#[trigger] columns@[k])@ by {
                    assert((k + 1) * n == k * n + n) by (nonlinear_arith);
                    assert(0 <= k * n) by (nonlinear_arith)
                        requires
                            0 <= k,
                            0 <= n,
                    ;
                    if k < j {
                        assert((k + 1) * n <= n * j) by (nonlinear_arith)
                            requires
                                k + 1 <= j,
                                0 <= n,
                        ;
                        assert(values@.subrange(k * n, (k + 1) * n) =~= before.subrange(
                            k * n,
                            (k + 1) * n,
                        ));
                    } else {
                        assert(k * n == n * j) by (nonlinear_arith)
                            requires
                                k == j,
                        ;
                        assert(values@.subrange(k * n, (k + 1) * n) =~= columns@[k]@);
                    }
                }
            }
            j = j + 1;
        }
        let draws = CredibleDraws { n_draws, values };
        proof {
            if n_draws > 0 {
                let n = n_draws as int;
                let c = columns@.len() as int;
                assert(n * c == c * n) by (nonlinear_arith);
                vstd::arithmetic::div_mod::lemma_div_multiples_vanish(c, n);
            }
        }
        draws
    }

    /// Number of coordinates; none where there are no draws.
    #[must_use]
    pub fn n_coordinates(&self) -> (n: usize)
        ensures
            n == self.coordinates(),
    {
        if self.n_draws == 0 {
            0
        } else {
            self.values.len() / self.n_draws
        }
    }

    /// Coordinate `j`'s draws, or `None` past the last coordinate.
    #[must_use]
    pub fn column(&self, j: usize) -> (draws: Option<&[OrderedFloatBits]>)
        ensures
            match draws {
                Some(slice) => j < self.coordinates() && slice@ == self.draws_of(j as int),
                None => j >= self.coordinates(),
            },
    {
        let total: usize = self.values.len();
        if j < self.n_coordinates() {
            proof {
                let n = self.n_draws as int;
                let len = total as int;
                let c = self.coordinates();
                vstd::arithmetic::div_mod::lemma_fundamental_div_mod(len, n);
                assert((j + 1) * n <= c * n) by (nonlinear_arith)
                    requires
                        j + 1 <= c,
                        n > 0,
                ;
                assert(c * n == n * c) by (nonlinear_arith);
                assert(0 <= j * n <= (j + 1) * n) by (nonlinear_arith)
                    requires
                        0 <= j,
                        n > 0,
                ;
                assert((j + 1) * self.n_draws <= total);
            }
            Some(
                vstd::slice::slice_subrange(
                    self.values.as_slice(),
                    j * self.n_draws,
                    (j + 1) * self.n_draws,
                ),
            )
        } else {
            None
        }
    }
}

fn append_levels(values: &mut Vec<OrderedFloatBits>, more: &Vec<OrderedFloatBits>)
    ensures
        final(values)@ == old(values)@ + more@,
{
    let ghost before = values@;
    let mut i: usize = 0;
    assert(values@ =~= before + more@.take(0));
    while i < more.len()
        invariant
            0 <= i <= more.len(),
            values@ == before + more@.take(i as int),
        decreases more.len() - i,
    {
        values.push(more[i]);
        i = i + 1;
        assert(values@ =~= before + more@.take(i as int));
    }
    assert(more@.take(i as int) =~= more@);
}

/// Statistical uncertainty kind. Pointwise and simultaneous bands are never aliases.
#[derive(Clone, Debug, PartialEq)]
pub enum ResponseUncertainty {
    /// No uncertainty was requested or available.
    Absent,
    /// Scalar standard error and interval.
    Scalar {
        /// Standard error; the posterior standard deviation of a credible interval.
        standard_error: OrderedFloatBits,
        /// Confidence or credible level.
        level: OrderedFloatBits,
        /// Lower endpoint.
        lower: OrderedFloatBits,
        /// Upper endpoint.
        upper: OrderedFloatBits,
        /// Whether the interval is a confidence or a credible interval.
        interpretation: IntervalInterpretation,
        /// The draws the endpoints are quantiles of, when credible and retained.
        draws: Option<CredibleDraws>,
    },
    /// Per-coordinate intervals without simultaneous coverage semantics.
    PointwiseBand {
        /// Confidence or credible level for each coordinate.
        level: OrderedFloatBits,
        /// Lower values.
        lower: Vec<OrderedFloatBits>,
        /// Upper values.
        upper: Vec<OrderedFloatBits>,
        /// Whether the band is confidence or credible.
        interpretation: IntervalInterpretation,
        /// One draw column per coordinate, when credible and retained.
        draws: Option<CredibleDraws>,
    },
    /// One band calibrated for simultaneous coverage over the requested grid.
    SimultaneousBand {
        /// Simultaneous confidence or credible level.
        level: OrderedFloatBits,
        /// Lower values.
        lower: Vec<OrderedFloatBits>,
        /// Upper values.
        upper: Vec<OrderedFloatBits>,
        /// Resampling replicates (or posterior draws) used.
        replicates: u32,
        /// Whether the band is confidence or credible.
        interpretation: IntervalInterpretation,
    },
    /// Confidence band around an identified envelope (not the envelope itself).
    IdentifiedEnvelopeBand {
        /// Confidence or credible level.
        level: OrderedFloatBits,
        /// Lower limit for the identified lower envelope.
        lower_outer: Vec<OrderedFloatBits>,
        /// Upper limit for the identified upper envelope.
        upper_outer: Vec<OrderedFloatBits>,
        /// Whether the limits are confidence or credible.
        interpretation: IntervalInterpretation,
    },
    /// Posterior draws or summaries live in a referenced posterior artifact.
    Posterior {
        /// Artifact identifier.
        artifact_id: String,
    },
}

impl ResponseUncertainty {
    /// Draws retained behind a scalar interval or a pointwise band.
    pub open spec fn retained(self) -> Option<CredibleDraws> {
        match self {
            ResponseUncertainty::Scalar { draws, .. } => draws,
            ResponseUncertainty::PointwiseBand { draws, .. } => draws,
            _ => None,
        }
    }

    /// The retained draws behind a credible scalar interval or pointwise band.
    #[must_use]
    pub fn credible_draws(&self) -> (draws: Option<&CredibleDraws>)
        ensures
            match draws {
                Some(kept) => self.retained() == Some(*kept),
                None => self.retained() is None,
            },
    {
        match self {
            ResponseUncertainty::Scalar { draws, .. } => draws.as_ref(),
            ResponseUncertainty::PointwiseBand { draws, .. } => draws.as_ref(),
            _ => None,
        }
    }
}

/// Identification payload for a response.
#[derive(Clone, Debug, PartialEq)]
pub enum ResponseIdentification {
    /// Point-identified numerical response.
    PointIdentified(ResponseValue),
    /// Partially identified numerical response or envelope.
    PartiallyIdentified(ResponseValue),
    /// Graph-conditional responses; keys are stable graph identifiers.
    GraphDependent(Vec<(u64, ResponseValue)>),
    /// No numerical response is licensed.
    Unidentified {
        /// Stable certificate or diagnostic id.
        certificate: String,
    },
}

/// Identification products for one requested horizon of a temporal response.
///
/// A union of these adjustment sets is not itself a valid adjustment set.
#[derive(Clone, Debug, PartialEq)]
pub struct HorizonIdentification {
    /// Requested horizon (same units as the response spec).
    pub horizon: u32,
    /// Structural identification status at this horizon.
    pub status: IdentificationStatus,
    /// Identifier method id.
    pub method: String,
    /// Template-level adjustment nodes for this horizon.
    pub adjustment: Vec<TemporalNodeKey>,
}

/// Complete causal-response artifact.
#[derive(Clone, Debug, PartialEq)]
pub struct CausalResponse {
    /// Requested estimand.
    pub estimand: ResponseFunctional,
    /// Structural identification status.
    pub identification_status: IdentificationStatus,
    /// Identified numerical payload.
    pub estimate: ResponseIdentification,
    /// Statistical uncertainty.
    pub uncertainty: ResponseUncertainty,
    /// Empirical support evidence.
    pub support: SupportReport,
    /// Explicit assumptions.
    pub assumptions: AssumptionSet,
    /// Stable provenance operation id.
    pub provenance_id: String,
    /// Per-horizon identification on a temporal surface; absent on static curves.
    pub horizon_identification: Option<Vec<HorizonIdentification>>,
    /// Additive joint g-computation makes the interaction contrast structurally zero.
    pub interaction_structurally_zero: bool,
}

/// Draws are retained with scalar intervals and pointwise bands alone, and are those kept there.
pub proof fn law_draws_are_retained_with_intervals(uncertainty: ResponseUncertainty)
    ensures
        uncertainty.retained() is Some ==> uncertainty is Scalar || uncertainty is PointwiseBand,
        uncertainty matches ResponseUncertainty::Scalar { draws, .. } ==> uncertainty.retained()
            == draws,
        uncertainty matches ResponseUncertainty::PointwiseBand { draws, .. }
            ==> uncertainty.retained() == draws,
{
}

} // verus!
