//! Detection of changed mechanisms.

use std::collections::HashSet;

use antecedent::attribution::amount::{Amount, Whole};
use antecedent::attribution::error::AttributionError;
use antecedent::attribution::mechanism_change::{
    assemble_residuals, baseline_cross_fit_folds, detect_mechanism_changes,
    detect_mechanism_changes_with_correction, kernel_seed, kfold_row_indices, residual_stream_id,
    training_rows, FdrAdjustment, FdrMethod, MechanismChangeMethod, ResidualTests,
};
use antecedent::attribution::model::CausalModel;
use antecedent::attribution::recorded::{RecordedTests, ResidualRecord, ShiftRecord};
use antecedent::attribution::result::MechanismChangeDetection;
use antecedent::execution::{CausalRng, ExecutionContext, RngFactory, StreamDomain};
use antecedent::ids::{DenseNodeId, VariableId};
use antecedent::level::OrderedFloatBits;
use antecedent::query::attribution::{MechanismChangeQuery, PopulationSelector};

#[derive(Clone, Copy, Debug, PartialEq)]
struct Real(f64);

impl Amount for Real {
    fn zero() -> Self {
        Real(0.0)
    }
    fn infinity() -> Self {
        Real(f64::INFINITY)
    }
    fn no_value() -> Self {
        Real(f64::NAN)
    }
    fn count(n: u64) -> Self {
        Real(n as f64)
    }
    fn sum(self, other: Self) -> Self {
        Real(self.0 + other.0)
    }
    fn difference(self, other: Self) -> Self {
        Real(self.0 - other.0)
    }
    fn product(self, other: Self) -> Self {
        Real(self.0 * other.0)
    }
    fn quotient(self, other: Self) -> Self {
        Real(self.0 / other.0)
    }
    fn square_root(self) -> Self {
        Real(self.0.sqrt())
    }
    fn magnitude(self) -> Self {
        Real(self.0.abs())
    }
    fn is_below(self, other: Self) -> bool {
        self.0 < other.0
    }
    fn is_preceding(self, other: Self) -> bool {
        self.0.total_cmp(&other.0).is_lt()
    }
    fn is_same(self, other: Self) -> bool {
        self.0 == other.0
    }
    fn is_bounded(self) -> bool {
        self.0.is_finite()
    }
    fn is_negligible(self) -> bool {
        !(self.0.abs() > 1e-15)
    }
}

fn variable(raw: u32) -> VariableId {
    VariableId::from_raw(raw)
}

fn level(value: f64) -> OrderedFloatBits {
    OrderedFloatBits::from_bits(value.to_bits())
}

fn normal_draw(rng: &mut CausalRng) -> f64 {
    let scale = 1.0 / (1u64 << 53) as f64;
    let u = ((rng.next_u64() >> 11) as f64 + 0.5) * scale;
    let v = ((rng.next_u64() >> 11) as f64 + 0.5) * scale;
    (-2.0 * u.ln()).sqrt() * (std::f64::consts::TAU * v).cos()
}

/// Upper tail of the standard normal distribution.
fn norm_sf(z: f64) -> f64 {
    let density = (-0.5 * z * z).exp() / (2.0 * std::f64::consts::PI).sqrt();
    if z < 3.0 {
        let mut term = z;
        let mut sum = z;
        let mut k = 1.0;
        while term.abs() > 1e-17 {
            term *= z * z / (2.0 * k + 1.0);
            sum += term;
            k += 1.0;
        }
        0.5 - density * sum
    } else {
        let mut fraction = z;
        for k in (1..200).rev() {
            fraction = z + f64::from(k) / fraction;
        }
        density / fraction
    }
}

fn mean_var(values: &[f64]) -> (f64, f64) {
    let n = values.len() as f64;
    let mean = values.iter().sum::<f64>() / n;
    (mean, values.iter().map(|v| (v - mean) * (v - mean)).sum::<f64>() / n)
}

/// Difference in means over its standard error.
fn mean_diff(a: &[f64], b: &[f64]) -> (f64, f64) {
    let ((ma, va), (mb, vb)) = (mean_var(a), mean_var(b));
    let (na, nb) = (a.len() as f64, b.len() as f64);
    let se = (va / (na - 1.0) + vb / (nb - 1.0)).sqrt().max(1e-12);
    let z = (mb - ma) / se;
    (z, 2.0 * norm_sf(z.abs()))
}

/// Likelihood ratio of two normal segments against one.
fn likelihood_ratio(a: &[f64], b: &[f64]) -> (f64, f64) {
    let all: Vec<f64> = a.iter().chain(b).copied().collect();
    let part = |v: &[f64]| v.len() as f64 * mean_var(v).1.max(1e-24).ln();
    let statistic = part(&all) - part(a) - part(b);
    (statistic, (-0.5 * statistic).exp().min(1.0))
}

/// Squared maximum mean discrepancy, with a permutation p-value.
fn kernel(a: &[f64], b: &[f64], seed: u64) -> (f64, f64) {
    let discrepancy = |a: &[f64], b: &[f64]| {
        let k = |x: f64, y: f64| (-0.5 * (x - y) * (x - y)).exp();
        let mean = |u: &[f64], v: &[f64]| {
            let sum: f64 = u.iter().map(|x| v.iter().map(|y| k(*x, *y)).sum::<f64>()).sum();
            sum / (u.len() * v.len()) as f64
        };
        mean(a, a) + mean(b, b) - 2.0 * mean(a, b)
    };
    let observed = discrepancy(a, b);
    let mut pooled: Vec<f64> = a.iter().chain(b).copied().collect();
    let mut rng = RngFactory::from_seed(seed).stream(0);
    let permutations = 99;
    let mut above = 0;
    for _ in 0..permutations {
        for i in (1..pooled.len()).rev() {
            pooled.swap(i, (rng.next_u64() % (i as u64 + 1)) as usize);
        }
        if discrepancy(&pooled[..a.len()], &pooled[a.len()..]) >= observed {
            above += 1;
        }
    }
    (observed, f64::from(1 + above) / f64::from(1 + permutations))
}

/// Least squares and two-sample tests on a table whose first rows are the baseline.
struct LeastSquares {
    columns: Vec<Vec<f64>>,
    parents: Vec<Vec<usize>>,
    baseline_rows: usize,
}

impl LeastSquares {
    fn n_rows(&self) -> usize {
        self.columns[0].len()
    }

    fn residuals(&self, target: usize, train: &[usize], rows: &[usize]) -> Vec<f64> {
        let y = &self.columns[target];
        let n = train.len() as f64;
        let (intercept, slope, x) = match self.parents[target].first() {
            None => (train.iter().map(|r| y[*r]).sum::<f64>() / n, 0.0, y),
            Some(parent) => {
                let x = &self.columns[*parent];
                let mx = train.iter().map(|r| x[*r]).sum::<f64>() / n;
                let my = train.iter().map(|r| y[*r]).sum::<f64>() / n;
                let sxy: f64 = train.iter().map(|r| (x[*r] - mx) * (y[*r] - my)).sum();
                let sxx: f64 = train.iter().map(|r| (x[*r] - mx) * (x[*r] - mx)).sum();
                (my - sxy / sxx * mx, sxy / sxx, x)
            }
        };
        rows.iter().map(|r| y[*r] - intercept - slope * x[*r]).collect()
    }
}

fn floats(values: &[Real]) -> Vec<f64> {
    values.iter().map(|v| v.0).collect()
}

fn amounts(values: Vec<f64>) -> Vec<Real> {
    values.into_iter().map(Real).collect()
}

impl ResidualTests<Real> for LeastSquares {
    fn level(&self, level: OrderedFloatBits) -> Real {
        Real(f64::from_bits(level.to_bits()))
    }
    fn mean_shift(&self, variable: VariableId) -> Result<Option<Real>, AttributionError> {
        let column = self.columns.get(variable.as_usize());
        let column = column.ok_or(AttributionError::MissingArtifact("missing column"))?;
        let (a, b) = column.split_at(self.baseline_rows);
        Ok(Some(Real(mean_diff(a, b).1)))
    }
    fn fit(&self, _training: &Vec<Vec<usize>>) -> Result<(), AttributionError> {
        Ok(())
    }
    fn fold_residuals(
        &self,
        folds: &Vec<Vec<usize>>,
        fold: usize,
        target: VariableId,
        _state: u64,
    ) -> Result<Vec<Real>, AttributionError> {
        let train = training_rows(self.baseline_rows, &folds[fold]);
        Ok(amounts(self.residuals(target.as_usize(), &train, &folds[fold])))
    }
    fn comparison_residuals(
        &self,
        target: VariableId,
        _state: u64,
    ) -> Result<Vec<Real>, AttributionError> {
        let train: Vec<usize> = (0..self.baseline_rows).collect();
        let rows: Vec<usize> = (self.baseline_rows..self.n_rows()).collect();
        Ok(amounts(self.residuals(target.as_usize(), &train, &rows)))
    }
    fn two_sample(
        &self,
        method: MechanismChangeMethod,
        baseline: &Vec<Real>,
        comparison: &Vec<Real>,
        seed: u64,
    ) -> Result<(Real, Real), AttributionError> {
        let (a, b) = (floats(baseline), floats(comparison));
        let (statistic, p) = match method {
            MechanismChangeMethod::MeanDiff => mean_diff(&a, &b),
            MechanismChangeMethod::KernelTwoSample => kernel(&a, &b, seed),
            _ => likelihood_ratio(&a, &b),
        };
        Ok((Real(statistic), Real(p)))
    }
    fn adjust(&self, method: FdrMethod, p_values: &Vec<Real>) -> Vec<Real> {
        assert_eq!(method, FdrMethod::BenjaminiHochberg);
        let m = p_values.len();
        let mut order: Vec<usize> = (0..m).collect();
        order.sort_by(|a, b| p_values[*a].0.total_cmp(&p_values[*b].0));
        let mut adjusted = vec![Real(1.0); m];
        let mut smallest = 1.0_f64;
        for (rank, i) in order.iter().enumerate().rev() {
            smallest = smallest.min(p_values[*i].0 * m as f64 / (rank + 1) as f64);
            adjusted[*i] = Real(smallest);
        }
        adjusted
    }
}

fn pairs(m: u32) -> CausalModel {
    let variables = (0..2 * m).map(variable).collect();
    let parents = (0..2 * m)
        .map(|v| if v % 2 == 1 { vec![DenseNodeId::from_raw(v - 1)] } else { Vec::new() })
        .collect();
    CausalModel::compile(variables, &parents).unwrap()
}

fn paired(columns: Vec<Vec<f64>>, baseline_rows: usize) -> LeastSquares {
    let parents =
        (0..columns.len()).map(|v| if v % 2 == 1 { vec![v - 1] } else { Vec::new() }).collect();
    LeastSquares { columns, parents, baseline_rows }
}

fn query(targets: Vec<VariableId>, first: usize, end: usize, max: usize) -> MechanismChangeQuery {
    MechanismChangeQuery::new(
        targets,
        PopulationSelector::TimeRange { start: 0, end: first },
        PopulationSelector::TimeRange { start: first, end },
        level(0.05),
        max,
    )
}

fn context() -> ExecutionContext {
    ExecutionContext::for_tests(1)
}

fn two_period_data() -> LeastSquares {
    let mut columns = vec![Vec::new(), Vec::new()];
    for i in 0..80usize {
        let x = (i % 40) as f64 * 0.1;
        columns[0].push(x);
        columns[1].push(if i < 40 { 1.0 + 2.0 * x } else { 6.0 + 2.0 * x });
    }
    paired(columns, 40)
}

fn detect_on_two_periods(method: MechanismChangeMethod) -> MechanismChangeDetection<Real> {
    let q = query(vec![variable(0), variable(1)], 40, 80, 10);
    let dets =
        detect_mechanism_changes(&pairs(1), &q, method, 40, 40, &two_period_data(), &context()).unwrap();
    *dets.iter().find(|d| d.variable == variable(1)).unwrap()
}

#[test]
fn detects_y_shift_not_necessarily_x() {
    let y = detect_on_two_periods(MechanismChangeMethod::MeanDiff);
    assert!(y.changed, "y should be flagged changed: {y:?}");
}

#[test]
fn kernel_two_sample_flags_y_shift() {
    let y = detect_on_two_periods(MechanismChangeMethod::KernelTwoSample);
    assert!(y.changed, "y should be flagged changed: {y:?}");
    assert_eq!(y.method, "kernel_two_sample");
}

#[test]
fn change_point_flags_y_shift() {
    let y = detect_on_two_periods(MechanismChangeMethod::ChangePoint);
    assert!(y.changed, "y should be flagged changed: {y:?}");
    assert_eq!(y.method, "change_point");
}

#[test]
fn refuses_single_row_comparison_population() {
    let q = MechanismChangeQuery::new(
        vec![variable(1)],
        PopulationSelector::TimeRange { start: 0, end: 40 },
        PopulationSelector::Rows(vec![17]),
        level(0.05),
        10,
    );
    for method in [MechanismChangeMethod::LikelihoodRatio, MechanismChangeMethod::ChangePoint] {
        let result = detect_mechanism_changes(&pairs(1), &q, method, 40, 1, &two_period_data(), &context());
        assert!(result.is_err(), "{method:?}: {result:?}");
    }
}

#[test]
fn refuses_undersized_comparison_population() {
    let q = MechanismChangeQuery::new(
        vec![variable(1)],
        PopulationSelector::TimeRange { start: 0, end: 40 },
        PopulationSelector::Rows(vec![10, 11, 12]),
        level(0.05),
        10,
    );
    let method = MechanismChangeMethod::LikelihoodRatio;
    let result = detect_mechanism_changes(&pairs(1), &q, method, 40, 3, &two_period_data(), &context());
    assert!(result.is_err(), "a 3-row comparison population must be refused: {result:?}");
}

#[test]
fn mean_diff_refuses_under_material_covariate_shift_even_with_same_mechanism() {
    let mut columns = vec![Vec::new(), Vec::new()];
    for i in 0..80usize {
        let x = if i < 40 { (i % 40) as f64 * 0.1 } else { 5.0 + (i % 40) as f64 * 0.1 };
        columns[0].push(x);
        columns[1].push(1.0 + 2.0 * x + 0.01 * ((i % 7) as f64 - 3.0));
    }
    let q = query(vec![variable(1)], 40, 80, 10);
    let method = MechanismChangeMethod::MeanDiff;
    let result = detect_mechanism_changes(&pairs(1), &q, method, 40, 40, &paired(columns, 40), &context());
    assert!(
        result.is_err(),
        "a materially shifted parent covariate should be refused, not scored: {result:?}"
    );
}

fn homogeneous(m: usize, n: usize, noise: f64, rng: &mut CausalRng) -> Vec<Vec<f64>> {
    let mut columns = Vec::new();
    for _ in 0..m {
        let mut xv = Vec::new();
        let mut yv = Vec::new();
        for _ in 0..n {
            let x = normal_draw(rng);
            let e = normal_draw(rng);
            xv.push(x);
            yv.push(1.0 + 2.0 * x + noise * e);
        }
        columns.push(xv);
        columns.push(yv);
    }
    columns
}

#[test]
fn mean_diff_null_split_type_i_smoke() {
    let (n, trials) = (200usize, 20usize);
    let mut flags = 0usize;
    for trial in 0..trials {
        let mut rng = ExecutionContext::for_tests(0x4C01u64.wrapping_add(trial as u64))
            .rng
            .stream_for(StreamDomain::Attribution, 0x7E51);
        let tests = paired(homogeneous(1, n, 0.25, &mut rng), n / 2);
        let q = query(vec![variable(1)], n / 2, n, 10);
        let method = MechanismChangeMethod::MeanDiff;
        let dets =
            detect_mechanism_changes(&pairs(1), &q, method, n / 2, n / 2, &tests, &context()).unwrap();
        if dets[0].changed {
            flags += 1;
        }
    }
    assert!(
        flags <= 4,
        "null-split Type I smoke: MeanDiff flagged {flags}/{trials} (want ≤4 at α=0.05)"
    );
}

#[test]
fn mean_diff_null_split_family_wise_type_i_rate() {
    let (m, n, trials) = (10usize, 120usize, 150usize);
    let mid = n / 2;
    let mut uncorrected_family_flags = 0usize;
    let mut corrected_family_flags = 0usize;
    let model = pairs(m as u32);
    for trial in 0..trials {
        let mut rng = ExecutionContext::for_tests(0x9A11u64.wrapping_add(trial as u64))
            .rng
            .stream_for(StreamDomain::Attribution, 0x51EE);
        let tests = paired(homogeneous(m, n, 0.25, &mut rng), mid);
        let targets: Vec<VariableId> = (0..m).map(|k| variable((2 * k + 1) as u32)).collect();
        let q = query(targets, mid, n, m);
        let method = MechanismChangeMethod::MeanDiff;
        let uncorrected = detect_mechanism_changes_with_correction(
            &model, &q, method, mid, n - mid, &tests, &context(), None,
        )
        .unwrap();
        if uncorrected.iter().any(|d| d.changed) {
            uncorrected_family_flags += 1;
        }
        let corrected =
            detect_mechanism_changes(&model, &q, method, mid, n - mid, &tests, &context()).unwrap();
        if corrected.iter().any(|d| d.changed) {
            corrected_family_flags += 1;
        }
        for (raw, adjusted) in uncorrected.iter().zip(&corrected) {
            assert_eq!(raw.p_value, adjusted.p_value);
            assert!(raw.adjusted_p_value.is_none() && adjusted.adjusted_p_value.is_some());
        }
    }
    let uncorrected_rate = uncorrected_family_flags as f64 / trials as f64;
    let corrected_rate = corrected_family_flags as f64 / trials as f64;
    assert!(uncorrected_rate > 0.20, "uncorrected {uncorrected_rate}");
    assert!(corrected_rate < uncorrected_rate - 0.10, "{corrected_rate} {uncorrected_rate}");
    assert!(corrected_rate <= 0.15, "corrected {corrected_rate}");
}

fn covariate_shift_outcome_rates(
    method: MechanismChangeMethod,
    shift: f64,
    trials: usize,
    seed_base: u64,
) -> (f64, f64) {
    let (n_b, n_c) = (60usize, 60usize);
    let (mut flags, mut refusals, mut scored) = (0usize, 0usize, 0usize);
    for trial in 0..trials {
        let mut rng =
            ExecutionContext::for_tests(seed_base.wrapping_add(trial as u64)).rng.stream(0xC0);
        let mut columns = vec![Vec::new(), Vec::new()];
        for i in 0..n_b + n_c {
            let x = if i < n_b { 0.0 } else { shift } + normal_draw(&mut rng);
            let e = normal_draw(&mut rng);
            columns[0].push(x);
            columns[1].push(1.0 + 2.0 * x + e);
        }
        let tests = paired(columns, n_b);
        let q = query(vec![variable(1)], n_b, n_b + n_c, 10);
        match detect_mechanism_changes_with_correction(
            &pairs(1), &q, method, n_b, n_c, &tests, &context(), None,
        ) {
            Ok(dets) => {
                scored += 1;
                if dets[0].changed {
                    flags += 1;
                }
            }
            Err(_) => refusals += 1,
        }
    }
    let flag_rate = if scored == 0 { 0.0 } else { flags as f64 / scored as f64 };
    (flag_rate, refusals as f64 / trials as f64)
}

fn calibrated_or_refused(method: MechanismChangeMethod, seed: u64) {
    let trials = 300usize;
    let (flag_rate, refusal_rate) = covariate_shift_outcome_rates(method, 0.0, trials, seed);
    assert!(refusal_rate < 0.05, "refusals without a shift: {refusal_rate}");
    assert!(flag_rate < 0.15, "flags without a shift: {flag_rate}");
    for shift in [3.0, 5.0] {
        let (flag_rate, refusal_rate) = covariate_shift_outcome_rates(method, shift, trials, seed);
        assert!(refusal_rate > 0.85, "shift={shift}: {refusal_rate} {flag_rate}");
    }
}

#[test]
fn mean_diff_covariate_shift_is_calibrated_or_refused() {
    calibrated_or_refused(MechanismChangeMethod::MeanDiff, 0xC0_1B_A5_E0);
}

#[test]
fn likelihood_ratio_covariate_shift_is_calibrated_or_refused() {
    calibrated_or_refused(MechanismChangeMethod::LikelihoodRatio, 0x11_4E_11_D0);
}

#[test]
fn queries_name_targets_of_the_model() {
    let tests = two_period_data();
    let method = MechanismChangeMethod::MeanDiff;
    let detect = |q: MechanismChangeQuery| {
        detect_mechanism_changes(&pairs(1), &q, method, 40, 40, &tests, &context()).unwrap_err()
    };
    assert!(matches!(detect(query(Vec::new(), 40, 80, 10)), AttributionError::Query(_)));
    assert_eq!(
        detect(query(vec![variable(0), variable(1)], 40, 80, 1)),
        AttributionError::SizeLimit { kind: "targets", requested: 2, max: 1 }
    );
    assert_eq!(
        detect(query(vec![variable(7)], 40, 80, 10)),
        AttributionError::missing_var("target", variable(7))
    );
    let mut bad_level = query(vec![variable(0)], 40, 80, 10);
    bad_level.significance_level = level(1.0);
    assert!(matches!(detect(bad_level), AttributionError::Query(_)));
}

#[test]
fn folds_partition_the_rows_evenly() {
    assert_eq!(kfold_row_indices(7, 3), vec![vec![0, 3, 6], vec![1, 4], vec![2, 5]]);
    assert_eq!(kfold_row_indices(2, 0), vec![vec![0, 1]]);
    assert_eq!(kfold_row_indices(1, 3), vec![vec![0], vec![], vec![]]);
    assert_eq!(training_rows(7, &vec![1, 4]), vec![0, 2, 3, 5, 6]);
    assert_eq!((baseline_cross_fit_folds(29), baseline_cross_fit_folds(30)), (3, 5));
}

#[test]
fn residuals_return_to_the_order_of_rows() {
    let folds = kfold_row_indices(5, 2);
    let residuals = vec![
        [0, 20, 40].iter().map(|v| Whole { value: *v }).collect(),
        [10, 30].iter().map(|v| Whole { value: *v }).collect(),
    ];
    let all: Vec<i64> = assemble_residuals(&folds, &residuals, 5).iter().map(|w| w.value).collect();
    assert_eq!(all, vec![0, 10, 20, 30, 40]);
}

#[test]
fn residual_streams_do_not_collide() {
    let targets = [0, 1, 2, 1000, u32::MAX - 1, u32::MAX];
    let streams: HashSet<u64> = targets
        .iter()
        .flat_map(|t| (0..2).map(move |p| residual_stream_id(variable(*t), p)))
        .collect();
    assert_eq!(streams.len(), 12);
    assert_eq!(residual_stream_id(variable(0), 0), 0x5EED_C0DE * 0x9E37_79B9);
    assert_eq!(residual_stream_id(variable(0), u64::MAX), 0x5EED_C0DE * 0x9E37_79B9 - 1);
    assert_eq!(kernel_seed(variable(2)), 0x4E12_A003 * 0x9E37_79B9);
}

#[test]
fn recorded_residuals_decide_by_their_margin() {
    let whole = |value: i64| Whole { value };
    let record = |target: u32, comparison: i64| ResidualRecord {
        target: variable(target),
        by_fold: vec![vec![whole(0); 4], vec![whole(0); 4], vec![whole(0); 4]],
        comparison: vec![whole(comparison); 10],
    };
    let mut tests = RecordedTests {
        alpha: whole(1),
        margin: whole(4),
        shifts: vec![ShiftRecord { variable: variable(0), p_value: whole(1) }],
        residuals: vec![record(0, 3), record(1, -9)],
    };
    let q = query(vec![variable(0), variable(1)], 12, 22, 10);
    let method = MechanismChangeMethod::LikelihoodRatio;
    let found = detect_mechanism_changes(&pairs(1), &q, method, 12, 10, &tests, &context()).unwrap();
    assert!(!found[0].changed && found[1].changed);
    assert_eq!((found[0].statistic, found[1].statistic), (whole(3), whole(9)));
    assert_eq!(found[1].adjusted_p_value, Some(whole(0)));
    assert_eq!(found[0].method, "likelihood_ratio");
    tests.shifts[0].p_value = whole(-1);
    let shifted = detect_mechanism_changes(&pairs(1), &q, method, 12, 10, &tests, &context());
    assert!(matches!(shifted, Err(AttributionError::InvalidInput { .. })));
    tests.shifts.clear();
    tests.residuals.pop();
    let missing = detect_mechanism_changes(&pairs(1), &q, method, 12, 10, &tests, &context());
    assert!(matches!(missing, Err(AttributionError::MissingArtifact(_))));
}

#[test]
fn unreadable_parents_are_errors() {
    let tests = LeastSquares { columns: Vec::new(), parents: Vec::new(), baseline_rows: 40 };
    let q = query(vec![variable(1)], 40, 80, 10);
    let method = MechanismChangeMethod::MeanDiff;
    let unread = detect_mechanism_changes(&pairs(1), &q, method, 40, 40, &tests, &context());
    assert_eq!(unread.unwrap_err(), AttributionError::MissingArtifact("missing column"));
}

fn adjusted(method: FdrMethod, p_values: &[f64]) -> Vec<f64> {
    let tests = RecordedTests {
        alpha: Real(0.05),
        margin: Real(0.0),
        shifts: Vec::new(),
        residuals: Vec::new(),
    };
    floats(&tests.adjust(method, &amounts(p_values.to_vec())))
}

#[test]
fn step_up_adjustments_follow_their_procedure() {
    let p = [0.01, 0.04, 0.03, 0.5];
    let hochberg = adjusted(FdrMethod::BenjaminiHochberg, &p);
    for (found, expected) in hochberg.iter().zip([0.04, 0.16 / 3.0, 0.16 / 3.0, 0.5]) {
        assert!((found - expected).abs() < 1e-12, "{found} {expected}");
    }
    let harmonic = 1.0 + 0.5 + 1.0 / 3.0 + 0.25;
    let yekutieli = adjusted(FdrMethod::BenjaminiYekutieli, &p);
    for (found, raw) in yekutieli.iter().zip(&hochberg) {
        assert!((found - (raw * harmonic).min(1.0)).abs() < 1e-12, "{found}");
    }
    assert_eq!(FdrAdjustment::bh().method, FdrMethod::BenjaminiHochberg);
}

/// A binary target explained by its parent's category. Noise is drawn from its posterior: the
/// part of the unit interval that the category maps to the observed value.
struct Discrete {
    x: Vec<f64>,
    y: Vec<f64>,
}

impl Discrete {
    fn residuals(&self, train: &[usize], rows: &[usize], rng: &mut CausalRng) -> Vec<f64> {
        rows.iter()
            .map(|row| {
                let alike: Vec<usize> =
                    train.iter().copied().filter(|t| self.x[*t] == self.x[*row]).collect();
                let zeros = alike.iter().filter(|t| self.y[**t] == 0.0).count();
                let split = zeros as f64 / alike.len() as f64;
                let u = (rng.next_u64() >> 11) as f64 / (1u64 << 53) as f64;
                if self.y[*row] == 0.0 { split * u } else { split + (1.0 - split) * u }
            })
            .collect()
    }
}

impl ResidualTests<Real> for Discrete {
    fn level(&self, level: OrderedFloatBits) -> Real {
        Real(f64::from_bits(level.to_bits()))
    }
    fn mean_shift(&self, _variable: VariableId) -> Result<Option<Real>, AttributionError> {
        Ok(Some(Real(1.0)))
    }
    fn fit(&self, _training: &Vec<Vec<usize>>) -> Result<(), AttributionError> {
        Ok(())
    }
    fn fold_residuals(
        &self,
        folds: &Vec<Vec<usize>>,
        fold: usize,
        _target: VariableId,
        state: u64,
    ) -> Result<Vec<Real>, AttributionError> {
        let mut rng = CausalRng::from_state(state);
        let mut last = Vec::new();
        for rows in folds.iter().take(fold + 1) {
            last = self.residuals(&training_rows(self.x.len(), rows), rows, &mut rng);
        }
        Ok(amounts(last))
    }
    fn comparison_residuals(
        &self,
        _target: VariableId,
        state: u64,
    ) -> Result<Vec<Real>, AttributionError> {
        let rows: Vec<usize> = (0..self.x.len()).collect();
        Ok(amounts(self.residuals(&rows, &rows, &mut CausalRng::from_state(state))))
    }
    fn two_sample(
        &self,
        _method: MechanismChangeMethod,
        baseline: &Vec<Real>,
        comparison: &Vec<Real>,
        _seed: u64,
    ) -> Result<(Real, Real), AttributionError> {
        let (statistic, p) = mean_diff(&floats(baseline), &floats(comparison));
        Ok((Real(statistic), Real(p)))
    }
    fn adjust(&self, _method: FdrMethod, p_values: &Vec<Real>) -> Vec<Real> {
        p_values.clone()
    }
}

#[test]
fn discrete_target_residuals_depend_on_execution_context_seed() {
    let n = 60usize;
    let mut xv = Vec::with_capacity(n);
    let mut yv = Vec::with_capacity(n);
    for i in 0..n {
        let x = (i % 4) as f64;
        xv.push(x);
        yv.push(if x >= 2.0 { 1.0 } else { 0.0 });
    }
    let tests = Discrete { x: xv, y: yv };
    let q = MechanismChangeQuery::new(
        vec![variable(1)],
        PopulationSelector::TimeRange { start: 0, end: n },
        PopulationSelector::TimeRange { start: 0, end: n },
        level(0.05),
        10,
    );
    let statistic = |seed: u64| {
        let found = detect_mechanism_changes(
            &pairs(1),
            &q,
            MechanismChangeMethod::MeanDiff,
            n,
            n,
            &tests,
            &ExecutionContext::for_tests(seed),
        )
        .unwrap();
        found.iter().find(|d| d.variable == variable(1)).unwrap().statistic.0
    };
    let (s1, s2) = (statistic(1), statistic(2));
    assert!(
        (s1 - s2).abs() > 1e-9,
        "Discrete-family residual statistic should depend on the ExecutionContext seed \
         (s1={s1}, s2={s2}); identical values mean the RNG is being ignored"
    );
    assert_eq!(s1.to_bits(), statistic(1).to_bits());
}

/// Says which states it was handed.
struct States;

impl ResidualTests<Whole> for States {
    fn level(&self, _level: OrderedFloatBits) -> Whole {
        Whole { value: 1 }
    }
    fn mean_shift(&self, _variable: VariableId) -> Result<Option<Whole>, AttributionError> {
        Ok(None)
    }
    fn fit(&self, _training: &Vec<Vec<usize>>) -> Result<(), AttributionError> {
        Ok(())
    }
    fn fold_residuals(
        &self,
        folds: &Vec<Vec<usize>>,
        fold: usize,
        _target: VariableId,
        state: u64,
    ) -> Result<Vec<Whole>, AttributionError> {
        Ok(vec![Whole { value: (state >> 1) as i64 }; folds[fold].len()])
    }
    fn comparison_residuals(
        &self,
        _target: VariableId,
        state: u64,
    ) -> Result<Vec<Whole>, AttributionError> {
        Ok(vec![Whole { value: (state >> 1) as i64 }])
    }
    fn two_sample(
        &self,
        _method: MechanismChangeMethod,
        baseline: &Vec<Whole>,
        comparison: &Vec<Whole>,
        _seed: u64,
    ) -> Result<(Whole, Whole), AttributionError> {
        Ok((baseline[0], comparison[0]))
    }
    fn adjust(&self, _method: FdrMethod, p_values: &Vec<Whole>) -> Vec<Whole> {
        p_values.clone()
    }
}

#[test]
fn residuals_start_from_streams_of_the_context() {
    let q = query(vec![variable(1)], 40, 80, 10);
    let ctx = ExecutionContext::for_tests(77);
    let method = MechanismChangeMethod::MeanDiff;
    let found = detect_mechanism_changes(&pairs(1), &q, method, 40, 40, &States, &ctx).unwrap();
    let start = |population: u64| {
        let stream = residual_stream_id(variable(1), population);
        let rng = RngFactory::from_seed(77).stream_for(StreamDomain::Attribution, stream);
        Whole { value: (rng.state() >> 1) as i64 }
    };
    assert_eq!((found[0].statistic, found[0].p_value), (start(0), start(1)));
    assert_ne!(start(0), start(1));
}
