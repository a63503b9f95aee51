//! Attribution: coalitions, Shapley values, allocations, changes, anomalies and rankings.

use std::collections::HashSet;

use antecedent::attribution::allocation::{
    pack_change_result, path_efficiency_scale, run_change_allocation,
};
use antecedent::attribution::amount::{Amount, Whole};
use antecedent::attribution::anomaly::{
    arrow_strengths, median_of_sorted, plan_do_contrast, population_do_contrast, score_anomalies,
    OutlierTail,
};
use antecedent::attribution::arrange::arrange;
use antecedent::attribution::bootstrap::{
    bootstrap_stream_id, distribution_change_with_fit_uncertainty, percentile_interval,
    quantile_of_sorted, Resample,
};
use antecedent::attribution::change::{
    check_order, measure_value, stream_tag, total_change, DifferenceMeasure, LawPayoff,
    OutcomeLaws, DISTRIBUTION_STREAM,
};
use antecedent::attribution::coalition::{
    coalition_size, contains, full_coalition_mask, join, leave, CoalitionCache, CoalitionKey,
};
use antecedent::attribution::distribution::{
    distribution_change, distribution_change_shapley, joint_players, DistributionChangeOptions,
    MechanismSwap, PlayerKind,
};
use antecedent::attribution::engine::{ClosedForm, Engine, HybridStore};
use antecedent::attribution::error::AttributionError;
use antecedent::attribution::linear::{model_implied_means, model_implied_variances};
use antecedent::attribution::model::{CausalModel, MechanismSlot};
use antecedent::attribution::orders::shuffle;
use antecedent::attribution::payoff::CoalitionPayoff;
use antecedent::attribution::result::{
    CacheStats, ChangeAttributionResult, ComponentContribution, ComputeBudget, PathContribution,
    RootCauseRank,
};
use antecedent::attribution::robust::{distribution_change_robust, RobustChangeOptions};
use antecedent::attribution::root_cause::{
    aggregate_model_collection_ranks, contribution_posterior_from_rows,
    posterior_contribution_ranks, root_cause_rank, ContributionMoments, WeightedGraphSamples,
};
use antecedent::attribution::sequential::{sequential_allocate, PlayerIndex};
use antecedent::attribution::shapley::{check_shapley_size, estimate_shapley, mc_stderr_of_mean};
use antecedent::attribution::structure::{
    hybrid_structure_dag, parent_sets_differ, structure_change, StructureChangeOptions,
    StructureSwap,
};
use antecedent::attribution::table::NodeTable;
use antecedent::attribution::unit::{pooled_stderr, unit_change, unit_seed};
use antecedent::execution::{
    mix_seed, CachePolicy, CancellationToken, CausalRng, ExecutionContext, Parallelism, RngFactory,
};
use antecedent::ids::{ComponentId, DenseNodeId, VariableId};
use antecedent::query::attribution::{
    AllocationMethod, AnomalyAttributionQuery, AttributionComponents, ChangeAttributionQuery,
    PopulationSelector, ShapleyConfig, ShapleyMode, UnitChangeQuery,
};

#[derive(Clone, Copy, Debug, PartialEq)]
struct Real(f64);

impl Amount for Real {
    fn zero() -> Self {
        Real(0.0)
    }
    fn infinity() -> Self {
        Real(f64::INFINITY)
    }
    fn no_value() -> Self {
        Real(f64::NAN)
    }
    fn count(n: u64) -> Self {
        Real(n as f64)
    }
    fn sum(self, other: Self) -> Self {
        Real(self.0 + other.0)
    }
    fn difference(self, other: Self) -> Self {
        Real(self.0 - other.0)
    }
    fn product(self, other: Self) -> Self {
        Real(self.0 * other.0)
    }
    fn quotient(self, other: Self) -> Self {
        Real(self.0 / other.0)
    }
    fn square_root(self) -> Self {
        Real(self.0.sqrt())
    }
    fn magnitude(self) -> Self {
        Real(self.0.abs())
    }
    fn is_below(self, other: Self) -> bool {
        self.0 < other.0
    }
    fn is_preceding(self, other: Self) -> bool {
        self.0.total_cmp(&other.0).is_lt()
    }
    fn is_same(self, other: Self) -> bool {
        self.0 == other.0
    }
    fn is_bounded(self) -> bool {
        self.0.is_finite()
    }
    fn is_negligible(self) -> bool {
        !(self.0.abs() > 1e-15)
    }
}

fn reals(values: &[f64]) -> Vec<Real> {
    values.iter().map(|v| Real(*v)).collect()
}

fn component(raw: u32) -> ComponentId {
    ComponentId::from_raw(raw)
}

fn variable(raw: u32) -> VariableId {
    VariableId::from_raw(raw)
}

fn players(n: u32) -> Vec<ComponentId> {
    (0..n).map(component).collect()
}

fn caching(seed: u64) -> ExecutionContext {
    let mut ctx = ExecutionContext::for_tests(seed);
    ctx.cache_policy = CachePolicy::enabled(Some(1_000_000));
    ctx
}

/// Upper tail of the standard normal distribution.
fn norm_sf(z: f64) -> f64 {
    if z < 0.0 {
        return 1.0 - norm_sf(-z);
    }
    let density = (-0.5 * z * z).exp() / (2.0 * std::f64::consts::PI).sqrt();
    if z < 3.0 {
        let mut term = z;
        let mut sum = z;
        let mut k = 1.0;
        while term.abs() > 1e-17 {
            term *= z * z / (2.0 * k + 1.0);
            sum += term;
            k += 1.0;
        }
        0.5 - density * sum
    } else {
        let mut fraction = z;
        for k in (1..200).rev() {
            fraction = z + f64::from(k) / fraction;
        }
        density / fraction
    }
}

/// Linear mechanisms in closed form, with the divergence and tail of normal laws.
struct Normal;

impl Engine<Real> for Normal {
    fn evaluate(
        &self,
        slot: &MechanismSlot<Real>,
        parents: &Vec<Real>,
        noise: Real,
    ) -> Result<Real, AttributionError> {
        ClosedForm { critical: Real(1.96) }.evaluate(slot, parents, noise)
    }
    fn outcome_law(
        &self,
        model: &CausalModel,
        store: &HybridStore<Real>,
        outcome: usize,
        n_samples: usize,
        seed: u64,
    ) -> Result<(Real, Real), AttributionError> {
        let (mean, variance) = ClosedForm { critical: Real(1.96) }
            .outcome_law(model, store, outcome, n_samples, seed)?;
        Ok((mean, Real(variance.0.max(1e-12))))
    }
    fn check_coalition_sample_budget(
        &self,
        n_players: usize,
        _allocation: &AllocationMethod,
        n_samples: usize,
    ) -> Result<(), AttributionError> {
        if n_players.saturating_mul(n_samples) > 10_000_000 {
            return Err(AttributionError::SizeLimit {
                kind: "samples",
                requested: n_samples,
                max: 10_000_000,
            });
        }
        Ok(())
    }
    fn gaussian_kl(&self, law: (Real, Real), from: (Real, Real)) -> Result<Real, AttributionError> {
        let ((m1, v1), (m0, v0)) = ((law.0 .0, law.1 .0), (from.0 .0, from.1 .0));
        Ok(Real(0.5 * ((v0 / v1).ln() + (v1 + (m1 - m0) * (m1 - m0)) / v0 - 1.0)))
    }
    fn critical_value(&self, df: u64) -> Real {
        Real(1.0 + df as f64)
    }
    fn tail_score(&self, center: Real, scale: Real, value: Real) -> Real {
        let z = ((value.0 - center.0) / scale.0).abs();
        let two_sided = 2.0 * norm_sf(z);
        if two_sided > f64::MIN_POSITIVE {
            Real(-two_sided.ln())
        } else {
            Real(
                0.5 * z * z + z.ln() + 0.5 * std::f64::consts::TAU.ln() - std::f64::consts::LN_2,
            )
        }
    }
}

/// Draws from linear mechanisms; a mechanism without a form squares its first parent.
struct Sampled;

fn normal_draw(rng: &mut CausalRng) -> f64 {
    let scale = 1.0 / (1u64 << 53) as f64;
    let u = ((rng.next_u64() >> 11) as f64 + 0.5) * scale;
    let v = ((rng.next_u64() >> 11) as f64 + 0.5) * scale;
    (-2.0 * u.ln()).sqrt() * (std::f64::consts::TAU * v).cos()
}

impl Engine<Real> for Sampled {
    fn evaluate(
        &self,
        slot: &MechanismSlot<Real>,
        parents: &Vec<Real>,
        noise: Real,
    ) -> Result<Real, AttributionError> {
        match slot {
            MechanismSlot::Opaque => Ok(Real(parents[0].0 * parents[0].0 + noise.0)),
            _ => Normal.evaluate(slot, parents, noise),
        }
    }
    fn outcome_law(
        &self,
        model: &CausalModel,
        store: &HybridStore<Real>,
        outcome: usize,
        n_samples: usize,
        seed: u64,
    ) -> Result<(Real, Real), AttributionError> {
        let mut rng = CausalRng::from_seed(seed);
        let mut values = vec![vec![Real(0.0); n_samples]; model.n_nodes()];
        for gather in &model.gathers {
            let node = gather.child.raw as usize;
            let slot = store.slot(node);
            for draw in 0..n_samples {
                let parents: Vec<Real> =
                    gather.parents.iter().map(|p| values[p.raw as usize][draw]).collect();
                let sigma = match slot {
                    MechanismSlot::LinearGaussian { sigma, .. } => sigma.0,
                    _ => 0.0,
                };
                let noise = Real(sigma * normal_draw(&mut rng));
                values[node][draw] = self.evaluate(slot, &parents, noise)?;
            }
        }
        let n = n_samples as f64;
        let mean = values[outcome].iter().map(|v| v.0).sum::<f64>() / n;
        let var = values[outcome].iter().map(|v| (v.0 - mean) * (v.0 - mean)).sum::<f64>() / n;
        Ok((Real(mean), Real(var.max(1e-12))))
    }
    fn check_coalition_sample_budget(
        &self,
        n_players: usize,
        allocation: &AllocationMethod,
        n_samples: usize,
    ) -> Result<(), AttributionError> {
        Normal.check_coalition_sample_budget(n_players, allocation, n_samples)
    }
    fn gaussian_kl(&self, law: (Real, Real), from: (Real, Real)) -> Result<Real, AttributionError> {
        Normal.gaussian_kl(law, from)
    }
    fn critical_value(&self, df: u64) -> Real {
        Normal.critical_value(df)
    }
    fn tail_score(&self, center: Real, scale: Real, value: Real) -> Real {
        Normal.tail_score(center, scale, value)
    }
}

/// Upper end of the central 95% of Student's law.
fn student_t_quantile(df: f64) -> f64 {
    let mass = |theta: f64| -> f64 {
        let steps = 2_000;
        let h = theta / steps as f64;
        let at = |k: usize| (k as f64 * h).cos().powf(df - 1.0);
        let inner: f64 = (1..steps).map(|k| if k % 2 == 1 { 4.0 } else { 2.0 } * at(k)).sum();
        (at(0) + inner + at(steps)) * h / 3.0
    };
    let whole = mass(std::f64::consts::FRAC_PI_2);
    let (mut low, mut high) = (0.0, std::f64::consts::FRAC_PI_2);
    for _ in 0..100 {
        let middle = (low + high) / 2.0;
        if mass(middle) < 0.95 * whole {
            low = middle;
        } else {
            high = middle;
        }
    }
    df.sqrt() * low.tan()
}

/// Normal laws, with the critical values of Student's law.
struct StudentT;

impl Engine<Real> for StudentT {
    fn evaluate(
        &self,
        slot: &MechanismSlot<Real>,
        parents: &Vec<Real>,
        noise: Real,
    ) -> Result<Real, AttributionError> {
        Normal.evaluate(slot, parents, noise)
    }
    fn outcome_law(
        &self,
        model: &CausalModel,
        store: &HybridStore<Real>,
        outcome: usize,
        n_samples: usize,
        seed: u64,
    ) -> Result<(Real, Real), AttributionError> {
        Normal.outcome_law(model, store, outcome, n_samples, seed)
    }
    fn check_coalition_sample_budget(
        &self,
        n_players: usize,
        allocation: &AllocationMethod,
        n_samples: usize,
    ) -> Result<(), AttributionError> {
        Normal.check_coalition_sample_budget(n_players, allocation, n_samples)
    }
    fn gaussian_kl(&self, law: (Real, Real), from: (Real, Real)) -> Result<Real, AttributionError> {
        Normal.gaussian_kl(law, from)
    }
    fn critical_value(&self, df: u64) -> Real {
        Real(student_t_quantile(df as f64))
    }
    fn tail_score(&self, center: Real, scale: Real, value: Real) -> Real {
        Normal.tail_score(center, scale, value)
    }
}

/// Compile a model from the parents of every node.
fn compiled(parents: &[&[u32]]) -> CausalModel {
    let variables = (0..parents.len() as u32).map(variable).collect();
    let lists: Vec<Vec<DenseNodeId>> = parents
        .iter()
        .map(|list| list.iter().map(|p| DenseNodeId::from_raw(*p)).collect())
        .collect();
    CausalModel::compile(variables, &lists).unwrap()
}

/// Least squares of a column on parent columns over some rows.
fn regress(columns: &[Vec<f64>], target: usize, parents: &[u32], rows: &[usize]) -> MechanismSlot<Real> {
    let k = parents.len() + 1;
    let design = |row: usize| -> Vec<f64> {
        let mut x = vec![1.0];
        x.extend(parents.iter().map(|p| columns[*p as usize][row]));
        x
    };
    let mut a = vec![vec![0.0; k + 1]; k];
    for row in rows {
        let x = design(*row);
        for i in 0..k {
            for j in 0..k {
                a[i][j] += x[i] * x[j];
            }
            a[i][k] += x[i] * columns[target][*row];
        }
    }
    for i in 0..k {
        let pivot = (i..k).max_by(|p, q| a[*p][i].abs().total_cmp(&a[*q][i].abs())).unwrap();
        a.swap(i, pivot);
        for j in 0..k {
            if j != i {
                let f = a[j][i] / a[i][i];
                for c in i..=k {
                    a[j][c] -= f * a[i][c];
                }
            }
        }
    }
    let beta: Vec<f64> = (0..k).map(|i| a[i][k] / a[i][i]).collect();
    let residual: f64 = rows
        .iter()
        .map(|row| {
            let fit: f64 = design(*row).iter().zip(&beta).map(|(x, b)| x * b).sum();
            (columns[target][*row] - fit) * (columns[target][*row] - fit)
        })
        .sum();
    MechanismSlot::LinearGaussian {
        intercept: Real(beta[0]),
        coeffs: reals(&beta[1..]),
        sigma: Real((residual / rows.len() as f64).sqrt()),
    }
}

/// Fit every node of a model over some rows.
fn fitted(columns: &[Vec<f64>], parents: &[&[u32]], rows: &[usize]) -> Vec<MechanismSlot<Real>> {
    (0..columns.len()).map(|node| regress(columns, node, parents[node], rows)).collect()
}

fn table(columns: &[Vec<f64>], rows: &[usize]) -> NodeTable<Real> {
    NodeTable {
        columns: columns
            .iter()
            .map(|column| rows.iter().map(|row| Real(column[*row])).collect())
            .collect(),
        n_rows: rows.len(),
    }
}

fn range(start: usize, end: usize) -> Vec<usize> {
    (start..end).collect()
}

fn change_query(outcome: u32, first: usize, end: usize) -> ChangeAttributionQuery {
    ChangeAttributionQuery::new(
        variable(outcome),
        PopulationSelector::TimeRange { start: 0, end: first },
        PopulationSelector::TimeRange { start: first, end },
    )
}

fn exact() -> AllocationMethod {
    AllocationMethod::Shapley { approximation: ShapleyConfig::exact() }
}

fn share(result: &ChangeAttributionResult<Real>, raw: u32) -> f64 {
    result
        .contributions
        .iter()
        .find(|c| c.component.variable() == variable(raw))
        .map_or(0.0, |c| c.contribution.0)
}

fn share_sum(result: &ChangeAttributionResult<Real>) -> f64 {
    result.contribution_sum().0
}

// Coalitions and their cache.

#[test]
fn cache_hit_miss_and_disable() {
    let mut c: CoalitionCache<Real> =
        CoalitionCache::from_policy(CachePolicy::enabled(Some(10_000)));
    let k = CoalitionKey { mask: 0b101, tag: 1 };
    assert!(c.get(k).is_none());
    c.insert(k, Real(1.5));
    assert_eq!(c.get(k), Some(Real(1.5)));
    let s = c.stats();
    assert_eq!(s.hits, 1);
    assert_eq!(s.misses, 1);
    assert!(!s.saturated);

    let mut d: CoalitionCache<Real> = CoalitionCache::disabled();
    d.insert(k, Real(2.0));
    assert!(d.get(k).is_none());
}

#[test]
fn full_mask_handles_u64_boundary_without_shifting_by_width() {
    assert_eq!(full_coalition_mask(0).unwrap(), 0);
    assert_eq!(full_coalition_mask(3).unwrap(), 0b111);
    assert_eq!(full_coalition_mask(64).unwrap(), u64::MAX);
    assert!(matches!(
        full_coalition_mask(65),
        Err(AttributionError::SizeLimit { requested: 65, max: 64, .. })
    ));
}

#[test]
fn dense_index_skips_hash_for_tag_zero() {
    let mut c: CoalitionCache<Real> =
        CoalitionCache::from_policy(CachePolicy::enabled(Some(10_000)));
    c.enable_dense_index(3);
    let k = CoalitionKey { mask: 0b101, tag: 0 };
    c.insert(k, Real(1.5));
    assert_eq!(c.get(k), Some(Real(1.5)));
    assert_eq!(c.stats().entries, 1);
    assert!(c.map.is_empty(), "tag-0 exact inserts must not land in the HashMap");
}

#[test]
fn refuse_when_full_sets_saturated() {
    let mut c: CoalitionCache<Real> = CoalitionCache::from_policy(CachePolicy::enabled(Some(32)));
    let k1 = CoalitionKey { mask: 1, tag: 1 };
    let k2 = CoalitionKey { mask: 2, tag: 1 };
    c.insert(k1, Real(1.0));
    c.insert(k2, Real(2.0));
    assert!(c.stats().saturated);
    assert_eq!(c.stats().entries, 1);
    assert!(c.get(k2).is_none());
}

#[test]
fn every_cached_payoff_is_charged_once() {
    let mut c: CoalitionCache<Real> = CoalitionCache::from_policy(CachePolicy::enabled(Some(100)));
    for mask in [1, 2, 1, 3, 2, 4, 5] {
        let key = CoalitionKey { mask, tag: 7 };
        let _ = c.get(key);
        c.insert(key, Real(mask as f64));
        assert_eq!(c.stats().bytes, 32 * c.stats().entries);
        assert!(c.stats().bytes <= 100);
    }
    assert_eq!((c.stats().entries, c.stats().bytes), (3, 96));
    assert!(c.stats().saturated);
}

#[test]
fn players_join_and_leave_coalitions() {
    assert!(contains(0b100, 2));
    assert!(!contains(0b100, 63));
    assert_eq!(join(0b100, 0), 0b101);
    assert_eq!(join(0, 63), 1 << 63);
    assert_eq!(leave(0b101, 2), 0b001);
    assert_eq!(coalition_size(u64::MAX, 64), 64);
    assert_eq!(coalition_size(0b1011, 3), 2);
}

// Shapley values and sequential allocation.

struct AdditivePayoff {
    weights: Vec<f64>,
}

impl CoalitionPayoff<Real> for AdditivePayoff {
    fn value(&mut self, mask: u64) -> Result<Real, AttributionError> {
        let mut s = 0.0;
        for (i, &w) in self.weights.iter().enumerate() {
            if mask & (1u64 << i) != 0 {
                s += w;
            }
        }
        Ok(Real(s))
    }
}

struct PanickingPayoff;

impl CoalitionPayoff<Real> for PanickingPayoff {
    fn value(&mut self, _mask: u64) -> Result<Real, AttributionError> {
        panic!("payoff must not be evaluated");
    }
}

struct FailingPayoff;

impl CoalitionPayoff<Real> for FailingPayoff {
    fn value(&mut self, mask: u64) -> Result<Real, AttributionError> {
        if mask == 0b10 {
            Err(AttributionError::MissingArtifact("second player"))
        } else {
            Ok(Real(0.0))
        }
    }
}

struct XorPayoff;

impl CoalitionPayoff<Real> for XorPayoff {
    fn value(&mut self, mask: u64) -> Result<Real, AttributionError> {
        Ok(Real(f64::from(u8::from((mask & 0b11) == 0b11))))
    }
}

struct InteractivePayoff;

impl CoalitionPayoff<Real> for InteractivePayoff {
    fn value(&mut self, mask: u64) -> Result<Real, AttributionError> {
        let additive = f64::from((mask & 0b001).count_ones())
            + 2.0 * f64::from((mask & 0b010).count_ones())
            + 3.0 * f64::from((mask & 0b100).count_ones());
        let interaction = if mask & 0b011 == 0b011 { 4.0 } else { 0.0 };
        Ok(Real(additive + interaction))
    }
}

struct SizeWithBonus;

impl CoalitionPayoff<Real> for SizeWithBonus {
    fn value(&mut self, mask: u64) -> Result<Real, AttributionError> {
        let size = f64::from((mask & 0b111).count_ones());
        let bonus = f64::from(u8::from((mask & 0b11) == 0b11));
        Ok(Real(size + bonus))
    }
}

#[test]
fn exact_shapley_recovers_additive_game() {
    let mut payoff = AdditivePayoff { weights: vec![1.0, 2.0, 3.0] };
    let est =
        estimate_shapley(&players(3), &ShapleyConfig::exact(), &mut payoff, &caching(1)).unwrap();
    assert!((est.values[0].0 - 1.0).abs() < 1e-9);
    assert!((est.values[1].0 - 2.0).abs() < 1e-9);
    assert!((est.values[2].0 - 3.0).abs() < 1e-9);
    assert!(est.cache_stats.hits > 0 || est.budget.evaluations > 0);
}

#[test]
fn exact_rejects_above_limit() {
    let mut payoff = AdditivePayoff { weights: vec![1.0; 5] };
    let cfg = ShapleyConfig::exact().with_max_exact_components(3);
    let ctx = ExecutionContext::for_tests(1);
    let err = estimate_shapley(&players(5), &cfg, &mut payoff, &ctx).unwrap_err();
    assert!(matches!(err, AttributionError::ExactShapleyRejected { .. }));
}

#[test]
fn games_wider_than_a_mask_are_rejected() {
    let over = Err(AttributionError::ExactShapleyRejected { n_components: 65, max: 64 });
    assert_eq!(check_shapley_size(65, &ShapleyConfig::exact()), over);
    assert_eq!(check_shapley_size(65, &ShapleyConfig::exact().with_exact_override(true)), over);
    assert_eq!(check_shapley_size(65, &ShapleyConfig::monte_carlo(2)), over);
    assert_eq!(check_shapley_size(64, &ShapleyConfig::monte_carlo(2)), Ok(()));
}

#[test]
fn exact_rejects_64_before_payoff_evaluation() {
    let cfg = ShapleyConfig::exact().with_exact_override(true);
    let ctx = ExecutionContext::for_tests(1);
    let err = estimate_shapley(&players(64), &cfg, &mut PanickingPayoff, &ctx).unwrap_err();
    assert!(matches!(err, AttributionError::SizeLimit { requested: 64, max: 63, .. }));
}

#[test]
fn monte_carlo_supports_64_players() {
    let mut payoff = AdditivePayoff { weights: vec![1.0; 64] };
    let cfg = ShapleyConfig::monte_carlo(2).with_seed(9);
    let ctx = ExecutionContext::for_tests(1);
    let estimate = estimate_shapley(&players(64), &cfg, &mut payoff, &ctx).unwrap();
    assert_eq!(estimate.values.len(), 64);
    assert!((estimate.values.iter().map(|v| v.0).sum::<f64>() - 64.0).abs() <= 1e-12);
}

#[test]
fn monte_carlo_reports_stderr() {
    let mut payoff = AdditivePayoff { weights: vec![1.0, 1.0, 1.0, 1.0] };
    let cfg = ShapleyConfig::monte_carlo(200).with_seed(7);
    let mut ctx = ExecutionContext::for_tests(1);
    ctx.cache_policy = CachePolicy::enabled(None);
    ctx.parallelism = Parallelism::serial();
    let est = estimate_shapley(&players(4), &cfg, &mut payoff, &ctx).unwrap();
    assert!(est.monte_carlo_stderr.is_some());
    assert!(est.component_mc_stderr.is_some());
    for (v, w) in est.values.iter().zip([1.0, 1.0, 1.0, 1.0]) {
        assert!((v.0 - w).abs() < 0.15, "v={v:?}");
    }
}

#[test]
fn monte_carlo_se_matches_bessel_corrected_reference() {
    let draws = [1.0_f64, 2.0, 3.0, 4.0, 5.0];
    let ns = draws.len() as f64;
    let mean = draws.iter().sum::<f64>() / ns;
    let m2: f64 = draws.iter().map(|x| (x - mean) * (x - mean)).sum();
    let sample_var_ref = m2 / (ns - 1.0);
    assert!((sample_var_ref - 2.5).abs() < 1e-12);
    let se_ref = (sample_var_ref / ns).sqrt();
    assert!((mc_stderr_of_mean(Real(m2), Real(ns)).0 - se_ref).abs() < 1e-12);
    let biased = (m2 / ns).sqrt() / ns.sqrt();
    assert!(mc_stderr_of_mean(Real(m2), Real(ns)).0 > biased);
    assert!(mc_stderr_of_mean(Real(0.0), Real(1.0)).0.is_infinite());
}

#[test]
fn monte_carlo_single_sample_reports_infinite_stderr() {
    let mut payoff = AdditivePayoff { weights: vec![1.0, 2.0, 3.0] };
    let cfg = ShapleyConfig::monte_carlo(1).with_seed(1);
    let ctx = ExecutionContext::for_tests(1);
    let est = estimate_shapley(&players(3), &cfg, &mut payoff, &ctx).unwrap();
    let stderrs = est.component_mc_stderr.expect("stderr reported");
    for se in stderrs {
        assert!(se.0.is_infinite(), "expected +inf for a single MC sample, got {se:?}");
    }
    assert!(est.monte_carlo_stderr.expect("mean stderr").0.is_infinite());
}

#[test]
fn into_contributions_uses_t_critical_not_fixed_z() {
    let cfg = ShapleyConfig::monte_carlo(5).with_seed(11);
    let ctx = ExecutionContext::for_tests(1);
    let est = estimate_shapley(&players(2), &cfg, &mut XorPayoff, &ctx).unwrap();
    let stderr = est.component_mc_stderr.clone().expect("stderr reported")[0].0;
    let contribution = est.values[0].0;
    assert_eq!(est.degrees_of_freedom(), est.budget.samples - 1);
    assert_eq!(est.degrees_of_freedom(), 4);
    let expected_t = student_t_quantile((est.budget.samples - 1) as f64);
    assert!((expected_t - 2.776_445_105_197_798_5).abs() < 1e-9, "t={expected_t}");
    assert!(
        (expected_t - 1.96).abs() > 0.05,
        "test setup needs a small-df t/z gap: t={expected_t}"
    );
    let critical = StudentT.critical_value(est.degrees_of_freedom());
    let contributions = est.into_contributions(critical);
    let c0 = &contributions[0];
    assert!((c0.ci_high.unwrap().0 - (contribution + expected_t * stderr)).abs() < 1e-9);
    assert!((c0.ci_low.unwrap().0 - (contribution - expected_t * stderr)).abs() < 1e-9);
}

#[test]
fn packed_results_widen_by_the_quantile_at_their_own_freedom() {
    let cfg = ShapleyConfig::monte_carlo(5).with_seed(11);
    let ctx = ExecutionContext::for_tests(1);
    let est = estimate_shapley(&players(2), &cfg, &mut XorPayoff, &ctx).unwrap();
    let stderrs = est.component_mc_stderr.clone().unwrap();
    let values = est.values.clone();
    let expected_t = student_t_quantile(4.0);
    assert!((expected_t - 1.96).abs() > 0.05);
    let unidentified = vec![component(7)];
    let packed = pack_change_result(variable(3), Real(1.0), est, unidentified.clone(), &StudentT);
    for (j, share) in packed.contributions.iter().enumerate() {
        assert!(stderrs[j].0 > 0.0);
        let high = share.ci_high.unwrap().0;
        assert!((high - (values[j].0 + expected_t * stderrs[j].0)).abs() < 1e-9);
        assert!((high - (values[j].0 + 1.96 * stderrs[j].0)).abs() > 0.05 * stderrs[j].0);
        let low = share.ci_low.unwrap().0;
        assert!((low - (values[j].0 - expected_t * stderrs[j].0)).abs() < 1e-9);
    }
    assert_eq!((packed.outcome, packed.total_change), (variable(3), Real(1.0)));
    assert_eq!(packed.unidentified, unidentified);
    assert!(packed.graph_sensitivity.is_none() && packed.fit_uncertainty.is_none());
}

#[test]
fn monte_carlo_stderr_tracks_known_bernoulli_variance() {
    let n_samples: usize = 2_000;
    let cfg = ShapleyConfig::monte_carlo(n_samples).with_seed(3);
    let ctx = ExecutionContext::for_tests(1);
    let est = estimate_shapley(&players(2), &cfg, &mut XorPayoff, &ctx).unwrap();
    let expected_se = (0.25 / n_samples as f64).sqrt();
    for se in est.component_mc_stderr.expect("stderr reported") {
        let ratio = se.0 / expected_se;
        assert!((0.7..1.3).contains(&ratio), "se={se:?} expected≈{expected_se} ratio={ratio}");
    }
}

#[test]
fn sequential_interactions_zero_for_additive() {
    let all = players(3);
    let mut payoff = AdditivePayoff { weights: vec![1.0, 2.0, 3.0] };
    let ctx = ExecutionContext::for_tests(1);
    let est = sequential_allocate(&all, &all.as_slice(), &mut payoff, &ctx).unwrap();
    assert!((est.values[0].0 - 1.0).abs() < 1e-12);
    assert!((est.values[1].0 - 2.0).abs() < 1e-12);
    assert!((est.values[2].0 - 3.0).abs() < 1e-12);
    assert_eq!(est.interactions.len(), 2);
    for term in &est.interactions {
        assert!(term.value.0.abs() < 1e-12, "residual={:?}", term.value);
    }
}

#[test]
fn sequential_rejects_duplicate_player() {
    let all = players(2);
    let order = [all[0], all[0]];
    let mut payoff = AdditivePayoff { weights: vec![1.0, 2.0] };
    let ctx = ExecutionContext::for_tests(1);
    let err = sequential_allocate(&order, &all.as_slice(), &mut payoff, &ctx).unwrap_err();
    assert!(matches!(err, AttributionError::InvalidInput { .. }));
}

/// Every component at a place of its own choosing.
struct At(Vec<(u32, usize)>);

impl PlayerIndex for At {
    fn index_of(&self, component: ComponentId) -> Option<usize> {
        self.0.iter().find(|(raw, _)| *raw == component.raw()).map(|(_, place)| *place)
    }
}

#[test]
fn components_join_at_the_place_they_are_given() {
    let order = players(3);
    let ctx = ExecutionContext::for_tests(1);
    let mut payoff = AdditivePayoff { weights: vec![1.0, 2.0, 3.0] };
    let reversed = At(vec![(0, 2), (1, 1), (2, 0)]);
    let est = sequential_allocate(&order, &reversed, &mut payoff, &ctx).unwrap();
    assert_eq!(est.values, reals(&[3.0, 2.0, 1.0]));
    assert_eq!(est.players, order);
    let mut fails = |places: Vec<(u32, usize)>| {
        sequential_allocate(&order, &At(places), &mut payoff, &ctx).unwrap_err()
    };
    assert!(matches!(
        fails(vec![(0, 1), (1, 1), (2, 0)]),
        AttributionError::InvalidInput { .. }
    ));
    assert_eq!(
        fails(vec![(0, 1), (1, 90), (2, 0)]),
        AttributionError::SizeLimit { kind: "components", requested: 91, max: 64 }
    );
    assert_eq!(fails(vec![(0, 1), (2, 0)]), AttributionError::UnknownPlayer);
}

#[test]
fn sequential_is_efficient_for_every_three_player_permutation() {
    let all = players(3);
    let permutations = [[0, 1, 2], [0, 2, 1], [1, 0, 2], [1, 2, 0], [2, 0, 1], [2, 1, 0]];
    for permutation in permutations {
        let order: Vec<_> = permutation.iter().map(|&i| all[i]).collect();
        let ctx = ExecutionContext::for_tests(1);
        let estimate =
            sequential_allocate(&order, &all.as_slice(), &mut InteractivePayoff, &ctx).unwrap();
        let sum: f64 = estimate.values.iter().map(|v| v.0).sum();
        assert!((sum - 10.0).abs() <= 1e-12);
    }
}

#[test]
fn sequential_records_nonzero_interaction_for_xor() {
    let all = players(2);
    let ctx = ExecutionContext::for_tests(1);
    let est = sequential_allocate(&all, &all.as_slice(), &mut XorPayoff, &ctx).unwrap();
    assert_eq!(est.interactions.len(), 1);
    assert!((est.interactions[0].value.0 - 1.0).abs() < 1e-12);
}

#[test]
fn exact_shapley_efficiency_on_interactive_game() {
    let mut payoff = SizeWithBonus;
    let v_empty = payoff.value(0).unwrap().0;
    let v_full = payoff.value(0b111).unwrap().0;
    let est =
        estimate_shapley(&players(3), &ShapleyConfig::exact(), &mut payoff, &caching(1)).unwrap();
    let sum: f64 = est.values.iter().map(|v| v.0).sum();
    assert!((sum - (v_full - v_empty)).abs() < 1e-9, "sum={sum}");
}

#[test]
fn steady_players_get_what_they_add() {
    let ctx = ExecutionContext::for_tests(1);
    let all = players(3);
    let exact =
        estimate_shapley(&all, &ShapleyConfig::exact(), &mut InteractivePayoff, &ctx).unwrap();
    assert!((exact.values[0].0 - 3.0).abs() < 1e-12);
    assert!((exact.values[1].0 - 4.0).abs() < 1e-12);
    assert!((exact.values[2].0 - 3.0).abs() < 1e-12);
    let mut idle = AdditivePayoff { weights: vec![2.0, 0.0, 7.0] };
    let shares = estimate_shapley(&all, &ShapleyConfig::exact(), &mut idle, &ctx).unwrap();
    assert_eq!(shares.values[1], Real(0.0));
    let sequential = sequential_allocate(&all, &all.as_slice(), &mut InteractivePayoff, &ctx).unwrap();
    let residuals: Vec<f64> = sequential.interactions.iter().map(|term| term.value.0).collect();
    assert_eq!(residuals, vec![4.0, 0.0]);
}

#[test]
fn a_failing_payoff_fails_the_estimate() {
    let ctx = ExecutionContext::for_tests(1);
    let err = estimate_shapley(&players(2), &ShapleyConfig::exact(), &mut FailingPayoff, &ctx)
        .unwrap_err();
    assert_eq!(err, AttributionError::MissingArtifact("second player"));
    let none = estimate_shapley(&[], &ShapleyConfig::exact(), &mut PanickingPayoff, &ctx);
    assert!(matches!(none, Err(AttributionError::Unsupported { .. })));
    let no_samples = ShapleyConfig::monte_carlo(0);
    let refused = estimate_shapley(&players(2), &no_samples, &mut PanickingPayoff, &ctx);
    assert!(matches!(refused, Err(AttributionError::Query(_))));
}

#[test]
fn cancellation_stops_exact_values() {
    let ctx = ExecutionContext::for_tests(1);
    ctx.cancellation.cancel();
    let err = estimate_shapley(&players(3), &ShapleyConfig::exact(), &mut XorPayoff, &ctx)
        .unwrap_err();
    assert_eq!(err, AttributionError::Cancelled);
}

#[test]
fn settled_tokens_decide_estimates() {
    let mut ctx = ExecutionContext::for_tests(1);
    ctx.cancellation = CancellationToken::settled(false);
    ctx.cancellation.cancel();
    let configs = [ShapleyConfig::exact(), ShapleyConfig::monte_carlo(12)];
    for config in &configs {
        assert!(estimate_shapley(&players(3), config, &mut XorPayoff, &ctx).is_ok());
    }
    let sampled = estimate_shapley(&players(3), &configs[1], &mut XorPayoff, &ctx).unwrap();
    assert_eq!(sampled.budget.samples, 12);
    ctx.cancellation = CancellationToken::settled(true);
    for config in &configs {
        let stopped = estimate_shapley(&players(3), config, &mut PanickingPayoff, &ctx);
        assert_eq!(stopped.unwrap_err(), AttributionError::Cancelled);
    }
}

#[test]
fn permutation_mode_draws_permutations() {
    let cfg = ShapleyConfig::exact().with_mode(ShapleyMode::Permutation { n_permutations: 40 });
    let ctx = ExecutionContext::for_tests(1);
    let mut payoff = AdditivePayoff { weights: vec![5.0, -1.0] };
    let est = estimate_shapley(&players(2), &cfg, &mut payoff, &ctx).unwrap();
    assert_eq!(est.values, reals(&[5.0, -1.0]));
    assert_eq!(est.budget.samples, 40);
}

#[test]
fn shuffles_are_permutations() {
    let mut rng = RngFactory::from_seed(3).stream(0);
    let mut order: Vec<usize> = (0..50).collect();
    shuffle(&mut rng, &mut order);
    assert_ne!(order, (0..50).collect::<Vec<_>>());
    let distinct: HashSet<usize> = order.iter().copied().collect();
    assert_eq!(distinct.len(), 50);
}

// Allocation of a change.

struct CountPayoff;

impl CoalitionPayoff<Real> for CountPayoff {
    fn value(&mut self, mask: u64) -> Result<Real, AttributionError> {
        Ok(Real(f64::from(mask.count_ones())))
    }
}

fn allocate(allocation: &AllocationMethod) -> Result<ChangeAttributionResult<Real>, AttributionError> {
    run_change_allocation(
        variable(9),
        &[component(1), component(2)],
        allocation,
        &mut CountPayoff,
        Real(2.0),
        Vec::new(),
        &ExecutionContext::for_tests(1),
        None,
        &Normal,
    )
}

#[test]
fn sequential_order_must_cover_all_players() {
    let allocation = AllocationMethod::Sequential { order: vec![component(1)] };
    let err = allocate(&allocation).unwrap_err();
    assert!(matches!(err, AttributionError::InvalidInput { .. }));
}

#[test]
fn sequential_order_rejects_unknown_player() {
    let allocation = AllocationMethod::Sequential { order: vec![component(1), component(3)] };
    assert_eq!(allocate(&allocation).unwrap_err(), AttributionError::UnknownPlayer);
}

#[test]
fn path_efficiency_refuses_zero_share_for_nonzero_change() {
    let err = path_efficiency_scale(Real(0.0), Real(2.0)).unwrap_err();
    assert!(matches!(err, AttributionError::Unsupported { .. }));
}

#[test]
fn path_efficiency_allows_zero_share_for_zero_change() {
    assert_eq!(path_efficiency_scale(Real(0.0), Real(0.0)).unwrap(), None);
    assert_eq!(path_efficiency_scale(Real(2.0), Real(6.0)).unwrap(), Some(Real(3.0)));
}

#[test]
fn path_shares_are_scaled_and_split() {
    let step = |to: u32, strength: f64| PathContribution {
        path: vec![variable(to), variable(9)],
        contribution: Real(strength),
    };
    let paths = vec![vec![step(1, 3.0), step(2, -1.0)], vec![step(3, 0.0), step(4, 0.0)]];
    let result = run_change_allocation(
        variable(9),
        &[component(1), component(2)],
        &AllocationMethod::PathBased,
        &mut CountPayoff,
        Real(8.0),
        Vec::new(),
        &ExecutionContext::for_tests(1),
        Some(&paths),
        &Normal,
    )
    .unwrap();
    assert_eq!(share_sum(&result), 8.0);
    let flows: Vec<f64> = result.path_breakdown.iter().map(|p| p.contribution.0).collect();
    assert_eq!(flows, vec![6.0, -2.0, 2.0, 2.0]);
}

#[test]
fn orders_name_every_player_once() {
    let all = [component(1), component(2)];
    assert_eq!(check_order(&vec![component(2), component(1)], &all), Ok(()));
    assert_eq!(
        check_order(&vec![component(1), component(7)], &all),
        Err(AttributionError::UnknownPlayer)
    );
    assert!(check_order(&vec![component(1), component(1)], &all).is_err());
}

#[test]
fn accepted_orders_share_the_change() {
    let allocation = AllocationMethod::Sequential { order: vec![component(2), component(1)] };
    let result = allocate(&allocation).unwrap();
    assert_eq!(result.total_change, Real(2.0));
    assert_eq!(share_sum(&result), 2.0);
    assert_eq!(result.outcome, variable(9));
}

#[test]
fn changes_are_measured_from_nobody() {
    assert_eq!(total_change(DifferenceMeasure::MeanDiff, Real(1.0), Real(4.0)), Real(3.0));
    assert_eq!(total_change(DifferenceMeasure::VarianceDiff, Real(4.0), Real(1.0)), Real(-3.0));
}

// Changes between populations.

const CHAIN: [&[u32]; 2] = [&[], &[0]];

fn two_period_columns() -> Vec<Vec<f64>> {
    let mut xv = Vec::new();
    let mut yv = Vec::new();
    for i in 0..80usize {
        let x = (i % 40) as f64 * 0.1;
        xv.push(x);
        yv.push(if i < 40 { 1.0 + 2.0 * x } else { 6.0 + 2.0 * x });
    }
    vec![xv, yv]
}

fn two_period_fits() -> (CausalModel, Vec<MechanismSlot<Real>>, Vec<MechanismSlot<Real>>) {
    let columns = two_period_columns();
    (
        compiled(&CHAIN),
        fitted(&columns, &CHAIN, &range(0, 40)),
        fitted(&columns, &CHAIN, &range(40, 80)),
    )
}

fn options(measure: DifferenceMeasure, n_samples: usize, seed: u64) -> DistributionChangeOptions {
    DistributionChangeOptions { measure, n_samples, seed }
}

#[test]
fn attributes_mechanism_shift_to_y() {
    let (model, baseline, comparison) = two_period_fits();
    let query = change_query(1, 40, 80).with_allocation(exact());
    let opts = options(DifferenceMeasure::MeanDiff, 400, 3);
    let result =
        distribution_change(&model, baseline, comparison, &query, &opts, &Normal, &caching(1), None)
            .unwrap();
    assert!((result.total_change.0 - 5.0).abs() < 1e-9, "total={:?}", result.total_change);
    assert!(share(&result, 1).abs() > share(&result, 0).abs());
    assert!((share_sum(&result) - result.total_change.0).abs() < 1e-9);
}

#[test]
fn exact_shapley_efficiency_sum_phi_equals_total_change() {
    let (model, baseline, comparison) = two_period_fits();
    let query = change_query(1, 40, 80).with_allocation(exact());
    let opts = options(DifferenceMeasure::MeanDiff, 800, 11);
    let result = distribution_change(
        &model, baseline, comparison, &query, &opts, &Sampled, &caching(1), None,
    )
    .unwrap();
    assert!((share_sum(&result) - result.total_change.0).abs() < 1e-9);
    assert!(result.total_change.0.is_finite() && result.total_change.0.abs() > 1.0);
}

/// Answers with the seed it is handed, and refuses games of more than five samples.
struct Echo;

impl Engine<Whole> for Echo {
    fn evaluate(
        &self,
        _slot: &MechanismSlot<Whole>,
        _parents: &Vec<Whole>,
        noise: Whole,
    ) -> Result<Whole, AttributionError> {
        Ok(noise)
    }
    fn outcome_law(
        &self,
        _model: &CausalModel,
        _store: &HybridStore<Whole>,
        _outcome: usize,
        _n_samples: usize,
        seed: u64,
    ) -> Result<(Whole, Whole), AttributionError> {
        Err(AttributionError::Evaluation(format!("seed {seed}")))
    }
    fn check_coalition_sample_budget(
        &self,
        n_players: usize,
        _allocation: &AllocationMethod,
        n_samples: usize,
    ) -> Result<(), AttributionError> {
        if n_samples > 5 {
            return Err(AttributionError::Evaluation(format!("{n_players} over {n_samples}")));
        }
        Ok(())
    }
    fn gaussian_kl(
        &self,
        law: (Whole, Whole),
        _from: (Whole, Whole),
    ) -> Result<Whole, AttributionError> {
        Ok(law.0)
    }
    fn critical_value(&self, _df: u64) -> Whole {
        Whole { value: 2 }
    }
    fn tail_score(&self, _center: Whole, _scale: Whole, value: Whole) -> Whole {
        value
    }
}

fn said(result: Result<ChangeAttributionResult<Whole>, AttributionError>) -> String {
    match result.unwrap_err() {
        AttributionError::Evaluation(text) => text,
        other => panic!("expected the engine's answer, got {other:?}"),
    }
}

#[test]
fn samples_are_drawn_from_streams_of_the_context() {
    let opaque = |n: usize| -> Vec<MechanismSlot<Whole>> { vec![MechanismSlot::Opaque; n] };
    let handed = |master: u64, tag: u64| {
        let seed = mix_seed(master, tag);
        assert_eq!(
            CausalRng::from_seed(seed).state(),
            RngFactory::from_seed(master).stream(tag).state()
        );
        format!("seed {seed}")
    };
    let swap: ([&[u32]; 3], [&[u32]; 3]) = ([&[], &[], &[0]], [&[], &[], &[1]]);
    for master in [1, 2] {
        let ctx = ExecutionContext::for_tests(master);
        let distribution = distribution_change(
            &compiled(&CHAIN),
            opaque(2),
            opaque(2),
            &change_query(1, 40, 80),
            &options(DifferenceMeasure::MeanDiff, 5, 3),
            &Echo,
            &ctx,
            None,
        );
        assert_eq!(said(distribution), handed(master, stream_tag(DISTRIBUTION_STREAM, 3)));
        let structure = structure_change(
            &compiled(&swap.0),
            &compiled(&swap.1),
            opaque(3),
            opaque(3),
            &change_query(2, 40, 80).with_components(AttributionComponents::Structure),
            &StructureChangeOptions { measure: DifferenceMeasure::MeanDiff, n_samples: 5, seed: 4 },
            &Echo,
            &ctx,
            None,
        );
        assert_eq!(said(structure), handed(master, 0x5C01 + 4));
        let robust = distribution_change_robust(
            &compiled(&CHAIN),
            &NodeTable { columns: vec![vec![Whole { value: 0 }; 3]; 2], n_rows: 3 },
            3,
            opaque(2),
            opaque(2),
            &change_query(1, 40, 80).with_allocation(exact()),
            &RobustChangeOptions { max_rows: 10, n_samples: 9, seed: 5 },
            &Echo,
            &ctx,
        );
        assert_eq!(said(robust), handed(master, 0x526F_6275_7374_4D43 + 5));
    }
}

#[test]
fn games_over_the_sample_budget_are_refused() {
    let opaque = |n: usize| -> Vec<MechanismSlot<Whole>> { vec![MechanismSlot::Opaque; n] };
    let ctx = ExecutionContext::for_tests(1);
    let distribution = distribution_change(
        &compiled(&CHAIN),
        opaque(2),
        opaque(2),
        &change_query(1, 40, 80),
        &options(DifferenceMeasure::MeanDiff, 6, 3),
        &Echo,
        &ctx,
        None,
    );
    assert_eq!(said(distribution), "2 over 6");
    let swap: ([&[u32]; 3], [&[u32]; 3]) = ([&[], &[], &[0]], [&[], &[], &[1]]);
    let structure = structure_change(
        &compiled(&swap.0),
        &compiled(&swap.1),
        opaque(3),
        opaque(3),
        &change_query(2, 40, 80).with_components(AttributionComponents::Structure),
        &StructureChangeOptions { measure: DifferenceMeasure::MeanDiff, n_samples: 7, seed: 4 },
        &Echo,
        &ctx,
        None,
    );
    assert_eq!(said(structure), "1 over 7");
}

#[test]
fn models_list_every_node_once_after_its_parents() {
    let model = compiled(&[&[], &[0], &[0, 1]]);
    assert!(model.is_well_formed());
    let mut late = model.clone();
    late.gathers.swap(0, 2);
    assert!(!late.is_well_formed());
    let mut twice = model.clone();
    twice.gathers[2].child = DenseNodeId::from_raw(1);
    assert!(!twice.is_well_formed());
    let mut outside = model.clone();
    outside.gathers[1].parents[0] = DenseNodeId::from_raw(9);
    assert!(!outside.is_well_formed());
    let mut short = model;
    short.gathers.pop();
    assert!(!short.is_well_formed());
}

#[test]
fn gaussian_kl_efficiency_holds_end_to_end() {
    let (model, baseline, comparison) = two_period_fits();
    let query = change_query(1, 40, 80).with_allocation(exact());
    let opts = options(DifferenceMeasure::GaussianKl, 800, 13);
    let result =
        distribution_change(&model, baseline, comparison, &query, &opts, &Normal, &caching(1), None)
            .unwrap();
    assert!((share_sum(&result) - result.total_change.0).abs() < 1e-6);
    assert!(result.total_change.0.is_finite() && result.total_change.0 > 0.0);
}

#[test]
fn measure_value_gaussian_kl_matches_closed_form() {
    let expected = 0.5_f64 * ((1.0_f64 / 3.0).ln() + 7.0 - 1.0);
    let law = (Real(2.0), Real(3.0));
    let base = Some((Real(0.0), Real(1.0)));
    let got = measure_value(&Normal, DifferenceMeasure::GaussianKl, 1, law, base).unwrap().0;
    assert!((got - expected).abs() < 1e-12, "got={got} expected={expected}");
    let empty = measure_value(&Normal, DifferenceMeasure::GaussianKl, 0, law, base).unwrap().0;
    assert!(empty.abs() < f64::EPSILON, "expected exact 0.0, got {empty}");
    assert!(measure_value(&Normal, DifferenceMeasure::GaussianKl, 1, law, None).is_err());
}

#[test]
fn inputs_and_mechanisms_runs() {
    let (model, baseline, comparison) = two_period_fits();
    let query = change_query(1, 40, 80)
        .with_components(AttributionComponents::InputsAndMechanisms)
        .with_allocation(exact());
    let opts = options(DifferenceMeasure::MeanDiff, 200, 5);
    let ctx = ExecutionContext::for_tests(1);
    let result =
        distribution_change(&model, baseline, comparison, &query, &opts, &Normal, &ctx, None)
            .unwrap();
    assert!((result.total_change.0 - 5.0).abs() < 1e-3, "total={:?}", result.total_change);
    assert!((share(&result, 1) - 5.0).abs() < 1e-3, "y={}", share(&result, 1));
    assert!(share(&result, 0).abs() < 1e-3, "x={}", share(&result, 0));
}

/// Directed paths of both nodes of the chain to its end, with their coefficients.
fn chain_paths() -> Vec<Vec<PathContribution<Real>>> {
    vec![
        vec![PathContribution { path: vec![variable(0), variable(1)], contribution: Real(2.0) }],
        vec![PathContribution { path: vec![variable(1)], contribution: Real(1.0) }],
    ]
}

#[test]
fn path_based_allocation_fills_breakdown() {
    let (model, baseline, comparison) = two_period_fits();
    let query = change_query(1, 40, 80).with_allocation(AllocationMethod::PathBased);
    let opts = options(DifferenceMeasure::MeanDiff, 200, 7);
    let ctx = ExecutionContext::for_tests(1);
    let paths = chain_paths();
    let result = distribution_change(
        &model, baseline, comparison, &query, &opts, &Normal, &ctx, Some(&paths),
    )
    .unwrap();
    assert!(!result.path_breakdown.is_empty(), "path_breakdown should be populated");
    assert!((result.total_change.0 - 5.0).abs() < 1e-3, "total={:?}", result.total_change);
    let by_path: f64 = result.path_breakdown.iter().map(|p| p.contribution.0).sum();
    assert!((by_path - share_sum(&result)).abs() < 1e-9, "paths={by_path}");
}

#[test]
fn path_based_attributes_only_the_mechanism_that_changed() {
    let (model, baseline, comparison) = two_period_fits();
    let query = change_query(1, 40, 80).with_allocation(AllocationMethod::PathBased);
    let opts = options(DifferenceMeasure::MeanDiff, 400, 7);
    let ctx = ExecutionContext::for_tests(1);
    let paths = chain_paths();
    let result = distribution_change(
        &model, baseline, comparison, &query, &opts, &Normal, &ctx, Some(&paths),
    )
    .unwrap();
    assert!(share(&result, 0).abs() < 0.25);
    assert!((share(&result, 1) - result.total_change.0).abs() < 0.25);
    assert!((share_sum(&result) - result.total_change.0).abs() < 1e-6);
}

fn noisy_two_period_columns() -> Vec<Vec<f64>> {
    let mut columns = two_period_columns();
    for (i, y) in columns[1].iter_mut().enumerate() {
        let t = i as f64;
        *y += 0.15 * (t * 0.913_1).sin() + 0.1 * (t * 2.071_3).sin() + 0.05 * (t * 5.311_7).sin();
    }
    columns
}

fn bootstrap_fits(columns: &[Vec<f64>], replicates: usize) -> Vec<Result<Resample<Real>, AttributionError>> {
    (0..replicates)
        .map(|b| {
            let mut rng = RngFactory::from_seed(1).stream(bootstrap_stream_id(b as u64));
            let mut draw = |start: usize| -> Vec<usize> {
                (0..40).map(|_| start + (rng.next_u64() >> 11) as usize % 40).collect()
            };
            let (base, comp) = (draw(0), draw(40));
            Ok(Resample {
                baseline: fitted(columns, &CHAIN, &base),
                comparison: fitted(columns, &CHAIN, &comp),
            })
        })
        .collect()
}

#[test]
fn fit_uncertainty_is_a_row_bootstrap_of_the_refit_attribution() {
    let columns = noisy_two_period_columns();
    let model = compiled(&CHAIN);
    let fits = || (fitted(&columns, &CHAIN, &range(0, 40)), fitted(&columns, &CHAIN, &range(40, 80)));
    let query = change_query(1, 40, 80).with_allocation(exact());
    let opts = options(DifferenceMeasure::MeanDiff, 400, 3);
    let serial = ExecutionContext::for_tests(1);
    let (baseline, comparison) = fits();
    let plain =
        distribution_change(&model, baseline, comparison, &query, &opts, &Normal, &serial, None)
            .unwrap();
    assert!(plain.fit_uncertainty.is_none());
    assert!(plain.contributions.iter().all(|c| c.stderr.is_none()));

    let bootstrap = |replicates: usize, level: f64, ctx: &ExecutionContext| {
        let (baseline, comparison) = fits();
        distribution_change_with_fit_uncertainty(
            &model,
            baseline,
            comparison,
            &query,
            &opts,
            bootstrap_fits(&columns, replicates),
            Real(level),
            &Normal,
            ctx,
            None,
        )
    };
    let with_fit = bootstrap(40, 0.9, &serial).unwrap();
    assert_eq!(with_fit.total_change, plain.total_change);
    assert_eq!(with_fit.contributions.len(), plain.contributions.len());
    let fit = with_fit.fit_uncertainty.as_ref().unwrap();
    assert_eq!((fit.replicates, fit.failures), (40, 0));
    assert!((fit.level.0 - 0.9).abs() < 1e-15);
    let (lower, upper) = (fit.lower.as_ref().unwrap(), fit.upper.as_ref().unwrap());
    assert_eq!((lower.len(), upper.len()), (with_fit.contributions.len(), lower.len()));
    for j in 0..lower.len() {
        assert!(lower[j].0 <= upper[j].0);
    }
    let y_idx =
        with_fit.contributions.iter().position(|c| c.component.variable() == variable(1)).unwrap();
    assert!(upper[y_idx].0 - lower[y_idx].0 > 1e-6);
    let (t_lo, t_hi) = fit.total_interval.unwrap();
    assert!(t_lo.0 <= with_fit.total_change.0 && with_fit.total_change.0 <= t_hi.0);

    let threaded = ExecutionContext::production(1, 4);
    let again = bootstrap(40, 0.9, &threaded).unwrap();
    assert_eq!(again.fit_uncertainty, with_fit.fit_uncertainty);

    for (replicates, level) in [(1, 0.9), (10, 0.0), (10, 1.0)] {
        assert!(bootstrap(replicates, level, &serial).is_err());
    }
}

#[test]
fn a_failed_refit_withholds_the_intervals() {
    let columns = noisy_two_period_columns();
    let model = compiled(&CHAIN);
    let mut resamples = bootstrap_fits(&columns, 5);
    resamples[2] = Err(AttributionError::MissingArtifact("fit"));
    let result = distribution_change_with_fit_uncertainty(
        &model,
        fitted(&columns, &CHAIN, &range(0, 40)),
        fitted(&columns, &CHAIN, &range(40, 80)),
        &change_query(1, 40, 80).with_allocation(exact()),
        &options(DifferenceMeasure::MeanDiff, 1, 0),
        resamples,
        Real(0.9),
        &Normal,
        &ExecutionContext::for_tests(1),
        None,
    )
    .unwrap();
    let fit = result.fit_uncertainty.unwrap();
    assert_eq!((fit.replicates, fit.failures), (5, 1));
    assert!(fit.lower.is_none() && fit.upper.is_none() && fit.total_interval.is_none());
}

#[test]
fn a_cancelled_refit_cancels_the_bootstrap() {
    let columns = noisy_two_period_columns();
    let model = compiled(&CHAIN);
    let mut resamples = bootstrap_fits(&columns, 5);
    resamples[1] = Err(AttributionError::MissingArtifact("fit"));
    resamples[3] = Err(AttributionError::Cancelled);
    let result = distribution_change_with_fit_uncertainty(
        &model,
        fitted(&columns, &CHAIN, &range(0, 40)),
        fitted(&columns, &CHAIN, &range(40, 80)),
        &change_query(1, 40, 80).with_allocation(exact()),
        &options(DifferenceMeasure::MeanDiff, 1, 0),
        resamples,
        Real(0.9),
        &Normal,
        &ExecutionContext::for_tests(1),
        None,
    );
    assert_eq!(result.unwrap_err(), AttributionError::Cancelled);
}

#[test]
fn replicates_draw_from_tagged_streams() {
    assert_eq!(bootstrap_stream_id(0), 0xB007_5712);
    assert_eq!(bootstrap_stream_id(3), 0xB007_5711);
    assert_ne!(bootstrap_stream_id(1), bootstrap_stream_id(2));
}

#[test]
fn intervals_are_read_in_total_order() {
    let draws = reals(&[3.0, f64::NAN, 1.0, 6.0, 0.0, 5.0, -0.0, 4.0, 2.0]);
    assert_eq!(percentile_interval(&draws, Real(0.5)), (Real(1.0), Real(5.0)));
    let zeros = reals(&[0.0, 0.0, -0.0, 1.0, -0.0]);
    let (low, high) = percentile_interval(&zeros, Real(0.0));
    assert!(low == Real(0.0) && low.0.is_sign_positive() && high == low);
    for level in [0.0, 0.25, 0.5, 0.9, 1.0] {
        let (low, high) = percentile_interval(&reals(&[5.0, -2.0, 8.0, 8.0, 0.5]), Real(level));
        assert!(low.0 <= high.0);
    }
}

#[test]
fn quantiles_lie_on_the_line_through_the_values() {
    let sorted = reals(&[0.0, 10.0, 20.0, 40.0]);
    assert_eq!(quantile_of_sorted(&sorted, Real(0.0)), Real(0.0));
    assert_eq!(quantile_of_sorted(&sorted, Real(0.5)), Real(15.0));
    assert_eq!(quantile_of_sorted(&sorted, Real(1.0)), Real(40.0));
    assert_eq!(quantile_of_sorted(&reals(&[7.0]), Real(0.3)), Real(7.0));
    let draws = reals(&[4.0, 0.0, 3.0, 1.0, 2.0]);
    assert_eq!(percentile_interval(&draws, Real(0.5)), (Real(1.0), Real(3.0)));
}

#[test]
fn distribution_changes_refuse_other_components() {
    for (components, supported) in [
        (AttributionComponents::Mechanisms, true),
        (AttributionComponents::Inputs, false),
        (AttributionComponents::Structure, false),
        (AttributionComponents::All, false),
    ] {
        let (model, baseline, comparison) = two_period_fits();
        let query = change_query(1, 40, 80).with_components(components).with_allocation(exact());
        let r = distribution_change(
            &model,
            baseline,
            comparison,
            &query,
            &DistributionChangeOptions::default(),
            &Normal,
            &ExecutionContext::for_tests(1),
            None,
        );
        assert_eq!(r.is_ok(), supported, "{components:?}");
    }
    let (model, baseline, comparison) = two_period_fits();
    let missing = distribution_change_shapley(
        &model,
        baseline,
        comparison,
        variable(5),
        PopulationSelector::TimeRange { start: 0, end: 40 },
        PopulationSelector::TimeRange { start: 40, end: 80 },
        ShapleyConfig::exact(),
        &Normal,
        &ExecutionContext::for_tests(1),
    );
    assert_eq!(missing.unwrap_err(), AttributionError::missing_var("outcome", variable(5)));
    let (model, baseline, comparison) = two_period_fits();
    let crowded = distribution_change(
        &model,
        baseline,
        comparison,
        &change_query(1, 40, 80).with_max_components(1).with_allocation(exact()),
        &DistributionChangeOptions::default(),
        &Normal,
        &ExecutionContext::for_tests(1),
        None,
    );
    assert!(matches!(
        crowded,
        Err(AttributionError::SizeLimit { kind: "components", requested: 2, max: 1 })
    ));
}

#[test]
fn parents_of_the_outcome_join_its_ancestors() {
    let model = compiled(&[&[], &[], &[0, 1], &[2]]);
    let (all, kinds) =
        joint_players(&model, 3, 64, AttributionComponents::InputsAndMechanisms).unwrap();
    assert_eq!(all, players(4));
    assert_eq!(kinds[2], PlayerKind::Both);
    assert_eq!(kinds[0], PlayerKind::Mechanism);
    let (inputs, kinds) = joint_players(&model, 3, 64, AttributionComponents::Inputs).unwrap();
    assert_eq!((inputs, kinds), (vec![component(2)], vec![PlayerKind::Input]));
    let (upstream, _) = joint_players(&model, 2, 64, AttributionComponents::Mechanisms).unwrap();
    assert_eq!(upstream, players(3));
}

// Changes of structure.

fn parent_swap() -> (CausalModel, CausalModel, Vec<MechanismSlot<Real>>, Vec<MechanismSlot<Real>>) {
    let mut columns = vec![Vec::new(), Vec::new(), Vec::new()];
    for i in 0..80usize {
        let x = (i % 40) as f64 * 0.1;
        let z = ((i + 7) % 40) as f64 * 0.1;
        columns[0].push(x);
        columns[1].push(z);
        columns[2].push(if i < 40 { 1.0 + 2.0 * x } else { 8.0 + 3.0 * z });
    }
    let (first, second): ([&[u32]; 3], [&[u32]; 3]) = ([&[], &[], &[0]], [&[], &[], &[1]]);
    (
        compiled(&first),
        compiled(&second),
        fitted(&columns, &first, &range(0, 40)),
        fitted(&columns, &second, &range(40, 80)),
    )
}

#[test]
fn attributes_parent_set_change_to_y() {
    let (first, second, baseline, comparison) = parent_swap();
    let query = change_query(2, 40, 80)
        .with_components(AttributionComponents::Structure)
        .with_allocation(exact());
    let opts = StructureChangeOptions {
        measure: DifferenceMeasure::MeanDiff,
        n_samples: 600,
        seed: 5,
    };
    let result = structure_change(
        &first, &second, baseline, comparison, &query, &opts, &Normal, &caching(1), None,
    )
    .unwrap();
    assert!(result.total_change.0.abs() > 2.0, "total={:?}", result.total_change);
    assert_eq!(result.contributions.len(), 1);
    assert!((share(&result, 2) - result.total_change.0).abs() < 1e-9);
    assert!(result.unidentified.is_empty());
}

#[test]
fn memoized_fits_match_per_coalition_refit() {
    let mut columns = vec![Vec::new(), Vec::new(), Vec::new(), Vec::new()];
    for i in 0..80usize {
        let x = (i % 40) as f64 * 0.1;
        let z = ((i + 7) % 40) as f64 * 0.1;
        let m = if i < 40 { 0.5 + 1.5 * x } else { 2.0 + 0.8 * z };
        let y = if i < 40 { 1.0 + 2.0 * x } else { 3.0 + 1.2 * m };
        for (column, value) in columns.iter_mut().zip([x, z, m, y]) {
            column.push(value);
        }
    }
    let first: [&[u32]; 4] = [&[], &[], &[0], &[0]];
    let second: [&[u32]; 4] = [&[], &[], &[1], &[2]];
    let lists = |parents: &[&[u32]]| -> Vec<Vec<DenseNodeId>> {
        parents
            .iter()
            .map(|list| list.iter().map(|p| DenseNodeId::from_raw(*p)).collect())
            .collect()
    };
    let variables: Vec<VariableId> = (0..4).map(variable).collect();
    let player_nodes = vec![Some(2), Some(3)];
    let ctx = ExecutionContext::for_tests(1);
    let seed = mix_seed(ctx.rng.master_seed(), 0x5C01 + 9);
    let mut payoff = StructureSwap {
        variables: variables.clone(),
        baseline_parents: lists(&first),
        comparison_parents: lists(&second),
        store: HybridStore::new(
            fitted(&columns, &first, &range(0, 40)),
            fitted(&columns, &second, &range(40, 80)),
        ),
        player_nodes: player_nodes.clone(),
        outcome: 3,
        n_samples: 300,
        seed,
        engine: &Sampled,
    };
    for mask in 0..4u64 {
        let hybrid =
            hybrid_structure_dag(&variables, &lists(&first), &lists(&second), &player_nodes, mask)
                .unwrap();
        let parents: Vec<Vec<u32>> = (0..4)
            .map(|node| {
                let place = hybrid.place_of(node).unwrap();
                hybrid.gathers[place].parents.iter().map(|p| p.raw).collect()
            })
            .collect();
        let refs: Vec<&[u32]> = parents.iter().map(|list| list.as_slice()).collect();
        let mut slots = fitted(&columns, &refs, &range(0, 40));
        let comparison = fitted(&columns, &refs, &range(40, 80));
        for (player, node) in [2, 3].into_iter().enumerate() {
            if mask & (1 << player) != 0 {
                slots[node] = comparison[node].clone();
            }
        }
        let store = HybridStore::new(slots, comparison);
        let (mu_ref, var_ref) =
            Sampled.outcome_law(&hybrid, &store, 3, 300, seed).unwrap();
        let (mu, var) = payoff.law_at(mask).unwrap();
        assert!(
            mu.0.to_bits() == mu_ref.0.to_bits() && var.0.to_bits() == var_ref.0.to_bits(),
            "mask={mask}: memoized ({mu:?}, {var:?}) != refit ({mu_ref:?}, {var_ref:?})"
        );
    }
}

#[test]
fn rejects_mechanism_components() {
    let (first, second, baseline, comparison) = parent_swap();
    let query =
        change_query(2, 40, 80).with_components(AttributionComponents::Mechanisms);
    let err = structure_change(
        &first,
        &second,
        baseline,
        comparison,
        &query,
        &StructureChangeOptions::default(),
        &Normal,
        &ExecutionContext::for_tests(1),
        None,
    )
    .unwrap_err();
    assert!(matches!(err, AttributionError::Unsupported { .. }));
}

#[test]
fn non_ancestor_structural_diff_is_unidentified() {
    let mut columns: Vec<Vec<f64>> = (0..5)
        .map(|vi| (0..60usize).map(|i| (i + vi) as f64 * 0.05).collect())
        .collect();
    for i in 0..60usize {
        let x = (i % 30) as f64 * 0.1;
        let z = ((i + 3) % 30) as f64 * 0.1;
        columns[2][i] = if i < 30 { 1.0 + 2.0 * x } else { 7.0 + 2.5 * z };
    }
    let first: [&[u32]; 5] = [&[], &[], &[0], &[], &[3]];
    let second: [&[u32]; 5] = [&[], &[], &[1], &[], &[]];
    let query = change_query(2, 30, 60)
        .with_components(AttributionComponents::Structure)
        .with_allocation(exact());
    let opts = StructureChangeOptions {
        measure: DifferenceMeasure::MeanDiff,
        n_samples: 400,
        seed: 1,
    };
    let result = structure_change(
        &compiled(&first),
        &compiled(&second),
        fitted(&columns, &first, &range(0, 30)),
        fitted(&columns, &second, &range(30, 60)),
        &query,
        &opts,
        &Normal,
        &caching(1),
        None,
    )
    .unwrap();
    assert!(result.unidentified.iter().any(|c| c.variable() == variable(4)));
    assert!(result.contributions.iter().any(|c| c.component.variable() == variable(2)));
}

#[test]
fn hybrids_take_the_parents_of_swapped_players() {
    let node = DenseNodeId::from_raw;
    let first = vec![vec![], vec![], vec![node(0)], vec![node(0)]];
    let second = vec![vec![], vec![], vec![node(1)], vec![node(2)]];
    let variables: Vec<VariableId> = (0..4).map(variable).collect();
    let hybrid =
        hybrid_structure_dag(&variables, &first, &second, &vec![Some(2), Some(3)], 0b10).unwrap();
    let place = hybrid.place_of(3).unwrap();
    assert_eq!(hybrid.gathers[place].parents, vec![node(2)]);
    let place = hybrid.place_of(2).unwrap();
    assert_eq!(hybrid.gathers[place].parents, vec![node(0)]);
    assert!(parent_sets_differ(&first[3], &second[3]));
    assert!(!parent_sets_differ(&vec![node(1), node(2)], &vec![node(2), node(1)]));
    let forward = vec![vec![], vec![node(0)]];
    let backward = vec![vec![node(1)], vec![]];
    let variables: Vec<VariableId> = (0..2).map(variable).collect();
    let cyclic = hybrid_structure_dag(&variables, &forward, &backward, &vec![Some(0)], 0b1);
    assert!(matches!(cyclic, Err(AttributionError::Unsupported { .. })));
}

#[test]
fn models_are_acyclic() {
    let node = DenseNodeId::from_raw;
    let variables: Vec<VariableId> = (0..2).map(variable).collect();
    let err = CausalModel::compile(variables, &vec![vec![node(1)], vec![node(0)]]).unwrap_err();
    assert!(matches!(err, AttributionError::Unsupported { .. }));
    let model = compiled(&[&[2], &[0], &[]]);
    let order: Vec<u32> = model.gathers.iter().map(|g| g.child.raw).collect();
    assert_eq!(order, vec![2, 0, 1]);
    assert_eq!(model.ancestors_of(0), vec![true, false, true]);
    assert_eq!(model.dense_of(variable(2)), Some(2));
    assert_eq!(model.dense_of(variable(9)), None);
}

// Composition of regressions.

fn deterministic_columns() -> Vec<Vec<f64>> {
    let mut columns = vec![Vec::new(), Vec::new()];
    for i in 0..60usize {
        let x = (i % 30) as f64 * 0.1;
        columns[0].push(x);
        columns[1].push(if i < 30 { x } else { x + 2.0 });
    }
    columns
}

fn rows_query() -> ChangeAttributionQuery {
    ChangeAttributionQuery::new(
        variable(1),
        PopulationSelector::Rows(range(0, 30)),
        PopulationSelector::Rows(range(30, 60)),
    )
    .with_allocation(exact())
}

fn robust(query: &ChangeAttributionQuery, options: &RobustChangeOptions) -> Result<ChangeAttributionResult<Real>, AttributionError> {
    let columns = deterministic_columns();
    distribution_change_robust(
        &compiled(&CHAIN),
        &table(&columns, &range(0, 30)),
        30,
        fitted(&columns, &CHAIN, &range(0, 30)),
        fitted(&columns, &CHAIN, &range(30, 60)),
        query,
        options,
        &Sampled,
        &ExecutionContext::for_tests(1),
    )
}

#[test]
fn robust_matches_distribution_change_on_deterministic_linear_data() {
    let columns = deterministic_columns();
    let robust_result = robust(&rows_query(), &RobustChangeOptions::default()).unwrap();
    let opts = options(DifferenceMeasure::MeanDiff, 4_000, 17);
    let sampled_result = distribution_change(
        &compiled(&CHAIN),
        fitted(&columns, &CHAIN, &range(0, 30)),
        fitted(&columns, &CHAIN, &range(30, 60)),
        &rows_query(),
        &opts,
        &Sampled,
        &ExecutionContext::for_tests(1),
        None,
    )
    .unwrap();
    assert!((robust_result.total_change.0 - sampled_result.total_change.0).abs() < 0.1);
    let (robust_y, sampled_y) = (share(&robust_result, 1), share(&sampled_result, 1));
    assert!((robust_y - sampled_y).abs() < 0.1, "robust={robust_y} sampled={sampled_y}");
    assert!(robust_y > 1.0, "robust_y={robust_y}");
    assert!(sampled_y > 1.0, "sampled_y={sampled_y}");
}

#[test]
fn robust_linear_still_runs() {
    let result = robust(&rows_query(), &RobustChangeOptions::default()).unwrap();
    assert!(result.total_change.0.abs() > 0.5);
    assert!((result.total_change.0 - 2.0).abs() < 1e-9);
}

#[test]
fn robust_attribution_refuses_what_it_cannot_compose() {
    let limit = RobustChangeOptions { max_rows: 29, ..RobustChangeOptions::default() };
    assert_eq!(
        robust(&rows_query(), &limit).unwrap_err(),
        AttributionError::SizeLimit { kind: "units", requested: 30, max: 29 }
    );
    let inputs = rows_query().with_components(AttributionComponents::Inputs);
    assert!(matches!(
        robust(&inputs, &RobustChangeOptions::default()),
        Err(AttributionError::Unsupported { .. })
    ));
    let order = AllocationMethod::Sequential { order: vec![component(0), component(1)] };
    assert!(matches!(
        robust(&rows_query().with_allocation(order), &RobustChangeOptions::default()),
        Err(AttributionError::Unsupported { .. })
    ));
}

#[test]
fn robust_composition_reads_coefficients() {
    let slot = |intercept: f64, coeffs: &[f64]| MechanismSlot::LinearGaussian {
        intercept: Real(intercept),
        coeffs: reals(coeffs),
        sigma: Real(0.0),
    };
    let short = distribution_change_robust(
        &compiled(&CHAIN),
        &table(&deterministic_columns(), &range(0, 30)),
        30,
        vec![slot(0.0, &[]), slot(0.0, &[])],
        vec![slot(0.0, &[]), slot(0.0, &[1.0])],
        &rows_query(),
        &RobustChangeOptions::default(),
        &Sampled,
        &ExecutionContext::for_tests(1),
    );
    assert!(matches!(short, Err(AttributionError::Unsupported { .. })));
    let result = distribution_change_robust(
        &compiled(&CHAIN),
        &table(&deterministic_columns(), &range(0, 30)),
        30,
        vec![slot(1.0, &[]), slot(0.5, &[2.0])],
        vec![slot(4.0, &[]), slot(0.5, &[3.0])],
        &rows_query(),
        &RobustChangeOptions::default(),
        &Sampled,
        &ExecutionContext::for_tests(1),
    )
    .unwrap();
    assert!((result.total_change.0 - 10.0).abs() < 1e-9);
    assert!((share(&result, 0) - 7.5).abs() < 1e-9);
    assert!((share(&result, 1) - 2.5).abs() < 1e-9);
}

#[test]
fn nonlinear_payoff_attributes_ancestor_variance_change() {
    let model = compiled(&CHAIN);
    let normal = |sigma: f64| MechanismSlot::LinearGaussian {
        intercept: Real(0.0),
        coeffs: Vec::new(),
        sigma: Real(sigma),
    };
    let laws = MechanismSwap {
        model: &model,
        store: HybridStore::new(
            vec![normal(1.0), MechanismSlot::Opaque],
            vec![normal(2.0), MechanismSlot::Opaque],
        ),
        player_nodes: vec![Some(0), Some(1)],
        applied: 0,
        outcome: 1,
        n_samples: 20_000,
        seed: 11,
        engine: &Sampled,
    };
    let mut payoff = LawPayoff::new(laws, DifferenceMeasure::MeanDiff, &Sampled);
    let v_baseline = payoff.value(0).unwrap().0;
    let v_x_swapped = payoff.value(1).unwrap().0;
    let observed = v_x_swapped - v_baseline;
    assert!((observed - 3.0).abs() < 0.2, "observed={observed}");
    let result = distribution_change_robust(
        &model,
        &table(&deterministic_columns(), &range(0, 30)),
        30,
        vec![normal(1.0), MechanismSlot::Opaque],
        vec![normal(2.0), MechanismSlot::Opaque],
        &rows_query(),
        &RobustChangeOptions { max_rows: 10_000, n_samples: 20_000, seed: 11 },
        &Sampled,
        &ExecutionContext::for_tests(7),
    )
    .unwrap();
    assert!((share(&result, 0) - 3.0).abs() < 0.2, "x={}", share(&result, 0));
    assert!(share(&result, 1).abs() < 1e-9, "y={}", share(&result, 1));
}

// Units.

#[test]
fn units_draw_independent_permutation_streams() {
    for base in [0u64, 1, 7, u64::MAX] {
        let seeds: HashSet<u64> = (0..5_000usize).map(|row| unit_seed(base, row)).collect();
        assert_eq!(seeds.len(), 5_000, "base seed {base}");
        assert!(!seeds.contains(&base));
    }
    assert_ne!(unit_seed(1, 0), unit_seed(2, 0));
}

#[test]
fn pooled_stderr_is_per_player_root_sum_of_squares_over_n() {
    let se = pooled_stderr(&reals(&[25.0, 0.0]), Real(2.0));
    assert!((se[0].0 - 2.5).abs() < 1e-15);
    assert_eq!(se[1].0, 0.0);
}

fn eight_units() -> Vec<Vec<f64>> {
    let xv: Vec<f64> = (0..8).map(|i| f64::from(i) * 0.1).collect();
    let yv: Vec<f64> = xv.iter().map(|x| 2.0 * x).collect();
    vec![xv, yv]
}

#[test]
fn unit_change_rejects_out_of_range_unit_row() {
    let n = 8usize;
    let columns = eight_units();
    let q = UnitChangeQuery::new(variable(1), 20).with_unit_rows(vec![n]).with_allocation(exact());
    let err = unit_change(
        &compiled(&CHAIN),
        &vec![MechanismSlot::Opaque, MechanismSlot::Opaque],
        &table(&columns, &range(0, n)),
        &reals(&vec![0.0; n]),
        &q,
        &Normal,
        &ExecutionContext::for_tests(1),
    )
    .unwrap_err();
    assert_eq!(err, AttributionError::PopulationOutOfRange { kind: "row", index: n, limit: n });
}

#[test]
fn unit_change_attributes_parent() {
    let n = 8usize;
    let columns = eight_units();
    let q = UnitChangeQuery::new(variable(1), 20).with_allocation(exact());
    let result = unit_change(
        &compiled(&CHAIN),
        &fitted(&columns, &CHAIN, &range(0, n)),
        &table(&columns, &range(0, n)),
        &reals(&vec![0.0; n]),
        &q,
        &Normal,
        &ExecutionContext::for_tests(1),
    )
    .unwrap();
    assert_eq!(result.components, vec![component(0)]);
    assert_eq!(result.contributions.len(), n);
    let mean = columns[0].iter().sum::<f64>() / n as f64;
    for (actual, x) in result.contributions.iter().zip(&columns[0]) {
        assert!((actual.0 - 2.0 * (x - mean)).abs() < 1e-10, "actual={actual:?}");
    }
    assert!(result.mean_contributions[0].0.abs() < 1e-10);
}

// Anomalies and arrows.

fn scaled_anomaly(n: usize, y_scale: f64) -> Vec<Vec<f64>> {
    let xv: Vec<f64> = (0..n).map(|i| i as f64 * 0.1).collect();
    let mut yv: Vec<f64> = xv.iter().map(|x| (1.0 + 2.0 * x) * y_scale).collect();
    yv[n - 1] = 100.0 * y_scale;
    vec![xv, yv]
}

/// Noise of linear mechanisms: what is left of each value.
fn abducted(columns: &[Vec<f64>], parents: &[&[u32]], slots: &[MechanismSlot<Real>]) -> NodeTable<Real> {
    let n = columns[0].len();
    let noise = (0..columns.len())
        .map(|node| {
            (0..n)
                .map(|row| {
                    let inputs: Vec<Real> =
                        parents[node].iter().map(|p| Real(columns[*p as usize][row])).collect();
                    let fit = Normal.evaluate(&slots[node], &inputs, Real(0.0)).unwrap();
                    Real(columns[node][row] - fit.0)
                })
                .collect()
        })
        .collect();
    NodeTable { columns: noise, n_rows: n }
}

#[test]
fn it_score_is_invariant_to_target_scale() {
    let n = 30usize;
    let q = AnomalyAttributionQuery::new(vec![variable(1)], 100);
    let scored = |scale: f64| {
        let columns = scaled_anomaly(n, scale);
        let slots = fitted(&columns, &CHAIN, &range(0, n));
        let noise = abducted(&columns, &CHAIN, &slots);
        score_anomalies(
            &compiled(&CHAIN),
            &slots,
            &table(&columns, &range(0, n)),
            &noise,
            &q,
            &Normal,
        )
        .unwrap()
    };
    let (s1, s2) = (scored(1.0), scored(100.0));
    for row in 0..n {
        let (a, b) = (s1[0].scores[row].0, s2[0].scores[row].0);
        assert!((a - b).abs() < 1e-6 * a.abs().max(1.0), "row {row}: {a} vs {b}");
    }
    assert!(s1[0].scores[n - 1].0 > 10.0 * s1[0].scores[0].0);
}

#[test]
fn anomaly_and_arrow_strength() {
    let n = 30usize;
    let columns = scaled_anomaly(n, 1.0);
    let slots = fitted(&columns, &CHAIN, &range(0, n));
    let noise = abducted(&columns, &CHAIN, &slots);
    let q = AnomalyAttributionQuery::new(vec![variable(1)], 100);
    let model = compiled(&CHAIN);
    let values = table(&columns, &range(0, n));
    let scores = score_anomalies(&model, &slots, &values, &noise, &q, &Normal).unwrap();
    assert!(scores[0].scores[n - 1].0 > scores[0].scores[0].0);
    assert!(!scores[0].noise_components.is_empty());
    let n_p = scores[0].noise_components.len();
    let y_idx =
        scores[0].noise_components.iter().position(|c| c.variable() == variable(1)).unwrap();
    let y_phi = scores[0].noise_contributions[(n - 1) * n_p + y_idx].0;
    assert!(y_phi.abs() > 0.0, "y attribution={y_phi}");
    let row = n - 1;
    let phi: Vec<f64> =
        (0..n_p).map(|j| scores[0].noise_contributions[row * n_p + j].0).collect();
    assert!(phi.iter().sum::<f64>().is_finite());
    let abs_sum: f64 = phi.iter().map(|v| v.abs()).sum();
    assert!((abs_sum - scores[0].residual_abs[row].0).abs() < 1e-9);
    let arrows = arrow_strengths(&model, &slots.iter().collect()).unwrap();
    assert!(!arrows.is_empty());
    assert!(arrows.iter().any(|a| a.strength.0 > 0.5), "arrows={arrows:?}");
}

#[test]
fn noise_shares_add_up_to_the_score_gained() {
    let n = 30usize;
    let columns = scaled_anomaly(n, 1.0);
    let slots = fitted(&columns, &CHAIN, &range(0, n));
    let noise = abducted(&columns, &CHAIN, &slots);
    let rows = vec![n - 1, 3];
    let q = AnomalyAttributionQuery::new(vec![variable(1)], 100).with_unit_rows(rows.clone());
    let values = table(&columns, &range(0, n));
    let scores =
        score_anomalies(&compiled(&CHAIN), &slots, &values, &noise, &q, &Normal).unwrap();
    assert_eq!(scores[0].rows, rows);
    let tail = OutlierTail::from_reference(&values.columns[1]);
    let x0 = Normal.evaluate(&slots[0], &vec![], Real(0.0)).unwrap();
    let quiet = Normal.evaluate(&slots[1], &vec![x0], Real(0.0)).unwrap();
    for (u, row) in rows.iter().enumerate() {
        let gained = tail.score(Real(columns[1][*row]), &Normal).0 - tail.score(quiet, &Normal).0;
        let sum: f64 = (0..2).map(|j| scores[0].noise_contributions[u * 2 + j].0).sum();
        assert!((sum - gained).abs() < 1e-9, "sum={sum} gained={gained}");
    }
}

#[test]
fn anomaly_queries_are_bounded() {
    let columns = scaled_anomaly(5, 1.0);
    let slots = fitted(&columns, &CHAIN, &range(0, 5));
    let noise = abducted(&columns, &CHAIN, &slots);
    let values = table(&columns, &range(0, 5));
    let model = compiled(&CHAIN);
    let scored = |q: AnomalyAttributionQuery| {
        score_anomalies(&model, &slots, &values, &noise, &q, &Normal).unwrap_err()
    };
    assert_eq!(
        scored(AnomalyAttributionQuery::new(vec![variable(1)], 4)),
        AttributionError::SizeLimit { kind: "units", requested: 5, max: 4 }
    );
    assert_eq!(
        scored(AnomalyAttributionQuery::new(vec![variable(1), variable(8)], 5)),
        AttributionError::missing_var("target", variable(8))
    );
    assert!(matches!(
        scored(AnomalyAttributionQuery::new(Vec::new(), 5)),
        AttributionError::Query(_)
    ));
    assert_eq!(
        scored(AnomalyAttributionQuery::new(vec![variable(1)], 1).with_unit_rows(vec![90, 91])),
        AttributionError::SizeLimit { kind: "units", requested: 2, max: 1 }
    );
    assert_eq!(
        scored(AnomalyAttributionQuery::new(vec![variable(8)], 5).with_unit_rows(vec![90])),
        AttributionError::missing_var("target", variable(8))
    );
}

#[test]
fn outlier_references_are_robust() {
    let tail = OutlierTail::from_reference(&reals(&[1.0, 2.0, f64::NAN, 3.0, 4.0, 1000.0]));
    assert_eq!(tail.center, Real(3.0));
    assert_eq!(tail.scale, Real(1.482_602_218_505_602));
    let flat = OutlierTail::from_reference(&reals(&[5.0, 5.0, 5.0, 9.0]));
    assert_eq!((flat.center, flat.scale), (Real(5.0), Real(1.0)));
    let constant = OutlierTail::from_reference(&reals(&[5.0, 5.0]));
    assert_eq!((constant.center, constant.scale), (Real(5.0), Real(1.0)));
    let empty = OutlierTail::from_reference(&reals(&[f64::NAN]));
    assert_eq!((empty.center, empty.scale), (Real(0.0), Real(1.0)));
    assert_eq!(empty.score(Real(f64::INFINITY), &Normal), Real(0.0));
    assert_eq!(median_of_sorted(&reals(&[1.0, 2.0, 5.0, 9.0])), Real(3.5));
    assert_eq!(median_of_sorted::<Real>(&Vec::new()), Real(0.0));
}

#[test]
fn arrow_strength_is_variance_weighted_not_bare_coefficient() {
    let root = |sigma: f64| MechanismSlot::LinearGaussian {
        intercept: Real(0.0),
        coeffs: Vec::new(),
        sigma: Real(sigma),
    };
    let slots = vec![
        root(10.0),
        root(0.001_f64.sqrt()),
        MechanismSlot::LinearGaussian {
            intercept: Real(1.0),
            coeffs: reals(&[0.75, 2.5]),
            sigma: Real(0.5),
        },
    ];
    let model = compiled(&[&[], &[], &[0, 1]]);
    let refs: Vec<&MechanismSlot<Real>> = slots.iter().collect();
    let variances = model_implied_variances(&model, &refs).unwrap();
    assert!((variances[0].0 - 100.0).abs() < 1e-12);
    assert!((variances[1].0 - 0.001).abs() < 1e-12);
    let actual = arrow_strengths(&model, &refs).unwrap();
    assert_eq!(actual.len(), 2);
    assert!((actual[0].strength.0 - 56.25).abs() < 1e-12);
    assert!((actual[1].strength.0 - 0.00625).abs() < 1e-12);
    assert!(actual[0].strength.0 > actual[1].strength.0);
    assert!(actual[0].coefficient.0.abs() < actual[1].coefficient.0.abs());
}

#[test]
fn variance_propagates_through_a_chain() {
    let slot = |coeffs: &[f64], sigma: f64| MechanismSlot::LinearGaussian {
        intercept: Real(0.0),
        coeffs: reals(coeffs),
        sigma: Real(sigma),
    };
    let slots = vec![slot(&[], 2.0), slot(&[3.0], 1.0), slot(&[2.0], 1.0)];
    let refs: Vec<&MechanismSlot<Real>> = slots.iter().collect();
    let model = compiled(&[&[], &[0], &[1]]);
    let variances = model_implied_variances(&model, &refs).unwrap();
    assert!((variances[0].0 - 4.0).abs() < 1e-12);
    assert!((variances[1].0 - 37.0).abs() < 1e-12);
    assert!((variances[2].0 - 149.0).abs() < 1e-12);
    let arrows = arrow_strengths(&model, &refs).unwrap();
    let m_to_y =
        arrows.iter().find(|e| e.parent == variable(1) && e.child == variable(2)).unwrap();
    assert!((m_to_y.strength.0 - 148.0).abs() < 1e-12);
    assert_eq!(model_implied_means(&model, &refs).unwrap(), reals(&[0.0, 0.0, 0.0]));
}

#[test]
fn arrows_need_linear_mechanisms() {
    let slots: Vec<MechanismSlot<Real>> =
        vec![MechanismSlot::Constant { value: Real(1.0) }, MechanismSlot::Opaque];
    let refs: Vec<&MechanismSlot<Real>> = slots.iter().collect();
    assert_eq!(
        arrow_strengths(&compiled(&CHAIN), &refs).unwrap_err(),
        AttributionError::NonLinearGaussianMechanism
    );
    let slots: Vec<MechanismSlot<Real>> = vec![
        MechanismSlot::Discrete {
            support: reals(&[0.0, 1.0]),
            probs: reals(&[1.0, 3.0]),
            logit_coeffs: None,
        },
        MechanismSlot::Constant { value: Real(1.0) },
    ];
    let refs: Vec<&MechanismSlot<Real>> = slots.iter().collect();
    let lone = compiled(&[&[], &[]]);
    assert_eq!(arrow_strengths(&lone, &refs).unwrap(), Vec::new());
    assert!((model_implied_variances(&lone, &refs).unwrap()[0].0 - 0.1875).abs() < 1e-15);
    assert!(arrow_strengths(&compiled(&CHAIN), &refs).is_err());
}

#[test]
fn do_contrasts_are_planned_around_the_parent_mean() {
    let model = compiled(&CHAIN);
    let parent = reals(&[1.0, 3.0]);
    let ctx = ExecutionContext::for_tests(3);
    let plan = plan_do_contrast(&model, &parent, variable(1), Real(0.5), 2, 10, &ctx).unwrap();
    assert_eq!((plan.low, plan.high), (Real(1.75), Real(2.25)));
    assert_eq!((plan.n_samples, plan.child), (2, 1));
    assert_eq!(
        CausalRng::from_seed(plan.seed).state(),
        RngFactory::from_seed(3).stream(0x1C1).state()
    );
    assert!(plan_do_contrast(&model, &parent, variable(4), Real(0.5), 2, 10, &ctx).is_err());
    assert_eq!(
        plan_do_contrast(&model, &parent, variable(4), Real(0.5), 11, 10, &ctx).unwrap_err(),
        AttributionError::SizeLimit { kind: "units", requested: 11, max: 10 }
    );
    let contrast = population_do_contrast(&reals(&[1.0, 2.0]), &reals(&[4.0, 6.0]));
    assert_eq!(contrast, Real(3.5));
}

// Rankings.

fn attribution(value: f64) -> ChangeAttributionResult<Real> {
    attribution_of(&[(0, value)])
}

fn attribution_of(shares: &[(u32, f64)]) -> ChangeAttributionResult<Real> {
    ChangeAttributionResult {
        outcome: variable(0),
        total_change: Real(shares.iter().map(|s| s.1).sum()),
        contributions: shares
            .iter()
            .map(|(raw, value)| ComponentContribution {
                component: component(*raw),
                contribution: Real(*value),
                stderr: None,
                ci_low: None,
                ci_high: None,
            })
            .collect(),
        interactions: Vec::new(),
        path_breakdown: Vec::new(),
        unidentified: Vec::new(),
        budget: ComputeBudget { evaluations: 0, samples: 0, exact_coalitions: 0 },
        monte_carlo_stderr: None,
        component_mc_stderr: None,
        cache_stats: CacheStats { hits: 0, misses: 0, entries: 0, bytes: 0, saturated: false },
        graph_sensitivity: None,
        fit_uncertainty: None,
    }
}

#[test]
fn moments_are_weighted_means_and_squares() {
    let mut moments = ContributionMoments::empty();
    moments.add(Real(1.0), Real(2.0)).unwrap();
    moments.add(Real(0.0), Real(f64::NAN)).unwrap();
    moments.add(Real(3.0), Real(6.0)).unwrap();
    assert_eq!((moments.mass, moments.mean, moments.m2), (Real(4.0), Real(5.0), Real(12.0)));
    assert!(moments.add(Real(1.0), Real(f64::INFINITY)).is_err());
    let rank = moments.rank(component(7));
    assert_eq!((rank.score, rank.graph_std), (Real(5.0), Some(Real(3.0f64.sqrt()))));
}

#[test]
fn graph_ranks_are_weight_scale_invariant_and_keep_small_variance() {
    for weight in [1e-30, 1.0, 1e300] {
        let ranks = aggregate_model_collection_ranks(&vec![
            (Real(weight), attribution(1e12 - 1.0)),
            (Real(weight), attribution(1e12 + 1.0)),
        ])
        .unwrap();
        assert!((ranks[0].score.0 - 1e12).abs() < 1e-6);
        assert!((ranks[0].graph_std.unwrap().0 - 1.0).abs() < 1e-12);
    }
    let draws =
        contribution_posterior_from_rows(1, 2, &reals(&[1e12 - 1.0, 1e12 + 1.0])).unwrap();
    let ranks = posterior_contribution_ranks(&draws, &vec![component(0)], 1).unwrap();
    assert!((ranks[0].graph_std.unwrap().0 - 1.0).abs() < 1e-12);
}

#[test]
fn graph_ranks_require_aligned_samples_and_valid_mass() {
    let graphs = WeightedGraphSamples { weights: reals(&[0.5, 0.5]), n_samples: 2 };
    let draws = contribution_posterior_from_rows(1, 1, &reals(&[2.0])).unwrap();
    assert!(root_cause_rank(&attribution(2.0), Some(&graphs), Some(&draws)).is_err());
    for weight in [-1.0, 0.0, f64::NAN, f64::INFINITY] {
        let ranks = aggregate_model_collection_ranks(&vec![(Real(weight), attribution(2.0))]);
        assert!(ranks.is_err());
    }
}

#[test]
fn posterior_ranking_does_not_depend_on_the_block_size() {
    let components = vec![component(0), component(1)];
    let values = reals(&[1.0, 3.0, 2.0, -8.0, -4.0, -6.0]);
    let draws = contribution_posterior_from_rows(2, 3, &values).unwrap();
    for block_size in [1, 2, 3, 8] {
        let ranks = posterior_contribution_ranks(&draws, &components, block_size).unwrap();
        assert_eq!(ranks[0].component, component(1));
        assert!((ranks[0].score.0 - 6.0).abs() < 1e-12);
        assert!((ranks[0].graph_std.unwrap().0 - (8.0_f64 / 3.0).sqrt()).abs() < 1e-12);
        assert_eq!(ranks[1].component, component(0));
        assert!((ranks[1].score.0 - 2.0).abs() < 1e-12);
    }
    let no_blocks = posterior_contribution_ranks(&draws, &components, 0).unwrap_err();
    assert!(matches!(no_blocks, AttributionError::Budget { .. }));
    assert!(posterior_contribution_ranks(&draws, &Vec::new(), 1).is_err());
    assert!(posterior_contribution_ranks(&draws, &players(3), 1).is_err());
    assert!(contribution_posterior_from_rows(2, 2, &values).is_err());
    let undefined = contribution_posterior_from_rows(1, 2, &reals(&[1.0, f64::NAN])).unwrap();
    assert!(posterior_contribution_ranks(&undefined, &vec![component(0)], 1).is_err());
}

#[test]
fn components_that_a_model_lacks_contribute_nothing_to_it() {
    let ranks = aggregate_model_collection_ranks(&vec![
        (Real(1.0), attribution_of(&[(3, -4.0), (1, 1.0)])),
        (Real(3.0), attribution_of(&[(1, 1.0)])),
    ])
    .unwrap();
    let order: Vec<u32> = ranks.iter().map(|r| r.component.raw()).collect();
    assert_eq!(order, vec![1, 3], "equal scores keep the order of ids");
    assert!((ranks[0].score.0 - 1.0).abs() < 1e-12);
    assert!((ranks[1].score.0 - 1.0).abs() < 1e-12);
    assert!(ranks[0].graph_std.unwrap().0.abs() < 1e-12);
    assert!((ranks[1].graph_std.unwrap().0 - 3.0_f64.sqrt()).abs() < 1e-12);
    let twice = vec![(Real(1.0), attribution_of(&[(1, 1.0), (1, 2.0)]))];
    assert!(aggregate_model_collection_ranks(&twice).is_err());
    assert!(aggregate_model_collection_ranks::<Real>(&Vec::new()).is_err());
}

#[test]
fn components_rank_by_the_size_of_their_share() {
    let ranks =
        root_cause_rank(&attribution_of(&[(0, 1.0), (1, -3.0), (2, 2.0)]), None, None).unwrap();
    let order: Vec<u32> = ranks.iter().map(|r| r.component.raw()).collect();
    assert_eq!(order, vec![1, 2, 0]);
    assert_eq!(ranks[0], RootCauseRank { component: component(1), score: Real(3.0), graph_std: None });
    assert!(root_cause_rank(&attribution_of(&[]), None, None).is_err());
    let graphs = WeightedGraphSamples { weights: reals(&[1.0, 3.0]), n_samples: 2 };
    let draws = contribution_posterior_from_rows(1, 2, &reals(&[0.0, 4.0])).unwrap();
    let weighted = root_cause_rank(&attribution(2.0), Some(&graphs), Some(&draws)).unwrap();
    assert!((weighted[0].score.0 - 3.0).abs() < 1e-12);
    assert!((weighted[0].graph_std.unwrap().0 - 3.0_f64.sqrt()).abs() < 1e-12);
}

#[test]
fn ordering_is_stable() {
    let rank = |raw: u32, score: f64| RootCauseRank {
        component: component(raw),
        score: Real(score),
        graph_std: None,
    };
    let ordered = arrange(&vec![rank(0, 1.0), rank(1, 2.0), rank(2, 1.0), rank(3, 2.0)]);
    let ids: Vec<u32> = ordered.iter().map(|r| r.component.raw()).collect();
    assert_eq!(ids, vec![1, 3, 0, 2]);
    let numbers: Vec<Whole> = [3, 1, 2].iter().map(|v| Whole { value: *v }).collect();
    let sorted: Vec<i64> = arrange(&numbers).iter().map(|w| w.value).collect();
    assert_eq!(sorted, vec![1, 2, 3]);
}
