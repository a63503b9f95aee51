//! Counterfactual trajectories.

use antecedent::attribution::amount::{Amount, Whole};
use antecedent::attribution::engine::ClosedForm;
use antecedent::attribution::error::AttributionError;
use antecedent::attribution::model::{CausalModel, MechanismSlot};
use antecedent::attribution::table::NodeTable;
use antecedent::ids::{DenseNodeId, VariableId};
use antecedent::trajectory::{
    evaluate_trajectories, finite_mean_sd, CounterfactualError, CounterfactualTrajectoryRequest,
    NoiseReplay, Setting, TrajectoryArm, TrajectoryResult,
};

#[derive(Clone, Copy, Debug, PartialEq)]
struct Real(f64);

impl Amount for Real {
    fn zero() -> Self {
        Real(0.0)
    }
    fn infinity() -> Self {
        Real(f64::INFINITY)
    }
    fn no_value() -> Self {
        Real(f64::NAN)
    }
    fn count(n: u64) -> Self {
        Real(n as f64)
    }
    fn sum(self, other: Self) -> Self {
        Real(self.0 + other.0)
    }
    fn difference(self, other: Self) -> Self {
        Real(self.0 - other.0)
    }
    fn product(self, other: Self) -> Self {
        Real(self.0 * other.0)
    }
    fn quotient(self, other: Self) -> Self {
        Real(self.0 / other.0)
    }
    fn square_root(self) -> Self {
        Real(self.0.sqrt())
    }
    fn magnitude(self) -> Self {
        Real(self.0.abs())
    }
    fn is_below(self, other: Self) -> bool {
        self.0 < other.0
    }
    fn is_preceding(self, other: Self) -> bool {
        self.0.total_cmp(&other.0).is_lt()
    }
    fn is_same(self, other: Self) -> bool {
        self.0 == other.0
    }
    fn is_bounded(self) -> bool {
        self.0.is_finite()
    }
    fn is_negligible(self) -> bool {
        !(self.0.abs() > 1e-15)
    }
}

#[test]
fn mean_and_sd_use_the_same_finite_units() {
    let column = vec![Real(1.0), Real(2.0), Real(f64::NAN), Real(3.0)];
    let (mean, sd) = finite_mean_sd(&column);
    assert!((mean.0 - 2.0).abs() < 1e-15);
    assert!((sd.0 - (2.0_f64 / 3.0).sqrt()).abs() < 1e-15);
    let (m, s) = finite_mean_sd(&vec![Real(f64::NAN), Real(f64::INFINITY)]);
    assert!(m.0.is_nan() && s.0.is_nan());
}

fn whole(value: i64) -> Whole {
    Whole { value }
}

fn chain() -> (CausalModel, Vec<MechanismSlot<Whole>>, NodeTable<Whole>) {
    let variables = vec![VariableId::from_raw(0), VariableId::from_raw(1)];
    let parents = vec![vec![], vec![DenseNodeId::from_raw(0)]];
    let slots = vec![
        MechanismSlot::LinearGaussian { intercept: whole(1), coeffs: vec![], sigma: whole(1) },
        MechanismSlot::LinearGaussian {
            intercept: whole(10),
            coeffs: vec![whole(2)],
            sigma: whole(1),
        },
    ];
    let noise = NodeTable {
        columns: vec![vec![whole(0), whole(1), whole(2)], vec![whole(5), whole(0), whole(-5)]],
        n_rows: 3,
    };
    (CausalModel::compile(variables, &parents).unwrap(), slots, noise)
}

fn run(arms: Vec<Vec<Vec<Setting<Whole>>>>, outcome: u32) -> Result<TrajectoryResult<Whole>, CounterfactualError> {
    let (model, slots, noise) = chain();
    let engine = ClosedForm { critical: whole(2) };
    let predictor = NoiseReplay { engine: &engine, model: &model, slots: &slots, noise: &noise };
    let request = CounterfactualTrajectoryRequest {
        arms: arms.into_iter().map(|schedule| TrajectoryArm { schedule }).collect(),
        outcome: VariableId::from_raw(outcome),
    };
    evaluate_trajectories(&model, &predictor, &request)
}

fn hold(value: i64) -> Vec<Setting<Whole>> {
    vec![Setting { node: 0, value: whole(value) }]
}

#[test]
fn steps_do_not_carry_over() {
    let result = run(vec![vec![hold(100), vec![]], vec![vec![], vec![]]], 1).unwrap();
    assert_eq!((result.horizon, result.n_worlds, result.n_units), (2, 2, 3));
    let values: Vec<i64> = result.values.iter().map(|v| v.value).collect();
    let factual = [17, 14, 11];
    let mut expected = vec![215, 210, 205];
    expected.extend(factual);
    expected.extend(factual);
    expected.extend(factual);
    assert_eq!(values, expected);
    assert_eq!(result.mean_at(0, 0), whole(210));
    assert_eq!(result.mean_at(1, 0), whole(14));
    assert_eq!(result.outcome, DenseNodeId::from_raw(1));
}

#[test]
fn settings_ignore_parents_and_noise() {
    let twice = vec![
        Setting { node: 1, value: whole(3) },
        Setting { node: 1, value: whole(8) },
    ];
    let result = run(vec![vec![twice]], 1).unwrap();
    assert_eq!(result.values, vec![whole(8); 3]);
    assert_eq!(result.sd, vec![whole(0)]);
}

#[test]
fn requests_are_checked() {
    let model = |message: &'static str| CounterfactualError::Model { message };
    assert_eq!(run(vec![], 1).unwrap_err(), model("no trajectory arms"));
    assert_eq!(run(vec![vec![]], 1).unwrap_err(), model("empty trajectory schedule"));
    assert_eq!(
        run(vec![vec![vec![]], vec![vec![], vec![]]], 1).unwrap_err(),
        model("trajectory arms must share a common horizon")
    );
    assert_eq!(
        run(vec![vec![vec![]]], 6).unwrap_err(),
        CounterfactualError::UnknownOutcome(VariableId::from_raw(6))
    );
}

#[test]
fn a_step_that_cannot_be_predicted_fails() {
    let (model, _, noise) = chain();
    let slots: Vec<MechanismSlot<Whole>> = vec![MechanismSlot::Opaque, MechanismSlot::Opaque];
    let engine = ClosedForm { critical: whole(2) };
    let predictor = NoiseReplay { engine: &engine, model: &model, slots: &slots, noise: &noise };
    let request = CounterfactualTrajectoryRequest {
        arms: vec![TrajectoryArm { schedule: vec![hold(1)] }],
        outcome: VariableId::from_raw(1),
    };
    assert_eq!(
        evaluate_trajectories(&model, &predictor, &request).unwrap_err(),
        CounterfactualError::Prediction(AttributionError::NonLinearGaussianMechanism)
    );
}
