//! Identified sets, credible draws and uncertainty.

use antecedent::level::OrderedFloatBits;
use antecedent::response::{
    CredibleDraws, IdentifiedSet, IntervalInterpretation, ResponseUncertainty, SupportStatus,
};

fn level(value: f64) -> OrderedFloatBits {
    OrderedFloatBits::from_bits(value.to_bits())
}

fn levels(values: &[f64]) -> Vec<OrderedFloatBits> {
    values.iter().map(|v| level(*v)).collect()
}

#[test]
fn credible_draws_are_column_major_per_coordinate() {
    let columns = vec![levels(&[1.0, 2.0, 3.0]), levels(&[4.0, 5.0, 6.0])];
    let draws = CredibleDraws::columns(3, &columns);
    assert_eq!(draws.n_draws, 3);
    assert_eq!(draws.n_coordinates(), 2);
    assert_eq!(draws.column(0), Some(&levels(&[1.0, 2.0, 3.0])[..]));
    assert_eq!(draws.column(1), Some(&levels(&[4.0, 5.0, 6.0])[..]));
    assert_eq!(draws.column(2), None);
    let scalar = CredibleDraws::scalar(levels(&[0.5, -0.5]));
    assert_eq!((scalar.n_draws, scalar.n_coordinates()), (2, 1));
    assert_eq!(scalar.column(0), Some(&levels(&[0.5, -0.5])[..]));
}

#[test]
fn credible_draws_are_read_only_off_scalar_and_pointwise_uncertainty() {
    let band = ResponseUncertainty::PointwiseBand {
        level: level(0.95),
        lower: levels(&[0.0]),
        upper: levels(&[1.0]),
        interpretation: IntervalInterpretation::Credible,
        draws: Some(CredibleDraws::scalar(levels(&[0.0, 1.0]))),
    };
    assert_eq!(band.credible_draws().map(|d| d.n_draws), Some(2));
    assert!(ResponseUncertainty::Absent.credible_draws().is_none());
    let posterior = ResponseUncertainty::Posterior { artifact_id: "p".to_string() };
    assert!(posterior.credible_draws().is_none());
}

#[test]
fn identified_set_intersection_never_widens() {
    let a = IdentifiedSet::try_new(level(-1.0), level(3.0)).unwrap();
    let b = IdentifiedSet::try_new(level(0.0), level(2.0)).unwrap();
    assert_eq!(a.intersect(&b), Some(b.clone()));
    assert!(a.intersect(&IdentifiedSet::try_new(level(4.0), level(5.0)).unwrap()).is_none());
}

#[test]
fn identified_sets_are_finite_and_ordered() {
    assert!(IdentifiedSet::try_new(level(2.0), level(1.0)).is_err());
    assert!(IdentifiedSet::try_new(level(f64::NAN), level(1.0)).is_err());
    assert!(IdentifiedSet::try_new(level(0.0), level(f64::INFINITY)).is_err());
    assert_eq!(
        IdentifiedSet::try_new(level(1.0), level(1.0)).unwrap().lower,
        level(1.0)
    );
}

#[test]
fn support_statuses_have_names() {
    assert_eq!(SupportStatus::Supported.as_str(), "supported");
    assert_eq!(IntervalInterpretation::Credible.as_str(), "credible");
}
