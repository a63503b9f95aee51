//! Counterfactual outcomes along schedules of interventions, on shared noise.
//!
//! The model is static: it has no lagged variables. A trajectory is a sequence of independent
//! counterfactuals, one per time index, and nothing computed at one step feeds the next. An
//! intervention scheduled at one time has no effect at another unless the schedule repeats
//! it.
//!
//! SPDX-License-Identifier: MIT OR Apache-2.0

use crate::attribution::amount::Amount;
use crate::attribution::anomaly;
use crate::attribution::distribution;
use crate::attribution::engine::Engine;
use crate::attribution::error::AttributionError;
use crate::attribution::model::{CausalModel, MechanismSlot, ModelView};
use crate::attribution::shapley;
use crate::attribution::table::NodeTable;
use crate::ids::{DenseNodeId, VariableId};
use crate::intervention::Intervention;
use vstd::prelude::*;

pub mod replay;

verus! {

/// Message for a request without arms.
pub const NO_ARMS: &'static str = "no trajectory arms";

/// Message for a schedule without times.
pub const EMPTY_SCHEDULE: &'static str = "empty trajectory schedule";

/// Message for schedules of different lengths.
pub const MIXED_HORIZONS: &'static str = "trajectory arms must share a common horizon";

/// Why trajectories could not be computed.
#[derive(Clone, Debug, PartialEq, Eq)]
#[non_exhaustive]
pub enum CounterfactualError {
    /// The request does not fit the model.
    Model {
        /// What is wrong with it.
        message: &'static str,
    },
    /// The outcome is not in the model.
    UnknownOutcome(VariableId),
    /// A step could not be predicted.
    Prediction(AttributionError),
}

/// A world: interventions per time index.
#[derive(Clone, Debug, PartialEq)]
pub struct TrajectoryArm<I = Intervention> {
    /// Interventions at each time index.
    pub schedule: Vec<Vec<I>>,
}

/// Request for counterfactual trajectories.
#[derive(Clone, Debug, PartialEq)]
pub struct CounterfactualTrajectoryRequest<I = Intervention> {
    /// Worlds.
    pub arms: Vec<TrajectoryArm<I>>,
    /// Outcome.
    pub outcome: VariableId,
}

/// Outcomes along trajectories, with summaries.
#[derive(Clone, Debug, PartialEq)]
pub struct TrajectoryResult<N> {
    /// Outcomes: one run of units per world, and one run of worlds per time.
    pub values: Vec<N>,
    /// Time indices.
    pub horizon: usize,
    /// Worlds.
    pub n_worlds: usize,
    /// Units.
    pub n_units: usize,
    /// Mean of the finite outcomes, one run of worlds per time.
    pub mean: Vec<N>,
    /// Population standard deviation of the finite outcomes, laid out alike.
    pub sd: Vec<N>,
    /// Outcome.
    pub outcome: DenseNodeId,
}

impl<N: Amount> TrajectoryResult<N> {
    /// One summary per time and world.
    pub open spec fn well_formed(self) -> bool {
        &&& self.mean@.len() == self.horizon * self.n_worlds
        &&& self.sd@.len() == self.horizon * self.n_worlds
        &&& self.values@.len() == self.horizon * self.n_worlds * self.n_units
    }

    /// Mean at a time in a world.
    #[must_use]
    pub fn mean_at(&self, time: usize, world: usize) -> (mean: N)
        requires
            self.well_formed(),
            time < self.horizon,
            world < self.n_worlds,
        ensures
            mean == self.mean@[time * self.n_worlds + world],
    {
        let count: usize = self.mean.len();
        assert(0 <= time * self.n_worlds && time * self.n_worlds + world < self.horizon
            * self.n_worlds) by (nonlinear_arith)
            requires
                0 <= time < self.horizon,
                0 <= world < self.n_worlds,
        ;
        self.mean[time * self.n_worlds + world]
    }
}

/// Mean of the finite entries, and what is undefined where there are none.
pub open spec fn finite_mean<N: Amount>(column: Seq<N>) -> N {
    let finite = anomaly::finite(column);
    if finite.len() == 0 {
        N::undefined()
    } else {
        shapley::total(finite).over(N::counted(finite.len()))
    }
}

/// Squared distances from a centre.
pub open spec fn squares<N: Amount>(values: Seq<N>, center: N) -> Seq<N> {
    values.map_values(|v: N| v.minus(center).times(v.minus(center)))
}

/// Population standard deviation of the finite entries, and what is undefined where there are
/// none.
pub open spec fn finite_sd<N: Amount>(column: Seq<N>) -> N {
    let finite = anomaly::finite(column);
    if finite.len() == 0 {
        N::undefined()
    } else {
        shapley::total(squares(finite, finite_mean(column))).over(N::counted(finite.len())).root()
    }
}

/// Mean and population standard deviation of the finite entries: both over the same entries,
/// and both undefined where there are none.
#[must_use]
pub fn finite_mean_sd<N: Amount>(column: &Vec<N>) -> (summary: (N, N))
    ensures
        summary == (finite_mean(column@), finite_sd(column@)),
{
    let finite = anomaly::finite_values(column);
    if finite.len() == 0 {
        return (N::no_value(), N::no_value());
    }
    let n = N::count(finite.len() as u64);
    let mean = shapley::sum_of(finite.as_slice()).quotient(n);
    let mut distances: Vec<N> = Vec::new();
    while distances.len() < finite.len()
        invariant
            distances@.len() <= finite@.len(),
            distances@ == squares(finite@, mean).take(distances@.len() as int),
        decreases finite.len() - distances.len(),
    {
        let delta = finite[distances.len()].difference(mean);
        distances.push(delta.product(delta));
        assert(distances@ =~= squares(finite@, mean).take(distances@.len() as int));
    }
    assert(distances@ =~= squares(finite@, mean));
    (mean, shapley::sum_of(distances.as_slice()).quotient(n).square_root())
}

/// Prediction of one world at one time.
pub trait StepPredictor<N: Amount, I> {
    /// Units that are predicted.
    open spec fn units(&self) -> usize {
        arbitrary()
    }

    /// Whether the outcome can be predicted.
    open spec fn covers(&self, outcome: int) -> bool {
        true
    }

    /// Outcomes of all units under interventions.
    open spec fn predicted(&self, interventions: Seq<I>, outcome: int) -> Result<
        Seq<N>,
        AttributionError,
    > {
        arbitrary()
    }

    /// Count the units that are predicted.
    fn n_units(&self) -> (n: usize)
        ensures
            n == self.units(),
    ;

    /// Predict the outcomes of all units under interventions.
    fn predict(&self, interventions: &Vec<I>, outcome: usize) -> (r: Result<
        Vec<N>,
        AttributionError,
    >)
        requires
            self.covers(outcome as int),
        ensures
            match r {
                Ok(column) => column@.len() == self.units() && self.predicted(
                    interventions@,
                    outcome as int,
                ) == Ok::<Seq<N>, AttributionError>(column@),
                Err(error) => self.predicted(interventions@, outcome as int) == Err::<
                    Seq<N>,
                    AttributionError,
                >(error),
            },
    ;
}

/// Horizon of a request: the length of the first schedule.
pub open spec fn horizon_of<I>(arms: Seq<TrajectoryArm<I>>) -> nat {
    arms[0].schedule@.len()
}

/// Why a request is refused.
pub open spec fn request_refusal<I>(
    model: ModelView,
    request: CounterfactualTrajectoryRequest<I>,
) -> Option<CounterfactualError> {
    let arms = request.arms@;
    if arms.len() == 0 {
        Some(CounterfactualError::Model { message: NO_ARMS })
    } else if horizon_of(arms) == 0 {
        Some(CounterfactualError::Model { message: EMPTY_SCHEDULE })
    } else if exists|a: int|
        0 <= a < arms.len() && (#[trigger] arms[a]).schedule@.len() != horizon_of(arms) {
        Some(CounterfactualError::Model { message: MIXED_HORIZONS })
    } else if distribution::dense(model, request.outcome) is None {
        Some(CounterfactualError::UnknownOutcome(request.outcome))
    } else {
        None
    }
}

/// Outcomes of a world at a time. The schedule at other times does not enter.
pub open spec fn step<N: Amount, I, P: StepPredictor<N, I>>(
    predictor: P,
    arms: Seq<TrajectoryArm<I>>,
    outcome: int,
    time: int,
    world: int,
) -> Result<Seq<N>, AttributionError> {
    predictor.predicted(arms[world].schedule@[time]@, outcome)
}

/// The `s`-th step: worlds in turn, time after time.
pub open spec fn step_at<N: Amount, I, P: StepPredictor<N, I>>(
    predictor: P,
    arms: Seq<TrajectoryArm<I>>,
    outcome: int,
    s: int,
) -> Result<Seq<N>, AttributionError> {
    step(predictor, arms, outcome, s / (arms.len() as int), s % (arms.len() as int))
}

/// The first failure among the first `k` steps.
pub open spec fn step_failure<N: Amount, I, P: StepPredictor<N, I>>(
    predictor: P,
    arms: Seq<TrajectoryArm<I>>,
    outcome: int,
    k: nat,
) -> Option<AttributionError>
    decreases k,
{
    if k == 0 {
        None
    } else {
        match step_failure::<N, I, P>(predictor, arms, outcome, (k - 1) as nat) {
            Some(error) => Some(error),
            None => match step_at::<N, I, P>(predictor, arms, outcome, k - 1) {
                Ok(_) => None,
                Err(error) => Some(error),
            },
        }
    }
}

proof fn lemma_step_failure_stays<N: Amount, I, P: StepPredictor<N, I>>(
    predictor: P,
    arms: Seq<TrajectoryArm<I>>,
    outcome: int,
    k: nat,
    n: nat,
)
    requires
        k <= n,
        step_failure::<N, I, P>(predictor, arms, outcome, k) is Some,
    ensures
        step_failure::<N, I, P>(predictor, arms, outcome, n) == step_failure::<N, I, P>(
            predictor,
            arms,
            outcome,
            k,
        ),
    decreases n,
{
    if k < n {
        lemma_step_failure_stays::<N, I, P>(predictor, arms, outcome, k, (n - 1) as nat);
    }
}

/// Outcomes of the first `k` steps, one run of units after another.
pub open spec fn laid_out<N: Amount, I, P: StepPredictor<N, I>>(
    predictor: P,
    arms: Seq<TrajectoryArm<I>>,
    outcome: int,
    k: nat,
) -> Seq<N>
    decreases k,
{
    if k == 0 {
        Seq::empty()
    } else {
        laid_out::<N, I, P>(predictor, arms, outcome, (k - 1) as nat) + step_at::<N, I, P>(
            predictor,
            arms,
            outcome,
            k - 1,
        )->Ok_0
    }
}

proof fn lemma_laid_out<N: Amount, I, P: StepPredictor<N, I>>(
    predictor: P,
    arms: Seq<TrajectoryArm<I>>,
    outcome: int,
    k: nat,
    units: nat,
    s: int,
    unit: int,
)
    requires
        forall|t: int|
            0 <= t < k ==> (#[trigger] step_at::<N, I, P>(
                predictor,
                arms,
                outcome,
                t,
            ) matches Ok(column) && column.len() == units),
        0 <= s < k,
        0 <= unit < units,
    ensures
        laid_out::<N, I, P>(predictor, arms, outcome, k).len() == k * units,
        0 <= s * units + unit < k * units,
        laid_out::<N, I, P>(predictor, arms, outcome, k)[s * units + unit] == step_at::<N, I, P>(
            predictor,
            arms,
            outcome,
            s,
        )->Ok_0[unit],
    decreases k,
{
    assert(0 <= s * units + unit < k * units) by (nonlinear_arith)
        requires
            0 <= s < k,
            0 <= unit < units,
    ;
    let last = step_at::<N, I, P>(predictor, arms, outcome, k - 1);
    assert(last is Ok);
    assert((k - 1) * units + units == k * units) by (nonlinear_arith);
    if k > 1 {
        let t = if s < k - 1 {
            s
        } else {
            0
        };
        lemma_laid_out::<N, I, P>(predictor, arms, outcome, (k - 1) as nat, units, t, unit);
        if s < k - 1 {
            assert(s * units + unit < (k - 1) * units) by (nonlinear_arith)
                requires
                    0 <= s < k - 1,
                    0 <= unit < units,
            ;
        }
    } else {
        assert(laid_out::<N, I, P>(predictor, arms, outcome, 0).len() == 0);
        assert(s * units == 0) by (nonlinear_arith)
            requires
                s == 0,
        ;
    }
}

/// The outcome of a unit in a world at a time stands behind all earlier times, all earlier
/// worlds of that time and all earlier units of that world.
pub proof fn law_outcomes_are_laid_out_by_time<N: Amount, I, P: StepPredictor<N, I>>(
    predictor: P,
    arms: Seq<TrajectoryArm<I>>,
    outcome: int,
    horizon: nat,
    units: nat,
    time: int,
    world: int,
    unit: int,
)
    requires
        forall|s: int|
            0 <= s < horizon * arms.len() ==> (#[trigger] step_at::<N, I, P>(
                predictor,
                arms,
                outcome,
                s,
            ) matches Ok(column) && column.len() == units),
        0 <= time < horizon,
        0 <= world < arms.len(),
        0 <= unit < units,
    ensures
        laid_out::<N, I, P>(predictor, arms, outcome, horizon * arms.len())[time * arms.len()
            * units + world * units + unit] == step::<N, I, P>(
            predictor,
            arms,
            outcome,
            time,
            world,
        )->Ok_0[unit],
{
    let n = arms.len();
    let s = time * n + world;
    assert(0 <= s < horizon * n) by (nonlinear_arith)
        requires
            s == time * n + world,
            0 <= time < horizon,
            0 <= world < n,
    ;
    vstd::arithmetic::div_mod::lemma_fundamental_div_mod_converse(s, n as int, time, world);
    assert(s * units + unit == time * n * units + world * units + unit) by (nonlinear_arith)
        requires
            s == time * n + world,
    ;
    lemma_laid_out::<N, I, P>(predictor, arms, outcome, horizon * n, units, s, unit);
}

/// What the evaluation of trajectories returns.
pub open spec fn is_evaluation<N: Amount, I, P: StepPredictor<N, I>>(
    r: Result<TrajectoryResult<N>, CounterfactualError>,
    model: ModelView,
    predictor: P,
    request: CounterfactualTrajectoryRequest<I>,
) -> bool {
    let refusal = request_refusal(model, request);
    let arms = request.arms@;
    let outcome = distribution::dense(model, request.outcome)->0 as int;
    let steps = horizon_of(arms) * arms.len();
    let failure = step_failure::<N, I, P>(predictor, arms, outcome, steps);
    match r {
        Ok(result) => {
            &&& refusal is None
            &&& failure is None
            &&& result.horizon == horizon_of(arms)
            &&& result.n_worlds == arms.len()
            &&& result.n_units == predictor.units()
            &&& result.outcome.raw == outcome
            &&& result.well_formed()
            &&& result.values@ == laid_out::<N, I, P>(predictor, arms, outcome, steps)
            &&& result.mean@ == Seq::new(
                steps,
                |s: int| finite_mean(step_at::<N, I, P>(predictor, arms, outcome, s)->Ok_0),
            )
            &&& result.sd@ == Seq::new(
                steps,
                |s: int| finite_sd(step_at::<N, I, P>(predictor, arms, outcome, s)->Ok_0),
            )
        },
        Err(error) => if refusal is Some {
            refusal == Some(error)
        } else {
            failure matches Some(cause) && error == CounterfactualError::Prediction(cause)
        },
    }
}

/// Evaluate trajectories, one world at one time after another.
pub fn evaluate_trajectories<N: Amount, I, P: StepPredictor<N, I>>(
    model: &CausalModel,
    predictor: &P,
    request: &CounterfactualTrajectoryRequest<I>,
) -> (r: Result<TrajectoryResult<N>, CounterfactualError>)
    requires
        model@.well_formed(),
        model@.variables.no_duplicates(),
        forall|x: int| 0 <= x < model@.nodes() ==> #[trigger] predictor.covers(x),
        request.arms@.len() > 0 ==> horizon_of(request.arms@) * request.arms@.len() <= usize::MAX,
    ensures
        is_evaluation(r, model@, *predictor, *request),
{
    let n_worlds: usize = request.arms.len();
    if n_worlds == 0 {
        return Err(CounterfactualError::Model { message: NO_ARMS });
    }
    let horizon: usize = request.arms[0].schedule.len();
    if horizon == 0 {
        return Err(CounterfactualError::Model { message: EMPTY_SCHEDULE });
    }
    let ghost arms = request.arms@;
    let mut a: usize = 0;
    while a < n_worlds
        invariant
            0 <= a <= n_worlds,
            n_worlds == arms.len(),
            arms == request.arms@,
            n_worlds > 0,
            horizon == horizon_of(arms),
            horizon > 0,
            forall|b: int|
                0 <= b < a ==> (#[trigger] arms[b]).schedule@.len() == horizon_of(arms),
        decreases n_worlds - a,
    {
        if request.arms[a].schedule.len() != horizon {
            assert(arms[a as int].schedule@.len() != horizon_of(arms));
            return Err(CounterfactualError::Model { message: MIXED_HORIZONS });
        }
        a = a + 1;
    }
    let node: usize = match distribution::find_node(model, request.outcome) {
        Some(node) => node,
        None => {
            return Err(CounterfactualError::UnknownOutcome(request.outcome));
        },
    };
    let n_units: usize = predictor.n_units();
    let steps: usize = horizon * n_worlds;
    let mut values: Vec<N> = Vec::new();
    let mut mean: Vec<N> = Vec::new();
    let mut sd: Vec<N> = Vec::new();
    let mut time: usize = 0;
    let mut world: usize = 0;
    let mut s: usize = 0;
    assert(values@ =~= laid_out::<N, I, P>(*predictor, arms, node as int, 0));
    while s < steps
        invariant
            0 <= s <= steps,
            steps == horizon * n_worlds,
            n_worlds == arms.len(),
            arms == request.arms@,
            n_worlds > 0,
            horizon == horizon_of(arms),
            world < n_worlds,
            s == time * n_worlds + world,
            n_units == predictor.units(),
            request_refusal(model@, *request) is None,
            distribution::dense(model@, request.outcome) == Some(node),
            node < model@.nodes(),
            forall|x: int| 0 <= x < model@.nodes() ==> #[trigger] predictor.covers(x),
            forall|b: int|
                0 <= b < arms.len() ==> (#[trigger] arms[b]).schedule@.len() == horizon,
            step_failure::<N, I, P>(*predictor, arms, node as int, s as nat) is None,
            values@.len() == s * n_units,
            values@ == laid_out::<N, I, P>(*predictor, arms, node as int, s as nat),
            mean@ == Seq::new(
                s as nat,
                |t: int|
                    finite_mean(step_at::<N, I, P>(*predictor, arms, node as int, t)->Ok_0),
            ),
            sd@ == Seq::new(
                s as nat,
                |t: int|
                    finite_sd(step_at::<N, I, P>(*predictor, arms, node as int, t)->Ok_0),
            ),
        decreases steps - s,
    {
        proof {
            assert(time < horizon) by (nonlinear_arith)
                requires
                    time * n_worlds + world < horizon * n_worlds,
                    world >= 0,
                    n_worlds > 0,
            ;
            vstd::arithmetic::div_mod::lemma_fundamental_div_mod_converse(
                s as int,
                n_worlds as int,
                time as int,
                world as int,
            );
            assert(arms[world as int].schedule@.len() == horizon);
            assert(predictor.covers(node as int));
            if step_failure::<N, I, P>(*predictor, arms, node as int, (s + 1) as nat) is Some {
                lemma_step_failure_stays::<N, I, P>(
                    *predictor,
                    arms,
                    node as int,
                    (s + 1) as nat,
                    steps as nat,
                );
            }
        }
        let interventions = &request.arms[world].schedule[time];
        match predictor.predict(interventions, node) {
            Ok(column) => {
                let ghost before = values@;
                let (m, d) = finite_mean_sd(&column);
                mean.push(m);
                sd.push(d);
                let mut u: usize = 0;
                while u < column.len()
                    invariant
                        0 <= u <= column@.len(),
                        values@ == before + column@.take(u as int),
                    decreases column.len() - u,
                {
                    values.push(column[u]);
                    u = u + 1;
                    assert(values@ =~= before + column@.take(u as int));
                }
                proof {
                    assert(column@.take(u as int) =~= column@);
                    assert((s + 1) * n_units == s * n_units + n_units) by (nonlinear_arith);
                }
            },
            Err(error) => {
                return Err(CounterfactualError::Prediction(error));
            },
        }
        let ghost was = s;
        s = s + 1;
        world = world + 1;
        if world == n_worlds {
            world = 0;
            time = time + 1;
        }
        proof {
            assert(s == time * n_worlds + world) by (nonlinear_arith)
                requires
                    s == (if world == 0 {
                        time - 1
                    } else {
                        time as int
                    }) * n_worlds + (if world == 0 {
                        n_worlds as int
                    } else {
                        world as int
                    }),
            ;
            assert(mean@ =~= Seq::new(
                s as nat,
                |t: int|
                    finite_mean(step_at::<N, I, P>(*predictor, arms, node as int, t)->Ok_0),
            ));
            assert(sd@ =~= Seq::new(
                s as nat,
                |t: int|
                    finite_sd(step_at::<N, I, P>(*predictor, arms, node as int, t)->Ok_0),
            ));
        }
    }
    Ok(
        TrajectoryResult {
            values,
            horizon,
            n_worlds,
            n_units,
            mean,
            sd,
            outcome: DenseNodeId { raw: node as u32 },
        },
    )
}

/// A node held at a value.
#[derive(Clone, Copy, Debug, PartialEq)]
pub struct Setting<N> {
    /// Node.
    pub node: usize,
    /// Value.
    pub value: N,
}

/// The value that the last of the first `k` settings of a node gives it.
pub open spec fn set_value<N>(settings: Seq<Setting<N>>, node: int, k: nat) -> Option<N>
    decreases k,
{
    if k == 0 {
        None
    } else if settings[k - 1].node == node {
        Some(settings[k - 1].value)
    } else {
        set_value(settings, node, (k - 1) as nat)
    }
}

/// Find the value that settings give a node.
fn find_setting<N: Copy>(settings: &Vec<Setting<N>>, node: usize) -> (found: Option<N>)
    ensures
        found == set_value(settings@, node as int, settings@.len()),
{
    let mut k: usize = settings.len();
    while k > 0
        invariant
            0 <= k <= settings@.len(),
            set_value(settings@, node as int, settings@.len()) == set_value(
                settings@,
                node as int,
                k as nat,
            ),
        decreases k,
    {
        if settings[k - 1].node == node {
            return Some(settings[k - 1].value);
        }
        k = k - 1;
    }
    None
}

/// Values of all nodes of a unit under settings, once the first `k` of the order are
/// computed: a node that is set ignores its parents and its noise.
pub open spec fn replayed<N: Amount, E: Engine<N>>(
    engine: E,
    model: ModelView,
    slots: Seq<MechanismSlot<N>>,
    noise: NodeTable<N>,
    settings: Seq<Setting<N>>,
    unit: int,
    k: nat,
) -> Result<Seq<N>, AttributionError>
    decreases k,
{
    if k == 0 {
        Ok(Seq::new(model.nodes(), |x: int| N::nil()))
    } else {
        match replayed(engine, model, slots, noise, settings, unit, (k - 1) as nat) {
            Err(error) => Err(error),
            Ok(values) => {
                let node = model.child(k - 1);
                match set_value(settings, node, settings.len()) {
                    Some(value) => Ok(values.update(node, value)),
                    None => match engine.evaluated(
                        slots[node],
                        anomaly::gathered(model.parents(k - 1), values),
                        noise.at(node, unit),
                    ) {
                        Err(error) => Err(error),
                        Ok(value) => Ok(values.update(node, value)),
                    },
                }
            },
        }
    }
}

proof fn lemma_replayed_fails<N: Amount, E: Engine<N>>(
    engine: E,
    model: ModelView,
    slots: Seq<MechanismSlot<N>>,
    noise: NodeTable<N>,
    settings: Seq<Setting<N>>,
    unit: int,
    k: nat,
    n: nat,
)
    requires
        k <= n,
        replayed(engine, model, slots, noise, settings, unit, k) is Err,
    ensures
        replayed(engine, model, slots, noise, settings, unit, n) == replayed(
            engine,
            model,
            slots,
            noise,
            settings,
            unit,
            k,
        ),
    decreases n,
{
    if k < n {
        lemma_replayed_fails(engine, model, slots, noise, settings, unit, k, (n - 1) as nat);
    }
}

/// Without settings, a unit is rebuilt from its noise alone.
pub proof fn law_no_setting_replays_the_noise<N: Amount, E: Engine<N>>(
    engine: E,
    model: ModelView,
    slots: Seq<MechanismSlot<N>>,
    noise: NodeTable<N>,
    unit: int,
    k: nat,
)
    requires
        model.well_formed(),
        noise.fits(model.nodes()),
        k <= model.nodes(),
    ensures
        replayed(engine, model, slots, noise, Seq::empty(), unit, k) == anomaly::rebuilt(
            engine,
            model,
            slots,
            Seq::new(model.nodes(), |x: int| noise.at(x, unit)),
            k,
        ),
    decreases k,
{
    if k > 0 {
        law_no_setting_replays_the_noise(engine, model, slots, noise, unit, (k - 1) as nat);
        assert(model.child(k - 1) < model.nodes());
    }
}

/// The first failure among the first `k` units.
pub open spec fn replay_failure<N: Amount, E: Engine<N>>(
    engine: E,
    model: ModelView,
    slots: Seq<MechanismSlot<N>>,
    noise: NodeTable<N>,
    settings: Seq<Setting<N>>,
    k: nat,
) -> Option<AttributionError>
    decreases k,
{
    if k == 0 {
        None
    } else {
        match replay_failure(engine, model, slots, noise, settings, (k - 1) as nat) {
            Some(error) => Some(error),
            None => match replayed(
                engine,
                model,
                slots,
                noise,
                settings,
                k - 1,
                model.nodes(),
            ) {
                Ok(_) => None,
                Err(error) => Some(error),
            },
        }
    }
}

proof fn lemma_replay_failure_stays<N: Amount, E: Engine<N>>(
    engine: E,
    model: ModelView,
    slots: Seq<MechanismSlot<N>>,
    noise: NodeTable<N>,
    settings: Seq<Setting<N>>,
    k: nat,
    n: nat,
)
    requires
        k <= n,
        replay_failure(engine, model, slots, noise, settings, k) is Some,
    ensures
        replay_failure(engine, model, slots, noise, settings, n) == replay_failure(
            engine,
            model,
            slots,
            noise,
            settings,
            k,
        ),
    decreases n,
{
    if k < n {
        lemma_replay_failure_stays(engine, model, slots, noise, settings, k, (n - 1) as nat);
    }
}

/// Counterfactuals on noise that is known for every unit.
pub struct NoiseReplay<'a, N, E> {
    /// Engine.
    pub engine: &'a E,
    /// Model.
    pub model: &'a CausalModel,
    /// Mechanisms, by node.
    pub slots: &'a Vec<MechanismSlot<N>>,
    /// Noise, by node.
    pub noise: &'a NodeTable<N>,
}

impl<'a, N: Amount, E: Engine<N>> NoiseReplay<'a, N, E> {
    /// Values of all nodes of a unit.
    fn replay(&self, settings: &Vec<Setting<N>>, unit: usize) -> (r: Result<
        Vec<N>,
        AttributionError,
    >)
        requires
            self.model@.well_formed(),
            self.slots@.len() == self.model@.nodes(),
            self.noise.fits(self.model@.nodes()),
            unit < self.noise.n_rows,
        ensures
            ({
                let whole = replayed(
                    *self.engine,
                    self.model@,
                    self.slots@,
                    *self.noise,
                    settings@,
                    unit as int,
                    self.model@.nodes(),
                );
                match r {
                    Ok(values) => values@.len() == self.model@.nodes() && whole == Ok::<
                        Seq<N>,
                        AttributionError,
                    >(values@),
                    Err(error) => whole == Err::<Seq<N>, AttributionError>(error),
                }
            }),
    {
        let n: usize = self.model.n_nodes();
        let ghost model = self.model@;
        let mut values: Vec<N> = Vec::new();
        while values.len() < n
            invariant
                n == model.nodes(),
                values@.len() <= n,
                values@ == Seq::new(values@.len(), |x: int| N::nil()),
            decreases n - values.len(),
        {
            values.push(N::zero());
            assert(values@ =~= Seq::new(values@.len(), |x: int| N::nil()));
        }
        let mut k: usize = 0;
        while k < n
            invariant
                0 <= k <= n,
                model == self.model@,
                n == model.nodes(),
                model.well_formed(),
                self.slots@.len() == n,
                self.noise.fits(n as nat),
                unit < self.noise.n_rows,
                values@.len() == n,
                replayed(
                    *self.engine,
                    model,
                    self.slots@,
                    *self.noise,
                    settings@,
                    unit as int,
                    k as nat,
                ) == Ok::<Seq<N>, AttributionError>(values@),
            decreases n - k,
        {
            let node: usize = self.model.gathers[k].child.raw as usize;
            assert(model.child(k as int) == node && model.child(k as int) < n);
            match find_setting(settings, node) {
                Some(value) => {
                    values.set(node, value);
                },
                None => {
                    let parents = &self.model.gathers[k].parents;
                    assert(model.parents(k as int) == parents@);
                    let mut inputs: Vec<N> = Vec::new();
                    while inputs.len() < parents.len()
                        invariant
                            k < n,
                            n == model.nodes(),
                            model.well_formed(),
                            model.parents(k as int) == parents@,
                            values@.len() == n,
                            inputs@.len() <= parents@.len(),
                            inputs@ == anomaly::gathered(parents@, values@).take(
                                inputs@.len() as int,
                            ),
                        decreases parents.len() - inputs.len(),
                    {
                        let i: usize = inputs.len();
                        assert(model.parents(k as int)[i as int].raw < n);
                        inputs.push(values[parents[i].raw as usize]);
                        assert(inputs@ =~= anomaly::gathered(parents@, values@).take(
                            inputs@.len() as int,
                        ));
                    }
                    assert(inputs@ =~= anomaly::gathered(parents@, values@));
                    let noise = self.noise.columns[node][unit];
                    match self.engine.evaluate(&self.slots[node], &inputs, noise) {
                        Ok(value) => {
                            values.set(node, value);
                        },
                        Err(error) => {
                            proof {
                                lemma_replayed_fails(
                                    *self.engine,
                                    model,
                                    self.slots@,
                                    *self.noise,
                                    settings@,
                                    unit as int,
                                    (k + 1) as nat,
                                    n as nat,
                                );
                            }
                            return Err(error);
                        },
                    }
                },
            }
            k = k + 1;
        }
        Ok(values)
    }
}

impl<'a, N: Amount, E: Engine<N>> StepPredictor<N, Setting<N>> for NoiseReplay<'a, N, E> {
    open spec fn units(&self) -> usize {
        self.noise.n_rows
    }

    open spec fn covers(&self, outcome: int) -> bool {
        &&& self.model@.well_formed()
        &&& self.slots@.len() == self.model@.nodes()
        &&& self.noise.fits(self.model@.nodes())
        &&& 0 <= outcome < self.model@.nodes()
    }

    open spec fn predicted(&self, interventions: Seq<Setting<N>>, outcome: int) -> Result<
        Seq<N>,
        AttributionError,
    > {
        match replay_failure(
            *self.engine,
            self.model@,
            self.slots@,
            *self.noise,
            interventions,
            self.noise.n_rows as nat,
        ) {
            Some(error) => Err(error),
            None => Ok(
                Seq::new(
                    self.noise.n_rows as nat,
                    |unit: int|
                        replayed(
                            *self.engine,
                            self.model@,
                            self.slots@,
                            *self.noise,
                            interventions,
                            unit,
                            self.model@.nodes(),
                        )->Ok_0[outcome],
                ),
            ),
        }
    }

    fn n_units(&self) -> usize {
        self.noise.n_rows
    }

    fn predict(&self, interventions: &Vec<Setting<N>>, outcome: usize) -> Result<
        Vec<N>,
        AttributionError,
    > {
        let n: usize = self.noise.n_rows;
        let ghost model = self.model@;
        let mut column: Vec<N> = Vec::new();
        while column.len() < n
            invariant
                n == self.noise.n_rows,
                model == self.model@,
                self.covers(outcome as int),
                column@.len() <= n,
                replay_failure(
                    *self.engine,
                    model,
                    self.slots@,
                    *self.noise,
                    interventions@,
                    column@.len(),
                ) is None,
                forall|u: int|
                    0 <= u < column@.len() ==> #[trigger] column@[u] == replayed(
                        *self.engine,
                        model,
                        self.slots@,
                        *self.noise,
                        interventions@,
                        u,
                        model.nodes(),
                    )->Ok_0[outcome as int],
            decreases n - column.len(),
        {
            let unit: usize = column.len();
            match self.replay(interventions, unit) {
                Ok(values) => {
                    column.push(values[outcome]);
                },
                Err(error) => {
                    proof {
                        lemma_replay_failure_stays(
                            *self.engine,
                            model,
                            self.slots@,
                            *self.noise,
                            interventions@,
                            (unit + 1) as nat,
                            n as nat,
                        );
                    }
                    return Err(error);
                },
            }
        }
        assert(column@ =~= self.predicted(interventions@, outcome as int)->Ok_0);
        Ok(column)
    }
}

} // verus!
