//! Anomaly scores and their attribution to the noise of ancestors, and strengths of arrows.
//!
//! The score of a value is the negative logarithm of the probability of a value at least as
//! far from the centre of the target's own distribution. It is a tail probability and no
//! density: rescaling the target leaves it unchanged. Centre and scale are the median and
//! the median absolute deviation, so that outliers do not drag the reference toward
//! themselves.
//!
//! SPDX-License-Identifier: MIT OR Apache-2.0

use crate::attribution::amount::Amount;
use crate::attribution::arrange;
use crate::attribution::coalition;
use crate::attribution::distribution;
use crate::attribution::efficiency;
use crate::attribution::engine::Engine;
use crate::attribution::error::AttributionError;
use crate::attribution::linear;
use crate::attribution::model::{CausalModel, MechanismSlot, ModelView};
use crate::attribution::payoff;
use crate::attribution::payoff::CoalitionPayoff;
use crate::attribution::shapley;
use crate::attribution::table;
use crate::attribution::table::NodeTable;
use crate::execution;
use crate::execution::{CancellationToken, ExecutionContext};
use crate::ids::{ComponentId, DenseNodeId, VariableId};
use crate::query::attribution;
use crate::query::attribution::{AnomalyAttributionQuery, ShapleyConfig, ShapleyMode};
use vstd::prelude::*;

verus! {

/// Numerator of the factor that makes the median absolute deviation estimate the standard
/// deviation of a normal distribution.
pub const CONSISTENCY_NUMERATOR: u64 = 1_482_602_218_505_602;

/// Denominator of that factor.
pub const CONSISTENCY_DENOMINATOR: u64 = 1_000_000_000_000_000;

/// Seed of the context that scores are computed under.
pub const ANOMALY_SEED: u64 = 0xA10A;

/// Stream that contrasts of interventions draw from.
pub const CONTRAST_STREAM: u64 = 0x1C1;

/// One half.
pub open spec fn half<N: Amount>() -> N {
    N::counted(1).over(N::counted(2))
}

/// Compute one half.
pub fn one_half<N: Amount>() -> (value: N)
    ensures
        value == half::<N>(),
{
    N::count(1).quotient(N::count(2))
}

/// Median of ordered values: the middle one, or halfway between the middle two. Nothing has
/// the median zero.
pub open spec fn median<N: Amount>(sorted: Seq<N>) -> N {
    let n = sorted.len() as int;
    if n == 0 {
        N::nil()
    } else if n % 2 == 1 {
        sorted[n / 2]
    } else {
        half::<N>().times(sorted[n / 2 - 1].plus(sorted[n / 2]))
    }
}

/// Median of ordered values.
#[must_use]
pub fn median_of_sorted<N: Amount>(sorted: &Vec<N>) -> (value: N)
    ensures
        value == median(sorted@),
{
    let n: usize = sorted.len();
    if n == 0 {
        N::zero()
    } else if n % 2 == 1 {
        sorted[n / 2]
    } else {
        one_half::<N>().product(sorted[n / 2 - 1].sum(sorted[n / 2]))
    }
}

/// Values that are neither infinite nor undefined.
pub open spec fn finite<N: Amount>(values: Seq<N>) -> Seq<N> {
    values.filter(|v: N| v.bounded())
}

/// Keep values that are neither infinite nor undefined.
#[must_use]
pub fn finite_values<N: Amount>(values: &Vec<N>) -> (kept: Vec<N>)
    ensures
        kept@ == finite(values@),
{
    let mut kept: Vec<N> = Vec::new();
    let mut i: usize = 0;
    proof {
        reveal(Seq::filter);
        assert(values@.take(0) =~= Seq::<N>::empty());
    }
    while i < values.len()
        invariant
            0 <= i <= values@.len(),
            kept@ == finite(values@.take(i as int)),
        decreases values.len() - i,
    {
        proof {
            reveal(Seq::filter);
            assert(values@.take(i + 1).drop_last() =~= values@.take(i as int));
        }
        if values[i].is_bounded() {
            kept.push(values[i]);
        }
        i = i + 1;
    }
    assert(values@.take(values@.len() as int) =~= values@);
    kept
}

/// Distances from a centre.
pub open spec fn deviations<N: Amount>(values: Seq<N>, center: N) -> Seq<N> {
    values.map_values(|v: N| v.minus(center).size())
}

/// Factor that makes the median absolute deviation estimate a standard deviation.
pub open spec fn consistency<N: Amount>() -> N {
    N::counted(CONSISTENCY_NUMERATOR as nat).over(N::counted(CONSISTENCY_DENOMINATOR as nat))
}

/// Scale of ordered deviations: the median made consistent, or the mean where at least half
/// of them vanish, or one where all do.
pub open spec fn spread<N: Amount>(deviations: Seq<N>) -> N {
    let mad = median(deviations);
    let mean_abs = shapley::total(deviations).over(N::counted(deviations.len()));
    if N::nil().below(mad) {
        consistency::<N>().times(mad)
    } else if N::nil().below(mean_abs) {
        mean_abs
    } else {
        N::counted(1)
    }
}

/// Centre and scale of a target's own distribution.
#[derive(Clone, Copy, Debug, PartialEq)]
pub struct OutlierTail<N> {
    /// Median.
    pub center: N,
    /// Robust scale.
    pub scale: N,
}

/// Centre and scale of a column.
pub open spec fn reference<N: Amount>(values: Seq<N>) -> OutlierTail<N> {
    let sorted = arrange::arranged(finite(values));
    let center = median(sorted);
    if finite(values).len() == 0 {
        OutlierTail { center: N::nil(), scale: N::counted(1) }
    } else {
        OutlierTail {
            center,
            scale: spread(arrange::arranged(deviations(sorted, center))),
        }
    }
}

/// Score of a value: how far into the tail it lies. What has no finite value scores zero.
pub open spec fn scored<N: Amount, E: Engine<N>>(engine: E, tail: OutlierTail<N>, value: N) -> N {
    if value.bounded() {
        engine.tail(tail.center, tail.scale, value)
    } else {
        N::nil()
    }
}

impl<N: Amount> OutlierTail<N> {
    /// Centre and scale of a column.
    #[must_use]
    pub fn from_reference(values: &Vec<N>) -> (tail: Self)
        ensures
            tail == reference(values@),
    {
        let kept = finite_values(values);
        if kept.len() == 0 {
            return OutlierTail { center: N::zero(), scale: N::count(1) };
        }
        let sorted = arrange::arrange(&kept);
        let center = median_of_sorted(&sorted);
        let mut distances: Vec<N> = Vec::new();
        while distances.len() < sorted.len()
            invariant
                distances@.len() <= sorted@.len(),
                distances@ == deviations(sorted@, center).take(distances@.len() as int),
            decreases sorted.len() - distances.len(),
        {
            distances.push(sorted[distances.len()].difference(center).magnitude());
            assert(distances@ =~= deviations(sorted@, center).take(distances@.len() as int));
        }
        assert(distances@ =~= deviations(sorted@, center));
        let ordered = arrange::arrange(&distances);
        let mad = median_of_sorted(&ordered);
        let scale = if N::zero().is_below(mad) {
            N::count(CONSISTENCY_NUMERATOR).quotient(N::count(CONSISTENCY_DENOMINATOR)).product(
                mad,
            )
        } else {
            let mean_abs = shapley::sum_of(ordered.as_slice()).quotient(
                N::count(ordered.len() as u64),
            );
            if N::zero().is_below(mean_abs) {
                mean_abs
            } else {
                N::count(1)
            }
        };
        OutlierTail { center, scale }
    }

    /// Score of a value.
    pub fn score<E: Engine<N>>(&self, value: N, engine: &E) -> (score: N)
        ensures
            score == scored(*engine, *self, value),
    {
        if !value.is_bounded() {
            return N::zero();
        }
        engine.tail_score(self.center, self.scale, value)
    }
}

/// Values of some nodes.
pub open spec fn gathered<N>(parents: Seq<DenseNodeId>, values: Seq<N>) -> Seq<N> {
    Seq::new(parents.len(), |i: int| values[parents[i].raw as int])
}

/// Values of all nodes once the first `k` of the order are computed from their parents and
/// their noise, or the first failure.
pub open spec fn rebuilt<N: Amount, E: Engine<N>>(
    engine: E,
    model: ModelView,
    slots: Seq<MechanismSlot<N>>,
    noise: Seq<N>,
    k: nat,
) -> Result<Seq<N>, AttributionError>
    decreases k,
{
    if k == 0 {
        Ok(Seq::new(model.nodes(), |x: int| N::nil()))
    } else {
        match rebuilt(engine, model, slots, noise, (k - 1) as nat) {
            Err(error) => Err(error),
            Ok(values) => {
                let node = model.child(k - 1);
                match engine.evaluated(
                    slots[node],
                    gathered(model.parents(k - 1), values),
                    noise[node],
                ) {
                    Err(error) => Err(error),
                    Ok(value) => Ok(values.update(node, value)),
                }
            },
        }
    }
}

proof fn lemma_rebuilt_fails<N: Amount, E: Engine<N>>(
    engine: E,
    model: ModelView,
    slots: Seq<MechanismSlot<N>>,
    noise: Seq<N>,
    k: nat,
    n: nat,
)
    requires
        k <= n,
        rebuilt(engine, model, slots, noise, k) is Err,
    ensures
        rebuilt(engine, model, slots, noise, n) == rebuilt(engine, model, slots, noise, k),
    decreases n,
{
    if k < n {
        lemma_rebuilt_fails(engine, model, slots, noise, k, (n - 1) as nat);
    }
}

/// Compute the values of all nodes from noise.
pub fn rebuild<N: Amount, E: Engine<N>>(
    engine: &E,
    model: &CausalModel,
    slots: &Vec<MechanismSlot<N>>,
    noise: &Vec<N>,
) -> (r: Result<Vec<N>, AttributionError>)
    requires
        model@.well_formed(),
        slots@.len() == model@.nodes(),
        noise@.len() == model@.nodes(),
    ensures
        match r {
            Ok(values) => values@.len() == model@.nodes() && rebuilt(
                *engine,
                model@,
                slots@,
                noise@,
                model@.nodes(),
            ) == Ok::<Seq<N>, AttributionError>(values@),
            Err(error) => rebuilt(*engine, model@, slots@, noise@, model@.nodes()) == Err::<
                Seq<N>,
                AttributionError,
            >(error),
        },
{
    let n: usize = model.n_nodes();
    let mut values: Vec<N> = Vec::new();
    while values.len() < n
        invariant
            n == model@.nodes(),
            values@.len() <= n,
            values@ == Seq::new(values@.len(), |x: int| N::nil()),
        decreases n - values.len(),
    {
        values.push(N::zero());
        assert(values@ =~= Seq::new(values@.len(), |x: int| N::nil()));
    }
    let mut k: usize = 0;
    while k < n
        invariant
            0 <= k <= n,
            n == model@.nodes(),
            model@.well_formed(),
            slots@.len() == n,
            noise@.len() == n,
            values@.len() == n,
            rebuilt(*engine, model@, slots@, noise@, k as nat) == Ok::<Seq<N>, AttributionError>(
                values@,
            ),
        decreases n - k,
    {
        let node: usize = model.gathers[k].child.raw as usize;
        assert(model@.child(k as int) == node && model@.child(k as int) < n);
        let parents = &model.gathers[k].parents;
        assert(model@.parents(k as int) == parents@);
        let mut inputs: Vec<N> = Vec::new();
        while inputs.len() < parents.len()
            invariant
                k < n,
                n == model@.nodes(),
                model@.well_formed(),
                model@.parents(k as int) == parents@,
                values@.len() == n,
                inputs@.len() <= parents@.len(),
                inputs@ == gathered(parents@, values@).take(inputs@.len() as int),
            decreases parents.len() - inputs.len(),
        {
            let i: usize = inputs.len();
            assert(model@.parents(k as int)[i as int].raw < n);
            inputs.push(values[parents[i].raw as usize]);
            assert(inputs@ =~= gathered(parents@, values@).take(inputs@.len() as int));
        }
        assert(inputs@ =~= gathered(parents@, values@));
        match engine.evaluate(&slots[node], &inputs, noise[node]) {
            Ok(value) => {
                values.set(node, value);
            },
            Err(error) => {
                proof {
                    lemma_rebuilt_fails(
                        *engine,
                        model@,
                        slots@,
                        noise@,
                        (k + 1) as nat,
                        n as nat,
                    );
                }
                return Err(error);
            },
        }
        k = k + 1;
    }
    Ok(values)
}

/// Whether a node is a player outside the coalition.
pub open spec fn muted(players: Seq<int>, mask: u64, node: int) -> bool {
    exists|i: int|
        0 <= i < players.len() && #[trigger] players[i] == node && !coalition::member(mask, i)
}

/// Noise of a row for a coalition: players outside it have none.
pub open spec fn coalition_noise<N: Amount>(
    noise: NodeTable<N>,
    row: int,
    players: Seq<int>,
    mask: u64,
) -> Seq<N> {
    Seq::new(
        noise.columns@.len(),
        |x: int|
            if muted(players, mask, x) {
                N::nil()
            } else {
                noise.at(x, row)
            },
    )
}

/// With every player in the coalition, all noise is the row's own.
pub proof fn law_everyone_keeps_their_noise<N: Amount>(
    noise: NodeTable<N>,
    row: int,
    players: Seq<int>,
    mask: u64,
)
    requires
        forall|i: int| 0 <= i < players.len() ==> #[trigger] coalition::member(mask, i),
    ensures
        coalition_noise(noise, row, players, mask) =~= Seq::new(
            noise.columns@.len(),
            |x: int| noise.at(x, row),
        ),
{
}

/// Game of a row: the score of the target that a coalition's noise gives.
pub open spec fn noise_game<N: Amount, E: Engine<N>>(
    engine: E,
    model: ModelView,
    slots: Seq<MechanismSlot<N>>,
    noise: NodeTable<N>,
    players: Seq<int>,
    target: int,
    tail: OutlierTail<N>,
    row: int,
) -> spec_fn(u64) -> Result<N, AttributionError> {
    |mask: u64|
        match rebuilt(
            engine,
            model,
            slots,
            coalition_noise(noise, row, players, mask),
            model.nodes(),
        ) {
            Err(error) => Err(error),
            Ok(values) => Ok(scored(engine, tail, values[target])),
        }
}

/// Payoff of a row.
pub struct NoiseShapleyPayoff<'a, N, E> {
    /// Engine.
    pub engine: &'a E,
    /// Model.
    pub model: &'a CausalModel,
    /// Mechanisms, by node.
    pub slots: &'a Vec<MechanismSlot<N>>,
    /// Noise, by node.
    pub noise: &'a NodeTable<N>,
    /// Nodes whose noise is exchanged.
    pub players: &'a Vec<usize>,
    /// Node that is scored.
    pub target: usize,
    /// Reference of the score.
    pub tail: OutlierTail<N>,
    /// Row.
    pub row: usize,
}

/// Nodes as integers.
pub open spec fn nodes_of(players: Seq<usize>) -> Seq<int> {
    players.map_values(|p: usize| p as int)
}

impl<'a, N: Amount, E: Engine<N>> CoalitionPayoff<N> for NoiseShapleyPayoff<'a, N, E> {
    open spec fn ready(&self) -> bool {
        &&& self.model@.well_formed()
        &&& self.slots@.len() == self.model@.nodes()
        &&& self.noise.fits(self.model@.nodes())
        &&& self.row < self.noise.n_rows
        &&& self.target < self.model@.nodes()
        &&& self.players@.len() <= 64
        &&& forall|i: int|
            0 <= i < self.players@.len() ==> #[trigger] self.players@[i] < self.model@.nodes()
    }

    open spec fn worth(&self, mask: u64) -> Result<N, AttributionError> {
        noise_game(
            *self.engine,
            self.model@,
            self.slots@,
            *self.noise,
            nodes_of(self.players@),
            self.target as int,
            self.tail,
            self.row as int,
        )(mask)
    }

    fn value(&mut self, mask: u64) -> Result<N, AttributionError> {
        let n: usize = self.model.n_nodes();
        let ghost players = nodes_of(self.players@);
        let mut buffer: Vec<N> = Vec::new();
        while buffer.len() < n
            invariant
                n == self.model@.nodes(),
                self.noise.fits(n as nat),
                self.row < self.noise.n_rows,
                buffer@.len() <= n,
                forall|x: int|
                    0 <= x < buffer@.len() ==> #[trigger] buffer@[x] == self.noise.at(
                        x,
                        self.row as int,
                    ),
            decreases n - buffer.len(),
        {
            buffer.push(self.noise.columns[buffer.len()][self.row]);
        }
        let mut i: usize = 0;
        while i < self.players.len()
            invariant
                0 <= i <= self.players@.len() <= 64,
                n == self.model@.nodes(),
                players == nodes_of(self.players@),
                forall|j: int|
                    0 <= j < self.players@.len() ==> #[trigger] self.players@[j]
                        < self.model@.nodes(),
                buffer@.len() == n,
                forall|x: int|
                    0 <= x < n ==> #[trigger] buffer@[x] == if muted(
                        players.take(i as int),
                        mask,
                        x,
                    ) {
                        N::nil()
                    } else {
                        self.noise.at(x, self.row as int)
                    },
            decreases self.players.len() - i,
        {
            let ghost before = buffer@;
            let node: usize = self.players[i];
            if !coalition::contains(mask, i) {
                buffer.set(node, N::zero());
            }
            proof {
                let earlier = players.take(i as int);
                let later = players.take(i + 1);
                assert forall|x: int| 0 <= x < n implies #[trigger] buffer@[x] == if muted(
                    later,
                    mask,
                    x,
                ) {
                    N::nil()
                } else {
                    self.noise.at(x, self.row as int)
                } by {
                    assert(before[x] == if muted(earlier, mask, x) {
                        N::nil()
                    } else {
                        self.noise.at(x, self.row as int)
                    });
                    if muted(earlier, mask, x) {
                        let j = choose|j: int|
                            0 <= j < earlier.len() && #[trigger] earlier[j] == x
                                && !coalition::member(mask, j);
                        assert(later[j] == x);
                    }
                    if muted(later, mask, x) {
                        let j = choose|j: int|
                            0 <= j < later.len() && #[trigger] later[j] == x
                                && !coalition::member(mask, j);
                        if j < i {
                            assert(earlier[j] == x);
                        } else {
                            assert(x == node);
                        }
                    }
                    if x == node && !coalition::member(mask, i as int) {
                        assert(later[i as int] == x);
                    }
                }
            }
            i = i + 1;
        }
        proof {
            assert(players.take(players.len() as int) =~= players);
            assert(buffer@ =~= coalition_noise(*self.noise, self.row as int, players, mask));
        }
        match rebuild(self.engine, self.model, self.slots, &buffer) {
            Ok(values) => Ok(self.tail.score(values[self.target], self.engine)),
            Err(error) => Err(error),
        }
    }
}

/// Anomaly scores of a target, with their attribution to noise.
#[derive(Clone, Debug, PartialEq)]
pub struct AnomalyScores<N> {
    /// Target.
    pub target: VariableId,
    /// Rows scored.
    pub rows: Vec<usize>,
    /// Score per row.
    pub scores: Vec<N>,
    /// Sum of absolute attributions per row.
    pub residual_abs: Vec<N>,
    /// Components whose noise the scores are attributed to.
    pub noise_components: Vec<ComponentId>,
    /// Attributions, one run of components per row.
    pub noise_contributions: Vec<N>,
}

/// What scores are computed from.
#[verifier::ext_equal]
pub struct AnomalyInputs<N> {
    /// Model.
    pub model: ModelView,
    /// Mechanisms, by node.
    pub slots: Seq<MechanismSlot<N>>,
    /// Observed values.
    pub values: NodeTable<N>,
    /// Noise of every row.
    pub noise: NodeTable<N>,
}

/// How scores are attributed.
pub open spec fn exact_config() -> ShapleyConfig {
    ShapleyConfig {
        mode: ShapleyMode::Exact,
        max_exact_components: attribution::DEFAULT_MAX_EXACT_COMPONENTS,
        allow_exact_override: false,
        seed: 0,
    }
}

/// Players of a target: itself and its ancestors, in order.
pub open spec fn noise_players(model: ModelView, target: int) -> Seq<int> {
    distribution::upstream(model, target, model.nodes())
}

/// Components of nodes.
pub open spec fn components_of(model: ModelView, nodes: Seq<int>) -> Seq<ComponentId> {
    nodes.map_values(|node: int| distribution::component_of(model, node))
}

impl<N: Amount> AnomalyInputs<N> {
    /// Reference of a target's scores.
    pub open spec fn tail(self, target: int) -> OutlierTail<N> {
        reference(self.values.columns@[target]@)
    }

    /// Game of a target in a row.
    pub open spec fn game<E: Engine<N>>(self, engine: E, target: int, row: int) -> spec_fn(
        u64,
    ) -> Result<N, AttributionError> {
        noise_game(
            engine,
            self.model,
            self.slots,
            self.noise,
            noise_players(self.model, target),
            target,
            self.tail(target),
            row,
        )
    }

    /// Attributions of a target in a row.
    pub open spec fn shares<E: Engine<N>>(self, engine: E, target: int, row: int) -> Seq<N> {
        shapley::shapley_values(
            self.game(engine, target, row),
            noise_players(self.model, target).len(),
        )
    }

    /// Attributions in the first `k` rows, one run of components after another.
    pub open spec fn all_shares<E: Engine<N>>(
        self,
        engine: E,
        target: int,
        rows: Seq<usize>,
        k: nat,
    ) -> Seq<N>
        decreases k,
    {
        if k == 0 {
            Seq::empty()
        } else {
            self.all_shares(engine, target, rows, (k - 1) as nat) + self.shares(
                engine,
                target,
                rows[k - 1] as int,
            )
        }
    }

    /// The first failure in the first `k` rows.
    pub open spec fn rows_failure<E: Engine<N>>(
        self,
        engine: E,
        target: int,
        rows: Seq<usize>,
        k: nat,
    ) -> Option<AttributionError>
        decreases k,
    {
        if k == 0 {
            None
        } else {
            let before = self.rows_failure(engine, target, rows, (k - 1) as nat);
            let n = noise_players(self.model, target).len();
            if before is Some {
                before
            } else if shapley::refusal(n as usize, exact_config()) is Some {
                shapley::refusal(n as usize, exact_config())
            } else {
                payoff::first_failure(
                    self.game(engine, target, rows[k - 1] as int),
                    shapley::planned_visits(n, exact_config()),
                )
            }
        }
    }

    /// Why a target cannot be scored.
    pub open spec fn failure<E: Engine<N>>(
        self,
        engine: E,
        target: VariableId,
        rows: Seq<usize>,
    ) -> Option<AttributionError> {
        match distribution::dense(self.model, target) {
            None => Some(AttributionError::MissingVariable { role: "target", id: target }),
            Some(node) => {
                let n = noise_players(self.model, node as int).len();
                if n > 64 {
                    Some(
                        AttributionError::SizeLimit {
                            kind: "components",
                            requested: n as usize,
                            max: 64,
                        },
                    )
                } else {
                    self.rows_failure(engine, node as int, rows, rows.len())
                }
            },
        }
    }

    /// Scoring a target comes to its row `u`: nothing fails before.
    pub open spec fn reads_row<E: Engine<N>>(
        self,
        engine: E,
        target: VariableId,
        rows: Seq<usize>,
        u: int,
    ) -> bool {
        match distribution::dense(self.model, target) {
            None => false,
            Some(node) => {
                &&& noise_players(self.model, node as int).len() <= 64
                &&& 0 <= u < rows.len()
                &&& self.rows_failure(engine, node as int, rows, u as nat) is None
            },
        }
    }

    /// Scoring targets in order comes to row `u` of target `t`: nothing fails before.
    pub open spec fn reaches_row<E: Engine<N>>(
        self,
        engine: E,
        targets: Seq<VariableId>,
        rows: Seq<usize>,
        t: int,
        u: int,
    ) -> bool {
        &&& 0 <= t < targets.len()
        &&& forall|s: int|
            0 <= s < t ==> self.failure(engine, #[trigger] targets[s], rows) is None
        &&& self.reads_row(engine, targets[t], rows, u)
    }

    /// The scores of a target.
    pub open spec fn is_scored<E: Engine<N>>(
        self,
        engine: E,
        target: VariableId,
        rows: Seq<usize>,
        scores: AnomalyScores<N>,
    ) -> bool {
        let node = distribution::dense(self.model, target)->0 as int;
        &&& self.failure(engine, target, rows) is None
        &&& scores.target == target
        &&& scores.rows@ == rows
        &&& scores.scores@ == Seq::new(
            rows.len(),
            |u: int| scored(engine, self.tail(node), self.values.at(node, rows[u] as int)),
        )
        &&& scores.residual_abs@ == Seq::new(
            rows.len(),
            |u: int| absolute_total(self.shares(engine, node, rows[u] as int)),
        )
        &&& scores.noise_components@ == components_of(
            self.model,
            noise_players(self.model, node),
        )
        &&& scores.noise_contributions@ == self.all_shares(engine, node, rows, rows.len())
    }
}

/// Sum of absolute values.
pub open spec fn absolute_total<N: Amount>(values: Seq<N>) -> N {
    shapley::total(values.map_values(|v: N| v.size()))
}

proof fn lemma_rows_failure_stays<N: Amount, E: Engine<N>>(
    inputs: AnomalyInputs<N>,
    engine: E,
    target: int,
    rows: Seq<usize>,
    k: nat,
    n: nat,
)
    requires
        k <= n,
        inputs.rows_failure(engine, target, rows, k) is Some,
    ensures
        inputs.rows_failure(engine, target, rows, n) == inputs.rows_failure(
            engine,
            target,
            rows,
            k,
        ),
    decreases n,
{
    if k < n {
        lemma_rows_failure_stays(inputs, engine, target, rows, k, (n - 1) as nat);
    }
}

/// List a node and its ancestors, in order.
pub fn ancestor_nodes(model: &CausalModel, target: usize) -> (nodes: Vec<usize>)
    requires
        model@.well_formed(),
        target < model@.nodes(),
    ensures
        nodes_of(nodes@) == noise_players(model@, target as int),
        forall|i: int| 0 <= i < nodes@.len() ==> #[trigger] nodes@[i] < model@.nodes(),
{
    let n: usize = model.n_nodes();
    let marked = model.ancestors_of(target);
    let mut nodes: Vec<usize> = Vec::new();
    let mut k: usize = 0;
    assert(nodes_of(nodes@) =~= distribution::upstream(model@, target as int, 0));
    while k < n
        invariant
            0 <= k <= n,
            n == model@.nodes(),
            model@.well_formed(),
            marked@.len() == n,
            forall|x: int|
                0 <= x < n ==> #[trigger] marked@[x] == model@.is_ancestor(x, target as int),
            nodes_of(nodes@) == distribution::upstream(model@, target as int, k as nat),
            forall|i: int| 0 <= i < nodes@.len() ==> #[trigger] nodes@[i] < n,
        decreases n - k,
    {
        let node: usize = model.gathers[k].child.raw as usize;
        assert(model@.child(k as int) == node && model@.child(k as int) < n);
        if marked[node] {
            nodes.push(node);
        }
        k = k + 1;
        assert(nodes_of(nodes@) =~= distribution::upstream(model@, target as int, k as nat));
    }
    nodes
}

/// Score one target.
fn score_target<N: Amount, E: Engine<N>>(
    model: &CausalModel,
    slots: &Vec<MechanismSlot<N>>,
    values: &NodeTable<N>,
    noise: &NodeTable<N>,
    target: VariableId,
    rows: &Vec<usize>,
    engine: &E,
    ctx: &ExecutionContext,
) -> (r: Result<AnomalyScores<N>, AttributionError>)
    requires
        model@.well_formed(),
        model@.variables.no_duplicates(),
        slots@.len() == model@.nodes(),
        values.fits(model@.nodes()),
        noise.fits(model@.nodes()),
        noise.n_rows == values.n_rows,
        forall|u: int|
            #[trigger] (AnomalyInputs {
                model: model@,
                slots: slots@,
                values: *values,
                noise: *noise,
            }).reads_row(*engine, target, rows@, u) ==> rows@[u] < values.n_rows,
        !ctx.may_stop(),
    ensures
        ({
            let inputs = AnomalyInputs {
                model: model@,
                slots: slots@,
                values: *values,
                noise: *noise,
            };
            match r {
                Ok(scores) => inputs.is_scored(*engine, target, rows@, scores),
                Err(error) => inputs.failure(*engine, target, rows@) == Some(error),
            }
        }),
{
    let ghost inputs = AnomalyInputs {
        model: model@,
        slots: slots@,
        values: *values,
        noise: *noise,
    };
    let node: usize = match distribution::find_node(model, target) {
        Some(node) => node,
        None => {
            return Err(AttributionError::missing_var("target", target));
        },
    };
    let players = ancestor_nodes(model, node);
    let ghost at = noise_players(model@, node as int);
    assert(players@.len() == nodes_of(players@).len());
    if players.len() > 64 {
        return Err(
            AttributionError::SizeLimit {
                kind: "components",
                requested: players.len(),
                max: 64,
            },
        );
    }
    let mut components: Vec<ComponentId> = Vec::new();
    while components.len() < players.len()
        invariant
            model@.well_formed(),
            at == nodes_of(players@),
            forall|i: int| 0 <= i < players@.len() ==> #[trigger] players@[i] < model@.nodes(),
            components@.len() <= players@.len(),
            components@ == components_of(model@, at).take(components@.len() as int),
        decreases players.len() - components.len(),
    {
        let i: usize = components.len();
        components.push(ComponentId::from_variable(model.variables[players[i]]));
        assert(at[i as int] == players@[i as int]);
        assert(components@ =~= components_of(model@, at).take(components@.len() as int));
    }
    assert(components@ =~= components_of(model@, at));
    let config = ShapleyConfig::exact();
    let tail = OutlierTail::from_reference(&values.columns[node]);
    let mut scores: Vec<N> = Vec::new();
    let mut residual: Vec<N> = Vec::new();
    let mut shares: Vec<N> = Vec::new();
    let mut u: usize = 0;
    while u < rows.len()
        invariant
            0 <= u <= rows@.len(),
            model@.well_formed(),
            node < model@.nodes(),
            distribution::dense(model@, target) == Some(node),
            slots@.len() == model@.nodes(),
            values.fits(model@.nodes()),
            noise.fits(model@.nodes()),
            noise.n_rows == values.n_rows,
            forall|u: int|
                #[trigger] inputs.reads_row(*engine, target, rows@, u) ==> rows@[u] < values.n_rows,
            inputs == (AnomalyInputs {
                model: model@,
                slots: slots@,
                values: *values,
                noise: *noise,
            }),
            at == noise_players(model@, node as int),
            at == nodes_of(players@),
            at.len() == players@.len() == components@.len(),
            players@.len() <= 64,
            forall|i: int| 0 <= i < players@.len() ==> #[trigger] players@[i] < model@.nodes(),
            config == exact_config(),
            !ctx.may_stop(),
            tail == inputs.tail(node as int),
            inputs.rows_failure(*engine, node as int, rows@, u as nat) is None,
            scores@ == Seq::new(
                u as nat,
                |v: int| scored(*engine, tail, values.at(node as int, rows@[v] as int)),
            ),
            residual@ == Seq::new(
                u as nat,
                |v: int|
                    absolute_total(inputs.shares(*engine, node as int, rows@[v] as int)),
            ),
            shares@ == inputs.all_shares(*engine, node as int, rows@, u as nat),
        decreases rows.len() - u,
    {
        let row: usize = rows[u];
        assert(inputs.reads_row(*engine, target, rows@, u as int));
        let mut payoff = NoiseShapleyPayoff {
            engine,
            model,
            slots,
            noise,
            players: &players,
            target: node,
            tail,
            row,
        };
        let ghost g = inputs.game(*engine, node as int, row as int);
        assert(payoff::game(payoff) =~= g);
        proof {
            if inputs.rows_failure(*engine, node as int, rows@, (u + 1) as nat) is Some {
                lemma_rows_failure_stays(
                    inputs,
                    *engine,
                    node as int,
                    rows@,
                    (u + 1) as nat,
                    rows@.len(),
                );
            }
        }
        scores.push(tail.score(values.columns[node][row], engine));
        match shapley::estimate_shapley(components.as_slice(), &config, &mut payoff, ctx) {
            Ok(estimate) => {
                let ghost found = inputs.shares(*engine, node as int, row as int);
                assert(estimate.values@ == found);
                let mut absolute: Vec<N> = Vec::new();
                let ghost before = shares@;
                let mut j: usize = 0;
                while j < estimate.values.len()
                    invariant
                        0 <= j <= estimate.values@.len(),
                        shares@ == before + estimate.values@.take(j as int),
                        absolute@ == estimate.values@.map_values(|v: N| v.size()).take(j as int),
                    decreases estimate.values.len() - j,
                {
                    shares.push(estimate.values[j]);
                    absolute.push(estimate.values[j].magnitude());
                    j = j + 1;
                    assert(shares@ =~= before + estimate.values@.take(j as int));
                    assert(absolute@ =~= estimate.values@.map_values(|v: N| v.size()).take(
                        j as int,
                    ));
                }
                proof {
                    assert(estimate.values@.take(j as int) =~= estimate.values@);
                    assert(absolute@ =~= estimate.values@.map_values(|v: N| v.size()));
                }
                residual.push(shapley::sum_of(absolute.as_slice()));
            },
            Err(error) => {
                return Err(error);
            },
        }
        u = u + 1;
        proof {
            assert(scores@ =~= Seq::new(
                u as nat,
                |v: int| scored(*engine, tail, values.at(node as int, rows@[v] as int)),
            ));
            assert(residual@ =~= Seq::new(
                u as nat,
                |v: int|
                    absolute_total(inputs.shares(*engine, node as int, rows@[v] as int)),
            ));
        }
    }
    let mut kept: Vec<usize> = Vec::new();
    while kept.len() < rows.len()
        invariant
            kept@.len() <= rows@.len(),
            kept@ == rows@.take(kept@.len() as int),
        decreases rows.len() - kept.len(),
    {
        kept.push(rows[kept.len()]);
        assert(kept@ =~= rows@.take(kept@.len() as int));
    }
    assert(kept@ =~= rows@);
    Ok(
        AnomalyScores {
            target,
            rows: kept,
            scores,
            residual_abs: residual,
            noise_components: components,
            noise_contributions: shares,
        },
    )
}

/// Why a query is refused before a target is scored.
pub open spec fn anomaly_refusal(query: AnomalyAttributionQuery, n_rows: usize) -> Option<
    AttributionError,
> {
    let rows = table::rows_asked(query.unit_rows, n_rows);
    if query.refusal() is Some {
        Some(AttributionError::Query(query.refusal()->0))
    } else if rows.len() > query.max_units {
        Some(
            AttributionError::SizeLimit {
                kind: "units",
                requested: rows.len() as usize,
                max: query.max_units,
            },
        )
    } else {
        None
    }
}

/// Score targets and attribute the scores to the noise of their ancestors by Shapley values.
///
/// `noise` holds the noise of every node in every row. Players outside a coalition have no
/// noise. Every row that scoring comes to lies in the table.
pub fn score_anomalies<N: Amount, E: Engine<N>>(
    model: &CausalModel,
    slots: &Vec<MechanismSlot<N>>,
    values: &NodeTable<N>,
    noise: &NodeTable<N>,
    query: &AnomalyAttributionQuery,
    engine: &E,
) -> (r: Result<Vec<AnomalyScores<N>>, AttributionError>)
    requires
        model@.well_formed(),
        model@.variables.no_duplicates(),
        slots@.len() == model@.nodes(),
        values.fits(model@.nodes()),
        noise.fits(model@.nodes()),
        noise.n_rows == values.n_rows,
        anomaly_refusal(*query, values.n_rows) is None ==> (query.unit_rows matches Some(rows)
            ==> forall|t: int, u: int|
            #[trigger] (AnomalyInputs {
                model: model@,
                slots: slots@,
                values: *values,
                noise: *noise,
            }).reaches_row(*engine, query.targets@, rows@, t, u) ==> rows@[u] < values.n_rows),
    ensures
        ({
            let inputs = AnomalyInputs {
                model: model@,
                slots: slots@,
                values: *values,
                noise: *noise,
            };
            let rows = table::rows_asked(query.unit_rows, values.n_rows);
            let targets = query.targets@;
            match anomaly_refusal(*query, values.n_rows) {
                Some(error) => r == Err::<Vec<AnomalyScores<N>>, _>(error),
                None => match r {
                    Ok(all) => all@.len() == targets.len() && forall|t: int|
                        0 <= t < targets.len() ==> inputs.is_scored(
                            *engine,
                            targets[t],
                            rows,
                            #[trigger] all@[t],
                        ),
                    Err(error) => exists|t: int|
                        {
                            &&& 0 <= t < targets.len()
                            &&& forall|s: int|
                                0 <= s < t ==> inputs.failure(
                                    *engine,
                                    #[trigger] targets[s],
                                    rows,
                                ) is None
                            &&& inputs.failure(
                                *engine,
                                #[trigger] targets[t],
                                rows,
                            ) == Some(error)
                        },
                },
            }
        }),
{
    match query.validate() {
        Ok(_) => {},
        Err(error) => {
            return Err(AttributionError::Query(error));
        },
    }
    let rows = table::requested_rows(&query.unit_rows, values.n_rows);
    if rows.len() > query.max_units {
        return Err(
            AttributionError::SizeLimit {
                kind: "units",
                requested: rows.len(),
                max: query.max_units,
            },
        );
    }
    let mut ctx = ExecutionContext::for_tests(ANOMALY_SEED);
    ctx.cancellation = CancellationToken::settled(false);
    let ghost inputs = AnomalyInputs {
        model: model@,
        slots: slots@,
        values: *values,
        noise: *noise,
    };
    let mut all: Vec<AnomalyScores<N>> = Vec::new();
    while all.len() < query.targets.len()
        invariant
            model@.well_formed(),
            model@.variables.no_duplicates(),
            slots@.len() == model@.nodes(),
            values.fits(model@.nodes()),
            noise.fits(model@.nodes()),
            noise.n_rows == values.n_rows,
            forall|t: int, u: int|
                #[trigger] inputs.reaches_row(*engine, query.targets@, rows@, t, u) ==> rows@[u]
                    < values.n_rows,
            rows@ == table::rows_asked(query.unit_rows, values.n_rows),
            anomaly_refusal(*query, values.n_rows) is None,
            inputs == (AnomalyInputs {
                model: model@,
                slots: slots@,
                values: *values,
                noise: *noise,
            }),
            !ctx.may_stop(),
            all@.len() <= query.targets@.len(),
            forall|t: int|
                0 <= t < all@.len() ==> inputs.is_scored(
                    *engine,
                    query.targets@[t],
                    rows@,
                    #[trigger] all@[t],
                ),
        decreases query.targets.len() - all.len(),
    {
        let t: usize = all.len();
        proof {
            assert forall|u: int|
                #[trigger] inputs.reads_row(*engine, query.targets@[t as int], rows@, u) implies
                rows@[u] < values.n_rows by {
                assert forall|s: int| 0 <= s < t implies inputs.failure(
                    *engine,
                    #[trigger] query.targets@[s],
                    rows@,
                ) is None by {
                    assert(inputs.is_scored(*engine, query.targets@[s], rows@, all@[s]));
                }
                assert(inputs.reaches_row(*engine, query.targets@, rows@, t as int, u));
            }
        }
        match score_target(model, slots, values, noise, query.targets[t], &rows, engine, &ctx) {
            Ok(scores) => {
                all.push(scores);
            },
            Err(error) => {
                proof {
                    assert forall|s: int| 0 <= s < t implies inputs.failure(
                        *engine,
                        #[trigger] query.targets@[s],
                        rows@,
                    ) is None by {
                        assert(inputs.is_scored(*engine, query.targets@[s], rows@, all@[s]));
                    }
                    assert(inputs.failure(
                        *engine,
                        query.targets@[t as int],
                        rows@,
                    ) == Some(error));
                }
                return Err(error);
            },
        }
    }
    Ok(all)
}

/// Strength of an arrow between linear mechanisms: the variance of the child that flows
/// through it.
#[derive(Clone, Copy, Debug, PartialEq)]
pub struct ArrowStrength<N> {
    /// Parent.
    pub parent: VariableId,
    /// Child.
    pub child: VariableId,
    /// Squared coefficient times the variance of the parent.
    pub strength: N,
    /// Coefficient, with its sign.
    pub coefficient: N,
}

/// The arrow from the `i`-th parent of the `k`-th node.
pub open spec fn arrow<N: Amount>(
    model: ModelView,
    slots: spec_fn(int) -> MechanismSlot<N>,
    k: int,
    i: int,
) -> ArrowStrength<N> {
    let parent = model.parents(k)[i].raw as int;
    let beta = linear::coefficient(slots(model.child(k)).linear()->0.coeffs, i);
    ArrowStrength {
        parent: model.variables[parent],
        child: model.variables[model.child(k)],
        strength: beta.times(beta).times(
            linear::covariances(model, slots, model.nodes())(parent, parent),
        ),
        coefficient: beta,
    }
}

/// Arrows into the first `k` nodes of the order.
pub open spec fn arrows<N: Amount>(
    model: ModelView,
    slots: spec_fn(int) -> MechanismSlot<N>,
    k: nat,
) -> Seq<ArrowStrength<N>>
    decreases k,
{
    if k == 0 {
        Seq::empty()
    } else {
        arrows(model, slots, (k - 1) as nat) + Seq::new(
            model.parents(k - 1).len(),
            |i: int| arrow(model, slots, k - 1, i),
        )
    }
}

/// Every one of the first `k` nodes that has parents is linear.
pub open spec fn children_are_linear<N>(
    model: ModelView,
    slots: spec_fn(int) -> MechanismSlot<N>,
    k: nat,
) -> bool {
    forall|j: int|
        0 <= j < k && (#[trigger] model.parents(j)).len() > 0 ==> slots(
            model.child(j),
        ).linear() is Some
}

/// Strengths of all arrows of a model.
pub fn arrow_strengths<N: Amount>(
    model: &CausalModel,
    slots: &Vec<&MechanismSlot<N>>,
) -> (r: Result<Vec<ArrowStrength<N>>, AttributionError>)
    requires
        model@.well_formed(),
        slots@.len() == model@.nodes(),
    ensures
        ({
            let fitted = linear::by_node(slots@);
            let n = model@.nodes();
            match r {
                Ok(found) => {
                    &&& linear::solvable(model@, fitted)
                    &&& children_are_linear(model@, fitted, n)
                    &&& found@ == arrows(model@, fitted, n)
                },
                Err(error) => {
                    &&& !linear::solvable(model@, fitted) || !children_are_linear(
                        model@,
                        fitted,
                        n,
                    )
                    &&& error == AttributionError::NonLinearGaussianMechanism
                },
            }
        }),
{
    let n: usize = model.n_nodes();
    let ghost fitted = linear::by_node(slots@);
    let variances = match linear::model_implied_variances(model, slots) {
        Ok(variances) => variances,
        Err(error) => {
            return Err(error);
        },
    };
    let mut found: Vec<ArrowStrength<N>> = Vec::new();
    let mut k: usize = 0;
    assert(found@ =~= arrows(model@, fitted, 0));
    while k < n
        invariant
            0 <= k <= n,
            n == model@.nodes(),
            model@.well_formed(),
            slots@.len() == n,
            fitted == linear::by_node(slots@),
            linear::solvable(model@, fitted),
            variances@ == Seq::new(
                n as nat,
                |x: int| linear::covariances(model@, fitted, n as nat)(x, x),
            ),
            children_are_linear(model@, fitted, k as nat),
            found@ == arrows(model@, fitted, k as nat),
        decreases n - k,
    {
        let node: usize = model.gathers[k].child.raw as usize;
        assert(model@.child(k as int) == node && model@.child(k as int) < n);
        let parents = &model.gathers[k].parents;
        assert(model@.parents(k as int) == parents@);
        if parents.len() > 0 {
            let coeffs = match slots[node].linear_parts() {
                Some((_, coeffs, _)) => coeffs,
                None => {
                    assert(model@.parents(k as int).len() > 0 && fitted(
                        model@.child(k as int),
                    ).linear() is None);
                    return Err(AttributionError::NonLinearGaussianMechanism);
                },
            };
            let ghost before = found@;
            let mut i: usize = 0;
            while i < parents.len()
                invariant
                    0 <= i <= parents@.len(),
                    k < n,
                    n == model@.nodes(),
                    model@.well_formed(),
                    model@.child(k as int) == node,
                    node < n,
                    model@.parents(k as int) == parents@,
                    fitted(node as int).linear() is Some,
                    coeffs@ == fitted(node as int).linear()->0.coeffs,
                    variances@ == Seq::new(
                        n as nat,
                        |x: int| linear::covariances(model@, fitted, n as nat)(x, x),
                    ),
                    found@ == before + Seq::new(
                        i as nat,
                        |j: int| arrow(model@, fitted, k as int, j),
                    ),
                decreases parents.len() - i,
            {
                let parent: usize = parents[i].raw as usize;
                assert(model@.parents(k as int)[i as int].raw < n);
                let beta = if i < coeffs.len() {
                    coeffs[i]
                } else {
                    N::zero()
                };
                found.push(
                    ArrowStrength {
                        parent: model.variables[parent],
                        child: model.variables[node],
                        strength: beta.product(beta).product(variances[parent]),
                        coefficient: beta,
                    },
                );
                i = i + 1;
                assert(found@ =~= before + Seq::new(
                    i as nat,
                    |j: int| arrow(model@, fitted, k as int, j),
                ));
            }
        }
        k = k + 1;
        assert(found@ =~= arrows(model@, fitted, k as nat));
    }
    Ok(found)
}

/// What a contrast of two interventions samples.
#[derive(Clone, Copy, Debug, PartialEq)]
pub struct DoContrastPlan<N> {
    /// Samples per intervention.
    pub n_samples: usize,
    /// Level of the lower intervention.
    pub low: N,
    /// Level of the upper intervention.
    pub high: N,
    /// Node whose mean is contrasted.
    pub child: usize,
    /// Seed of the stream that both interventions draw from, the upper one first.
    pub seed: u64,
}

proof fn lemma_contrast<N: Amount>(center: N, delta: N)
    ensures
        forall|val: spec_fn(N) -> real| #[trigger]
            efficiency::is_exact(val) ==> {
                &&& val(center.plus(half::<N>().times(delta))) - val(
                    center.minus(half::<N>().times(delta)),
                ) == val(delta)
                &&& val(center.plus(half::<N>().times(delta))) + val(
                    center.minus(half::<N>().times(delta)),
                ) == val(center) + val(center)
            },
{
    assert forall|val: spec_fn(N) -> real| #[trigger] efficiency::is_exact(val) implies {
        &&& val(center.plus(half::<N>().times(delta))) - val(
            center.minus(half::<N>().times(delta)),
        ) == val(delta)
        &&& val(center.plus(half::<N>().times(delta))) + val(
            center.minus(half::<N>().times(delta)),
        ) == val(center) + val(center)
    } by {
        let step = half::<N>().times(delta);
        assert(val(N::counted(1).over(N::counted(2))) * val(N::counted(2)) == val(N::counted(1)));
        let one = val(half::<N>());
        let whole = val(delta);
        assert(val(N::counted(2)) == 2 as real && val(N::counted(1)) == 1 as real);
        assert(one * (2 as real) == one + one) by (nonlinear_arith);
        assert(one * whole + one * whole == whole) by (nonlinear_arith)
            requires
                one + one == 1 as real,
        ;
        assert(val(step) == one * whole);
        assert(val(center.plus(step)) == val(center) + val(step));
        assert(val(center.minus(step)) == val(center) - val(step));
    }
}

/// Plan a contrast of interventions half of `delta` below and above the mean of a parent.
pub fn plan_do_contrast<N: Amount>(
    model: &CausalModel,
    parent: &Vec<N>,
    child: VariableId,
    delta: N,
    n_rows: usize,
    max_units: usize,
    ctx: &ExecutionContext,
) -> (r: Result<DoContrastPlan<N>, AttributionError>)
    requires
        model@.well_formed(),
        model@.variables.no_duplicates(),
    ensures
        r == if n_rows > max_units {
            Err(
                AttributionError::SizeLimit { kind: "units", requested: n_rows, max: max_units },
            )
        } else {
            match distribution::dense(model@, child) {
                None => Err(AttributionError::MissingVariable { role: "child", id: child }),
                Some(node) => Ok(
                    DoContrastPlan {
                        n_samples: if n_rows == 0 {
                            1
                        } else {
                            n_rows
                        },
                        low: table::mean(parent@).minus(half::<N>().times(delta)),
                        high: table::mean(parent@).plus(half::<N>().times(delta)),
                        child: node,
                        seed: execution::mixed(ctx.rng.master_seed, CONTRAST_STREAM),
                    },
                ),
            }
        },
        forall|val: spec_fn(N) -> real| #[trigger]
            efficiency::is_exact(val) ==> (r matches Ok(plan) ==> val(plan.high) - val(plan.low)
                == val(delta) && val(plan.high) + val(plan.low) == val(table::mean(parent@)) + val(
                table::mean(parent@),
            )),
{
    if n_rows > max_units {
        return Err(
            AttributionError::SizeLimit { kind: "units", requested: n_rows, max: max_units },
        );
    }
    match distribution::find_node(model, child) {
        Some(node) => {
            let center = table::mean_of(parent);
            let step = one_half::<N>().product(delta);
            proof {
                lemma_contrast(center, delta);
            }
            let n_samples: usize = if n_rows == 0 {
                1
            } else {
                n_rows
            };
            Ok(
                DoContrastPlan {
                    n_samples,
                    low: center.difference(step),
                    high: center.sum(step),
                    child: node,
                    seed: execution::mix_seed(ctx.rng.master_seed(), CONTRAST_STREAM),
                },
            )
        },
        None => Err(AttributionError::missing_var("child", child)),
    }
}

/// Absolute difference of the means of two samples.
#[must_use]
pub fn population_do_contrast<N: Amount>(high: &Vec<N>, low: &Vec<N>) -> (contrast: N)
    ensures
        contrast == table::mean(high@).minus(table::mean(low@)).size(),
        forall|val: spec_fn(N) -> real| #[trigger]
            efficiency::is_exact(val) && (forall|a: N| #[trigger]
                val(a.size()) == if val(a) < 0 as real {
                    -val(a)
                } else {
                    val(a)
                }) ==> val(contrast) == if val(table::mean(high@)) < val(table::mean(low@)) {
                val(table::mean(low@)) - val(table::mean(high@))
            } else {
                val(table::mean(high@)) - val(table::mean(low@))
            },
{
    table::mean_of(high).difference(table::mean_of(low)).magnitude()
}

} // verus!
