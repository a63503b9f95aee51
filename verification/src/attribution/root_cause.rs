//! Ranking of root causes, with their spread over graphs or draws.
//!
//! SPDX-License-Identifier: MIT OR Apache-2.0

use crate::attribution::amount::Amount;
use crate::attribution::arrange;
use crate::attribution::error::AttributionError;
use crate::attribution::result::{
    ChangeAttributionResult, ComponentContribution, RootCauseRank,
};
use crate::attribution::shapley;
use crate::ids::ComponentId;
use vstd::prelude::*;

verus! {

/// Message for a contribution without a finite value.
pub const NOT_FINITE: &'static str = "contributions must be finite";

/// Message for weights that are no weights.
pub const BAD_WEIGHTS: &'static str = "graph weights must be finite and nonnegative";

/// Message for weights that all vanish.
pub const NO_MASS: &'static str = "graph weights require positive mass";

/// Message for an attribution without components.
pub const NO_CONTRIBUTIONS: &'static str = "root_cause_rank requires non-empty contributions";

/// Message for an empty collection.
pub const NO_MODELS: &'static str = "aggregate_model_collection_ranks requires ≥1 model result";

/// Message for a component that a model names twice.
pub const DUPLICATE_COMPONENT: &'static str = "duplicate component in model attribution";

/// Message for a ranking without components.
pub const NO_COMPONENTS: &'static str = "posterior_contribution_ranks requires components";

/// Message for blocks without draws.
pub const EMPTY_BLOCKS: &'static str = "block_size must be ≥ 1";

/// Message for draws that do not cover the components.
pub const UNCOVERED_COMPONENTS: &'static str =
    "nonempty contribution draws must cover every component";

/// Message for too few columns.
pub const TOO_FEW_COLUMNS: &'static str = "contribution_draws columns < contribution count";

/// Message for draws that do not match the graphs.
pub const UNALIGNED_DRAWS: &'static str = "one contribution draw is required per graph sample";

/// Message for values that do not fill the columns.
pub const BAD_SHAPE: &'static str = "contribution draws must fill every column";

/// Weighted mean and squared deviations of a contribution.
#[derive(Clone, Copy, Debug, PartialEq)]
pub struct ContributionMoments<N> {
    /// Total weight.
    pub mass: N,
    /// Weighted mean.
    pub mean: N,
    /// Weighted sum of squared deviations.
    pub m2: N,
}

/// Moments of nothing.
pub open spec fn no_moments<N: Amount>() -> ContributionMoments<N> {
    ContributionMoments { mass: N::nil(), mean: N::nil(), m2: N::nil() }
}

/// Moments with one more value. A value without weight does not count, and any other is
/// finite.
pub open spec fn added<N: Amount>(m: ContributionMoments<N>, weight: N, value: N) -> Result<
    ContributionMoments<N>,
    AttributionError,
> {
    if weight.same(N::nil()) {
        Ok(m)
    } else if !value.bounded() {
        Err(AttributionError::InvalidInput { message: NOT_FINITE })
    } else {
        let total = m.mass.plus(weight);
        let delta = value.minus(m.mean);
        let mean = m.mean.plus(weight.over(total).times(delta));
        Ok(
            ContributionMoments {
                mass: total,
                mean,
                m2: m.m2.plus(weight.times(delta).times(value.minus(mean))),
            },
        )
    }
}

/// The value, or zero where it is not above zero.
pub open spec fn not_negative<N: Amount>(value: N) -> N {
    if N::nil().below(value) {
        value
    } else {
        N::nil()
    }
}

/// The place that moments give a component: the size of the mean, and the standard
/// deviation.
pub open spec fn ranked<N: Amount>(m: ContributionMoments<N>, component: ComponentId) -> RootCauseRank<
    N,
> {
    RootCauseRank {
        component,
        score: m.mean.size(),
        graph_std: Some(not_negative(m.m2.over(m.mass)).root()),
    }
}

impl<N: Amount> ContributionMoments<N> {
    /// Moments of nothing.
    #[must_use]
    pub fn empty() -> (m: Self)
        ensures
            m == no_moments::<N>(),
    {
        ContributionMoments { mass: N::zero(), mean: N::zero(), m2: N::zero() }
    }

    /// Take in a value.
    pub fn add(&mut self, weight: N, value: N) -> (r: Result<(), AttributionError>)
        ensures
            match added(*old(self), weight, value) {
                Ok(m) => r is Ok && *final(self) == m,
                Err(error) => r == Err::<(), _>(error) && *final(self) == *old(self),
            },
    {
        if weight.is_same(N::zero()) {
            return Ok(());
        }
        if !value.is_bounded() {
            return Err(AttributionError::invalid_input(NOT_FINITE));
        }
        let total = self.mass.sum(weight);
        let delta = value.difference(self.mean);
        let mean = self.mean.sum(weight.quotient(total).product(delta));
        self.m2 = self.m2.sum(weight.product(delta).product(value.difference(mean)));
        self.mean = mean;
        self.mass = total;
        Ok(())
    }

    /// The place of a component with these moments.
    #[must_use]
    pub fn rank(self, component: ComponentId) -> (rank: RootCauseRank<N>)
        ensures
            rank == ranked(self, component),
    {
        let variance = self.m2.quotient(self.mass);
        let clamped = if N::zero().is_below(variance) {
            variance
        } else {
            N::zero()
        };
        RootCauseRank {
            component,
            score: self.mean.magnitude(),
            graph_std: Some(clamped.square_root()),
        }
    }
}

/// Largest of zero and the first `k` weights.
pub open spec fn largest<N: Amount>(weights: Seq<N>, k: nat) -> N
    decreases k,
{
    if k == 0 {
        N::nil()
    } else {
        let before = largest(weights, (k - 1) as nat);
        if before.below(weights[k - 1]) {
            weights[k - 1]
        } else {
            before
        }
    }
}

/// Weights are finite and not negative.
pub open spec fn are_weights<N: Amount>(weights: Seq<N>) -> bool {
    forall|i: int|
        0 <= i < weights.len() ==> (#[trigger] weights[i]).bounded() && !weights[i].below(
            N::nil(),
        )
}

/// Scale of weights: the largest, or why there is none.
pub open spec fn scale_of<N: Amount>(weights: Seq<N>) -> Result<N, AttributionError> {
    if !are_weights(weights) {
        Err(AttributionError::InvalidInput { message: BAD_WEIGHTS })
    } else if largest(weights, weights.len()).same(N::nil()) {
        Err(AttributionError::InvalidInput { message: NO_MASS })
    } else {
        Ok(largest(weights, weights.len()))
    }
}

/// Scale of weights.
pub fn weight_scale<N: Amount>(weights: &Vec<N>) -> (r: Result<N, AttributionError>)
    ensures
        r == scale_of(weights@),
{
    let mut scale = N::zero();
    let mut i: usize = 0;
    while i < weights.len()
        invariant
            0 <= i <= weights@.len(),
            scale == largest(weights@, i as nat),
            forall|j: int|
                0 <= j < i ==> (#[trigger] weights@[j]).bounded() && !weights@[j].below(N::nil()),
        decreases weights.len() - i,
    {
        if !weights[i].is_bounded() || weights[i].is_below(N::zero()) {
            assert(!are_weights(weights@));
            return Err(AttributionError::invalid_input(BAD_WEIGHTS));
        }
        if scale.is_below(weights[i]) {
            scale = weights[i];
        }
        i = i + 1;
    }
    if scale.is_same(N::zero()) {
        return Err(AttributionError::invalid_input(NO_MASS));
    }
    Ok(scale)
}

/// Moments of the first `k` values with their weights.
pub open spec fn moments_of<N: Amount>(weights: Seq<N>, values: Seq<N>, k: nat) -> Result<
    ContributionMoments<N>,
    AttributionError,
>
    decreases k,
{
    if k == 0 {
        Ok(no_moments())
    } else {
        match moments_of(weights, values, (k - 1) as nat) {
            Err(error) => Err(error),
            Ok(m) => added(m, weights[k - 1], values[k - 1]),
        }
    }
}

proof fn lemma_moments_fail<N: Amount>(weights: Seq<N>, values: Seq<N>, k: nat, n: nat)
    requires
        k <= n,
        moments_of(weights, values, k) is Err,
    ensures
        moments_of(weights, values, n) == Err::<ContributionMoments<N>, _>(
            AttributionError::InvalidInput { message: NOT_FINITE },
        ),
    decreases n,
{
    if k < n {
        lemma_moments_fail(weights, values, k, (n - 1) as nat);
    } else if k > 0 {
        if moments_of(weights, values, (k - 1) as nat) is Err {
            lemma_moments_fail(weights, values, (k - 1) as nat, (k - 1) as nat);
        }
    }
}

/// Draws of contributions, one column per component.
#[derive(Clone, Debug, PartialEq)]
pub struct ContributionDraws<N> {
    /// Draws of every column.
    pub n_draws: usize,
    /// Columns.
    pub columns: Vec<Vec<N>>,
}

impl<N> ContributionDraws<N> {
    /// Every column is full.
    pub open spec fn well_formed(self) -> bool {
        forall|q: int|
            0 <= q < self.columns@.len() ==> (#[trigger] self.columns@[q])@.len() == self.n_draws
    }

    /// Value of a component in a draw.
    pub open spec fn at(self, q: int, draw: int) -> N {
        self.columns@[q]@[draw]
    }
}

/// Lay out draws that come one column after another.
pub fn contribution_posterior_from_rows<N: Amount>(
    n_components: usize,
    n_draws: usize,
    values_colmajor: &Vec<N>,
) -> (r: Result<ContributionDraws<N>, AttributionError>)
    ensures
        match r {
            Ok(draws) => {
                &&& values_colmajor@.len() == n_components * n_draws
                &&& draws.n_draws == n_draws
                &&& draws.columns@.len() == n_components
                &&& draws.well_formed()
                &&& forall|q: int, d: int|
                    #![trigger draws.at(q, d)]
                    0 <= q < n_components && 0 <= d < n_draws ==> draws.at(q, d)
                        == values_colmajor@[q * n_draws + d]
            },
            Err(error) => {
                &&& values_colmajor@.len() != n_components * n_draws
                &&& error == AttributionError::InvalidInput { message: BAD_SHAPE }
            },
        },
{
    let filled: usize = values_colmajor.len();
    match n_components.checked_mul(n_draws) {
        Some(size) => {
            if filled != size {
                return Err(AttributionError::invalid_input(BAD_SHAPE));
            }
        },
        None => {
            return Err(AttributionError::invalid_input(BAD_SHAPE));
        },
    }
    let mut columns: Vec<Vec<N>> = Vec::new();
    while columns.len() < n_components
        invariant
            values_colmajor@.len() == n_components * n_draws,
            n_components * n_draws <= usize::MAX,
            columns@.len() <= n_components,
            forall|q: int|
                0 <= q < columns@.len() ==> (#[trigger] columns@[q])@ == Seq::new(
                    n_draws as nat,
                    |d: int| values_colmajor@[q * n_draws + d],
                ),
        decreases n_components - columns.len(),
    {
        let q: usize = columns.len();
        let mut column: Vec<N> = Vec::new();
        while column.len() < n_draws
            invariant
                q < n_components,
                values_colmajor@.len() == n_components * n_draws,
                n_components * n_draws <= usize::MAX,
                column@.len() <= n_draws,
                column@ == Seq::new(
                    column@.len(),
                    |d: int| values_colmajor@[q * n_draws + d],
                ),
            decreases n_draws - column.len(),
        {
            let d: usize = column.len();
            assert(q * n_draws + d < n_components * n_draws && 0 <= q * n_draws) by (
            nonlinear_arith)
                requires
                    q < n_components,
                    d < n_draws,
                    q >= 0,
                    n_draws >= 0,
            ;
            column.push(values_colmajor[q * n_draws + d]);
            assert(column@ =~= Seq::new(
                column@.len(),
                |d: int| values_colmajor@[q * n_draws + d],
            ));
        }
        columns.push(column);
    }
    let draws = ContributionDraws { n_draws, columns };
    assert(draws.well_formed());
    Ok(draws)
}

/// Graphs with their weights.
#[derive(Clone, Debug, PartialEq)]
pub struct WeightedGraphSamples<N> {
    /// Weights.
    pub weights: Vec<N>,
    /// Graphs.
    pub n_samples: usize,
}

/// Places by the size of each contribution.
pub open spec fn plain_ranks<N: Amount>(contributions: Seq<ComponentContribution<N>>) -> Seq<
    RootCauseRank<N>,
> {
    contributions.map_values(
        |c: ComponentContribution<N>|
            RootCauseRank {
                component: c.component,
                score: c.contribution.size(),
                graph_std: None::<N>,
            },
    )
}

/// Weights relative to a scale.
pub open spec fn relative<N: Amount>(weights: Seq<N>, scale: N) -> Seq<N> {
    weights.map_values(|w: N| w.over(scale))
}

/// Moments of every one of the first `k` columns are defined.
pub open spec fn all_defined<N: Amount>(
    weights: Seq<N>,
    draws: ContributionDraws<N>,
    k: nat,
) -> bool {
    forall|q: int|
        0 <= q < k ==> moments_of(
            weights,
            (#[trigger] draws.columns@[q])@,
            draws.n_draws as nat,
        ) is Ok
}

/// Places by the moments of columns.
pub open spec fn moment_ranks<N: Amount>(
    weights: Seq<N>,
    draws: ContributionDraws<N>,
    components: Seq<ComponentId>,
) -> Seq<RootCauseRank<N>> {
    Seq::new(
        components.len(),
        |q: int|
            ranked(
                moments_of(weights, draws.columns@[q]@, draws.n_draws as nat)->Ok_0,
                components[q],
            ),
    )
}

/// What a ranking by columns returns.
pub open spec fn is_moment_ranking<N: Amount>(
    r: Result<Vec<RootCauseRank<N>>, AttributionError>,
    weights: Seq<N>,
    draws: ContributionDraws<N>,
    components: Seq<ComponentId>,
) -> bool {
    match r {
        Ok(ranks) => {
            &&& all_defined(weights, draws, components.len())
            &&& ranks@ == arrange::arranged(moment_ranks(weights, draws, components))
        },
        Err(error) => {
            &&& !all_defined(weights, draws, components.len())
            &&& error == AttributionError::InvalidInput { message: NOT_FINITE }
        },
    }
}

/// Components of contributions.
pub open spec fn components_of<N>(contributions: Seq<ComponentContribution<N>>) -> Seq<
    ComponentId,
> {
    contributions.map_values(|c: ComponentContribution<N>| c.component)
}

/// Why a ranking over graphs is refused.
pub open spec fn graph_refusal<N: Amount>(
    n_components: nat,
    graphs: WeightedGraphSamples<N>,
    draws: ContributionDraws<N>,
) -> Option<AttributionError> {
    if draws.columns@.len() < n_components {
        Some(AttributionError::InvalidInput { message: TOO_FEW_COLUMNS })
    } else if graphs.n_samples != draws.n_draws || graphs.weights@.len() != graphs.n_samples {
        Some(AttributionError::InvalidInput { message: UNALIGNED_DRAWS })
    } else {
        match scale_of(graphs.weights@) {
            Err(error) => Some(error),
            Ok(_) => None,
        }
    }
}

fn rank_with_graph_uncertainty<N: Amount>(
    contributions: &Vec<ComponentContribution<N>>,
    graphs: &WeightedGraphSamples<N>,
    draws: &ContributionDraws<N>,
) -> (r: Result<Vec<RootCauseRank<N>>, AttributionError>)
    requires
        draws.well_formed(),
    ensures
        match graph_refusal(contributions@.len(), *graphs, *draws) {
            Some(error) => r == Err::<Vec<RootCauseRank<N>>, _>(error),
            None => is_moment_ranking(
                r,
                relative(graphs.weights@, scale_of(graphs.weights@)->Ok_0),
                *draws,
                components_of(contributions@),
            ),
        },
{
    let count: usize = contributions.len();
    if draws.columns.len() < count {
        return Err(AttributionError::invalid_input(TOO_FEW_COLUMNS));
    }
    if graphs.n_samples != draws.n_draws || graphs.weights.len() != graphs.n_samples {
        return Err(AttributionError::invalid_input(UNALIGNED_DRAWS));
    }
    let scale = match weight_scale(&graphs.weights) {
        Ok(scale) => scale,
        Err(error) => {
            return Err(error);
        },
    };
    let ghost weights = relative(graphs.weights@, scale);
    let ghost components = components_of(contributions@);
    let mut ranks: Vec<RootCauseRank<N>> = Vec::new();
    while ranks.len() < count
        invariant
            count == contributions@.len(),
            count <= draws.columns@.len(),
            draws.well_formed(),
            graphs.weights@.len() == draws.n_draws,
            graph_refusal(count as nat, *graphs, *draws) is None,
            scale == scale_of(graphs.weights@)->Ok_0,
            weights == relative(graphs.weights@, scale),
            components == components_of(contributions@),
            ranks@.len() <= count,
            all_defined(weights, *draws, ranks@.len()),
            ranks@ == moment_ranks(weights, *draws, components).take(ranks@.len() as int),
        decreases count - ranks.len(),
    {
        let q: usize = ranks.len();
        let column = &draws.columns[q];
        assert(draws.columns@[q as int]@.len() == draws.n_draws);
        let mut moments = ContributionMoments::<N>::empty();
        let mut i: usize = 0;
        while i < column.len()
            invariant
                0 <= i <= column@.len(),
                q < count,
                count == components.len(),
                count == contributions@.len(),
                count <= draws.columns@.len(),
                column@ == draws.columns@[q as int]@,
                column@.len() == draws.n_draws,
                graphs.weights@.len() == draws.n_draws,
                graph_refusal(count as nat, *graphs, *draws) is None,
                scale == scale_of(graphs.weights@)->Ok_0,
                weights == relative(graphs.weights@, scale),
                components == components_of(contributions@),
                moments_of(weights, column@, i as nat) == Ok::<_, AttributionError>(moments),
            decreases column.len() - i,
        {
            match moments.add(graphs.weights[i].quotient(scale), column[i]) {
                Ok(_) => {},
                Err(error) => {
                    proof {
                        lemma_moments_fail(
                            weights,
                            column@,
                            (i + 1) as nat,
                            draws.n_draws as nat,
                        );
                        assert(moments_of(
                            weights,
                            draws.columns@[q as int]@,
                            draws.n_draws as nat,
                        ) is Err);
                        assert(!all_defined(weights, *draws, components.len()));
                    }
                    return Err(error);
                },
            }
            i = i + 1;
        }
        ranks.push(moments.rank(contributions[q].component));
        proof {
            assert(ranks@ =~= moment_ranks(weights, *draws, components).take(
                ranks@.len() as int,
            ));
        }
    }
    assert(ranks@ =~= moment_ranks(weights, *draws, components));
    Ok(arrange::arrange(&ranks))
}

/// Rank components by the size of their contributions. With graphs and draws, ranks are
/// those of the weighted means, with their spread over graphs.
pub fn root_cause_rank<N: Amount>(
    attribution: &ChangeAttributionResult<N>,
    graph_samples: Option<&WeightedGraphSamples<N>>,
    contribution_draws: Option<&ContributionDraws<N>>,
) -> (r: Result<Vec<RootCauseRank<N>>, AttributionError>)
    requires
        contribution_draws matches Some(draws) ==> draws.well_formed(),
    ensures
        ({
            let contributions = attribution.contributions@;
            if contributions.len() == 0 {
                r == Err::<Vec<RootCauseRank<N>>, _>(
                    AttributionError::InvalidInput { message: NO_CONTRIBUTIONS },
                )
            } else {
                match (graph_samples, contribution_draws) {
                    (Some(graphs), Some(draws)) => match graph_refusal(
                        contributions.len(),
                        *graphs,
                        *draws,
                    ) {
                        Some(error) => r == Err::<Vec<RootCauseRank<N>>, _>(error),
                        None => is_moment_ranking(
                            r,
                            relative(graphs.weights@, scale_of(graphs.weights@)->Ok_0),
                            *draws,
                            components_of(contributions),
                        ),
                    },
                    _ => r matches Ok(ranks) && ranks@ == arrange::arranged(
                        plain_ranks(contributions),
                    ),
                }
            }
        }),
{
    if attribution.contributions.len() == 0 {
        return Err(AttributionError::invalid_input(NO_CONTRIBUTIONS));
    }
    if let Some(graphs) = graph_samples {
        if let Some(draws) = contribution_draws {
            return rank_with_graph_uncertainty(&attribution.contributions, graphs, draws);
        }
    }
    let ghost contributions = attribution.contributions@;
    let mut ranks: Vec<RootCauseRank<N>> = Vec::new();
    while ranks.len() < attribution.contributions.len()
        invariant
            contributions == attribution.contributions@,
            ranks@.len() <= contributions.len(),
            ranks@ == plain_ranks(contributions).take(ranks@.len() as int),
        decreases attribution.contributions.len() - ranks.len(),
    {
        let c = &attribution.contributions[ranks.len()];
        ranks.push(
            RootCauseRank {
                component: c.component,
                score: c.contribution.magnitude(),
                graph_std: None,
            },
        );
        assert(ranks@ =~= plain_ranks(contributions).take(ranks@.len() as int));
    }
    assert(ranks@ =~= plain_ranks(contributions));
    Ok(arrange::arrange(&ranks))
}

/// Equal weights.
pub open spec fn equal_weights<N: Amount>(n: nat) -> Seq<N> {
    Seq::new(n, |i: int| N::counted(1))
}

/// Why a ranking of draws is refused.
pub open spec fn draws_refusal<N>(
    draws: ContributionDraws<N>,
    n_components: nat,
    block_size: usize,
) -> Option<AttributionError> {
    if n_components == 0 {
        Some(AttributionError::InvalidInput { message: NO_COMPONENTS })
    } else if block_size == 0 {
        Some(AttributionError::Budget { message: EMPTY_BLOCKS })
    } else if draws.n_draws == 0 || draws.columns@.len() < n_components {
        Some(AttributionError::InvalidInput { message: UNCOVERED_COMPONENTS })
    } else {
        None
    }
}

/// Rank components by the moments of their draws. Draws are read block by block; the size of
/// a block makes no difference to the ranking.
pub fn posterior_contribution_ranks<N: Amount>(
    draws: &ContributionDraws<N>,
    components: &Vec<ComponentId>,
    block_size: usize,
) -> (r: Result<Vec<RootCauseRank<N>>, AttributionError>)
    requires
        draws.well_formed(),
    ensures
        match draws_refusal(*draws, components@.len(), block_size) {
            Some(error) => r == Err::<Vec<RootCauseRank<N>>, _>(error),
            None => is_moment_ranking(
                r,
                equal_weights(draws.n_draws as nat),
                *draws,
                components@,
            ),
        },
{
    let count: usize = components.len();
    if count == 0 {
        return Err(AttributionError::invalid_input(NO_COMPONENTS));
    }
    if block_size == 0 {
        return Err(AttributionError::Budget { message: EMPTY_BLOCKS });
    }
    let n: usize = draws.n_draws;
    if n == 0 || draws.columns.len() < count {
        return Err(AttributionError::invalid_input(UNCOVERED_COMPONENTS));
    }
    let ghost weights = equal_weights::<N>(n as nat);
    let mut moments: Vec<ContributionMoments<N>> = Vec::new();
    while moments.len() < count
        invariant
            moments@.len() <= count,
            forall|q: int| 0 <= q < moments@.len() ==> #[trigger] moments@[q] == no_moments::<N>(),
        decreases count - moments.len(),
    {
        moments.push(ContributionMoments::empty());
    }
    let mut start: usize = 0;
    while start < n
        invariant
            0 <= start <= n,
            n == draws.n_draws,
            block_size > 0,
            count == components@.len(),
            count <= draws.columns@.len(),
            draws.well_formed(),
            draws_refusal(*draws, count as nat, block_size) is None,
            weights == equal_weights::<N>(n as nat),
            moments@.len() == count,
            forall|q: int|
                0 <= q < count ==> moments_of(weights, draws.columns@[q]@, start as nat) == Ok::<
                    _,
                    AttributionError,
                >(#[trigger] moments@[q]),
        decreases n - start,
    {
        let len: usize = if block_size < n - start {
            block_size
        } else {
            n - start
        };
        let stop: usize = start + len;
        let mut q: usize = 0;
        while q < count
            invariant
                0 <= q <= count,
                start < stop <= n,
                n == draws.n_draws,
                count == components@.len(),
                count <= draws.columns@.len(),
                draws.well_formed(),
                draws_refusal(*draws, count as nat, block_size) is None,
                weights == equal_weights::<N>(n as nat),
                moments@.len() == count,
                forall|p: int|
                    0 <= p < q ==> moments_of(weights, draws.columns@[p]@, stop as nat) == Ok::<
                        _,
                        AttributionError,
                    >(#[trigger] moments@[p]),
                forall|p: int|
                    q <= p < count ==> moments_of(weights, draws.columns@[p]@, start as nat)
                        == Ok::<_, AttributionError>(#[trigger] moments@[p]),
            decreases count - q,
        {
            let column = &draws.columns[q];
            assert(draws.columns@[q as int]@.len() == n);
            let mut m = moments[q];
            let mut i: usize = start;
            while i < stop
                invariant
                    start <= i <= stop <= n,
                    q < count,
                    n == draws.n_draws,
                    count == components@.len(),
                    draws_refusal(*draws, count as nat, block_size) is None,
                    weights == equal_weights::<N>(n as nat),
                    column@ == draws.columns@[q as int]@,
                    column@.len() == n,
                    moments_of(weights, column@, i as nat) == Ok::<_, AttributionError>(m),
                decreases stop - i,
            {
                match m.add(N::count(1), column[i]) {
                    Ok(_) => {},
                    Err(error) => {
                        proof {
                            lemma_moments_fail(weights, column@, (i + 1) as nat, n as nat);
                            assert(moments_of(
                                weights,
                                draws.columns@[q as int]@,
                                draws.n_draws as nat,
                            ) is Err);
                            assert(!all_defined(weights, *draws, components@.len()));
                        }
                        return Err(error);
                    },
                }
                i = i + 1;
            }
            moments.set(q, m);
            q = q + 1;
        }
        start = stop;
    }
    let mut ranks: Vec<RootCauseRank<N>> = Vec::new();
    while ranks.len() < count
        invariant
            count == components@.len(),
            moments@.len() == count,
            n == draws.n_draws,
            forall|q: int|
                0 <= q < count ==> moments_of(weights, draws.columns@[q]@, n as nat) == Ok::<
                    _,
                    AttributionError,
                >(#[trigger] moments@[q]),
            ranks@.len() <= count,
            ranks@ == moment_ranks(weights, *draws, components@).take(ranks@.len() as int),
        decreases count - ranks.len(),
    {
        let q: usize = ranks.len();
        assert(moments_of(weights, draws.columns@[q as int]@, n as nat) == Ok::<
            _,
            AttributionError,
        >(moments@[q as int]));
        ranks.push(moments[q].rank(components[q]));
        assert(ranks@ =~= moment_ranks(weights, *draws, components@).take(ranks@.len() as int));
    }
    proof {
        assert(ranks@ =~= moment_ranks(weights, *draws, components@));
        assert forall|q: int| 0 <= q < count implies moments_of(
            weights,
            (#[trigger] draws.columns@[q])@,
            draws.n_draws as nat,
        ) is Ok by {
            assert(moments_of(weights, draws.columns@[q]@, n as nat) == Ok::<
                _,
                AttributionError,
            >(moments@[q]));
        }
    }
    Ok(arrange::arrange(&ranks))
}

/// Moments of a component so far.
pub open spec fn moments_in<N: Amount>(
    all: Map<ComponentId, ContributionMoments<N>>,
    component: ComponentId,
) -> ContributionMoments<N> {
    if all.contains_key(component) {
        all[component]
    } else {
        no_moments()
    }
}

/// Whether the component of the `k`-th contribution occurs before.
pub open spec fn occurs_before<N>(contributions: Seq<ComponentContribution<N>>, k: int) -> bool {
    exists|j: int|
        0 <= j < k && (#[trigger] contributions[j]).component == contributions[k].component
}

/// Moments with the first `k` contributions of a model.
pub open spec fn absorbed<N: Amount>(
    all: Map<ComponentId, ContributionMoments<N>>,
    weight: N,
    contributions: Seq<ComponentContribution<N>>,
    k: nat,
) -> Result<Map<ComponentId, ContributionMoments<N>>, AttributionError>
    decreases k,
{
    if k == 0 {
        Ok(all)
    } else {
        match absorbed(all, weight, contributions, (k - 1) as nat) {
            Err(error) => Err(error),
            Ok(before) => {
                let c = contributions[k - 1];
                if occurs_before(contributions, k - 1) {
                    Err(AttributionError::InvalidInput { message: DUPLICATE_COMPONENT })
                } else {
                    match added(moments_in(before, c.component), weight, c.contribution) {
                        Err(error) => Err(error),
                        Ok(m) => Ok(before.insert(c.component, m)),
                    }
                }
            },
        }
    }
}

proof fn lemma_absorbed_fails<N: Amount>(
    all: Map<ComponentId, ContributionMoments<N>>,
    weight: N,
    contributions: Seq<ComponentContribution<N>>,
    k: nat,
    n: nat,
)
    requires
        k <= n,
        absorbed(all, weight, contributions, k) is Err,
    ensures
        absorbed(all, weight, contributions, n) == absorbed(all, weight, contributions, k),
    decreases n,
{
    if k < n {
        lemma_absorbed_fails(all, weight, contributions, k, (n - 1) as nat);
    }
}

/// Moments of the first `k` models.
pub open spec fn collected<N: Amount>(
    per_model: Seq<(N, ChangeAttributionResult<N>)>,
    scale: N,
    k: nat,
) -> Result<Map<ComponentId, ContributionMoments<N>>, AttributionError>
    decreases k,
{
    if k == 0 {
        Ok(Map::empty())
    } else {
        match collected(per_model, scale, (k - 1) as nat) {
            Err(error) => Err(error),
            Ok(before) => {
                let (weight, result) = per_model[k - 1];
                absorbed(
                    before,
                    weight.over(scale),
                    result.contributions@,
                    result.contributions@.len(),
                )
            },
        }
    }
}

proof fn lemma_collected_fails<N: Amount>(
    per_model: Seq<(N, ChangeAttributionResult<N>)>,
    scale: N,
    k: nat,
    n: nat,
)
    requires
        k <= n,
        collected(per_model, scale, k) is Err,
    ensures
        collected(per_model, scale, n) == collected(per_model, scale, k),
    decreases n,
{
    if k < n {
        lemma_collected_fails(per_model, scale, k, (n - 1) as nat);
    }
}

/// Moments once the models that do not name the component count as zero contributions.
pub open spec fn completed<N: Amount>(m: ContributionMoments<N>, total: N) -> Result<
    ContributionMoments<N>,
    AttributionError,
> {
    added(m, not_negative(total.minus(m.mass)), N::nil())
}

/// Places of the components below a bound, in the order of their ids.
pub open spec fn listed<N: Amount>(
    all: Map<ComponentId, ContributionMoments<N>>,
    total: N,
    bound: nat,
) -> Result<Seq<RootCauseRank<N>>, AttributionError>
    decreases bound,
{
    if bound == 0 {
        Ok(Seq::empty())
    } else {
        let component = ComponentId { raw: (bound - 1) as u32 };
        match listed(all, total, (bound - 1) as nat) {
            Err(error) => Err(error),
            Ok(before) => if all.contains_key(component) {
                match completed(all[component], total) {
                    Err(error) => Err(error),
                    Ok(m) => Ok(before.push(ranked(m, component))),
                }
            } else {
                Ok(before)
            },
        }
    }
}

proof fn lemma_listed_gap<N: Amount>(
    all: Map<ComponentId, ContributionMoments<N>>,
    total: N,
    low: nat,
    high: nat,
)
    requires
        low <= high <= u32::MAX + 1,
        forall|c: ComponentId| #[trigger] all.contains_key(c) ==> c.raw < low || c.raw >= high,
    ensures
        listed(all, total, high) == listed(all, total, low),
    decreases high,
{
    if low < high {
        let c = ComponentId { raw: (high - 1) as u32 };
        assert(c.raw == high - 1);
        lemma_listed_gap(all, total, low, (high - 1) as nat);
    }
}

proof fn lemma_listed_fails<N: Amount>(
    all: Map<ComponentId, ContributionMoments<N>>,
    total: N,
    low: nat,
    high: nat,
)
    requires
        low <= high,
        listed(all, total, low) is Err,
    ensures
        listed(all, total, high) == listed(all, total, low),
    decreases high,
{
    if low < high {
        lemma_listed_fails(all, total, low, (high - 1) as nat);
    }
}

/// Moments of one component.
#[derive(Clone, Copy, Debug, PartialEq)]
struct Entry<N> {
    component: ComponentId,
    moments: ContributionMoments<N>,
}

/// Entries in the order of their ids that hold the same moments as a map.
spec fn holds<N: Amount>(
    entries: Seq<Entry<N>>,
    all: Map<ComponentId, ContributionMoments<N>>,
) -> bool {
    &&& forall|i: int, j: int|
        0 <= i < j < entries.len() ==> (#[trigger] entries[i]).component.raw < (
        #[trigger] entries[j]).component.raw
    &&& forall|i: int|
        0 <= i < entries.len() ==> all.contains_key((#[trigger] entries[i]).component)
            && all[entries[i].component] == entries[i].moments
    &&& forall|c: ComponentId| #[trigger]
        all.contains_key(c) ==> exists|i: int|
            0 <= i < entries.len() && (#[trigger] entries[i]).component == c
}

/// Take in a contribution.
fn absorb<N: Amount>(
    entries: &mut Vec<Entry<N>>,
    component: ComponentId,
    weight: N,
    value: N,
    Ghost(all): Ghost<Map<ComponentId, ContributionMoments<N>>>,
) -> (r: Result<(), AttributionError>)
    requires
        holds(old(entries)@, all),
    ensures
        match added(moments_in(all, component), weight, value) {
            Ok(m) => r is Ok && holds(final(entries)@, all.insert(component, m)),
            Err(error) => r == Err::<(), _>(error),
        },
{
    let mut i: usize = 0;
    while i < entries.len() && entries[i].component.raw < component.raw
        invariant
            0 <= i <= entries@.len(),
            entries@ == old(entries)@,
            forall|j: int|
                0 <= j < i ==> (#[trigger] entries@[j]).component.raw < component.raw,
        decreases entries.len() - i,
    {
        i = i + 1;
    }
    let ghost before = entries@;
    let found: bool = i < entries.len() && entries[i].component.raw == component.raw;
    let mut m = if found {
        entries[i].moments
    } else {
        ContributionMoments::empty()
    };
    proof {
        if found {
            assert(before[i as int].component == component);
            assert(all[before[i as int].component] == before[i as int].moments);
        } else if all.contains_key(component) {
            let j = choose|j: int|
                0 <= j < before.len() && (#[trigger] before[j]).component == component;
            if j >= i {
                if j > i {
                    assert(before[i as int].component.raw < before[j].component.raw);
                }
                assert(before[i as int].component.raw >= component.raw);
            }
        }
        assert(m == moments_in(all, component));
    }
    match m.add(weight, value) {
        Ok(_) => {},
        Err(error) => {
            return Err(error);
        },
    }
    let entry = Entry { component, moments: m };
    if found {
        entries.set(i, entry);
    } else {
        entries.insert(i, entry);
    }
    proof {
        let after = entries@;
        let next = all.insert(component, m);
        assert forall|c: ComponentId| #[trigger] next.contains_key(c) implies exists|k: int|
            0 <= k < after.len() && (#[trigger] after[k]).component == c by {
            if c == component {
                assert(after[i as int].component == c);
            } else {
                assert(all.contains_key(c));
                let j = choose|j: int|
                    0 <= j < before.len() && (#[trigger] before[j]).component == c;
                if found || j < i {
                    assert(after[j] == before[j]);
                } else {
                    assert(after[j + 1] == before[j]);
                }
            }
        }
        assert forall|k: int| 0 <= k < after.len() implies next.contains_key(
            (#[trigger] after[k]).component,
        ) && next[after[k].component] == after[k].moments by {
            if k != i {
                let j = if found || k < i {
                    k
                } else {
                    k - 1
                };
                assert(after[k] == before[j]);
                assert(before[j].component != component) by {
                    if j > i {
                        assert(before[i as int].component.raw < before[j].component.raw);
                    }
                }
            }
        }
        assert forall|a: int, b: int| 0 <= a < b < after.len() implies (
        #[trigger] after[a]).component.raw < (#[trigger] after[b]).component.raw by {
            if !found {
                let x = if a < i {
                    a
                } else {
                    a - 1
                };
                let y = if b < i {
                    b
                } else {
                    b - 1
                };
                if a != i {
                    assert(after[a] == before[x]);
                }
                if b != i {
                    assert(after[b] == before[y]);
                }
                if a != i && b != i {
                    assert(before[x].component.raw < before[y].component.raw);
                } else if a == i {
                    if y > i {
                        assert(before[i as int].component.raw < before[y].component.raw);
                    }
                }
            } else {
                assert(before[a].component.raw < before[b].component.raw);
            }
        }
    }
    Ok(())
}

/// Weights of models.
pub open spec fn weights_of<N>(per_model: Seq<(N, ChangeAttributionResult<N>)>) -> Seq<N> {
    per_model.map_values(|m: (N, ChangeAttributionResult<N>)| m.0)
}

/// What an aggregation over models returns.
pub open spec fn is_collection_ranking<N: Amount>(
    r: Result<Vec<RootCauseRank<N>>, AttributionError>,
    per_model: Seq<(N, ChangeAttributionResult<N>)>,
) -> bool {
    let scale = scale_of(weights_of(per_model));
    if per_model.len() == 0 {
        r == Err::<Vec<RootCauseRank<N>>, _>(AttributionError::InvalidInput { message: NO_MODELS })
    } else {
        match scale {
            Err(error) => r == Err::<Vec<RootCauseRank<N>>, _>(error),
            Ok(scale) => match collected(per_model, scale, per_model.len()) {
                Err(error) => r == Err::<Vec<RootCauseRank<N>>, _>(error),
                Ok(all) => match listed(
                    all,
                    shapley::total(relative(weights_of(per_model), scale)),
                    u32::MAX as nat + 1,
                ) {
                    Err(error) => r == Err::<Vec<RootCauseRank<N>>, _>(error),
                    Ok(ranks) => r matches Ok(found) && found@ == arrange::arranged(ranks),
                },
            },
        }
    }
}

/// Rank components by their weighted mean contribution over models. A component that a model
/// does not name contributes zero to it.
pub fn aggregate_model_collection_ranks<N: Amount>(
    per_model: &Vec<(N, ChangeAttributionResult<N>)>,
) -> (r: Result<Vec<RootCauseRank<N>>, AttributionError>)
    ensures
        is_collection_ranking(r, per_model@),
{
    let count: usize = per_model.len();
    if count == 0 {
        return Err(AttributionError::invalid_input(NO_MODELS));
    }
    let mut weights: Vec<N> = Vec::new();
    while weights.len() < count
        invariant
            count == per_model@.len(),
            weights@.len() <= count,
            weights@ == weights_of(per_model@).take(weights@.len() as int),
        decreases count - weights.len(),
    {
        weights.push(per_model[weights.len()].0);
        assert(weights@ =~= weights_of(per_model@).take(weights@.len() as int));
    }
    assert(weights@ =~= weights_of(per_model@));
    let scale = match weight_scale(&weights) {
        Ok(scale) => scale,
        Err(error) => {
            return Err(error);
        },
    };
    let mut shares: Vec<N> = Vec::new();
    while shares.len() < count
        invariant
            count == weights@.len(),
            shares@.len() <= count,
            shares@ == relative(weights@, scale).take(shares@.len() as int),
        decreases count - shares.len(),
    {
        shares.push(weights[shares.len()].quotient(scale));
        assert(shares@ =~= relative(weights@, scale).take(shares@.len() as int));
    }
    assert(shares@ =~= relative(weights@, scale));
    let total = shapley::sum_of(shares.as_slice());
    let mut entries: Vec<Entry<N>> = Vec::new();
    let ghost mut all: Map<ComponentId, ContributionMoments<N>> = Map::empty();
    let mut k: usize = 0;
    while k < count
        invariant
            0 <= k <= count,
            count == per_model@.len(),
            count > 0,
            weights@ == weights_of(per_model@),
            shares@ == relative(weights@, scale),
            scale_of(weights@) == Ok::<N, AttributionError>(scale),
            collected(per_model@, scale, k as nat) == Ok::<_, AttributionError>(all),
            holds(entries@, all),
        decreases count - k,
    {
        let contributions = &per_model[k].1.contributions;
        let weight = shares[k];
        let ghost start = all;
        proof {
            assert(weights@[k as int] == per_model@[k as int].0);
            assert(weight == per_model@[k as int].0.over(scale));
        }
        let mut j: usize = 0;
        while j < contributions.len()
            invariant
                0 <= j <= contributions@.len(),
                k < count,
                count == per_model@.len(),
                weights@ == weights_of(per_model@),
                scale_of(weights@) == Ok::<N, AttributionError>(scale),
                collected(per_model@, scale, k as nat) == Ok::<_, AttributionError>(start),
                contributions@ == per_model@[k as int].1.contributions@,
                weight == per_model@[k as int].0.over(scale),
                absorbed(start, weight, contributions@, j as nat) == Ok::<_, AttributionError>(
                    all,
                ),
                holds(entries@, all),
            decreases contributions.len() - j,
        {
            let c = &contributions[j];
            proof {
                if absorbed(start, weight, contributions@, (j + 1) as nat) is Err {
                    lemma_absorbed_fails(
                        start,
                        weight,
                        contributions@,
                        (j + 1) as nat,
                        contributions@.len(),
                    );
                    assert(collected(per_model@, scale, (k + 1) as nat) is Err);
                    lemma_collected_fails(per_model@, scale, (k + 1) as nat, count as nat);
                }
            }
            let mut i: usize = 0;
            while i < j
                invariant
                    0 <= i <= j < contributions@.len(),
                    k < count,
                    count == per_model@.len(),
                    weights@ == weights_of(per_model@),
                    scale_of(weights@) == Ok::<N, AttributionError>(scale),
                    c == contributions@[j as int],
                    occurs_before(contributions@, j as int) ==> collected(
                        per_model@,
                        scale,
                        count as nat,
                    ) == Err::<Map<ComponentId, ContributionMoments<N>>, _>(
                        AttributionError::InvalidInput { message: DUPLICATE_COMPONENT },
                    ),
                    forall|h: int|
                        0 <= h < i ==> (#[trigger] contributions@[h]).component != c.component,
                decreases j - i,
            {
                if contributions[i].component.raw == c.component.raw {
                    assert(contributions@[i as int].component == contributions@[j as int].component);
                    return Err(AttributionError::invalid_input(DUPLICATE_COMPONENT));
                }
                i = i + 1;
            }
            assert(!occurs_before(contributions@, j as int));
            match absorb(&mut entries, c.component, weight, c.contribution, Ghost(all)) {
                Ok(_) => {
                    proof {
                        all = all.insert(
                            c.component,
                            added(moments_in(all, c.component), weight, c.contribution)->Ok_0,
                        );
                    }
                },
                Err(error) => {
                    return Err(error);
                },
            }
            j = j + 1;
        }
        k = k + 1;
    }
    let ghost end = u32::MAX as nat + 1;
    let mut ranks: Vec<RootCauseRank<N>> = Vec::new();
    let ghost mut low: nat = 0;
    let mut e: usize = 0;
    while e < entries.len()
        invariant
            0 <= e <= entries@.len(),
            count == per_model@.len(),
            count > 0,
            end == u32::MAX as nat + 1,
            scale_of(weights_of(per_model@)) == Ok::<N, AttributionError>(scale),
            total == shapley::total(relative(weights_of(per_model@), scale)),
            collected(per_model@, scale, count as nat) == Ok::<_, AttributionError>(all),
            holds(entries@, all),
            low <= end,
            forall|i: int| 0 <= i < e ==> (#[trigger] entries@[i]).component.raw < low,
            forall|i: int|
                e <= i < entries@.len() ==> (#[trigger] entries@[i]).component.raw >= low,
            listed(all, total, low) == Ok::<_, AttributionError>(ranks@),
        decreases entries.len() - e,
    {
        let entry = entries[e];
        let ghost high = entry.component.raw as nat;
        proof {
            assert forall|c: ComponentId| #[trigger] all.contains_key(c) implies c.raw < low
                || c.raw >= high by {
                let i = choose|i: int|
                    0 <= i < entries@.len() && (#[trigger] entries@[i]).component == c;
                if i > e {
                    assert(entries@[e as int].component.raw < entries@[i].component.raw);
                }
            }
            lemma_listed_gap(all, total, low, high);
            assert(ComponentId { raw: high as u32 } == entry.component);
            assert(all.contains_key(entries@[e as int].component));
            if listed(all, total, high + 1) is Err {
                lemma_listed_fails(all, total, high + 1, end);
            }
        }
        let mut m = entry.moments;
        let rest = total.difference(m.mass);
        let missing = if N::zero().is_below(rest) {
            rest
        } else {
            N::zero()
        };
        match m.add(missing, N::zero()) {
            Ok(_) => {},
            Err(error) => {
                return Err(error);
            },
        }
        ranks.push(m.rank(entry.component));
        proof {
            low = high + 1;
            assert forall|i: int| e + 1 <= i < entries@.len() implies (
            #[trigger] entries@[i]).component.raw >= low by {
                assert(entries@[e as int].component.raw < entries@[i].component.raw);
            }
            assert forall|i: int| 0 <= i < e + 1 implies (
            #[trigger] entries@[i]).component.raw < low by {
                if i < e {
                    assert(entries@[i].component.raw < entries@[e as int].component.raw);
                }
            }
        }
        e = e + 1;
    }
    proof {
        assert forall|c: ComponentId| #[trigger] all.contains_key(c) implies c.raw < low
            || c.raw >= end by {
            let i = choose|i: int|
                0 <= i < entries@.len() && (#[trigger] entries@[i]).component == c;
        }
        lemma_listed_gap(all, total, low, end);
    }
    Ok(arrange::arrange(&ranks))
}

} // verus!
