//! Allocation along one fixed order.
//!
//! SPDX-License-Identifier: MIT OR Apache-2.0

use crate::attribution::amount::Amount;
use crate::attribution::coalition;
use crate::attribution::error::AttributionError;
use crate::attribution::orders;
use crate::attribution::payoff;
use crate::attribution::payoff::{CoalitionPayoff, Meter, MeterState};
use crate::attribution::result::{ComputeBudget, InteractionTerm};
use crate::attribution::shapley;
use crate::attribution::shapley::ShapleyEstimate;
use crate::execution::ExecutionContext;
use crate::ids::ComponentId;
use vstd::prelude::*;

verus! {

/// Message for an order that names a component twice.
pub const DUPLICATE_COMPONENTS: &'static str =
    "sequential allocation order contains duplicate components";

/// First place of a component among the first `k` players.
pub open spec fn place_below(
    players: Seq<ComponentId>,
    component: ComponentId,
    k: nat,
) -> Option<usize>
    decreases k,
{
    if k == 0 {
        None
    } else {
        match place_below(players, component, (k - 1) as nat) {
            Some(place) => Some(place),
            None => if players[k - 1] == component {
                Some((k - 1) as usize)
            } else {
                None
            },
        }
    }
}

/// Place of a component among the players.
#[verifier::opaque]
pub open spec fn place_of(players: Seq<ComponentId>, component: ComponentId) -> Option<usize> {
    place_below(players, component, players.len())
}

proof fn lemma_place_below(players: Seq<ComponentId>, component: ComponentId, k: nat)
    requires
        k <= players.len() <= usize::MAX,
    ensures
        match place_below(players, component, k) {
            Some(place) => {
                &&& place < k
                &&& players[place as int] == component
                &&& forall|j: int| 0 <= j < place ==> #[trigger] players[j] != component
            },
            None => forall|j: int| 0 <= j < k ==> #[trigger] players[j] != component,
        },
    decreases k,
{
    if k > 0 {
        lemma_place_below(players, component, (k - 1) as nat);
    }
}

/// The place of a component is the first that holds it; a component without a place is no
/// player.
pub proof fn lemma_place(players: Seq<ComponentId>, component: ComponentId)
    requires
        players.len() <= usize::MAX,
    ensures
        match place_of(players, component) {
            Some(place) => {
                &&& place < players.len()
                &&& players[place as int] == component
                &&& forall|j: int| 0 <= j < place ==> #[trigger] players[j] != component
            },
            None => !players.contains(component),
        },
{
    reveal(place_of);
    lemma_place_below(players, component, players.len());
}

/// A component without a place is no player.
pub proof fn lemma_no_place(players: Seq<ComponentId>, component: ComponentId)
    requires
        place_of(players, component) is None,
    ensures
        !players.contains(component),
{
    reveal(place_of);
    lemma_none_below(players, component, players.len());
}

proof fn lemma_none_below(players: Seq<ComponentId>, component: ComponentId, k: nat)
    requires
        k <= players.len(),
        place_below(players, component, k) is None,
    ensures
        forall|j: int| 0 <= j < k ==> #[trigger] players[j] != component,
    decreases k,
{
    if k > 0 {
        lemma_none_below(players, component, (k - 1) as nat);
    }
}

/// Place of a component among the players.
pub fn position_of(players: &[ComponentId], component: ComponentId) -> (place: Option<usize>)
    ensures
        place == place_of(players@, component),
        place matches Some(i) ==> i < players@.len() && players@[i as int] == component,
{
    proof {
        reveal(place_of);
    }
    let mut i: usize = 0;
    while i < players.len()
        invariant
            0 <= i <= players.len(),
            place_below(players@, component, i as nat) is None,
        decreases players.len() - i,
    {
        if players[i] == component {
            proof {
                reveal(place_of);
                lemma_place_below(players@, component, players@.len());
                lemma_place_below(players@, component, i as nat);
            }
            return Some(i);
        }
        i = i + 1;
    }
    None
}

/// Places of components among players.
pub open spec fn seating(players: Seq<ComponentId>) -> spec_fn(ComponentId) -> Option<usize> {
    |component: ComponentId| place_of(players, component)
}

/// Players of an order, by place.
pub open spec fn seats(
    order: Seq<ComponentId>,
    at: spec_fn(ComponentId) -> Option<usize>,
) -> Seq<usize> {
    Seq::new(order.len(), |k: int| at(order[k])->0)
}

/// Coalition without the player before the `k`-th.
pub open spec fn skipped(seats: Seq<usize>, k: int) -> u64 {
    coalition::without_member(orders::along(seats, k as nat), seats[k - 1] as int)
}

/// Coalitions evaluated for the `k`-th component: with it, and from the second one on
/// without the one before it, first without and then with the component itself.
pub open spec fn step_visits(seats: Seq<usize>, k: int) -> Seq<u64> {
    if k == 0 {
        seq![orders::along(seats, 1)]
    } else {
        seq![
            orders::along(seats, (k + 1) as nat),
            skipped(seats, k),
            coalition::with_member(skipped(seats, k), seats[k] as int),
        ]
    }
}

/// Coalitions evaluated for the first `k` components.
pub open spec fn sequence_visits(seats: Seq<usize>, k: nat) -> Seq<u64>
    decreases k,
{
    if k == 0 {
        seq![0u64]
    } else {
        sequence_visits(seats, (k - 1) as nat) + step_visits(seats, k - 1)
    }
}

/// Why the `k`-th component is refused before a payoff is evaluated for it.
pub open spec fn seat_refusal(
    order: Seq<ComponentId>,
    at: spec_fn(ComponentId) -> Option<usize>,
    k: int,
) -> Option<AttributionError> {
    match at(order[k]) {
        None => Some(AttributionError::UnknownPlayer),
        Some(place) => if place >= 64 {
            Some(
                AttributionError::SizeLimit {
                    kind: "components",
                    requested: if place == usize::MAX {
                        usize::MAX
                    } else {
                        (place + 1) as usize
                    },
                    max: 64,
                },
            )
        } else if coalition::member(orders::along(seats(order, at), k as nat), place as int) {
            Some(AttributionError::InvalidInput { message: DUPLICATE_COMPONENTS })
        } else {
            None
        },
    }
}

/// The first failure of the first `k` steps: each component is refused or its payoffs are
/// evaluated before the next one is looked at.
pub open spec fn sequence_failure<N>(
    g: spec_fn(u64) -> Result<N, AttributionError>,
    order: Seq<ComponentId>,
    at: spec_fn(ComponentId) -> Option<usize>,
    k: nat,
) -> Option<AttributionError>
    decreases k,
{
    if k == 0 {
        payoff::first_failure(g, seq![0u64])
    } else {
        let before = sequence_failure(g, order, at, (k - 1) as nat);
        if before is Some {
            before
        } else if seat_refusal(order, at, k - 1) is Some {
            seat_refusal(order, at, k - 1)
        } else {
            payoff::first_failure(g, step_visits(seats(order, at), k - 1))
        }
    }
}

/// What the `k`-th component and the one before it add together beyond what each adds
/// alone.
pub open spec fn interaction<N: Amount>(
    g: spec_fn(u64) -> Result<N, AttributionError>,
    seats: Seq<usize>,
    k: int,
) -> N {
    payoff::worth_of(g, orders::along(seats, (k + 1) as nat)).minus(
        payoff::worth_of(g, orders::along(seats, k as nat)),
    ).minus(
        payoff::worth_of(g, coalition::with_member(skipped(seats, k), seats[k] as int)),
    ).plus(payoff::worth_of(g, skipped(seats, k)))
}

/// Marginals along an order, interactions of neighbours, and the work spent on them.
pub open spec fn is_sequence_estimate<N: Amount>(
    estimate: ShapleyEstimate<N>,
    order: Seq<ComponentId>,
    at: spec_fn(ComponentId) -> Option<usize>,
    g: spec_fn(u64) -> Result<N, AttributionError>,
    meter: MeterState<N>,
) -> bool {
    let seated = seats(order, at);
    let spent = meter.visited(g, sequence_visits(seated, order.len()));
    &&& estimate.players@ == order
    &&& estimate.values@ == Seq::new(order.len(), |k: int| orders::marginal(g, seated, k))
    &&& estimate.interactions@ == Seq::new(
        (order.len() - 1) as nat,
        |k: int|
            InteractionTerm {
                a: order[k],
                b: order[k + 1],
                value: interaction(g, seated, k + 1),
            },
    )
    &&& estimate.budget == ComputeBudget {
        evaluations: spent.evaluations,
        samples: 0,
        exact_coalitions: 0,
    }
    &&& estimate.monte_carlo_stderr is None
    &&& estimate.component_mc_stderr is None
    &&& estimate.cache_stats == spent.cache.summary()
}

proof fn lemma_failure_stays<N>(
    g: spec_fn(u64) -> Result<N, AttributionError>,
    order: Seq<ComponentId>,
    at: spec_fn(ComponentId) -> Option<usize>,
    k: nat,
    n: nat,
)
    requires
        k <= n,
        sequence_failure(g, order, at, k) is Some,
    ensures
        sequence_failure(g, order, at, n) == sequence_failure(g, order, at, k),
    decreases n,
{
    if k < n {
        lemma_failure_stays(g, order, at, k, (n - 1) as nat);
    }
}

proof fn lemma_visit<N>(
    meter: MeterState<N>,
    g: spec_fn(u64) -> Result<N, AttributionError>,
    seen: Seq<u64>,
    mask: u64,
)
    ensures
        meter.visited(g, seen.push(mask)) == meter.visited(g, seen).after(
            mask,
            payoff::worth_of(g, mask),
        ),
        payoff::first_failure(g, seen) is None ==> payoff::first_failure(g, seen.push(mask))
            == match g(mask) {
            Ok(_) => None,
            Err(error) => Some(error),
        },
{
    assert(seen.push(mask).drop_last() =~= seen);
}

/// Numbering of components as players.
pub trait PlayerIndex: Sized {
    /// Place of a component, where it is a player.
    open spec fn place(&self, component: ComponentId) -> Option<usize> {
        arbitrary()
    }

    /// Place of a component.
    fn index_of(&self, component: ComponentId) -> (place: Option<usize>)
        ensures
            place == self.place(component),
    ;
}

/// Players are numbered as they are listed.
impl<'a> PlayerIndex for &'a [ComponentId] {
    open spec fn place(&self, component: ComponentId) -> Option<usize> {
        place_of(self@, component)
    }

    fn index_of(&self, component: ComponentId) -> Option<usize> {
        position_of(self, component)
    }
}

/// Places by a numbering.
pub open spec fn numbering<I: PlayerIndex>(index: I) -> spec_fn(ComponentId) -> Option<usize> {
    |component: ComponentId| index.place(component)
}

/// Successive marginals along `order`, and the interaction of each component with the one
/// before it.
///
/// A component joins coalitions at the place that `player_index` gives it.
pub fn sequential_allocate<N: Amount, P: CoalitionPayoff<N>, I: PlayerIndex>(
    order: &[ComponentId],
    player_index: &I,
    payoff: &mut P,
    ctx: &ExecutionContext,
) -> (r: Result<ShapleyEstimate<N>, AttributionError>)
    requires
        old(payoff).ready(),
    ensures
        final(payoff).ready(),
        payoff::game(*final(payoff)) == payoff::game(*old(payoff)),
        order@.len() == 0 ==> r == Err::<ShapleyEstimate<N>, _>(
            AttributionError::InvalidInput { message: "sequential order is empty" },
        ),
        order@.len() > 0 ==> match r {
            Ok(estimate) => {
                &&& sequence_failure(
                    payoff::game(*old(payoff)),
                    order@,
                    numbering(*player_index),
                    order@.len(),
                ) is None
                &&& is_sequence_estimate(
                    estimate,
                    order@,
                    numbering(*player_index),
                    payoff::game(*old(payoff)),
                    MeterState::fresh(ctx.cache_policy),
                )
            },
            Err(error) => sequence_failure(
                payoff::game(*old(payoff)),
                order@,
                numbering(*player_index),
                order@.len(),
            ) == Some(error),
        },
{
    if order.len() == 0 {
        return Err(AttributionError::invalid_input("sequential order is empty"));
    }
    let ghost g = payoff::game(*payoff);
    let ghost at = numbering(*player_index);
    let ghost seated = seats(order@, at);
    let n: usize = order.len();
    let mut meter: Meter<N> = Meter::new(ctx.cache_policy);
    let ghost start = meter@;
    proof {
        lemma_visit(start, g, Seq::empty(), 0);
        assert(Seq::<u64>::empty().push(0u64) =~= seq![0u64]);
    }
    let mut previous = match meter.evaluate(payoff, 0) {
        Ok(value) => value,
        Err(error) => {
            proof {
                lemma_failure_stays(g, order@, at, 0, n as nat);
            }
            return Err(error);
        },
    };
    let mut mask: u64 = 0;
    let mut values: Vec<N> = Vec::new();
    let mut interactions: Vec<InteractionTerm<N>> = Vec::new();
    let mut neighbour: usize = 0;
    let mut k: usize = 0;
    while k < n
        invariant
            0 <= k <= n,
            n == order@.len(),
            at == numbering(*player_index),
            seated == seats(order@, at),
            payoff.ready(),
            g == payoff::game(*payoff),
            g == payoff::game(*old(payoff)),
            start == MeterState::<N>::fresh(ctx.cache_policy),
            meter@.agrees(g),
            meter@ == start.visited(g, sequence_visits(seated, k as nat)),
            sequence_failure(g, order@, at, k as nat) is None,
            mask == orders::along(seated, k as nat),
            previous == payoff::worth_of(g, mask),
            k > 0 ==> neighbour < 64 && neighbour == seated[k - 1],
            values@ == Seq::new(k as nat, |j: int| orders::marginal(g, seated, j)),
            interactions@ == Seq::new(
                if k == 0 {
                    0
                } else {
                    (k - 1) as nat
                },
                |j: int|
                    InteractionTerm {
                        a: order@[j],
                        b: order@[j + 1],
                        value: interaction(g, seated, j + 1),
                    },
            ),
        decreases n - k,
    {
        let component = order[k];
        let ghost done = sequence_visits(seated, k as nat);
        let found = player_index.index_of(component);
        proof {
            assert(at(order@[k as int]) == found);
            lemma_step(g, order@, at, k as nat, n as nat);
        }
        let place: usize = match found {
            Some(place) => place,
            None => {
                return Err(AttributionError::UnknownPlayer);
            },
        };
        if place >= 64 {
            return Err(
                AttributionError::SizeLimit {
                    kind: "components",
                    requested: place.saturating_add(1),
                    max: 64,
                },
            );
        }
        if coalition::contains(mask, place) {
            return Err(AttributionError::invalid_input(DUPLICATE_COMPONENTS));
        }
        let before_mask: u64 = mask;
        mask = coalition::join(mask, place);
        proof {
            lemma_visit(start, g, done, mask);
            lemma_visit(start, g, Seq::empty(), mask);
            assert(seated[k as int] == place);
            if k == 0 {
                assert(done + step_visits(seated, 0) =~= done.push(mask));
                assert(step_visits(seated, 0) =~= Seq::empty().push(mask));
            } else {
                assert(step_visits(seated, k as int).take(1) =~= Seq::empty().push(mask));
            }
        }
        let value = match meter.evaluate(payoff, mask) {
            Ok(value) => value,
            Err(error) => {
                proof {
                    let step = step_visits(seated, k as int);
                    assert(step.take(1) =~= Seq::empty().push(mask));
                    payoff::lemma_failure_in_prefix(g, step, 1);
                }
                return Err(error);
            },
        };
        values.push(value.difference(previous));
        assert(values@ =~= Seq::new((k + 1) as nat, |j: int| orders::marginal(g, seated, j)));
        if k > 0 {
            let without: u64 = coalition::leave(before_mask, neighbour);
            let alone: u64 = coalition::join(without, place);
            let ghost first = Seq::<u64>::empty().push(mask);
            let ghost second = first.push(without);
            let ghost third = second.push(alone);
            proof {
                lemma_visit(start, g, done.push(mask), without);
                lemma_visit(start, g, done.push(mask).push(without), alone);
                lemma_visit(start, g, first, without);
                lemma_visit(start, g, second, alone);
                assert(step_visits(seated, k as int) =~= third);
                assert(done + third =~= done.push(mask).push(without).push(alone));
            }
            let base = match meter.evaluate(payoff, without) {
                Ok(value) => value,
                Err(error) => {
                    proof {
                        assert(third.take(2) =~= second);
                        payoff::lemma_failure_in_prefix(g, third, 2);
                    }
                    return Err(error);
                },
            };
            let single = match meter.evaluate(payoff, alone) {
                Ok(value) => value,
                Err(error) => {
                    return Err(error);
                },
            };
            interactions.push(
                InteractionTerm {
                    a: order[k - 1],
                    b: component,
                    value: value.difference(previous).difference(single).sum(base),
                },
            );
        }
        assert(interactions@ =~= Seq::new(
            k as nat,
            |j: int|
                InteractionTerm {
                    a: order@[j],
                    b: order@[j + 1],
                    value: interaction(g, seated, j + 1),
                },
        ));
        neighbour = place;
        previous = value;
        k = k + 1;
    }
    Ok(
        ShapleyEstimate {
            players: shapley::copied_components(order),
            values,
            interactions,
            budget: ComputeBudget {
                evaluations: meter.evaluations,
                samples: 0,
                exact_coalitions: 0,
            },
            monte_carlo_stderr: None,
            component_mc_stderr: None,
            cache_stats: meter.cache.stats(),
        },
    )
}

/// A failure of one step is the failure of the whole walk.
proof fn lemma_step<N>(
    g: spec_fn(u64) -> Result<N, AttributionError>,
    order: Seq<ComponentId>,
    at: spec_fn(ComponentId) -> Option<usize>,
    k: nat,
    n: nat,
)
    requires
        k < n,
        sequence_failure(g, order, at, k) is None,
    ensures
        seat_refusal(order, at, k as int) is Some ==> sequence_failure(g, order, at, n)
            == seat_refusal(order, at, k as int),
        seat_refusal(order, at, k as int) is None && payoff::first_failure(
            g,
            step_visits(seats(order, at), k as int),
        ) is Some ==> sequence_failure(g, order, at, n) == payoff::first_failure(
            g,
            step_visits(seats(order, at), k as int),
        ),
{
    if sequence_failure(g, order, at, k + 1) is Some {
        lemma_failure_stays(g, order, at, k + 1, n);
    }
}

} // verus!
