//! Orders of players: random ones, and the marginals along them.
//!
//! SPDX-License-Identifier: MIT OR Apache-2.0

use crate::attribution::amount::Amount;
use crate::attribution::coalition;
use crate::attribution::error::AttributionError;
use crate::attribution::payoff;
use crate::attribution::payoff::{CoalitionPayoff, Meter, MeterState};
use crate::execution;
use crate::execution::CausalRng;
use vstd::prelude::*;

verus! {

/// Two entries exchanged.
pub open spec fn exchanged(order: Seq<usize>, i: int, j: int) -> Seq<usize> {
    order.update(i, order[j]).update(j, order[i])
}

/// An order and a stream after the entries up to `i` are shuffled: from the last one down,
/// each is exchanged with a random one that does not come after it.
pub open spec fn shuffled(order: Seq<usize>, state: u64, i: nat) -> (Seq<usize>, u64)
    decreases i,
{
    if i == 0 {
        (order, state)
    } else {
        let next = state.wrapping_add(execution::STATE_STEP);
        let j = execution::output(next) as int % (i + 1) as int;
        shuffled(exchanged(order, i as int, j), next, (i - 1) as nat)
    }
}

/// Every number below `n`, once.
pub open spec fn arranges(order: Seq<usize>, n: nat) -> bool {
    &&& order.len() == n
    &&& order.no_duplicates()
    &&& forall|k: int| 0 <= k < n ==> #[trigger] order[k] < n
}

proof fn lemma_shuffle_arranges(order: Seq<usize>, state: u64, i: nat)
    requires
        arranges(order, order.len()),
        i < order.len() || i == 0,
    ensures
        arranges(shuffled(order, state, i).0, order.len()),
    decreases i,
{
    if i > 0 {
        let next = state.wrapping_add(execution::STATE_STEP);
        let j = execution::output(next) as int % (i + 1) as int;
        let swapped = exchanged(order, i as int, j);
        assert(arranges(swapped, order.len()));
        lemma_shuffle_arranges(swapped, next, (i - 1) as nat);
    }
}

/// Shuffle an order.
pub fn shuffle(rng: &mut CausalRng, order: &mut Vec<usize>)
    ensures
        (final(order)@, final(rng).state) == shuffled(
            old(order)@,
            old(rng).state,
            if old(order)@.len() == 0 {
                0
            } else {
                (old(order)@.len() - 1) as nat
            },
        ),
        final(order)@.len() == old(order)@.len(),
{
    if order.len() == 0 {
        return;
    }
    let n: usize = order.len();
    let mut i: usize = n - 1;
    while i > 0
        invariant
            i < n,
            n == order@.len(),
            order@.len() == old(order)@.len(),
            shuffled(order@, rng.state, i as nat) == shuffled(
                old(order)@,
                old(rng).state,
                (old(order)@.len() - 1) as nat,
            ),
        decreases i,
    {
        let ghost before = order@;
        let draw: u64 = rng.next_u64();
        let j: usize = (draw % ((i + 1) as u64)) as usize;
        let first: usize = order[i];
        let second: usize = order[j];
        order.set(i, second);
        order.set(j, first);
        assert(order@ =~= exchanged(before, i as int, j as int));
        i = i - 1;
    }
}

/// Players in their own order.
pub open spec fn natural_order(n: nat) -> Seq<usize> {
    Seq::new(n, |i: int| i as usize)
}

/// State of a stream seeded with `seed` after `k` orders of `n` players are drawn.
pub open spec fn stream_state(seed: u64, n: nat, k: nat) -> u64
    decreases k,
{
    if k == 0 {
        seed ^ execution::STATE_STEP
    } else {
        shuffled(
            natural_order(n),
            stream_state(seed, n, (k - 1) as nat),
            if n == 0 {
                0
            } else {
                (n - 1) as nat
            },
        ).1
    }
}

/// The `k`-th order of `n` players that is drawn from a seed.
pub open spec fn drawn_order(seed: u64, n: nat, k: nat) -> Seq<usize> {
    shuffled(
        natural_order(n),
        stream_state(seed, n, k),
        if n == 0 {
            0
        } else {
            (n - 1) as nat
        },
    ).0
}

/// Every order that is drawn holds each player once.
pub proof fn law_drawn_orders_are_permutations(seed: u64, n: nat, k: nat)
    requires
        n <= 64,
    ensures
        arranges(drawn_order(seed, n, k), n),
{
    let order = natural_order(n);
    assert(arranges(order, n));
    if n > 0 {
        lemma_shuffle_arranges(order, stream_state(seed, n, k), (n - 1) as nat);
    }
}

/// Coalition of the first `k` players of an order.
pub open spec fn along(order: Seq<usize>, k: nat) -> u64
    decreases k,
{
    if k == 0 {
        0
    } else {
        coalition::with_member(along(order, (k - 1) as nat), order[k - 1] as int)
    }
}

/// Coalitions evaluated along the first `k` players of an order.
pub open spec fn order_visits(order: Seq<usize>, k: nat) -> Seq<u64>
    decreases k,
{
    if k == 0 {
        seq![0u64]
    } else {
        order_visits(order, (k - 1) as nat).push(along(order, k))
    }
}

/// What the `k`-th player of an order adds.
pub open spec fn marginal<N: Amount>(
    g: spec_fn(u64) -> Result<N, AttributionError>,
    order: Seq<usize>,
    k: int,
) -> N {
    payoff::worth_of(g, along(order, (k + 1) as nat)).minus(
        payoff::worth_of(g, along(order, k as nat)),
    )
}

/// Marginals of the first `k` players of an order, at the players' own places.
pub open spec fn marginals<N: Amount>(
    g: spec_fn(u64) -> Result<N, AttributionError>,
    order: Seq<usize>,
    k: nat,
) -> Seq<N>
    decreases k,
{
    if k == 0 {
        Seq::new(order.len(), |i: int| N::nil())
    } else {
        marginals(g, order, (k - 1) as nat).update(
            order[k - 1] as int,
            marginal(g, order, k - 1),
        )
    }
}

/// Each player of an order is given its own marginal.
pub proof fn lemma_marginal_of_player<N: Amount>(
    g: spec_fn(u64) -> Result<N, AttributionError>,
    order: Seq<usize>,
    k: nat,
    j: int,
)
    requires
        arranges(order, order.len()),
        0 <= j < k <= order.len(),
    ensures
        marginals(g, order, k).len() == order.len(),
        marginals(g, order, k)[order[j] as int] == marginal(g, order, j),
    decreases k,
{
    lemma_marginals_len(g, order, k);
    lemma_marginals_len(g, order, (k - 1) as nat);
    if j < k - 1 {
        lemma_marginal_of_player(g, order, (k - 1) as nat, j);
        assert(order[j] != order[k - 1]);
    }
}

proof fn lemma_marginals_len<N: Amount>(
    g: spec_fn(u64) -> Result<N, AttributionError>,
    order: Seq<usize>,
    k: nat,
)
    requires
        arranges(order, order.len()),
        k <= order.len(),
    ensures
        marginals(g, order, k).len() == order.len(),
    decreases k,
{
    if k > 0 {
        lemma_marginals_len(g, order, (k - 1) as nat);
    }
}

proof fn lemma_order_prefix(order: Seq<usize>, a: nat, b: nat)
    requires
        a <= b,
    ensures
        order_visits(order, a).is_prefix_of(order_visits(order, b)),
    decreases b,
{
    if a < b {
        lemma_order_prefix(order, a, (b - 1) as nat);
    }
}

/// Evaluate the marginals along an order.
pub fn evaluate_order<N: Amount, P: CoalitionPayoff<N>>(
    order: &Vec<usize>,
    payoff: &mut P,
    meter: &mut Meter<N>,
) -> (r: Result<Vec<N>, AttributionError>)
    requires
        arranges(order@, order@.len()),
        order@.len() <= 64,
        old(payoff).ready(),
        old(meter)@.agrees(payoff::game(*old(payoff))),
    ensures
        final(payoff).ready(),
        payoff::game(*final(payoff)) == payoff::game(*old(payoff)),
        final(meter)@.agrees(payoff::game(*old(payoff))),
        match r {
            Ok(values) => {
                &&& payoff::first_failure(
                    payoff::game(*old(payoff)),
                    order_visits(order@, order@.len()),
                ) is None
                &&& values@ == marginals(payoff::game(*old(payoff)), order@, order@.len())
                &&& final(meter)@ == old(meter)@.visited(
                    payoff::game(*old(payoff)),
                    order_visits(order@, order@.len()),
                )
            },
            Err(error) => payoff::first_failure(
                payoff::game(*old(payoff)),
                order_visits(order@, order@.len()),
            ) == Some(error),
        },
{
    let ghost g = payoff::game(*payoff);
    let ghost start = meter@;
    let n: usize = order.len();
    proof {
        assert(order_visits(order@, 0).drop_last() =~= Seq::empty());
        reveal_with_fuel(MeterState::visited, 2);
        reveal_with_fuel(payoff::first_failure, 2);
    }
    let mut previous = match meter.evaluate(payoff, 0) {
        Ok(value) => value,
        Err(error) => {
            proof {
                lemma_order_prefix(order@, 0, n as nat);
                let all = order_visits(order@, n as nat);
                assert(all.take(1) =~= order_visits(order@, 0));
                payoff::lemma_failure_in_prefix(g, all, 1);
            }
            return Err(error);
        },
    };
    let mut values: Vec<N> = Vec::new();
    while values.len() < n
        invariant
            values@.len() <= n,
            n == order@.len(),
            values@ == Seq::new(values@.len(), |i: int| N::nil()),
        decreases n - values.len(),
    {
        values.push(N::zero());
        assert(values@ =~= Seq::new(values@.len(), |i: int| N::nil()));
    }
    let mut mask: u64 = 0;
    let mut k: usize = 0;
    while k < n
        invariant
            0 <= k <= n <= 64,
            n == order@.len(),
            arranges(order@, n as nat),
            payoff.ready(),
            g == payoff::game(*payoff),
            g == payoff::game(*old(payoff)),
            meter@.agrees(g),
            mask == along(order@, k as nat),
            previous == payoff::worth_of(g, mask),
            values@ == marginals(g, order@, k as nat),
            values@.len() == n,
            payoff::first_failure(g, order_visits(order@, k as nat)) is None,
            meter@ == start.visited(g, order_visits(order@, k as nat)),
        decreases n - k,
    {
        let player: usize = order[k];
        mask = coalition::join(mask, player);
        let ghost seen = order_visits(order@, k as nat);
        proof {
            assert(order_visits(order@, (k + 1) as nat) == seen.push(mask));
            assert(seen.push(mask).drop_last() =~= seen);
        }
        let value = match meter.evaluate(payoff, mask) {
            Ok(value) => value,
            Err(error) => {
                proof {
                    lemma_order_prefix(order@, (k + 1) as nat, n as nat);
                    let all = order_visits(order@, n as nat);
                    assert(all.take(seen.len() as int + 1) =~= seen.push(mask));
                    payoff::lemma_failure_in_prefix(g, all, seen.len() as int + 1);
                }
                return Err(error);
            },
        };
        values.set(player, value.difference(previous));
        previous = value;
        k = k + 1;
    }
    Ok(values)
}

} // verus!
