//! Payoffs of coalitions and their metered evaluation.
//!
//! SPDX-License-Identifier: MIT OR Apache-2.0

use crate::attribution::amount::Amount;
use crate::attribution::coalition::{CacheState, CoalitionCache, CoalitionKey};
use crate::attribution::coalition;
use crate::attribution::error::AttributionError;
use crate::execution::CachePolicy;
use vstd::prelude::*;

verus! {

/// Payoff of a coalition, given as a bitmask: bit `i` says that player `i` is present.
///
/// A payoff depends on the coalition alone; evaluating it twice gives one result.
pub trait CoalitionPayoff<N: Amount> {
    /// Whether coalitions can be evaluated.
    open spec fn ready(&self) -> bool {
        true
    }

    /// What coalition `mask` is worth, or why that cannot be said.
    open spec fn worth(&self, mask: u64) -> Result<N, AttributionError> {
        arbitrary()
    }

    /// Evaluate coalition `mask`.
    fn value(&mut self, mask: u64) -> (r: Result<N, AttributionError>)
        requires
            old(self).ready(),
        ensures
            final(self).ready(),
            r == old(self).worth(mask),
            forall|m: u64| #[trigger] final(self).worth(m) == old(self).worth(m),
    ;
}

/// A game: what every coalition is worth.
pub open spec fn game<N: Amount, P: CoalitionPayoff<N>>(payoff: P) -> spec_fn(
    u64,
) -> Result<N, AttributionError> {
    |mask: u64| payoff.worth(mask)
}

/// What a coalition is worth, where that can be said.
pub open spec fn worth_of<N>(g: spec_fn(u64) -> Result<N, AttributionError>, mask: u64) -> N {
    g(mask)->Ok_0
}

/// The first failure among coalitions that are evaluated in turn.
pub open spec fn first_failure<N>(
    g: spec_fn(u64) -> Result<N, AttributionError>,
    masks: Seq<u64>,
) -> Option<AttributionError>
    decreases masks.len(),
{
    if masks.len() == 0 {
        None
    } else if first_failure(g, masks.drop_last()) is Some {
        first_failure(g, masks.drop_last())
    } else {
        match g(masks.last()) {
            Ok(_) => None,
            Err(error) => Some(error),
        }
    }
}

/// More evaluations do not change the first failure.
pub proof fn lemma_failure_in_prefix<N>(
    g: spec_fn(u64) -> Result<N, AttributionError>,
    masks: Seq<u64>,
    k: int,
)
    requires
        0 <= k <= masks.len(),
        first_failure(g, masks.take(k)) is Some,
    ensures
        first_failure(g, masks) == first_failure(g, masks.take(k)),
    decreases masks.len(),
{
    if k < masks.len() {
        assert(masks.drop_last().take(k) =~= masks.take(k));
        lemma_failure_in_prefix(g, masks.drop_last(), k);
    } else {
        assert(masks.take(k) =~= masks);
    }
}

/// Nothing fails exactly if every coalition can be evaluated.
pub proof fn lemma_no_failure<N>(
    g: spec_fn(u64) -> Result<N, AttributionError>,
    masks: Seq<u64>,
)
    ensures
        first_failure(g, masks) is None <==> forall|k: int|
            0 <= k < masks.len() ==> g(#[trigger] masks[k]) is Ok,
    decreases masks.len(),
{
    if masks.len() > 0 {
        let rest = masks.drop_last();
        lemma_no_failure(g, rest);
        if first_failure(g, masks) is None {
            assert forall|k: int| 0 <= k < masks.len() implies g(#[trigger] masks[k]) is Ok by {
                if k < rest.len() {
                    assert(rest[k] == masks[k]);
                }
            }
        } else if first_failure(g, rest) is Some {
            let k = choose|k: int| 0 <= k < rest.len() && g(#[trigger] rest[k]) is Err;
            assert(masks[k] == rest[k]);
        } else {
            assert(g(masks[masks.len() - 1]) is Err);
        }
    }
}

/// One list of evaluations after another.
pub proof fn lemma_failure_of_sum<N>(
    g: spec_fn(u64) -> Result<N, AttributionError>,
    first: Seq<u64>,
    second: Seq<u64>,
)
    ensures
        first_failure(g, first + second) == if first_failure(g, first) is Some {
            first_failure(g, first)
        } else {
            first_failure(g, second)
        },
    decreases second.len(),
{
    if second.len() == 0 {
        assert(first + second =~= first);
    } else {
        assert((first + second).drop_last() =~= first + second.drop_last());
        lemma_failure_of_sum(g, first, second.drop_last());
    }
}

/// State of a meter: the cache, and how often a payoff was evaluated.
#[verifier::ext_equal]
pub struct MeterState<N> {
    /// Cache.
    pub cache: CacheState<N>,
    /// Evaluations; the count stops at the end of its range.
    pub evaluations: u64,
}

impl<N> MeterState<N> {
    /// An unused meter.
    pub open spec fn fresh(policy: CachePolicy) -> Self {
        MeterState { cache: CacheState::fresh(policy), evaluations: 0 }
    }

    /// The meter after a coalition worth `value` is evaluated.
    pub open spec fn after(self, mask: u64, value: N) -> Self {
        let key = CoalitionKey { mask, tag: 0 };
        if self.cache.found(key) is Some {
            MeterState { cache: self.cache.asked(key), ..self }
        } else {
            MeterState {
                cache: self.cache.asked(key).offered(key, value),
                evaluations: coalition::bumped(self.evaluations),
            }
        }
    }

    /// The meter after coalitions are evaluated in turn.
    pub open spec fn visited(
        self,
        g: spec_fn(u64) -> Result<N, AttributionError>,
        masks: Seq<u64>,
    ) -> Self
        decreases masks.len(),
    {
        if masks.len() == 0 {
            self
        } else {
            self.visited(g, masks.drop_last()).after(masks.last(), worth_of(g, masks.last()))
        }
    }

    /// What is cached for a coalition.
    pub open spec fn kept(self, mask: u64) -> Option<N> {
        self.cache.found(CoalitionKey { mask, tag: 0 })
    }

    /// Everything cached is what the game says.
    pub open spec fn agrees(self, g: spec_fn(u64) -> Result<N, AttributionError>) -> bool {
        forall|mask: u64|
            #![trigger self.kept(mask)]
            self.kept(mask) is Some ==> g(mask) == Ok::<N, AttributionError>(self.kept(mask)->0)
    }
}

/// Evaluation of payoffs through a cache.
#[verifier::reject_recursive_types(N)]
pub struct Meter<N> {
    /// Cache.
    pub cache: CoalitionCache<N>,
    /// Evaluations.
    pub evaluations: u64,
}

impl<N> View for Meter<N> {
    type V = MeterState<N>;

    open spec fn view(&self) -> MeterState<N> {
        MeterState { cache: self.cache@, evaluations: self.evaluations }
    }
}

impl<N: Amount> Meter<N> {
    /// An unused meter.
    #[must_use]
    pub fn new(policy: CachePolicy) -> (meter: Self)
        ensures
            meter@ == MeterState::<N>::fresh(policy),
            forall|g: spec_fn(u64) -> Result<N, AttributionError>| #[trigger] meter@.agrees(g),
    {
        Meter { cache: CoalitionCache::from_policy(policy), evaluations: 0 }
    }

    /// Evaluate a coalition, or take its payoff from the cache.
    pub fn evaluate<P: CoalitionPayoff<N>>(&mut self, payoff: &mut P, mask: u64) -> (r: Result<
        N,
        AttributionError,
    >)
        requires
            old(payoff).ready(),
            old(self)@.agrees(game(*old(payoff))),
        ensures
            final(payoff).ready(),
            game(*final(payoff)) == game(*old(payoff)),
            final(self)@.agrees(game(*old(payoff))),
            r == game(*old(payoff))(mask),
            r matches Ok(value) ==> final(self)@ == old(self)@.after(mask, value),
    {
        let ghost g = game(*payoff);
        let ghost before = self@;
        let key = CoalitionKey { mask, tag: 0 };
        let cached = self.cache.get(key);
        let ghost asked = self@;
        proof {
            assert forall|m: u64| #[trigger] asked.kept(m) == before.kept(m) by {
                coalition::law_lookup_keeps_payoffs(
                    before.cache,
                    key,
                    CoalitionKey { mask: m, tag: 0 },
                );
            }
            assert(before.kept(mask) == cached);
        }
        if let Some(value) = cached {
            return Ok(value);
        }
        let evaluated = payoff.value(mask);
        proof {
            assert(game(*payoff) =~= g);
        }
        match evaluated {
            Ok(value) => {
                self.evaluations = self.evaluations.saturating_add(1);
                self.cache.insert(key, value);
                proof {
                    assert forall|m: u64| #[trigger] self@.kept(m) is Some implies g(m) == Ok::<
                        N,
                        AttributionError,
                    >(self@.kept(m)->0) by {
                        let other = CoalitionKey { mask: m, tag: 0 };
                        let cache = asked.cache;
                        assert(asked.kept(m) == before.kept(m));
                        if cache.enabled && (cache.found(key) is Some || !cache.full()) {
                            coalition::law_offered_payoff_is_found(cache, key, value, other);
                        } else if cache.enabled {
                            coalition::law_refused_payoff_is_not_kept(cache, key, value, other);
                        }
                    }
                    assert(self@ =~= before.after(mask, value));
                }
                Ok(value)
            },
            Err(error) => Err(error),
        }
    }
}

} // verus!
