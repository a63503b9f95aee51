//! Coalitions of players and a cache of their payoffs.
//!
//! SPDX-License-Identifier: MIT OR Apache-2.0

use crate::attribution::amount::Amount;
use crate::attribution::error::AttributionError;
use crate::attribution::result::CacheStats;
use crate::execution::CachePolicy;
use std::collections::HashMap;
use vstd::arithmetic::power2;
use vstd::prelude::*;

verus! {

broadcast use vstd::std_specs::hash::group_hash_axioms;

/// Largest game whose payoffs are held in a table with one slot per coalition.
pub const DENSE_MASK_MAX_PLAYERS: usize = 16;

/// Bytes charged for one cached payoff.
pub const ENTRY_BYTES: u64 = 32;

/// Whether player `i` is in coalition `mask`.
pub open spec fn member(mask: u64, i: int) -> bool {
    mask & (1u64 << (i as u64)) != 0
}

/// Coalition `mask` with player `i` added.
pub open spec fn with_member(mask: u64, i: int) -> u64 {
    mask | (1u64 << (i as u64))
}

/// Coalition `mask` with player `i` taken out.
pub open spec fn without_member(mask: u64, i: int) -> u64 {
    mask & !(1u64 << (i as u64))
}

/// Number of players below `n` in coalition `mask`.
pub open spec fn size(mask: u64, n: nat) -> nat
    decreases n,
{
    if n == 0 {
        0
    } else {
        size(mask, (n - 1) as nat) + if member(mask, n - 1) {
            1nat
        } else {
            0
        }
    }
}

/// Whether player `i` is in coalition `mask`.
#[must_use]
pub fn contains(mask: u64, i: usize) -> (yes: bool)
    requires
        i < 64,
    ensures
        yes == member(mask, i as int),
{
    mask & (1u64 << (i as u64)) != 0
}

/// Coalition `mask` with player `i` added.
#[must_use]
pub fn join(mask: u64, i: usize) -> (joined: u64)
    requires
        i < 64,
    ensures
        joined == with_member(mask, i as int),
{
    mask | (1u64 << (i as u64))
}

/// Coalition `mask` with player `i` taken out.
#[must_use]
pub fn leave(mask: u64, i: usize) -> (left: u64)
    requires
        i < 64,
    ensures
        left == without_member(mask, i as int),
{
    mask & !(1u64 << (i as u64))
}

/// Number of players below `n` in coalition `mask`.
#[must_use]
pub fn coalition_size(mask: u64, n: usize) -> (count: usize)
    requires
        n <= 64,
    ensures
        count == size(mask, n as nat),
        count <= n,
{
    let mut count: usize = 0;
    let mut i: usize = 0;
    while i < n
        invariant
            0 <= i <= n <= 64,
            count == size(mask, i as nat),
            count <= i,
        decreases n - i,
    {
        if contains(mask, i) {
            count = count + 1;
        }
        i = i + 1;
    }
    count
}

/// Players come and go one at a time.
pub proof fn lemma_one_player(mask: u64, i: int, j: int)
    requires
        0 <= i < 64,
        0 <= j < 64,
    ensures
        member(with_member(mask, i), j) == (i == j || member(mask, j)),
        member(without_member(mask, i), j) == (i != j && member(mask, j)),
        !member(0, j),
{
    let a = i as u64;
    let b = j as u64;
    assert(a == b || (1u64 << a) & (1u64 << b) == 0) by (bit_vector)
        requires
            a < 64,
            b < 64,
    ;
    assert((1u64 << b) != 0) by (bit_vector)
        requires
            b < 64,
    ;
    let p = 1u64 << a;
    let q = 1u64 << b;
    assert(((mask | p) & q != 0) == (p == q || mask & q != 0)) by (bit_vector)
        requires
            p == q || p & q == 0,
            q != 0,
    ;
    assert(((mask & !p) & q != 0) == (p != q && mask & q != 0)) by (bit_vector)
        requires
            p == q || p & q == 0,
            q != 0,
    ;
    if a != b {
        assert(p != q) by (bit_vector)
            requires
                p & q == 0,
                q != 0,
        ;
    }
    assert(0u64 & q == 0) by (bit_vector);
}

/// A player's bit is a power of two; membership is a binary digit.
pub proof fn lemma_digit(mask: u64, i: int)
    requires
        0 <= i < 64,
    ensures
        member(mask, i) == ((mask as int / power2::pow2(i as nat) as int) % 2 == 1),
        !member(mask, i) ==> with_member(mask, i) == mask + power2::pow2(i as nat),
        member(mask, i) ==> without_member(mask, i) == mask - power2::pow2(i as nat),
        (1u64 << (i as u64)) == power2::pow2(i as nat),
{
    let a = i as u64;
    vstd::bits::lemma_u64_shr_is_div(mask, a);
    power2::lemma_pow2_strictly_increases(i as nat, 64);
    power2::lemma2_to64();
    vstd::bits::lemma_u64_shl_is_mul(1, a);
    assert((mask & (1u64 << a) != 0) == ((mask >> a) % 2 == 1)) by (bit_vector)
        requires
            a < 64,
    ;
    let p = 1u64 << a;
    assert(mask & p == 0 ==> (mask | p) == mask + p) by (bit_vector);
    assert(mask & p == p ==> (mask & !p) == mask - p) by (bit_vector);
    assert(mask & p == 0 || mask & p == p) by (bit_vector)
        requires
            p == 1u64 << a,
            a < 64,
    ;
}

/// Coalition of all of up to 64 players.
pub fn full_coalition_mask(n_players: usize) -> (r: Result<u64, AttributionError>)
    ensures
        n_players <= 64 ==> (r matches Ok(mask) && mask == power2::pow2(n_players as nat) - 1),
        n_players > 64 ==> r == Err::<u64, _>(
            AttributionError::SizeLimit { kind: "components", requested: n_players, max: 64 },
        ),
{
    proof {
        power2::lemma2_to64();
        if 0 < n_players < 64 {
            power2::lemma_pow2_strictly_increases(n_players as nat, 64);
            power2::lemma_pow2_pos(n_players as nat);
            vstd::bits::lemma_u64_shl_is_mul(1, n_players as u64);
        }
    }
    if n_players == 0 {
        Ok(0)
    } else if n_players < 64 {
        Ok((1u64 << (n_players as u64)) - 1)
    } else if n_players == 64 {
        Ok(u64::MAX)
    } else {
        Err(AttributionError::SizeLimit { kind: "components", requested: n_players, max: 64 })
    }
}

/// Key of a cached payoff.
///
/// The bits of `mask` select the components that use the comparison mechanism; `tag`
/// tells model pairings or path contexts apart.
#[derive(Clone, Copy, Debug, PartialEq, Eq, Hash, Structural)]
pub struct CoalitionKey {
    /// Coalition.
    pub mask: u64,
    /// What the payoff is about.
    pub tag: u64,
}

impl CoalitionKey {
    /// One number per key.
    pub open spec fn number(self) -> u128 {
        (self.tag * 0x1_0000_0000_0000_0000 + self.mask) as u128
    }

    fn packed(self) -> (number: u128)
        ensures
            number == self.number(),
    {
        self.tag as u128 * 0x1_0000_0000_0000_0000 + self.mask as u128
    }
}

/// State of a cache.
#[verifier::ext_equal]
pub struct CacheState<N> {
    /// Whether payoffs are kept at all.
    pub enabled: bool,
    /// Bytes that may be charged, if bounded.
    pub max_bytes: Option<u64>,
    /// Bytes charged.
    pub used_bytes: u64,
    /// Payoffs by the number of their key.
    pub sparse: Map<u128, N>,
    /// Payoffs of untagged coalitions, one slot each.
    pub dense: Option<Seq<Option<N>>>,
    /// Lookups that found a value.
    pub hits: u64,
    /// Lookups that found none.
    pub misses: u64,
    /// Whether a payoff was refused for want of room.
    pub saturated: bool,
}

/// A counter one further; it stops at the end of its range.
pub open spec fn bumped(n: u64) -> u64 {
    if n == u64::MAX {
        n
    } else {
        (n + 1) as u64
    }
}

/// Number of occupied slots.
pub open spec fn occupied<N>(slots: Seq<Option<N>>) -> nat
    decreases slots.len(),
{
    if slots.len() == 0 {
        0
    } else {
        occupied(slots.drop_last()) + if slots.last() is Some {
            1nat
        } else {
            0
        }
    }
}

impl<N> CacheState<N> {
    /// An empty cache.
    pub open spec fn fresh(policy: CachePolicy) -> Self {
        CacheState {
            enabled: policy.enabled,
            max_bytes: policy.max_bytes,
            used_bytes: 0,
            sparse: Map::empty(),
            dense: None,
            hits: 0,
            misses: 0,
            saturated: false,
        }
    }

    /// Whether a key has a slot of its own.
    pub open spec fn slotted(self, key: CoalitionKey) -> bool {
        key.tag == 0 && self.dense is Some && key.mask < self.dense->0.len()
    }

    /// What a lookup finds.
    pub open spec fn found(self, key: CoalitionKey) -> Option<N> {
        if !self.enabled {
            None
        } else if self.slotted(key) {
            self.dense->0[key.mask as int]
        } else if self.sparse.contains_key(key.number()) {
            Some(self.sparse[key.number()])
        } else {
            None
        }
    }

    /// The cache after a lookup.
    pub open spec fn asked(self, key: CoalitionKey) -> Self {
        if self.found(key) is Some {
            CacheState { hits: bumped(self.hits), ..self }
        } else {
            CacheState { misses: bumped(self.misses), ..self }
        }
    }

    /// Whether a new key would exceed the budget.
    pub open spec fn full(self) -> bool {
        self.max_bytes matches Some(max) && self.used_bytes + ENTRY_BYTES > max
    }

    /// The cache after a payoff is offered: an absent key is refused where the budget is
    /// spent, a present one is replaced.
    pub open spec fn offered(self, key: CoalitionKey, value: N) -> Self {
        if !self.enabled {
            self
        } else if self.found(key) is None && self.full() {
            CacheState { saturated: true, ..self }
        } else {
            let charged = if self.found(key) is Some {
                self.used_bytes
            } else if self.used_bytes + ENTRY_BYTES > u64::MAX {
                u64::MAX
            } else {
                (self.used_bytes + ENTRY_BYTES) as u64
            };
            if self.slotted(key) {
                CacheState {
                    dense: Some(self.dense->0.update(key.mask as int, Some(value))),
                    used_bytes: charged,
                    ..self
                }
            } else {
                CacheState {
                    sparse: self.sparse.insert(key.number(), value),
                    used_bytes: charged,
                    ..self
                }
            }
        }
    }

    /// The cache after a table for `n_players` is asked for.
    pub open spec fn indexed(self, n_players: usize) -> Self {
        if !self.enabled || n_players == 0 || n_players > DENSE_MASK_MAX_PLAYERS {
            self
        } else {
            CacheState {
                dense: Some(Seq::new(power2::pow2(n_players as nat), |i: int| None)),
                ..self
            }
        }
    }

    /// Number of payoffs held; it stops at the end of its range.
    pub open spec fn entries(self) -> u64 {
        let dense = match self.dense {
            Some(slots) => occupied(slots),
            None => 0,
        };
        if self.sparse.len() + dense > u64::MAX {
            u64::MAX
        } else {
            (self.sparse.len() + dense) as u64
        }
    }

    /// Statistics of the cache.
    pub open spec fn summary(self) -> CacheStats {
        CacheStats {
            hits: self.hits,
            misses: self.misses,
            entries: self.entries(),
            bytes: self.used_bytes,
            saturated: self.saturated,
        }
    }
}

/// A payoff that is not refused is found again; every other key keeps what it had.
pub proof fn law_offered_payoff_is_found<N>(
    cache: CacheState<N>,
    key: CoalitionKey,
    value: N,
    other: CoalitionKey,
)
    requires
        cache.enabled,
        cache.found(key) is Some || !cache.full(),
    ensures
        cache.offered(key, value).found(key) == Some(value),
        other != key ==> cache.offered(key, value).found(other) == cache.found(other),
{
    if other != key {
        assert(other.number() != key.number());
    }
}

/// A refused payoff changes nothing but the mark of saturation.
pub proof fn law_refused_payoff_is_not_kept<N>(
    cache: CacheState<N>,
    key: CoalitionKey,
    value: N,
    other: CoalitionKey,
)
    requires
        cache.enabled,
        cache.found(key) is None,
        cache.full(),
    ensures
        cache.offered(key, value).saturated,
        cache.offered(key, value).found(other) == cache.found(other),
        cache.offered(key, value).entries() == cache.entries(),
        cache.offered(key, value).used_bytes == cache.used_bytes,
{
}

/// A disabled cache never finds and never keeps anything.
pub proof fn law_disabled_cache_always_misses<N>(
    cache: CacheState<N>,
    key: CoalitionKey,
    value: N,
    other: CoalitionKey,
)
    requires
        !cache.enabled,
    ensures
        cache.found(key) is None,
        cache.offered(key, value) == cache,
        cache.offered(key, value).found(other) is None,
{
}

/// Saturation is sticky: no operation takes it back.
pub proof fn law_saturation_is_sticky<N>(
    cache: CacheState<N>,
    key: CoalitionKey,
    value: N,
    n_players: usize,
)
    requires
        cache.saturated,
    ensures
        cache.asked(key).saturated,
        cache.offered(key, value).saturated,
        cache.indexed(n_players).saturated,
{
}

/// A cache within its budget stays within it.
pub proof fn law_budget_is_kept<N>(cache: CacheState<N>, key: CoalitionKey, value: N)
    requires
        cache.max_bytes matches Some(max) && cache.used_bytes <= max,
    ensures
        cache.offered(key, value).max_bytes == cache.max_bytes,
        cache.offered(key, value).used_bytes <= cache.max_bytes->0,
{
}

/// A lookup changes no payoff.
pub proof fn law_lookup_keeps_payoffs<N>(
    cache: CacheState<N>,
    key: CoalitionKey,
    other: CoalitionKey,
)
    ensures
        cache.asked(key).found(other) == cache.found(other),
{
}

/// Number of payoffs held, without end.
pub open spec fn held<N>(cache: CacheState<N>) -> nat {
    cache.sparse.len() + match cache.dense {
        Some(slots) => occupied(slots),
        None => 0,
    }
}

/// Every payoff that is held is charged once.
pub open spec fn is_charged<N>(cache: CacheState<N>) -> bool {
    &&& cache.sparse.dom().finite()
    &&& cache.used_bytes == ENTRY_BYTES * held(cache)
}

proof fn lemma_occupied_update<N>(slots: Seq<Option<N>>, at: int, value: N)
    requires
        0 <= at < slots.len(),
    ensures
        occupied(slots.update(at, Some(value))) == occupied(slots) + if slots[at] is Some {
            0int
        } else {
            1
        },
    decreases slots.len(),
{
    let after = slots.update(at, Some(value));
    if at == slots.len() - 1 {
        assert(after.drop_last() =~= slots.drop_last());
    } else {
        assert(after.drop_last() =~= slots.drop_last().update(at, Some(value)));
        lemma_occupied_update(slots.drop_last(), at, value);
    }
}

/// As long as its counter is not full, a cache holds 32 bytes for each entry: lookups and
/// offers keep it so.
pub proof fn law_every_entry_is_charged<N>(cache: CacheState<N>, key: CoalitionKey, value: N)
    requires
        is_charged(cache),
        cache.used_bytes + ENTRY_BYTES <= u64::MAX,
    ensures
        is_charged(cache.asked(key)),
        is_charged(cache.offered(key, value)),
        cache.offered(key, value).used_bytes <= cache.used_bytes + ENTRY_BYTES,
        cache.summary().bytes == 32 * cache.summary().entries,
        cache.offered(key, value).summary().bytes == 32 * cache.offered(
            key,
            value,
        ).summary().entries,
{
    let after = cache.offered(key, value);
    if cache.enabled && !(cache.found(key) is None && cache.full()) {
        if cache.slotted(key) {
            lemma_occupied_update(cache.dense->0, key.mask as int, value);
        } else if cache.sparse.contains_key(key.number()) {
            assert(after.sparse.dom() =~= cache.sparse.dom());
        } else {
            assert(after.sparse.dom() =~= cache.sparse.dom().insert(key.number()));
        }
    }
}

/// One use of a cache.
pub enum CacheUse<N> {
    /// A lookup.
    Get(CoalitionKey),
    /// An offer.
    Insert(CoalitionKey, N),
}

/// The cache after some uses.
pub open spec fn used<N>(cache: CacheState<N>, uses: Seq<CacheUse<N>>) -> CacheState<N>
    decreases uses.len(),
{
    if uses.len() == 0 {
        cache
    } else {
        let before = used(cache, uses.drop_last());
        match uses.last() {
            CacheUse::Get(key) => before.asked(key),
            CacheUse::Insert(key, value) => before.offered(key, value),
        }
    }
}

/// After any lookups and offers, as many as the counter has room for, a cache holds 32 bytes
/// for each entry and is within its budget.
pub proof fn law_used_caches_are_charged_and_within_budget<N>(
    policy: CachePolicy,
    uses: Seq<CacheUse<N>>,
)
    requires
        ENTRY_BYTES * (uses.len() + 1) <= u64::MAX,
    ensures
        ({
            let cache = used(CacheState::<N>::fresh(policy), uses);
            &&& is_charged(cache)
            &&& cache.enabled == policy.enabled
            &&& cache.max_bytes == policy.max_bytes
            &&& cache.dense is None
            &&& cache.used_bytes <= ENTRY_BYTES * uses.len()
            &&& cache.summary().bytes == 32 * cache.summary().entries
            &&& policy.max_bytes matches Some(max) ==> cache.summary().bytes <= max
        }),
    decreases uses.len(),
{
    if uses.len() == 0 {
        assert(Map::<u128, N>::empty().dom() =~= Set::empty());
    } else {
        let rest = uses.drop_last();
        law_used_caches_are_charged_and_within_budget(policy, rest);
        let before = used(CacheState::<N>::fresh(policy), rest);
        match uses.last() {
            CacheUse::Get(key) => {
                assert(before.asked(key).summary().entries == before.summary().entries);
            },
            CacheUse::Insert(key, value) => {
                law_every_entry_is_charged(before, key, value);
            },
        }
    }
}

/// After any lookups and offers, an offered payoff is found again if its key was held or
/// there is room for it; else it is refused and the refusal is on record. Every other key
/// keeps what it had, each entry is charged once, and the budget is kept.
pub proof fn law_offers_to_used_caches<N>(
    policy: CachePolicy,
    uses: Seq<CacheUse<N>>,
    key: CoalitionKey,
    value: N,
    other: CoalitionKey,
)
    requires
        policy.enabled,
        other != key,
        ENTRY_BYTES * (uses.len() + 2) <= u64::MAX,
    ensures
        ({
            let before = used(CacheState::<N>::fresh(policy), uses);
            let after = before.offered(key, value);
            let room = match policy.max_bytes {
                Some(max) => before.used_bytes + 32 <= max,
                None => true,
            };
            &&& after.summary().bytes == 32 * after.summary().entries
            &&& policy.max_bytes matches Some(max) ==> after.summary().bytes <= max
            &&& before.found(key) is Some || room ==> after.found(key) == Some(value)
                && after.saturated == before.saturated
            &&& before.found(key) is None && !room ==> after.found(key) is None && after.saturated
            &&& after.found(other) == before.found(other)
        }),
{
    let before = used(CacheState::<N>::fresh(policy), uses);
    law_used_caches_are_charged_and_within_budget(policy, uses);
    law_every_entry_is_charged(before, key, value);
    if before.found(key) is Some || !before.full() {
        law_offered_payoff_is_found(before, key, value, other);
    } else {
        law_refused_payoff_is_not_kept(before, key, value, other);
    }
}

/// No lookups or offers take a mark of saturation back.
pub proof fn law_saturation_outlasts_any_use<N>(cache: CacheState<N>, uses: Seq<CacheUse<N>>)
    requires
        cache.saturated,
    ensures
        used(cache, uses).saturated,
    decreases uses.len(),
{
    if uses.len() > 0 {
        law_saturation_outlasts_any_use(cache, uses.drop_last());
    }
}

/// Cache of payoffs, keyed by coalition.
#[verifier::reject_recursive_types(N)]
pub struct CoalitionCache<N> {
    /// Whether payoffs are kept at all.
    pub enabled: bool,
    /// Bytes that may be charged, if bounded.
    pub max_bytes: Option<u64>,
    /// Bytes charged.
    pub used_bytes: u64,
    /// Payoffs by the number of their key.
    pub map: HashMap<u128, N>,
    /// Payoffs of untagged coalitions, one slot each.
    pub dense: Option<Vec<Option<N>>>,
    /// Lookups that found a value.
    pub hits: u64,
    /// Lookups that found none.
    pub misses: u64,
    /// Whether a payoff was refused for want of room.
    pub saturated: bool,
}

impl<N> View for CoalitionCache<N> {
    type V = CacheState<N>;

    open spec fn view(&self) -> CacheState<N> {
        CacheState {
            enabled: self.enabled,
            max_bytes: self.max_bytes,
            used_bytes: self.used_bytes,
            sparse: self.map@,
            dense: match self.dense {
                Some(slots) => Some(slots@),
                None => None,
            },
            hits: self.hits,
            misses: self.misses,
            saturated: self.saturated,
        }
    }
}

impl<N: Amount> CoalitionCache<N> {
    /// An empty cache that follows a policy.
    #[must_use]
    pub fn from_policy(policy: CachePolicy) -> (cache: Self)
        ensures
            cache@ == CacheState::<N>::fresh(policy),
    {
        CoalitionCache {
            enabled: policy.enabled,
            max_bytes: policy.max_bytes,
            used_bytes: 0,
            map: HashMap::new(),
            dense: None,
            hits: 0,
            misses: 0,
            saturated: false,
        }
    }

    /// A cache that always misses.
    #[must_use]
    pub fn disabled() -> (cache: Self)
        ensures
            cache@ == CacheState::<N>::fresh(CachePolicy { enabled: false, max_bytes: None }),
    {
        CoalitionCache::from_policy(CachePolicy::disabled())
    }

    /// Hold untagged payoffs in a table, for a game small enough to be enumerated.
    pub fn enable_dense_index(&mut self, n_players: usize)
        ensures
            final(self)@ == old(self)@.indexed(n_players),
    {
        if !self.enabled || n_players == 0 || n_players > DENSE_MASK_MAX_PLAYERS {
            return;
        }
        proof {
            power2::lemma2_to64();
            if n_players < 16 {
                power2::lemma_pow2_strictly_increases(n_players as nat, 16);
            }
            vstd::bits::lemma_usize_shl_is_mul(1, n_players);
        }
        let count: usize = 1usize << n_players;
        let mut slots: Vec<Option<N>> = Vec::new();
        while slots.len() < count
            invariant
                slots@.len() <= count,
                slots@ == Seq::new(slots@.len(), |i: int| None::<N>),
            decreases count - slots.len(),
        {
            slots.push(None);
            assert(slots@ =~= Seq::new(slots@.len(), |i: int| None::<N>));
        }
        self.dense = Some(slots);
        assert(self@ =~= old(self)@.indexed(n_players));
    }

    fn dense_slot(&self, key: CoalitionKey) -> (slot: Option<usize>)
        ensures
            slot == if self@.slotted(key) {
                Some(key.mask as usize)
            } else {
                None
            },
            slot matches Some(index) ==> index == key.mask && index < self.dense->0@.len(),
    {
        if key.tag != 0 {
            return None;
        }
        match &self.dense {
            Some(slots) => if key.mask < slots.len() as u64 {
                Some(key.mask as usize)
            } else {
                None
            },
            None => None,
        }
    }

    fn peek(&self, key: CoalitionKey) -> (value: Option<N>)
        ensures
            value == self@.found(key),
    {
        if !self.enabled {
            return None;
        }
        if let Some(index) = self.dense_slot(key) {
            return match &self.dense {
                Some(slots) => slots[index],
                None => None,
            };
        }
        match self.map.get(&key.packed()) {
            Some(value) => Some(*value),
            None => None,
        }
    }

    /// Look a payoff up.
    pub fn get(&mut self, key: CoalitionKey) -> (value: Option<N>)
        ensures
            value == old(self)@.found(key),
            final(self)@ == old(self)@.asked(key),
    {
        let value = self.peek(key);
        if value.is_some() {
            self.hits = self.hits.saturating_add(1);
        } else {
            self.misses = self.misses.saturating_add(1);
        }
        assert(self@ =~= old(self)@.asked(key));
        value
    }

    /// Offer a payoff. A new key is refused where the budget is spent, and the refusal
    /// stays on record.
    pub fn insert(&mut self, key: CoalitionKey, value: N)
        ensures
            final(self)@ == old(self)@.offered(key, value),
    {
        if !self.enabled {
            return;
        }
        let replacing = self.peek(key).is_some();
        if !replacing {
            if let Some(max) = self.max_bytes {
                if max < ENTRY_BYTES || self.used_bytes > max - ENTRY_BYTES {
                    self.saturated = true;
                    assert(self@ =~= old(self)@.offered(key, value));
                    return;
                }
            }
        }
        let slot = self.dense_slot(key);
        if !replacing {
            self.used_bytes = self.used_bytes.saturating_add(ENTRY_BYTES);
        }
        match slot {
            Some(index) => {
                if let Some(mut slots) = self.dense.take() {
                    slots.set(index, Some(value));
                    self.dense = Some(slots);
                }
            },
            None => {
                self.map.insert(key.packed(), value);
            },
        }
        assert(self@ =~= old(self)@.offered(key, value));
    }

    /// Statistics of the cache.
    #[must_use]
    pub fn stats(&self) -> (stats: CacheStats)
        ensures
            stats == self@.summary(),
    {
        let mut dense: u64 = 0;
        if let Some(slots) = &self.dense {
            let mut i: usize = 0;
            assert(slots@.take(0) =~= Seq::empty());
            while i < slots.len()
                invariant
                    0 <= i <= slots.len(),
                    dense == occupied(slots@.take(i as int)),
                    dense <= i,
                decreases slots.len() - i,
            {
                if slots[i].is_some() {
                    dense = dense + 1;
                }
                i = i + 1;
                assert(slots@.take(i as int).drop_last() =~= slots@.take(i - 1));
            }
            assert(slots@.take(slots@.len() as int) =~= slots@);
        }
        CacheStats {
            hits: self.hits,
            misses: self.misses,
            entries: (self.map.len() as u64).saturating_add(dense),
            bytes: self.used_bytes,
            saturated: self.saturated,
        }
    }
}

} // verus!
