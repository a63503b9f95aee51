//! Execution context: parallelism, determinism, random streams, budgets, kernel policy.
//!
//! No rule here creates a thread pool, uses an implicit global generator, or
//! selects architecture-specific behavior outside [`KernelPolicy`].
//!
//! SPDX-License-Identifier: MIT OR Apache-2.0

use crate::identity::{ContractIdentities, SemanticDigest};
use crate::level;
use crate::level::OrderedFloatBits;
use std::sync::atomic::{AtomicBool, Ordering};
use std::sync::Arc;
use vstd::prelude::*;

pub mod chunks;

verus! {

/// Parallel execution budget.
#[derive(Clone, Copy, Debug, PartialEq, Eq, Hash, Structural)]
pub struct Parallelism {
    /// Maximum worker threads (1 is serial).
    pub max_threads: NonZeroThreadCount,
}

/// Thread count that is at least one.
#[derive(Clone, Copy, Debug, PartialEq, Eq, PartialOrd, Ord, Hash, Structural)]
pub struct NonZeroThreadCount {
    count: u32,
}

impl NonZeroThreadCount {
    /// The count.
    pub closed spec fn value(self) -> u32 {
        self.count
    }

    #[verifier::type_invariant]
    spec fn positive(self) -> bool {
        self.count >= 1
    }

    /// Create from a positive thread count.
    #[must_use]
    pub fn new(n: u32) -> (made: Option<Self>)
        ensures
            match made {
                Some(count) => n != 0 && count.value() == n,
                None => n == 0,
            },
    {
        if n == 0 {
            None
        } else {
            Some(NonZeroThreadCount { count: n })
        }
    }

    /// Single-threaded execution.
    #[must_use]
    pub fn one() -> (count: Self)
        ensures
            count.value() == 1,
    {
        NonZeroThreadCount { count: 1 }
    }

    /// Underlying count, at least one.
    #[must_use]
    pub fn get(self) -> (n: u32)
        ensures
            n == self.value(),
            n >= 1,
    {
        proof {
            use_type_invariant(&self);
        }
        self.count
    }
}

/// Cap on the default user thread count. An explicit request may exceed it.
pub const DEFAULT_USER_THREAD_CAP: u32 = 16;

/// Default worker count for the product path: the hardware parallelism that the
/// caller found (`None` where it could not be found), kept between one and
/// [`DEFAULT_USER_THREAD_CAP`].
#[must_use]
pub fn default_user_threads(available: Option<usize>) -> (n: u32)
    ensures
        n == match available {
            Some(found) => if found < 1 {
                1
            } else if found > DEFAULT_USER_THREAD_CAP {
                DEFAULT_USER_THREAD_CAP
            } else {
                found as u32
            },
            None => 1,
        },
        1 <= n <= DEFAULT_USER_THREAD_CAP,
{
    match available {
        None => 1,
        Some(found) => {
            if found < 1 {
                1
            } else if found > 16 {
                DEFAULT_USER_THREAD_CAP
            } else {
                found as u32
            }
        },
    }
}

impl Parallelism {
    /// Serial execution.
    #[must_use]
    pub fn serial() -> (made: Self)
        ensures
            made.max_threads.value() == 1,
    {
        Parallelism { max_threads: NonZeroThreadCount::one() }
    }

    /// Bounded parallelism.
    #[must_use]
    pub fn bounded(max_threads: NonZeroThreadCount) -> (made: Self)
        ensures
            made.max_threads == max_threads,
    {
        Parallelism { max_threads }
    }

    /// [`default_user_threads`] as a [`Parallelism`].
    #[must_use]
    pub fn default_user(available: Option<usize>) -> (made: Self)
        ensures
            made.max_threads.value() == match available {
                Some(found) => if found < 1 {
                    1
                } else if found > DEFAULT_USER_THREAD_CAP {
                    DEFAULT_USER_THREAD_CAP
                } else {
                    found as u32
                },
                None => 1,
            },
    {
        let max_threads = match NonZeroThreadCount::new(default_user_threads(available)) {
            Some(count) => count,
            None => NonZeroThreadCount::one(),
        };
        Parallelism { max_threads }
    }
}

/// Determinism requirements for reductions and scheduling.
#[derive(Clone, Copy, Debug, PartialEq, Eq, Hash, Structural)]
pub enum Determinism {
    /// Prefer the fastest path; reductions may be nondeterministic.
    PreferFast,
    /// Require bitwise-reproducible results for a fixed seed and thread count.
    Strict,
}

/// Memory budget for planned allocations.
#[derive(Clone, Copy, Debug, PartialEq, Eq, Hash, Structural)]
pub struct MemoryBudget {
    /// Soft limit in bytes; planners should refuse or stream above this.
    pub soft_limit_bytes: Option<u64>,
    /// Hard limit in bytes; exceeding is a resource error.
    pub hard_limit_bytes: Option<u64>,
}

impl MemoryBudget {
    /// Unlimited budget (still subject to system limits).
    #[must_use]
    pub fn unlimited() -> (made: Self)
        ensures
            made == (MemoryBudget { soft_limit_bytes: None, hard_limit_bytes: None }),
    {
        MemoryBudget { soft_limit_bytes: None, hard_limit_bytes: None }
    }
}

/// Whether an architecture-SIMD kernel path is compiled into this build.
///
/// Kernel dispatch and execution identity both read it, so a request for SIMD
/// that cannot be honored is neither run nor recorded as if it were.
pub const ARCH_SIMD_COMPILED: bool = false;

/// Kernel selection policy.
#[derive(Clone, Copy, Debug, PartialEq, Eq, Hash, Structural)]
pub struct KernelPolicy {
    /// Allow portable optimized kernels.
    pub allow_portable_optimized: bool,
    /// Allow architecture-specific SIMD after feature detection.
    pub allow_arch_simd: bool,
    /// Force the scalar reference path.
    pub force_scalar: bool,
}

impl KernelPolicy {
    /// Default: optimized allowed, SIMD allowed, scalar not forced.
    #[must_use]
    pub fn default_policy() -> (made: Self)
        ensures
            made == (KernelPolicy {
                allow_portable_optimized: true,
                allow_arch_simd: true,
                force_scalar: false,
            }),
    {
        KernelPolicy { allow_portable_optimized: true, allow_arch_simd: true, force_scalar: false }
    }

    /// Force scalar kernels only.
    #[must_use]
    pub fn scalar_only() -> (made: Self)
        ensures
            made == (KernelPolicy {
                allow_portable_optimized: false,
                allow_arch_simd: false,
                force_scalar: true,
            }),
    {
        KernelPolicy { allow_portable_optimized: false, allow_arch_simd: false, force_scalar: true }
    }

    /// Whether SIMD is both allowed and available in this build.
    #[must_use]
    pub fn arch_simd_effective(&self) -> (yes: bool)
        ensures
            yes == (self.allow_arch_simd && ARCH_SIMD_COMPILED && !self.force_scalar),
    {
        self.allow_arch_simd && ARCH_SIMD_COMPILED && !self.force_scalar
    }
}

/// Cache usage policy.
#[derive(Clone, Copy, Debug, PartialEq, Eq, Hash, Structural)]
pub struct CachePolicy {
    /// Whether semantic caches may be used.
    pub enabled: bool,
    /// Maximum cache bytes, if bounded.
    pub max_bytes: Option<u64>,
}

impl CachePolicy {
    /// Caching disabled.
    #[must_use]
    pub fn disabled() -> (made: Self)
        ensures
            made == (CachePolicy { enabled: false, max_bytes: None }),
    {
        CachePolicy { enabled: false, max_bytes: None }
    }

    /// Caching enabled with optional byte cap.
    #[must_use]
    pub fn enabled(max_bytes: Option<u64>) -> (made: Self)
        ensures
            made == (CachePolicy { enabled: true, max_bytes }),
    {
        CachePolicy { enabled: true, max_bytes }
    }
}

/// Bounded cache budget for incremental causal state.
#[derive(Clone, Copy, Debug, PartialEq, Eq, Hash, Structural)]
pub struct CacheBudget {
    /// Maximum retained cache bytes.
    pub max_bytes: u64,
    /// Bytes currently retained.
    pub used_bytes: u64,
}

impl CacheBudget {
    /// Fresh budget with `max_bytes` capacity and zero usage.
    #[must_use]
    pub fn new(max_bytes: u64) -> (made: Self)
        ensures
            made == (CacheBudget { max_bytes, used_bytes: 0 }),
    {
        CacheBudget { max_bytes, used_bytes: 0 }
    }

    /// Unlimited soft budget (still subject to system limits).
    #[must_use]
    pub fn unlimited() -> (made: Self)
        ensures
            made == (CacheBudget { max_bytes: u64::MAX, used_bytes: 0 }),
    {
        CacheBudget { max_bytes: u64::MAX, used_bytes: 0 }
    }

    /// Remaining capacity in bytes; zero once the budget is overdrawn.
    #[must_use]
    pub fn remaining(self) -> (left: u64)
        ensures
            left == if self.used_bytes <= self.max_bytes {
                self.max_bytes - self.used_bytes
            } else {
                0
            },
    {
        self.max_bytes.saturating_sub(self.used_bytes)
    }

    /// Whether `additional` bytes would fit under the budget, with the sum capped
    /// at the largest count.
    #[must_use]
    pub fn can_admit(self, additional: u64) -> (yes: bool)
        ensures
            yes == (if self.used_bytes + additional <= u64::MAX {
                self.used_bytes + additional <= self.max_bytes
            } else {
                self.max_bytes == u64::MAX
            }),
    {
        self.used_bytes.saturating_add(additional) <= self.max_bytes
    }
}

/// A budget admits exactly what remains, as long as it is not overdrawn and the
/// sum can be counted.
pub proof fn law_budget_admits_what_remains(budget: CacheBudget, additional: u64)
    requires
        budget.used_bytes <= budget.max_bytes,
        budget.used_bytes + additional <= u64::MAX,
    ensures
        budget.used_bytes + additional <= budget.max_bytes <==> additional <= budget.max_bytes
            - budget.used_bytes,
{
}

/// Shared Monte Carlo and approximate-compute budget report.
#[derive(Clone, Debug, PartialEq)]
pub struct MonteCarloBudget {
    /// Scalar or batch evaluations performed.
    pub evaluations: u64,
    /// Monte Carlo samples drawn.
    pub samples: u64,
    /// Exact enumerations performed, if any.
    pub exact_enumerations: u64,
}

impl Default for MonteCarloBudget {
    fn default() -> (made: Self)
        ensures
            made == (MonteCarloBudget { evaluations: 0, samples: 0, exact_enumerations: 0 }),
    {
        MonteCarloBudget { evaluations: 0, samples: 0, exact_enumerations: 0 }
    }
}

/// Per-estimate Monte Carlo uncertainty summary.
#[derive(Clone, Copy, Debug, PartialEq)]
pub struct MonteCarloError {
    /// Estimated standard error of the reported score.
    pub stderr: OrderedFloatBits,
    /// Samples contributing to this estimate.
    pub samples: u64,
}

/// Opt-in bootstrap early-stop budget bounded by Monte Carlo error.
///
/// A bootstrap standard error computed from `B` replicates carries a relative
/// Monte Carlo error of about `1 / sqrt(2 (B - 1))`. The only honest stopping rule
/// is a replicate floor: after [`Self::required_replicates`] successful replicates
/// the loop stops. The cap remains the requested replicate count, so a request
/// below the floor is evaluated in full.
#[derive(Clone, Copy, Debug, PartialEq, Eq, Structural)]
pub struct AdaptiveBootstrapBudget {
    /// When false, evaluate all requested replicates (no early stop).
    pub enabled: bool,
    /// Minimum successful replicates before an early stop is eligible.
    pub min_replicates: u32,
    /// Target relative Monte Carlo error of the standard error. Zero or negative
    /// never stops.
    pub se_rel_epsilon: OrderedFloatBits,
}

/// Bit pattern of `0.05`.
pub const FIVE_PERCENT_BITS: u64 = 0x3fa9_9999_9999_999a;

/// Bit pattern of `10000.0`.
pub const TEN_THOUSAND_BITS: u64 = 0x40c3_8800_0000_0000;

impl AdaptiveBootstrapBudget {
    /// Enabled defaults: stop once the relative Monte Carlo error of the bootstrap
    /// standard error is at most five percent.
    #[must_use]
    pub fn enabled_default() -> (made: Self)
        ensures
            made == (AdaptiveBootstrapBudget {
                enabled: true,
                min_replicates: 2,
                se_rel_epsilon: OrderedFloatBits { bits: FIVE_PERCENT_BITS },
            }),
    {
        AdaptiveBootstrapBudget {
            enabled: true,
            min_replicates: 2,
            se_rel_epsilon: OrderedFloatBits::from_bits(FIVE_PERCENT_BITS),
        }
    }

    /// Force the full requested replicate count.
    #[must_use]
    pub fn disabled() -> (made: Self)
        ensures
            made == (AdaptiveBootstrapBudget {
                enabled: false,
                min_replicates: 0,
                se_rel_epsilon: OrderedFloatBits { bits: 0 },
            }),
    {
        AdaptiveBootstrapBudget {
            enabled: false,
            min_replicates: 0,
            se_rel_epsilon: OrderedFloatBits::zero(),
        }
    }

    /// Whether the budget can ever stop a loop; a NaN target reads as "never".
    pub open spec fn stops(self) -> bool {
        self.enabled && (OrderedFloatBits { bits: 0 }).lt(self.se_rel_epsilon)
    }

    /// Successful replicates after which an enabled budget may stop, given the
    /// error bound `ceil(1 + 1 / (2 eps^2))` of its target, saturated at the
    /// largest count: the largest of the bound, the explicit floor, and two. A
    /// budget that is disabled or whose target is not positive never stops.
    #[must_use]
    pub fn required_replicates(&self, error_bound: u32) -> (n: u32)
        ensures
            n == if !self.stops() {
                u32::MAX
            } else if error_bound >= self.min_replicates && error_bound >= 2 {
                error_bound
            } else if self.min_replicates >= 2 {
                self.min_replicates
            } else {
                2
            },
            n >= 2 && n >= error_bound && n >= self.min_replicates,
            self.enabled && (OrderedFloatBits { bits: 0 }).lt(self.se_rel_epsilon) ==> n == 2 || n
                == error_bound || n == self.min_replicates,
            !self.enabled ==> n == u32::MAX,
    {
        let positive = OrderedFloatBits::zero().less(self.se_rel_epsilon);
        if !self.enabled || !positive {
            return u32::MAX;
        }
        let floor: u32 = if error_bound >= self.min_replicates {
            error_bound
        } else {
            self.min_replicates
        };
        if floor >= 2 {
            floor
        } else {
            2
        }
    }
}

impl Default for AdaptiveBootstrapBudget {
    /// Disabled, like every constructor: early stopping is opt-in.
    fn default() -> (made: Self)
        ensures
            !made.enabled,
            made.min_replicates == 0,
            made.se_rel_epsilon.bits == 0,
            !made.stops(),
    {
        AdaptiveBootstrapBudget::disabled()
    }
}

/// Opt-in Bayesian draw budget.
///
/// When enabled, redraws stop once the effective sample size reaches
/// [`Self::ess_target`] after at least [`Self::min_draws`]; the requested count
/// remains the cap.
#[derive(Clone, Copy, Debug, PartialEq, Eq, Structural)]
pub struct AdaptiveDrawBudget {
    /// When false, materialize the full requested draw count.
    pub enabled: bool,
    /// Minimum draws before an early stop is eligible.
    pub min_draws: usize,
    /// Retained for stability; not consulted.
    pub quantile_width_rel_epsilon: OrderedFloatBits,
    /// Stop when the effective sample size reaches this target.
    pub ess_target: OrderedFloatBits,
}

impl AdaptiveDrawBudget {
    /// Enabled defaults: at least 32 draws, stop at an effective size of 10 000.
    #[must_use]
    pub fn enabled_default() -> (made: Self)
        ensures
            made == (AdaptiveDrawBudget {
                enabled: true,
                min_draws: 32,
                quantile_width_rel_epsilon: OrderedFloatBits { bits: 0 },
                ess_target: OrderedFloatBits { bits: TEN_THOUSAND_BITS },
            }),
    {
        AdaptiveDrawBudget {
            enabled: true,
            min_draws: 32,
            quantile_width_rel_epsilon: OrderedFloatBits::zero(),
            ess_target: OrderedFloatBits::from_bits(TEN_THOUSAND_BITS),
        }
    }

    /// Force the full requested draw count.
    #[must_use]
    pub fn disabled() -> (made: Self)
        ensures
            made == (AdaptiveDrawBudget {
                enabled: false,
                min_draws: 0,
                quantile_width_rel_epsilon: OrderedFloatBits { bits: 0 },
                ess_target: OrderedFloatBits { bits: 0 },
            }),
    {
        AdaptiveDrawBudget {
            enabled: false,
            min_draws: 0,
            quantile_width_rel_epsilon: OrderedFloatBits::zero(),
            ess_target: OrderedFloatBits::zero(),
        }
    }
}

impl Default for AdaptiveDrawBudget {
    /// Disabled, like every constructor: early stopping is opt-in.
    fn default() -> (made: Self)
        ensures
            !made.enabled,
            made.min_draws == 0,
            made.quantile_width_rel_epsilon.bits == 0,
            made.ess_target.bits == 0,
    {
        AdaptiveDrawBudget::disabled()
    }
}

/// What a token answers from.
#[derive(Clone, Debug)]
enum Signal {
    /// A flag that every copy of the token shares.
    Flag(Arc<AtomicBool>),
    /// An answer given once and for all.
    Fixed(bool),
}

/// Cooperative cancellation token. Copies made by `clone` share one flag.
///
/// What the flag holds changes behind a shared reference, from any thread, so a
/// read of it says nothing that later code could rely on. A settled token has no
/// flag: what it answers is known.
#[derive(Clone, Debug)]
pub struct CancellationToken {
    signal: Signal,
}

impl CancellationToken {
    /// What a settled token answers; `None` for one that holds a flag.
    pub closed spec fn answer(self) -> Option<bool> {
        match self.signal {
            Signal::Flag(_) => None,
            Signal::Fixed(answer) => Some(answer),
        }
    }

    /// Create a fresh token.
    #[must_use]
    pub fn new() -> (token: Self)
        ensures
            token.answer() is None,
    {
        CancellationToken { signal: Signal::Flag(Arc::new(AtomicBool::new(false))) }
    }

    /// A token that gives one answer whoever asks: work that nothing can cancel, or
    /// that is cancelled from the start. [`Self::cancel`] leaves it as it is.
    #[must_use]
    pub fn settled(answer: bool) -> (token: Self)
        ensures
            token.answer() == Some(answer),
    {
        CancellationToken { signal: Signal::Fixed(answer) }
    }

    /// A token on the same flag.
    #[must_use]
    pub fn share(&self) -> (shared: Self)
        ensures
            shared == *self,
    {
        match &self.signal {
            Signal::Flag(flag) => CancellationToken { signal: Signal::Flag(flag.clone()) },
            Signal::Fixed(answer) => CancellationToken { signal: Signal::Fixed(*answer) },
        }
    }

    /// Request cancellation.
    pub fn cancel(&self) {
        match &self.signal {
            Signal::Flag(flag) => flag.store(true, Ordering::SeqCst),
            Signal::Fixed(_) => {},
        }
    }

    /// Whether cancellation was requested.
    #[must_use]
    pub fn is_cancelled(&self) -> (yes: bool)
        ensures
            self.answer() matches Some(answer) ==> yes == answer,
    {
        match &self.signal {
            Signal::Flag(flag) => flag.load(Ordering::SeqCst),
            Signal::Fixed(answer) => *answer,
        }
    }
}

/// Closed set of random-stream domains.
///
/// Indexed families use [`RngFactory::stream_for`] with a variant of their own:
/// additive family offsets would collide across domains.
#[derive(Clone, Copy, Debug, PartialEq, Eq, Hash, Structural)]
pub enum StreamDomain {
    /// Independent, block, cluster or Bayesian bootstrap replicates.
    Resample,
    /// Lag-aligned temporal block-bootstrap families.
    TemporalBlock,
    /// Bayesian draw and posterior simulation streams.
    Bayesian,
    /// Structure-MCMC chains.
    McmcStructure,
    /// Order-MCMC chains.
    McmcOrder,
    /// Dynamic-network posterior MCMC chains.
    McmcDbn,
    /// Graph-completion and identified-set posterior streams.
    Completion,
    /// Counterfactual abduction, action and prediction noise.
    Counterfactual,
    /// Attribution Monte Carlo arms.
    Attribution,
    /// Design ranking and allocation draws.
    Design,
    /// Statistical transport and retargeting draws.
    Transport,
    /// Conditional-independence null Monte Carlo.
    StatsCi,
    /// Learner-internal randomness.
    Learner,
    /// Estimator-local streams.
    Estimate,
    /// Temporal mediation block streams.
    Mediation,
    /// Panel and interference path streams.
    Panel,
    /// Facade execute-path streams.
    Execute,
    /// Test fixtures.
    Test,
    /// Example programs.
    Example,
}

impl StreamDomain {
    /// Stable number of a domain.
    pub open spec fn number(self) -> u64 {
        match self {
            StreamDomain::Resample => 1,
            StreamDomain::TemporalBlock => 2,
            StreamDomain::Bayesian => 3,
            StreamDomain::McmcStructure => 4,
            StreamDomain::McmcOrder => 5,
            StreamDomain::McmcDbn => 6,
            StreamDomain::Completion => 7,
            StreamDomain::Counterfactual => 8,
            StreamDomain::Attribution => 9,
            StreamDomain::Design => 10,
            StreamDomain::Transport => 11,
            StreamDomain::StatsCi => 12,
            StreamDomain::Learner => 13,
            StreamDomain::Estimate => 14,
            StreamDomain::Mediation => 15,
            StreamDomain::Panel => 16,
            StreamDomain::Execute => 17,
            StreamDomain::Test => 18,
            StreamDomain::Example => 19,
        }
    }

    /// Stable number of this domain.
    #[must_use]
    pub fn tag(self) -> (number: u64)
        ensures
            number == self.number(),
    {
        match self {
            StreamDomain::Resample => 1,
            StreamDomain::TemporalBlock => 2,
            StreamDomain::Bayesian => 3,
            StreamDomain::McmcStructure => 4,
            StreamDomain::McmcOrder => 5,
            StreamDomain::McmcDbn => 6,
            StreamDomain::Completion => 7,
            StreamDomain::Counterfactual => 8,
            StreamDomain::Attribution => 9,
            StreamDomain::Design => 10,
            StreamDomain::Transport => 11,
            StreamDomain::StatsCi => 12,
            StreamDomain::Learner => 13,
            StreamDomain::Estimate => 14,
            StreamDomain::Mediation => 15,
            StreamDomain::Panel => 16,
            StreamDomain::Execute => 17,
            StreamDomain::Test => 18,
            StreamDomain::Example => 19,
        }
    }
}

/// Odd multiplier that keeps domain numbers apart under xor with an index.
pub const DOMAIN_MULTIPLIER: u64 = 0xD1B5_4A32_D192_ED03;

/// Increment of the generator's state.
pub const STATE_STEP: u64 = 0x9E37_79B9_7F4A_7C15;

/// Seed of a stream: a mix of master seed and stream id in which neither is added
/// to the other.
pub open spec fn mixed(master: u64, stream_id: u64) -> u64 {
    let a = master.wrapping_mul(0xD6E8_FEB8_6659_FD93) ^ stream_id.wrapping_mul(
        0xC2B2_AE3D_27D4_EB4F,
    );
    let b = (a ^ (a >> 32)).wrapping_mul(0x1656_67B1_9E37_79F9);
    let c = (b ^ (b >> 32)).wrapping_mul(0xD6E8_FEB8_6659_FD93);
    c ^ (c >> 32)
}

/// Non-additive mix of `(master, stream_id)`.
#[must_use]
pub fn mix_seed(master: u64, stream_id: u64) -> (seed: u64)
    ensures
        seed == mixed(master, stream_id),
{
    let a: u64 = master.wrapping_mul(0xD6E8_FEB8_6659_FD93) ^ stream_id.wrapping_mul(
        0xC2B2_AE3D_27D4_EB4F,
    );
    let b: u64 = (a ^ (a >> 32)).wrapping_mul(0x1656_67B1_9E37_79F9);
    let c: u64 = (b ^ (b >> 32)).wrapping_mul(0xD6E8_FEB8_6659_FD93);
    c ^ (c >> 32)
}

/// Stream id of `(domain, index)`.
pub open spec fn packed(domain: StreamDomain, index: u64) -> u64 {
    domain.number().wrapping_mul(DOMAIN_MULTIPLIER) ^ index
}

/// Output of the generator at a state.
pub open spec fn output(state: u64) -> u64 {
    let a = (state ^ (state >> 30)).wrapping_mul(0xBF58_476D_1CE4_E5B9);
    let b = (a ^ (a >> 27)).wrapping_mul(0x94D0_49BB_1331_11EB);
    b ^ (b >> 31)
}

/// Factory for deterministic random streams.
///
/// Streams are derived from a master seed and a stream id, so algorithms can ask
/// for reproducible substreams without a global generator.
#[derive(Clone, Copy, Debug, PartialEq, Eq, Structural)]
pub struct RngFactory {
    /// Master seed.
    pub master_seed: u64,
}

impl RngFactory {
    /// Create a factory from a master seed.
    #[must_use]
    pub fn from_seed(master_seed: u64) -> (factory: Self)
        ensures
            factory.master_seed == master_seed,
    {
        RngFactory { master_seed }
    }

    /// Master seed.
    #[must_use]
    pub fn master_seed(&self) -> (seed: u64)
        ensures
            seed == self.master_seed,
    {
        self.master_seed
    }

    /// Derive a stream for a raw `stream_id`.
    ///
    /// Prefer [`Self::stream_for`]; this entry point is for ids that are already
    /// domain-unique.
    #[must_use]
    pub fn stream(&self, stream_id: u64) -> (rng: CausalRng)
        ensures
            rng.state == mixed(self.master_seed, stream_id) ^ STATE_STEP,
    {
        CausalRng::from_seed(mix_seed(self.master_seed, stream_id))
    }

    /// Derive a stream for `(domain, index)`.
    #[must_use]
    pub fn stream_for(&self, domain: StreamDomain, index: u64) -> (rng: CausalRng)
        ensures
            rng.state == mixed(self.master_seed, packed(domain, index)) ^ STATE_STEP,
    {
        let stream_id: u64 = domain.tag().wrapping_mul(DOMAIN_MULTIPLIER) ^ index;
        self.stream(stream_id)
    }
}

/// Deterministic generator for library algorithms.
#[derive(Clone, Copy, Debug)]
pub struct CausalRng {
    /// Stream state.
    pub state: u64,
}

impl CausalRng {
    /// Create from a 64-bit seed; mixed once, so that a zero seed is no fixed point.
    #[must_use]
    pub fn from_seed(seed: u64) -> (rng: Self)
        ensures
            rng.state == seed ^ STATE_STEP,
    {
        CausalRng { state: seed ^ STATE_STEP }
    }

    /// Restore from a previously exported [`Self::state`].
    #[must_use]
    pub fn from_state(state: u64) -> (rng: Self)
        ensures
            rng.state == state,
    {
        CausalRng { state }
    }

    /// Stream state for checkpoints and continuation.
    #[must_use]
    pub fn state(&self) -> (state: u64)
        ensures
            state == self.state,
    {
        self.state
    }

    /// Next 64 bits from the stream.
    #[must_use]
    pub fn next_u64(&mut self) -> (next: u64)
        ensures
            final(self).state == old(self).state.wrapping_add(STATE_STEP),
            next == output(final(self).state),
    {
        self.state = self.state.wrapping_add(STATE_STEP);
        let z: u64 = self.state;
        let a: u64 = (z ^ (z >> 30)).wrapping_mul(0xBF58_476D_1CE4_E5B9);
        let b: u64 = (a ^ (a >> 27)).wrapping_mul(0x94D0_49BB_1331_11EB);
        b ^ (b >> 31)
    }

    /// Next level in `[0, 1)`: the upper 53 bits of the next output, as a fraction
    /// of `2^53`.
    #[must_use]
    pub fn next_f64(&mut self) -> (next: OrderedFloatBits)
        ensures
            final(self).state == old(self).state.wrapping_add(STATE_STEP),
            next.represents((output(final(self).state) >> 11) as nat, -53),
            (OrderedFloatBits { bits: 0 }).le(next),
            next.lt(OrderedFloatBits { bits: level::ONE_BITS }),
    {
        let draw: u64 = self.next_u64() >> 11;
        let ghost bits = output(self.state);
        assert(bits >> 11 < 0x20_0000_0000_0000u64) by (bit_vector);
        OrderedFloatBits::unit_fraction(draw)
    }
}

proof fn lemma_odd_multiple_injective(x: u64, y: u64, c: u64, inverse: u64, k: int)
    requires
        c * inverse == 1 + k * 0x1_0000_0000_0000_0000,
        x.wrapping_mul(c) == y.wrapping_mul(c),
    ensures
        x == y,
{
    let m = 0x1_0000_0000_0000_0000int;
    lemma_undo_multiple(x, c, inverse, k);
    lemma_undo_multiple(y, c, inverse, k);
}

proof fn lemma_undo_multiple(x: u64, c: u64, inverse: u64, k: int)
    requires
        c * inverse == 1 + k * 0x1_0000_0000_0000_0000,
    ensures
        (x.wrapping_mul(c) * inverse) % 0x1_0000_0000_0000_0000 == x,
{
    let m = 0x1_0000_0000_0000_0000int;
    let p = (x * c) % m;
    assert(0 <= x * c) by (nonlinear_arith)
        requires
            0 <= x,
            0 <= c,
    ;
    assert(x.wrapping_mul(c) == p);
    vstd::arithmetic::div_mod::lemma_mul_mod_noop_left(x * c, inverse as int, m);
    assert((x * c) * inverse == x + (x * k) * m) by (nonlinear_arith)
        requires
            c * inverse == 1 + k * m,
    ;
    vstd::arithmetic::div_mod::lemma_mod_multiples_vanish(x * k, x as int, m);
    assert(m * (x * k) + x == x + (x * k) * m) by (nonlinear_arith);
    vstd::arithmetic::div_mod::lemma_small_mod(x as nat, m as nat);
}

proof fn lemma_mix_tail_injective(a: u64, b: u64)
    requires
        ({
            let p = (a ^ (a >> 32)).wrapping_mul(0x1656_67B1_9E37_79F9);
            let q = (p ^ (p >> 32)).wrapping_mul(0xD6E8_FEB8_6659_FD93);
            let r = (b ^ (b >> 32)).wrapping_mul(0x1656_67B1_9E37_79F9);
            let s = (r ^ (r >> 32)).wrapping_mul(0xD6E8_FEB8_6659_FD93);
            q ^ (q >> 32) == s ^ (s >> 32)
        }),
    ensures
        a == b,
{
    let p = (a ^ (a >> 32)).wrapping_mul(0x1656_67B1_9E37_79F9);
    let q = (p ^ (p >> 32)).wrapping_mul(0xD6E8_FEB8_6659_FD93);
    let r = (b ^ (b >> 32)).wrapping_mul(0x1656_67B1_9E37_79F9);
    let s = (r ^ (r >> 32)).wrapping_mul(0xD6E8_FEB8_6659_FD93);
    lemma_fold_32_injective(q, s);
    lemma_odd_multiple_injective(
        p ^ (p >> 32),
        r ^ (r >> 32),
        0xD6E8_FEB8_6659_FD93,
        0xCFEE_444D_8B59_A89B,
        0xAE8E_6BEA_E6EB_4B34,
    );
    lemma_fold_32_injective(p, r);
    lemma_odd_multiple_injective(
        a ^ (a >> 32),
        b ^ (b >> 32),
        0x1656_67B1_9E37_79F9,
        0xE9E9_F4C4_1D6D_F849,
        0x1469_0E60_8137_8F7F,
    );
    lemma_fold_32_injective(a, b);
}

proof fn lemma_fold_32_injective(a: u64, b: u64)
    requires
        a ^ (a >> 32) == b ^ (b >> 32),
    ensures
        a == b,
{
    assert(a ^ (a >> 32) == b ^ (b >> 32) ==> a == b) by (bit_vector);
}

/// Under one master seed, different stream ids have different streams.
pub proof fn law_streams_of_one_master_are_distinct(master: u64, left: u64, right: u64)
    requires
        left != right,
    ensures
        mixed(master, left) != mixed(master, right),
        mixed(master, left) ^ STATE_STEP != mixed(master, right) ^ STATE_STEP,
{
    let m = master.wrapping_mul(0xD6E8_FEB8_6659_FD93);
    let x = left.wrapping_mul(0xC2B2_AE3D_27D4_EB4F);
    let y = right.wrapping_mul(0xC2B2_AE3D_27D4_EB4F);
    if mixed(master, left) == mixed(master, right) {
        lemma_mix_tail_injective(m ^ x, m ^ y);
        assert(m ^ x == m ^ y ==> x == y) by (bit_vector);
        lemma_odd_multiple_injective(
            left,
            right,
            0xC2B2_AE3D_27D4_EB4F,
            0x0BA7_9078_168D_4BAF,
            0x08DD_1DEC_2186_0607,
        );
    }
    let p = mixed(master, left);
    let q = mixed(master, right);
    let step = STATE_STEP;
    assert(p ^ step == q ^ step ==> p == q) by (bit_vector);
}

/// Under one stream id, different master seeds have different streams.
pub proof fn law_streams_of_one_id_are_distinct(left: u64, right: u64, stream_id: u64)
    requires
        left != right,
    ensures
        mixed(left, stream_id) != mixed(right, stream_id),
{
    let m = stream_id.wrapping_mul(0xC2B2_AE3D_27D4_EB4F);
    let x = left.wrapping_mul(0xD6E8_FEB8_6659_FD93);
    let y = right.wrapping_mul(0xD6E8_FEB8_6659_FD93);
    if mixed(left, stream_id) == mixed(right, stream_id) {
        lemma_mix_tail_injective(x ^ m, y ^ m);
        assert(x ^ m == y ^ m ==> x == y) by (bit_vector);
        lemma_odd_multiple_injective(
            left,
            right,
            0xD6E8_FEB8_6659_FD93,
            0xCFEE_444D_8B59_A89B,
            0xAE8E_6BEA_E6EB_4B34,
        );
    }
}

/// Within a domain different indices, and at one index different domains, have
/// different streams.
pub proof fn law_domain_streams_are_distinct(
    master: u64,
    a: StreamDomain,
    i: u64,
    b: StreamDomain,
    j: u64,
)
    requires
        a == b && i != j || a != b && i == j,
    ensures
        mixed(master, packed(a, i)) != mixed(master, packed(b, j)),
{
    let x = a.number().wrapping_mul(DOMAIN_MULTIPLIER);
    let y = b.number().wrapping_mul(DOMAIN_MULTIPLIER);
    if packed(a, i) == packed(b, j) {
        if a == b {
            assert(x ^ i == x ^ j ==> i == j) by (bit_vector);
        } else {
            assert(x ^ i == y ^ i ==> x == y) by (bit_vector);
            lemma_odd_multiple_injective(
                a.number(),
                b.number(),
                DOMAIN_MULTIPLIER,
                0x0610_6CCF_A448_E5AB,
                0x04F7_B434_678E_D4E7,
            );
        }
    }
    law_streams_of_one_master_are_distinct(master, packed(a, i), packed(b, j));
}

/// A stream's outputs determine its states: different states never put out the
/// same number.
pub proof fn law_outputs_of_different_states_differ(a: u64, b: u64)
    requires
        a != b,
    ensures
        output(a) != output(b),
{
    if output(a) == output(b) {
        let p = (a ^ (a >> 30)).wrapping_mul(0xBF58_476D_1CE4_E5B9);
        let q = (p ^ (p >> 27)).wrapping_mul(0x94D0_49BB_1331_11EB);
        let r = (b ^ (b >> 30)).wrapping_mul(0xBF58_476D_1CE4_E5B9);
        let s = (r ^ (r >> 27)).wrapping_mul(0x94D0_49BB_1331_11EB);
        assert(q ^ (q >> 31) == s ^ (s >> 31) ==> q == s) by (bit_vector);
        lemma_odd_multiple_injective(
            p ^ (p >> 27),
            r ^ (r >> 27),
            0x94D0_49BB_1331_11EB,
            0x3196_42B2_D24D_8EC3,
            0x1CD3_36ED_A85F_1453,
        );
        assert(p ^ (p >> 27) == r ^ (r >> 27) ==> p == r) by (bit_vector);
        lemma_odd_multiple_injective(
            a ^ (a >> 30),
            b ^ (b >> 30),
            0xBF58_476D_1CE4_E5B9,
            0x96DE_1B17_3F11_9089,
            0x70C3_BCA7_8F27_F46C,
        );
        assert(a ^ (a >> 30) == b ^ (b >> 30) ==> a == b) by (bit_vector);
    }
}

/// Full execution context passed into algorithms.
#[derive(Clone, Debug)]
pub struct ExecutionContext {
    /// Parallelism budget.
    pub parallelism: Parallelism,
    /// Determinism policy.
    pub determinism: Determinism,
    /// Stream factory (no global generator).
    pub rng: RngFactory,
    /// Memory budget.
    pub memory: MemoryBudget,
    /// Cancellation token.
    pub cancellation: CancellationToken,
    /// Kernel selection policy.
    pub kernel_policy: KernelPolicy,
    /// Cache policy.
    pub cache_policy: CachePolicy,
    /// Opt-in bootstrap early stop; disabled by every constructor.
    pub adaptive_bootstrap: AdaptiveBootstrapBudget,
    /// Opt-in Bayesian draw early stop; disabled by every constructor.
    pub adaptive_draws: AdaptiveDrawBudget,
}

impl ExecutionContext {
    /// No early stop: every requested replicate and draw is evaluated.
    pub open spec fn full_effort(self) -> bool {
        &&& !self.adaptive_bootstrap.enabled
        &&& self.adaptive_bootstrap.min_replicates == 0
        &&& self.adaptive_bootstrap.se_rel_epsilon.bits == 0
        &&& !self.adaptive_draws.enabled
        &&& self.adaptive_draws.min_draws == 0
        &&& self.adaptive_draws.quantile_width_rel_epsilon.bits == 0
        &&& self.adaptive_draws.ess_target.bits == 0
    }

    /// Construct a serial, strict, scalar-friendly context for tests.
    #[must_use]
    pub fn for_tests(seed: u64) -> (ctx: Self)
        ensures
            ctx.parallelism.max_threads.value() == 1,
            ctx.determinism is Strict,
            ctx.rng.master_seed == seed,
            ctx.memory.soft_limit_bytes is None && ctx.memory.hard_limit_bytes is None,
            ctx.kernel_policy.force_scalar && !ctx.kernel_policy.allow_arch_simd
                && !ctx.kernel_policy.allow_portable_optimized,
            ctx.cache_policy == (CachePolicy { enabled: false, max_bytes: None }),
            ctx.full_effort(),
            ctx.cancellation.answer() is None,
            !ctx.must_stop(),
    {
        ExecutionContext {
            parallelism: Parallelism::serial(),
            determinism: Determinism::Strict,
            rng: RngFactory::from_seed(seed),
            memory: MemoryBudget::unlimited(),
            cancellation: CancellationToken::new(),
            kernel_policy: KernelPolicy::scalar_only(),
            cache_policy: CachePolicy::disabled(),
            adaptive_bootstrap: AdaptiveBootstrapBudget::disabled(),
            adaptive_draws: AdaptiveDrawBudget::disabled(),
        }
    }

    /// Production context: optimized kernels allowed, cache enabled, bounded threads.
    ///
    /// Monte Carlo effort is evaluated in full; opt in to early stopping by setting
    /// the adaptive budgets.
    #[must_use]
    pub fn production(seed: u64, max_threads: u32) -> (ctx: Self)
        ensures
            ctx.parallelism.max_threads.value() == if max_threads >= 1 {
                max_threads
            } else {
                1
            },
            ctx.determinism is Strict,
            ctx.rng.master_seed == seed,
            ctx.memory.soft_limit_bytes is None && ctx.memory.hard_limit_bytes is None,
            !ctx.kernel_policy.force_scalar && ctx.kernel_policy.allow_arch_simd
                && ctx.kernel_policy.allow_portable_optimized,
            ctx.cache_policy == (CachePolicy { enabled: true, max_bytes: None }),
            ctx.full_effort(),
            ctx.cancellation.answer() is None,
            !ctx.must_stop(),
    {
        let threads = match NonZeroThreadCount::new(max_threads) {
            Some(count) => count,
            None => NonZeroThreadCount::one(),
        };
        ExecutionContext {
            parallelism: Parallelism::bounded(threads),
            determinism: Determinism::Strict,
            rng: RngFactory::from_seed(seed),
            memory: MemoryBudget::unlimited(),
            cancellation: CancellationToken::new(),
            kernel_policy: KernelPolicy::default_policy(),
            cache_policy: CachePolicy::enabled(None),
            adaptive_bootstrap: AdaptiveBootstrapBudget::disabled(),
            adaptive_draws: AdaptiveDrawBudget::disabled(),
        }
    }

    /// Production context at [`default_user_threads`].
    #[must_use]
    pub fn production_default(seed: u64, available: Option<usize>) -> (ctx: Self)
        ensures
            1 <= ctx.parallelism.max_threads.value() <= DEFAULT_USER_THREAD_CAP,
            available matches Some(found) ==> (1 <= found <= DEFAULT_USER_THREAD_CAP
                ==> ctx.parallelism.max_threads.value() == found),
            available matches Some(found) ==> (found > DEFAULT_USER_THREAD_CAP
                ==> ctx.parallelism.max_threads.value() == DEFAULT_USER_THREAD_CAP),
            available is None ==> ctx.parallelism.max_threads.value() == 1,
            ctx.determinism is Strict,
            ctx.rng.master_seed == seed,
            ctx.memory.soft_limit_bytes is None && ctx.memory.hard_limit_bytes is None,
            !ctx.kernel_policy.force_scalar && ctx.kernel_policy.allow_arch_simd
                && ctx.kernel_policy.allow_portable_optimized,
            ctx.cache_policy == (CachePolicy { enabled: true, max_bytes: None }),
            ctx.full_effort(),
            ctx.cancellation.answer() is None,
            !ctx.must_stop(),
    {
        ExecutionContext::production(seed, default_user_threads(available))
    }

    /// The same context, serial.
    pub open spec fn is_serial_of(self, outer: Self) -> bool {
        &&& self.parallelism.max_threads.value() == 1
        &&& self.determinism == outer.determinism
        &&& self.rng == outer.rng
        &&& self.memory == outer.memory
        &&& self.cancellation == outer.cancellation
        &&& self.kernel_policy == outer.kernel_policy
        &&& self.cache_policy == outer.cache_policy
        &&& self.adaptive_bootstrap == outer.adaptive_bootstrap
        &&& self.adaptive_draws == outer.adaptive_draws
    }

    /// Copy with serial parallelism. Use for inner work when an outer map already
    /// saturates the thread budget.
    #[must_use]
    pub fn serial_inner(&self) -> (inner: Self)
        ensures
            inner.is_serial_of(*self),
    {
        ExecutionContext {
            parallelism: Parallelism::serial(),
            determinism: self.determinism,
            rng: self.rng,
            memory: self.memory,
            cancellation: self.cancellation.share(),
            kernel_policy: self.kernel_policy,
            cache_policy: self.cache_policy,
            adaptive_bootstrap: self.adaptive_bootstrap,
            adaptive_draws: self.adaptive_draws,
        }
    }

    /// Work under the context may be cancelled.
    pub open spec fn may_stop(self) -> bool {
        self.cancellation.answer() != Some(false)
    }

    /// Work under the context is cancelled from the start.
    pub open spec fn must_stop(self) -> bool {
        self.cancellation.answer() == Some(true)
    }

    /// Workers used for `n` items: the thread budget, but no more than one for
    /// each item.
    pub open spec fn workers(self, n: int) -> int {
        if self.parallelism.max_threads.value() <= n {
            self.parallelism.max_threads.value() as int
        } else {
            n
        }
    }

    /// `f(0), ..., f(n - 1)` under this context, in index order.
    ///
    /// With more than one item and more than one thread `f` receives a serial copy
    /// of the context, so that nested work stays serial; else it receives the
    /// context itself. The lowest-index error is returned, and nothing above it
    /// changes the result. [`chunk_bounds`] and [`collect_slots`] are the parts that
    /// a threaded evaluation of the same map needs.
    pub fn map_indexed<T, E, F: Fn(usize, &ExecutionContext) -> Result<T, E>>(
        &self,
        n: usize,
        f: F,
    ) -> (r: Result<Vec<T>, E>)
        requires
            forall|i: usize, ctx: &ExecutionContext|
                0 <= i < n ==> #[trigger] f.requires((i, ctx)),
        ensures
            exists|ctx: &ExecutionContext|
                {
                    &&& if self.workers(n as int) > 1 {
                        ctx.is_serial_of(*self)
                    } else {
                        *ctx == *self
                    }
                    &&& #[trigger] maps_to(f, n, ctx, r)
                },
    {
        let threads: u32 = self.parallelism.max_threads.get();
        if n > 1 && threads > 1 {
            let inner = self.serial_inner();
            let r = map_in_order(n, &inner, f);
            proof {
                let ctx = &inner;
                assert(ctx.is_serial_of(*self));
                assert(maps_to(f, n, ctx, r));
            }
            r
        } else {
            let r = map_in_order(n, self, f);
            assert(maps_to(f, n, self, r));
            r
        }
    }
}

/// What an indexed map yields: all values in order, or the error of the lowest
/// index at which there is one.
pub open spec fn maps_to<T, E, F: Fn(usize, &ExecutionContext) -> Result<T, E>>(
    f: F,
    n: usize,
    ctx: &ExecutionContext,
    r: Result<Vec<T>, E>,
) -> bool {
    match r {
        Ok(values) => values@.len() == n && forall|i: usize|
            0 <= i < n ==> #[trigger] f.ensures((i, ctx), Ok(values@[i as int])),
        Err(error) => exists|k: usize, values: Seq<T>|
            {
                &&& 0 <= k < n
                &&& f.ensures((k, ctx), Err(error))
                &&& #[trigger] succeeds_below(f, k, ctx, values)
            },
    }
}

/// The first `k` indices of a map yield `values`.
pub open spec fn succeeds_below<T, E, F: Fn(usize, &ExecutionContext) -> Result<T, E>>(
    f: F,
    k: usize,
    ctx: &ExecutionContext,
    values: Seq<T>,
) -> bool {
    values.len() == k && forall|i: usize|
        0 <= i < k ==> #[trigger] f.ensures((i, ctx), Ok(values[i as int]))
}

fn map_in_order<T, E, F: Fn(usize, &ExecutionContext) -> Result<T, E>>(
    n: usize,
    ctx: &ExecutionContext,
    f: F,
) -> (r: Result<Vec<T>, E>)
    requires
        forall|i: usize, c: &ExecutionContext| 0 <= i < n ==> #[trigger] f.requires((i, c)),
    ensures
        maps_to(f, n, ctx, r),
{
    let mut values: Vec<T> = Vec::new();
    let mut i: usize = 0;
    while i < n
        invariant
            0 <= i <= n,
            values@.len() == i,
            forall|k: usize, c: &ExecutionContext| 0 <= k < n ==> #[trigger] f.requires((k, c)),
            forall|k: usize| 0 <= k < i ==> #[trigger] f.ensures((k, ctx), Ok(values@[k as int])),
        decreases n - i,
    {
        match f(i, ctx) {
            Ok(value) => {
                values.push(value);
            },
            Err(error) => {
                proof {
                    assert(f.ensures((i, ctx), Err::<T, E>(error)));
                    assert(succeeds_below(f, i, ctx, values@));
                }
                return Err(error);
            },
        }
        i = i + 1;
    }
    Ok(values)
}

/// First index of chunk `k` when `n` items are dealt to `workers` workers: the
/// first `n % workers` chunks hold one item more than the others.
pub open spec fn chunk_start(n: int, workers: int, k: int) -> int {
    k * (n / workers) + if k < n % workers {
        k
    } else {
        n % workers
    }
}

/// Contiguous chunks for `n` items on at most `threads` workers: first index and
/// length of each, in order. No chunk is empty, and lengths differ by at most one.
#[must_use]
pub fn chunk_bounds(n: usize, threads: NonZeroThreadCount) -> (chunks: Vec<(usize, usize)>)
    ensures
        chunks@.len() == if threads.value() <= n {
            threads.value() as nat
        } else {
            n as nat
        },
        forall|k: int|
            0 <= k < chunks@.len() ==> {
                &&& (#[trigger] chunks@[k]).0 == chunk_start(n as int, chunks@.len() as int, k)
                &&& chunks@[k].0 + chunks@[k].1 == chunk_start(
                    n as int,
                    chunks@.len() as int,
                    k + 1,
                )
                &&& chunks@[k].1 >= 1
            },
        chunks@.len() > 0 ==> chunk_start(n as int, chunks@.len() as int, chunks@.len() as int)
            == n,
{
    let budget: usize = threads.get() as usize;
    let workers: usize = if budget <= n {
        budget
    } else {
        n
    };
    let mut chunks: Vec<(usize, usize)> = Vec::new();
    let mut start: usize = 0;
    let mut t: usize = 0;
    proof {
        if workers > 0 {
            lemma_chunk_end(n as int, workers as int);
        }
    }
    while t < workers
        invariant
            0 <= t <= workers,
            workers <= n,
            workers > 0 ==> chunk_start(n as int, workers as int, workers as int) == n,
            chunks@.len() == t,
            workers > 0 ==> start == chunk_start(n as int, workers as int, t as int),
            start <= n,
            forall|k: int|
                0 <= k < t ==> {
                    &&& (#[trigger] chunks@[k]).0 == chunk_start(n as int, workers as int, k)
                    &&& chunks@[k].0 + chunks@[k].1 == chunk_start(
                        n as int,
                        workers as int,
                        k + 1,
                    )
                    &&& chunks@[k].1 >= 1
                },
        decreases workers - t,
    {
        let rest: usize = n - start;
        let share: usize = workers - t;
        proof {
            lemma_chunk_take(n as int, workers as int, t as int);
        }
        let take: usize = if rest % share == 0 {
            rest / share
        } else {
            rest / share + 1
        };
        chunks.push((start, take));
        start = start + take;
        t = t + 1;
    }
    chunks
}

proof fn lemma_chunk_end(n: int, workers: int)
    requires
        0 < workers <= n,
    ensures
        chunk_start(n, workers, workers) == n,
{
    vstd::arithmetic::div_mod::lemma_fundamental_div_mod(n, workers);
}

proof fn lemma_chunk_take(n: int, workers: int, t: int)
    requires
        0 < workers <= n,
        0 <= t < workers,
    ensures
        ({
            let rest = n - chunk_start(n, workers, t);
            let share = workers - t;
            let take = if rest % share == 0 {
                rest / share
            } else {
                rest / share + 1
            };
            &&& 1 <= take <= rest
            &&& chunk_start(n, workers, t) + take == chunk_start(n, workers, t + 1)
            &&& chunk_start(n, workers, t + 1) <= n
        }),
{
    let q = n / workers;
    let r = n % workers;
    let share = workers - t;
    let rest = n - chunk_start(n, workers, t);
    vstd::arithmetic::div_mod::lemma_fundamental_div_mod(n, workers);
    vstd::arithmetic::div_mod::lemma_mod_bound(n, workers);
    assert(q >= 1) by {
        vstd::arithmetic::div_mod::lemma_div_is_ordered(workers, n, workers);
        vstd::arithmetic::div_mod::lemma_div_by_self(workers);
    }
    let extra = if t < r {
        r - t
    } else {
        0
    };
    assert(rest == q * share + extra) by (nonlinear_arith)
        requires
            n == workers * q + r,
            share == workers - t,
            rest == n - (t * q + if t < r {
                t
            } else {
                r
            }),
            extra == if t < r {
                r - t
            } else {
                0
            },
    ;
    assert(0 <= extra < share);
    vstd::arithmetic::div_mod::lemma_fundamental_div_mod_converse(rest, share, q, extra);
    assert((t + 1) * q == t * q + q) by (nonlinear_arith);
    assert(q * share >= q) by (nonlinear_arith)
        requires
            q >= 1,
            share >= 1,
    ;
}

/// The evaluated prefix of an indexed map is complete up to its first error.
pub open spec fn filled<T, E>(slots: Seq<Option<Result<T, E>>>) -> bool {
    forall|i: int|
        0 <= i < slots.len() && #[trigger] slots[i] is None ==> exists|j: int|
            0 <= j < i && #[trigger] slots[j] matches Some(Err(_))
}

/// Collect the slots of an indexed map: the values in order, or the error of the
/// lowest index at which there is one. Slots above that error may be empty.
pub fn collect_slots<T, E>(slots: Vec<Option<Result<T, E>>>) -> (r: Result<Vec<T>, E>)
    requires
        filled(slots@),
    ensures
        match r {
            Ok(values) => {
                &&& values@.len() == slots@.len()
                &&& forall|i: int|
                    0 <= i < slots@.len() ==> #[trigger] slots@[i] == Some(
                        Ok::<T, E>(values@[i]),
                    )
            },
            Err(error) => exists|k: int|
                {
                    &&& 0 <= k < slots@.len()
                    &&& #[trigger] slots@[k] == Some(Err::<T, E>(error))
                    &&& forall|i: int| 0 <= i < k ==> #[trigger] slots@[i] matches Some(Ok(_))
                },
        },
{
    let mut rest = slots;
    let mut backwards: Vec<T> = Vec::new();
    let mut error: Option<E> = None;
    let ghost all = slots@;
    let ghost mut low: int = all.len() as int;
    while rest.len() > 0
        invariant
            rest@.len() <= all.len(),
            rest@ == all.take(rest@.len() as int),
            filled(all),
            error is None ==> low == all.len(),
            error matches Some(e) ==> 0 <= low < all.len() && all[low] == Some(
                Err::<T, E>(e),
            ) && rest@.len() <= low,
            error is Some ==> forall|i: int|
                rest@.len() <= i < low ==> !(#[trigger] all[i] matches Some(Err(_))),
            error is None ==> forall|i: int|
                rest@.len() <= i < all.len() ==> !(#[trigger] all[i] matches Some(Err(_))),
            error is None && (forall|i: int|
                rest@.len() <= i < all.len() ==> #[trigger] all[i] is Some)
                ==> backwards@.len() == all.len() - rest@.len() && forall|i: int|
                rest@.len() <= i < all.len() ==> #[trigger] all[i] == Some(
                    Ok::<T, E>(backwards@[all.len() - 1 - i]),
                ),
        decreases rest.len(),
    {
        let ghost n = rest@.len() as int;
        match rest.pop() {
            Some(Some(Ok(value))) => {
                assert(all[n - 1] == Some(Ok::<T, E>(value)));
                backwards.push(value);
            },
            Some(Some(Err(e))) => {
                proof {
                    low = n - 1;
                }
                error = Some(e);
            },
            _ => {
                assert(all[n - 1] is None);
            },
        }
        assert(rest@ =~= all.take(rest@.len() as int));
    }
    match error {
        Some(e) => {
            proof {
                assert forall|i: int| 0 <= i < low implies #[trigger] all[i] matches Some(
                    Ok(_),
                ) by {
                    if all[i] is None {
                        let j = choose|j: int| 0 <= j < i && #[trigger] all[j] matches Some(
                            Err(_),
                        );
                        assert(all[j] matches Some(Err(_)));
                    }
                }
            }
            Err(e)
        },
        None => {
            proof {
                assert forall|i: int| 0 <= i < all.len() implies #[trigger] all[i] is Some by {
                    if all[i] is None {
                        let j = choose|j: int| 0 <= j < i && #[trigger] all[j] matches Some(
                            Err(_),
                        );
                    }
                }
            }
            let mut values: Vec<T> = Vec::new();
            let ghost stack = backwards@;
            while backwards.len() > 0
                invariant
                    stack.len() == all.len(),
                    backwards@.len() + values@.len() == all.len(),
                    backwards@ == stack.take(backwards@.len() as int),
                    forall|i: int|
                        0 <= i < values@.len() ==> #[trigger] values@[i] == stack[stack.len() - 1
                            - i],
                decreases backwards.len(),
            {
                let ghost m = backwards@.len() as int;
                match backwards.pop() {
                    Some(value) => {
                        assert(value == stack[m - 1]);
                        values.push(value);
                    },
                    None => {},
                }
                assert(backwards@ =~= stack.take(backwards@.len() as int));
            }
            Ok(values)
        },
    }
}

/// Host request identity: scoped to the complete scientific and execution inputs.
///
/// A key reused for different inputs is a conflict. The request binds every
/// contract layer plus execution lineage, so a changed estimand, prior, or numeric
/// knob under a reused key is detected.
#[derive(Clone, Copy, Debug, PartialEq, Eq, Hash)]
pub struct RequestIdentity {
    /// Caller-supplied idempotency key.
    pub idempotency_key: SemanticDigest,
    /// Every contract identity layer the request was bound to.
    pub contract: ContractIdentities,
    /// Execution-lineage identity (seed, threads, backend, budgets, version).
    pub execution: SemanticDigest,
}

impl RequestIdentity {
    /// Construct a complete request identity.
    #[must_use]
    pub fn new(
        idempotency_key: SemanticDigest,
        contract: ContractIdentities,
        execution: SemanticDigest,
    ) -> (identity: Self)
        ensures
            identity == (RequestIdentity { idempotency_key, contract, execution }),
    {
        RequestIdentity { idempotency_key, contract, execution }
    }

    /// One key, two requests.
    pub open spec fn conflict(self, other: Self) -> bool {
        self.idempotency_key == other.idempotency_key && (self.contract != other.contract
            || self.execution != other.execution)
    }

    /// Whether `other` reuses this key for a different scientific request.
    #[must_use]
    pub fn conflicts_with(&self, other: &Self) -> (yes: bool)
        ensures
            yes == self.conflict(*other),
    {
        self.idempotency_key == other.idempotency_key && (self.contract != other.contract
            || self.execution != other.execution)
    }
}

/// Conflict is symmetric, no request conflicts with itself, and under one key two
/// requests conflict exactly if they differ.
pub proof fn law_request_conflict(a: RequestIdentity, b: RequestIdentity)
    ensures
        a.conflict(b) == b.conflict(a),
        !a.conflict(a),
        a.idempotency_key == b.idempotency_key ==> (a.conflict(b) <==> a != b),
{
}

/// Lifecycle of an external execution request. Distinct from scientific result status.
#[derive(Clone, Copy, Debug, PartialEq, Eq, Hash, Structural)]
pub enum ExecutionRequestState {
    /// Accepted but not started.
    Pending,
    /// Currently executing.
    Running,
    /// Finished with a published scientific result.
    Completed,
    /// Refused before or during execution (scientific or license).
    Refused,
    /// Failed without publishing a completed claim.
    Failed,
    /// Cancelled; diagnostics may be retained, a claim must not be published.
    Cancelled,
}

impl ExecutionRequestState {
    /// The name as text.
    pub open spec fn name(self) -> Seq<char> {
        match self {
            ExecutionRequestState::Pending => "pending"@,
            ExecutionRequestState::Running => "running"@,
            ExecutionRequestState::Completed => "completed"@,
            ExecutionRequestState::Refused => "refused"@,
            ExecutionRequestState::Failed => "failed"@,
            ExecutionRequestState::Cancelled => "cancelled"@,
        }
    }

    /// Stable `snake_case` name.
    #[must_use]
    pub fn as_str(self) -> (out: &'static str)
        ensures
            out@ == self.name(),
    {
        match self {
            ExecutionRequestState::Pending => "pending",
            ExecutionRequestState::Running => "running",
            ExecutionRequestState::Completed => "completed",
            ExecutionRequestState::Refused => "refused",
            ExecutionRequestState::Failed => "failed",
            ExecutionRequestState::Cancelled => "cancelled",
        }
    }
}

/// Different variants of [`ExecutionRequestState`] have different names.
pub proof fn law_execution_request_state_names_are_distinct(a: ExecutionRequestState, b: ExecutionRequestState)
    requires
        a.name() == b.name(),
    ensures
        a == b,
{
    reveal_strlit("pending");
    assert("pending"@.len() == 7 && "pending"@[3] == 'd');
    reveal_strlit("running");
    assert("running"@.len() == 7 && "running"@[3] == 'n');
    reveal_strlit("completed");
    assert("completed"@.len() == 9 && "completed"@[3] == 'p');
    reveal_strlit("refused");
    assert("refused"@.len() == 7 && "refused"@[3] == 'u');
    reveal_strlit("failed");
    assert("failed"@.len() == 6 && "failed"@[3] == 'l');
    reveal_strlit("cancelled");
    assert("cancelled"@.len() == 9 && "cancelled"@[3] == 'c');
}

impl ExecutionRequestState {
    /// Whether this state may publish a completed claim.
    #[must_use]
    pub fn publishes_claim(self) -> (yes: bool)
        ensures
            yes == (self is Completed),
    {
        match self {
            ExecutionRequestState::Completed => true,
            _ => false,
        }
    }
}

/// Receipt for one host request. Cancellation or failure cannot mark a claim current.
#[derive(Clone, Debug, PartialEq, Eq)]
pub struct ExecutionReceipt {
    /// Request identity this receipt answers.
    pub request: RequestIdentity,
    /// Lifecycle state.
    pub state: ExecutionRequestState,
}

impl ExecutionReceipt {
    /// Construct a receipt.
    #[must_use]
    pub fn new(request: RequestIdentity, state: ExecutionRequestState) -> (receipt: Self)
        ensures
            receipt == (ExecutionReceipt { request, state }),
    {
        ExecutionReceipt { request, state }
    }
}

} // verus!
