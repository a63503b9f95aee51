//! Execution contexts, random streams and request identities.

use std::collections::HashSet;
use std::hash::{Hash, Hasher};
use std::sync::atomic::{AtomicUsize, Ordering};

use antecedent::execution::{
    chunk_bounds, collect_slots, default_user_threads, AdaptiveBootstrapBudget,
    AdaptiveDrawBudget, CacheBudget, CancellationToken, CausalRng, ExecutionContext,
    ExecutionReceipt, ExecutionRequestState, KernelPolicy, NonZeroThreadCount, RequestIdentity,
    RngFactory, StreamDomain, ARCH_SIMD_COMPILED, DEFAULT_USER_THREAD_CAP,
};
use antecedent::identity::{ContractIdentities, SemanticDigest};
use antecedent::level::OrderedFloatBits;
use antecedent::value::{InterventionValueError, Value};

fn level(value: f64) -> OrderedFloatBits {
    OrderedFloatBits::from_bits(value.to_bits())
}

#[test]
fn rng_streams_are_deterministic() {
    let factory = RngFactory::from_seed(42);
    let mut a1 = factory.stream_for(StreamDomain::Test, 0);
    let mut a2 = factory.stream_for(StreamDomain::Test, 0);
    let mut b = factory.stream_for(StreamDomain::Test, 1);
    let seq_a1: Vec<u64> = (0..8).map(|_| a1.next_u64()).collect();
    let seq_a2: Vec<u64> = (0..8).map(|_| a2.next_u64()).collect();
    let seq_b: Vec<u64> = (0..8).map(|_| b.next_u64()).collect();
    assert_eq!(seq_a1, seq_a2);
    assert_ne!(seq_a1, seq_b);
}

#[test]
fn independent_factories_same_seed_match() {
    let f1 = RngFactory::from_seed(7);
    let f2 = RngFactory::from_seed(7);
    let mut s1 = f1.stream_for(StreamDomain::Test, 99);
    let mut s2 = f2.stream_for(StreamDomain::Test, 99);
    for _ in 0..32 {
        assert_eq!(s1.next_u64(), s2.next_u64());
    }
}

#[test]
fn mix_seed_rejects_additive_master_stream_alias() {
    // (s, k) must not equal (s − 1, k + 1).
    for s in [1u64, 42, 1000, u64::MAX / 2, u64::MAX] {
        for k in [0u64, 1, 999, 0xA7E0_0001_1000] {
            let a = RngFactory::from_seed(s).stream(k).state();
            let b = RngFactory::from_seed(s.wrapping_sub(1)).stream(k.wrapping_add(1)).state();
            assert_ne!(a, b, "alias at master={s} stream={k}");
            let af = RngFactory::from_seed(s).stream_for(StreamDomain::Resample, k).state();
            let bf = RngFactory::from_seed(s.wrapping_sub(1))
                .stream_for(StreamDomain::Resample, k.wrapping_add(1))
                .state();
            assert_ne!(af, bf, "stream_for alias at master={s} index={k}");
        }
    }
}

#[test]
fn stream_for_domains_separate_same_index() {
    let factory = RngFactory::from_seed(42);
    let a = factory.stream_for(StreamDomain::Resample, 7).state();
    let b = factory.stream_for(StreamDomain::TemporalBlock, 7).state();
    let c = factory.stream_for(StreamDomain::McmcStructure, 7).state();
    assert_ne!(a, b);
    assert_ne!(a, c);
    assert_ne!(b, c);
}

#[test]
fn cancellation_is_shared_across_clones() {
    let token = CancellationToken::new();
    let clone = token.clone();
    assert!(!token.is_cancelled());
    clone.cancel();
    assert!(token.is_cancelled());
}

#[test]
fn cancellation_is_shared_with_the_serial_context() {
    let ctx = ExecutionContext::production(1, 4);
    let inner = ctx.serial_inner();
    ctx.cancellation.cancel();
    assert!(inner.cancellation.is_cancelled());
    assert_eq!(inner.rng, ctx.rng);
}

#[test]
fn request_identity_conflicts_on_reused_key() {
    let digest = |byte: u8| SemanticDigest::from_bytes([byte; 32]);
    let identities = |target: u8, inference: u8, data: u8| {
        ContractIdentities::new(
            digest(target),
            digest(2),
            Some(digest(3)),
            digest(4),
            digest(inference),
            digest(6),
            digest(data),
        )
    };
    let key = digest(1);
    let execution = digest(8);
    let first = RequestIdentity::new(key, identities(10, 5, 7), execution);
    let same = RequestIdentity::new(key, identities(10, 5, 7), execution);
    assert!(!first.conflicts_with(&same));
    // Data snapshot, target population, and inference binding each change the scientific
    // request even when the program digest is shared.
    for changed in [identities(10, 5, 9), identities(11, 5, 7), identities(10, 12, 7)] {
        assert!(first.conflicts_with(&RequestIdentity::new(key, changed, execution)));
    }
    assert!(first.conflicts_with(&RequestIdentity::new(key, identities(10, 5, 7), digest(9))));
    assert!(!first.conflicts_with(&RequestIdentity::new(
        digest(99),
        identities(11, 12, 9),
        execution
    )));
    assert!(!ExecutionRequestState::Cancelled.publishes_claim());
    assert!(ExecutionRequestState::Completed.publishes_claim());
    let receipt = ExecutionReceipt::new(first, ExecutionRequestState::Cancelled);
    assert_eq!(receipt.state.as_str(), "cancelled");
}

#[test]
fn map_indexed_preserves_order_and_serializes_inner() {
    let ctx = ExecutionContext::production(1, 4);
    let out = ctx
        .map_indexed(8, |i, inner: &ExecutionContext| {
            assert_eq!(inner.parallelism.max_threads.get(), 1);
            Ok::<_, ()>(i * 10)
        })
        .unwrap();
    assert_eq!(out, vec![0, 10, 20, 30, 40, 50, 60, 70]);
    let serial = ExecutionContext::for_tests(1);
    let inner_threads = serial
        .map_indexed(1, |_, inner: &ExecutionContext| Ok::<_, ()>(inner.parallelism.max_threads.get()))
        .unwrap();
    assert_eq!(inner_threads, vec![1]);
    assert_eq!(serial.serial_inner().parallelism.max_threads.get(), 1);
}

#[test]
fn map_indexed_stops_at_a_failure_and_reports_the_lowest_index() {
    let ctx = ExecutionContext::production(1, 4);
    let evaluated = AtomicUsize::new(0);
    let n = 2000;
    // Index 0 fails immediately; its own chunk (500 items) must stop there.
    let result = ctx.map_indexed(n, |i, _: &ExecutionContext| {
        evaluated.fetch_add(1, Ordering::Relaxed);
        if i == 0 {
            Err(i)
        } else {
            Ok(i)
        }
    });
    assert_eq!(result, Err(0));
    assert!(evaluated.load(Ordering::Relaxed) <= n - 499, "the failing chunk must not run on");
    // Two failures in different chunks: the lowest index wins on every run.
    for _ in 0..20 {
        let result = ctx.map_indexed(n, |i, _: &ExecutionContext| {
            if i == 700 || i == 1500 {
                Err(i)
            } else {
                Ok(i)
            }
        });
        assert_eq!(result, Err(700));
    }
    // No failure: everything is evaluated, in order.
    let all = ctx.map_indexed(n, |i, _: &ExecutionContext| Ok::<_, ()>(i * 2)).unwrap();
    assert_eq!(all, (0..n).map(|i| i * 2).collect::<Vec<_>>());
}

#[test]
fn chunks_cover_all_items_evenly() {
    let four = NonZeroThreadCount::new(4).unwrap();
    assert_eq!(chunk_bounds(10, four), vec![(0, 3), (3, 3), (6, 2), (8, 2)]);
    assert_eq!(chunk_bounds(2, four), vec![(0, 1), (1, 1)]);
    assert_eq!(chunk_bounds(0, four), vec![]);
    assert!(NonZeroThreadCount::new(0).is_none());
}

#[test]
fn slots_yield_the_lowest_error() {
    let all: Vec<Option<Result<u32, u32>>> = vec![Some(Ok(1)), Some(Ok(2)), Some(Ok(3))];
    assert_eq!(collect_slots(all), Ok(vec![1, 2, 3]));
    let failing: Vec<Option<Result<u32, u32>>> =
        vec![Some(Ok(1)), Some(Err(7)), None, Some(Err(9)), Some(Ok(5))];
    assert_eq!(collect_slots(failing), Err(7));
}

#[test]
fn adaptive_budgets_are_disabled_by_default() {
    assert_eq!(AdaptiveBootstrapBudget::default(), AdaptiveBootstrapBudget::disabled());
    assert_eq!(AdaptiveDrawBudget::default(), AdaptiveDrawBudget::disabled());
    let spread = AdaptiveBootstrapBudget { min_replicates: 5, ..Default::default() };
    assert!(!spread.enabled);
    assert_eq!(spread.required_replicates(3), u32::MAX);
}

#[test]
fn unavailable_arch_simd_is_not_an_effective_request() {
    assert!(!ARCH_SIMD_COMPILED);
    assert!(!KernelPolicy::default_policy().arch_simd_effective());
    assert!(!KernelPolicy::scalar_only().arch_simd_effective());
}

#[test]
fn default_user_threads_is_at_least_one_and_capped() {
    for available in [None, Some(0), Some(1), Some(8), Some(16), Some(17), Some(1000)] {
        let n = default_user_threads(available);
        assert!(n >= 1);
        assert!(n <= DEFAULT_USER_THREAD_CAP);
        let ctx = ExecutionContext::production_default(1, available);
        assert_eq!(ctx.parallelism.max_threads.get(), n);
        assert_ne!(ctx.kernel_policy, KernelPolicy::scalar_only());
    }
    assert_eq!(default_user_threads(Some(8)), 8);
    assert_eq!(default_user_threads(Some(1000)), 16);
}

#[test]
fn production_and_test_contexts_evaluate_full_monte_carlo_effort() {
    let production = ExecutionContext::production(1, 4);
    let tests = ExecutionContext::for_tests(1);
    assert_eq!(production.adaptive_bootstrap, AdaptiveBootstrapBudget::disabled());
    assert_eq!(production.adaptive_draws, AdaptiveDrawBudget::disabled());
    assert_eq!(production.adaptive_bootstrap, tests.adaptive_bootstrap);
    assert_eq!(production.adaptive_draws, tests.adaptive_draws);
}

#[test]
fn bootstrap_budget_floor_is_the_monte_carlo_error_bound() {
    let at = |eps: f64, min: u32| {
        let bound = (1.0 + 1.0 / (2.0 * eps * eps)).ceil();
        AdaptiveBootstrapBudget {
            enabled: true,
            min_replicates: min,
            se_rel_epsilon: level(eps),
        }
        .required_replicates(bound as u32)
    };
    // 1/√(2(B−1)) ≤ ε  ⇔  B ≥ 1 + 1/(2ε²).
    assert_eq!(at(0.05, 0), 201);
    assert_eq!(at(0.10, 0), 51);
    assert_eq!(at(0.01, 0), 5_001);
    assert_eq!(at(0.5, 0), 3);
    assert_eq!(at(0.5, 10), 10, "explicit floor wins when larger");
    assert_eq!(at(0.0, 10), u32::MAX, "non-positive ε never stops");
    assert_eq!(at(f64::NAN, 10), u32::MAX);
    assert_eq!(at(1e-9, 0), u32::MAX, "saturates instead of truncating");
    assert_eq!(AdaptiveBootstrapBudget::disabled().required_replicates(5), u32::MAX);
}

#[test]
fn f64_draws_are_in_unit_interval() {
    let mut rng = CausalRng::from_seed(123);
    let mut twin = CausalRng::from_seed(123);
    for _ in 0..1000 {
        let x = f64::from_bits(rng.next_f64().to_bits());
        assert!((0.0..1.0).contains(&x));
        let expected = (twin.next_u64() >> 11) as f64 * (1.0 / (1u64 << 53) as f64);
        assert_eq!(x, expected);
    }
}

#[test]
fn a_stream_continues_from_its_exported_state() {
    let mut rng = RngFactory::from_seed(5).stream(11);
    let _ = rng.next_u64();
    let mut resumed = CausalRng::from_state(rng.state());
    assert_eq!(rng.next_u64(), resumed.next_u64());
}

#[test]
fn cache_budget_admits_what_remains() {
    let budget = CacheBudget { max_bytes: 100, used_bytes: 60 };
    assert_eq!(budget.remaining(), 40);
    assert!(budget.can_admit(40));
    assert!(!budget.can_admit(41));
    assert!(CacheBudget::unlimited().can_admit(u64::MAX));
    assert_eq!(CacheBudget { max_bytes: 1, used_bytes: 2 }.remaining(), 0);
}

#[test]
fn display_renders_each_variant() {
    assert_eq!(Value::Float64(level(1.5)).to_text("1.5"), "1.5");
    assert_eq!(Value::Int64(42).to_text(""), "42");
    assert_eq!(Value::Bool(true).to_text(""), "true");
    assert_eq!(Value::Category(3).to_text(""), "cat(3)");
    assert_eq!(Value::Label("foo".to_string()).to_text(""), "foo");
    assert_eq!(Value::symbolic_intervention().to_text(""), "·");
}

#[test]
fn symbolic_intervention_marker_is_eq_stable() {
    let a = Value::symbolic_intervention();
    let b = Value::symbolic_intervention();
    assert!(a.is_symbolic_intervention());
    assert_eq!(a, b);
    let mut set = HashSet::new();
    assert!(set.insert(a));
    assert!(!set.insert(b));
}

#[test]
fn nan_is_not_the_symbolic_marker() {
    let nan = Value::float64(level(f64::NAN));
    assert!(!nan.is_symbolic_intervention());
    assert_ne!(nan, Value::symbolic_intervention());
}

#[test]
fn non_finite_intervention_level_is_validation_error() {
    assert_eq!(
        Value::float64(level(f64::NAN)).validate_concrete_intervention_level(),
        Err(InterventionValueError::NonFinite)
    );
    assert_eq!(
        Value::float64(level(f64::INFINITY)).validate_concrete_intervention_level(),
        Err(InterventionValueError::NonFinite)
    );
    assert_eq!(
        Value::symbolic_intervention().validate_concrete_intervention_level(),
        Err(InterventionValueError::NotConcrete)
    );
    assert!(Value::float64(level(1.0)).validate_concrete_intervention_level().is_ok());
    assert!(Value::Int64(0).validate_concrete_intervention_level().is_ok());
}

#[test]
fn signed_zero_eq_and_hash_agree() {
    let hash = |v: &Value| {
        let mut h = std::collections::hash_map::DefaultHasher::new();
        v.hash(&mut h);
        h.finish()
    };
    let (pos, neg) = (Value::float64(level(0.0)), Value::float64(level(-0.0)));
    // Equality is by bits, exactly like the hash and the identity encoding.
    assert_ne!(pos, neg);
    assert_ne!(hash(&pos), hash(&neg));
    assert_eq!(hash(&pos), hash(&Value::float64(level(0.0))));
}

#[test]
fn float_eq_uses_bits_so_nan_matches_itself() {
    let a = Value::float64(level(f64::NAN));
    let b = Value::float64(level(f64::NAN));
    assert_eq!(a, b);
    let mut set = HashSet::new();
    assert!(set.insert(a));
    assert!(!set.insert(b));
}

#[test]
fn integers_become_the_nearest_level() {
    for v in [
        0i64,
        1,
        -1,
        42,
        1 << 52,
        (1 << 53) - 1,
        1 << 53,
        (1 << 53) + 1,
        (1 << 53) + 3,
        (1 << 54) + 2,
        (1 << 54) + 6,
        i64::MAX,
        i64::MIN,
        -123_456_789_012_345_678,
    ] {
        let got = Value::Int64(v).as_f64().unwrap();
        assert_eq!(got.to_bits(), (v as f64).to_bits(), "v={v}");
    }
    assert_eq!(Value::Category(7).as_f64(), Some(level(7.0)));
    assert_eq!(Value::Bool(true).as_f64(), Some(level(1.0)));
    assert_eq!(Value::Bool(false).as_f64(), Some(level(0.0)));
    assert_eq!(Value::Label("x".to_string()).as_f64(), None);
}

#[test]
fn level_comparisons_agree_with_floating_point() {
    let values = [
        0.0,
        -0.0,
        1.0,
        -1.0,
        0.5,
        1e-320,
        -1e-320,
        f64::MAX,
        f64::MIN,
        f64::INFINITY,
        f64::NEG_INFINITY,
        f64::NAN,
        3.0,
        4_294_967_295.0,
        4_294_967_296.5,
    ];
    for a in values {
        assert_eq!(level(a).is_finite(), a.is_finite());
        assert_eq!(level(a).is_nan(), a.is_nan());
        assert_eq!(level(a).is_count(), a >= 0.0 && a.fract() == 0.0, "a={a}");
        for bound in [0u32, 1, 4, u32::MAX] {
            let expected = a >= 0.0 && a < f64::from(bound) && a.fract() == 0.0;
            assert_eq!(level(a).is_count_below(bound), expected, "a={a} bound={bound}");
        }
        for b in values {
            assert_eq!(level(a).less(level(b)), a < b);
            assert_eq!(level(a).at_most(level(b)), a <= b);
            assert_eq!(level(a).equals(level(b)), a == b);
        }
    }
}
