//! How work is cut into chunks.
//!
//! SPDX-License-Identifier: MIT OR Apache-2.0

use crate::execution;
use crate::execution::{AdaptiveBootstrapBudget, ExecutionContext};
use crate::level::OrderedFloatBits;
use vstd::arithmetic::div_mod;
use vstd::prelude::*;

verus! {

/// Chunks of work follow each other from the first item to the last without gaps, are never
/// empty, and differ in size by at most one item.
pub proof fn law_chunks_tile_the_work(n: int, workers: int, j: int, k: int)
    requires
        0 < workers <= n,
        0 <= j < workers,
        0 <= k < workers,
    ensures
        execution::chunk_start(n, workers, 0) == 0,
        execution::chunk_start(n, workers, workers) == n,
        execution::chunk_start(n, workers, k) < execution::chunk_start(n, workers, k + 1),
        ({
            let size = execution::chunk_start(n, workers, k + 1) - execution::chunk_start(
                n,
                workers,
                k,
            );
            let other = execution::chunk_start(n, workers, j + 1) - execution::chunk_start(
                n,
                workers,
                j,
            );
            size <= other + 1
        }),
{
    let q = n / workers;
    let r = n % workers;
    div_mod::lemma_fundamental_div_mod(n, workers);
    div_mod::lemma_mod_bound(n, workers);
    assert(q >= 1) by (nonlinear_arith)
        requires
            n == workers * q + r,
            r < workers,
            n >= workers,
            workers > 0,
    ;
    assert((k + 1) * q == k * q + q) by (nonlinear_arith);
    assert((j + 1) * q == j * q + q) by (nonlinear_arith);
    assert(workers * q == q * workers) by (nonlinear_arith);
    assert(0 * q == 0) by (nonlinear_arith);
}

/// As many workers are used as there are threads, but no more than there are items.
pub proof fn law_workers_are_bounded(ctx: ExecutionContext, n: int)
    requires
        n >= 0,
    ensures
        ctx.workers(n) <= n,
        ctx.workers(n) <= ctx.parallelism.max_threads.value(),
        ctx.workers(n) == n || ctx.workers(n) == ctx.parallelism.max_threads.value(),
{
}

/// A context that is told to stop may stop, and one that is told to go on may not.
pub proof fn law_stopping_is_told(ctx: ExecutionContext)
    ensures
        ctx.must_stop() ==> ctx.may_stop(),
        ctx.must_stop() <==> ctx.cancellation.answer() == Some(true),
        !ctx.may_stop() <==> ctx.cancellation.answer() == Some(false),
{
}

/// The context of serial work has one thread and differs from the outer one in nothing else.
pub proof fn law_serial_work_changes_the_threads_alone(inner: ExecutionContext, outer: ExecutionContext)
    requires
        inner.is_serial_of(outer),
    ensures
        inner.parallelism.max_threads.value() == 1,
        inner.rng.master_seed == outer.rng.master_seed,
        inner.may_stop() == outer.may_stop(),
        inner.must_stop() == outer.must_stop(),
        inner.full_effort() == outer.full_effort(),
        inner.determinism == outer.determinism,
        inner.memory == outer.memory,
        inner.kernel_policy == outer.kernel_policy,
        inner.cache_policy == outer.cache_policy,
{
}

/// With full effort nothing stops early: neither resampling nor drawing adapts.
pub proof fn law_full_effort_does_not_adapt(ctx: ExecutionContext)
    requires
        ctx.full_effort(),
    ensures
        !ctx.adaptive_bootstrap.enabled,
        !ctx.adaptive_draws.enabled,
        !ctx.adaptive_bootstrap.stops(),
        ctx.adaptive_bootstrap.min_replicates == 0,
        ctx.adaptive_draws.min_draws == 0,
{
}

/// Resampling stops early exactly where it is allowed to and a positive precision is asked for.
pub proof fn law_early_stops_need_a_precision(budget: AdaptiveBootstrapBudget)
    ensures
        budget.stops() ==> budget.enabled,
        budget.stops() ==> (OrderedFloatBits { bits: 0 }).lt(budget.se_rel_epsilon),
        budget.enabled && (OrderedFloatBits { bits: 0 }).lt(budget.se_rel_epsilon)
            ==> budget.stops(),
{
}

} // verus!
