//! One run of the rollup worker, around its pass.
use crate::error::{ErrorView, TsinkError};
use crate::rollups::pass::{
    after_matching, counted_runs, error_view, fresh_run, is_valid, matched_view,
    moved_checkpoints, nanos_between, recorded_runs, texts_view, unit_view, wrapped_sum,
    wrapping_sum, MatchedSources, PassStage, PlannedView, ReadView, RollupObservabilityCounters,
    RollupPass, RunView,
};
use crate::rollups::state::{RollupStateStoreContext, StoreView};
use vstd::prelude::*;

verus! {

/// Milliseconds since the epoch, where the clock is not before it, as far as they fit.
pub fn now_unix_ms(since_epoch_ms: Option<u128>) -> (ms: u64)
    ensures
        ms == (match since_epoch_ms {
            Some(ms) => if ms <= u64::MAX {
                ms as int
            } else {
                u64::MAX as int
            },
            None => 0,
        }),
{
    match since_epoch_ms {
        Some(ms) => {
            if ms <= 0xffff_ffff_ffff_ffff {
                ms as u64
            } else {
                0xffff_ffff_ffff_ffff
            }
        },
        None => 0,
    }
}

/// How long something took, in nanoseconds, as far as that fits.
pub open spec fn elapsed_nanos(started: u128, now: u128) -> u64 {
    if now <= started {
        0
    } else if now - started <= u64::MAX {
        (now - started) as u64
    } else {
        u64::MAX
    }
}

/// The counters after a run began.
pub open spec fn run_begun(
    counters: RollupObservabilityCounters,
    policies: nat,
    started: u128,
    now: u128,
) -> RollupObservabilityCounters {
    let counted = RollupObservabilityCounters {
        worker_runs_total: wrapped_sum(counters.worker_runs_total, 1),
        ..counters
    };
    if policies == 0 {
        RollupObservabilityCounters {
            worker_success_total: wrapped_sum(counters.worker_success_total, 1),
            last_run_duration_nanos: elapsed_nanos(started, now),
            ..counted
        }
    } else {
        counted
    }
}

/// Begins a run. Without policies it is over at once, successfully; otherwise the pass
/// over them is given.
pub fn begin_rollup_run<P>(
    policies: Vec<String>,
    observability: &mut RollupObservabilityCounters,
    started: u128,
    now: u128,
) -> (pass: Option<RollupPass<P>>)
    ensures
        *final(observability) == run_begun(*old(observability), policies@.len(), started, now),
        pass is None <==> policies@.len() == 0,
        pass is Some ==> {
            &&& is_valid(pass->Some_0@)
            &&& pass->Some_0@.policies == texts_view(policies@)
            &&& pass->Some_0@.generation == 0
            &&& pass->Some_0@.runs == Seq::new(policies@.len(), |i: int| fresh_run(now))
            &&& pass->Some_0@.reads == Seq::<ReadView>::empty()
            &&& pass->Some_0@.staged == Seq::<PlannedView<P>>::empty()
            &&& pass->Some_0@.held is None
            &&& pass->Some_0@.writing == Seq::<PlannedView<P>>::empty()
            &&& pass->Some_0@.first_error is None
            &&& pass->Some_0@.stage == (PassStage::Matching { policy: 0 })
        },
{
    observability.worker_runs_total = wrapping_sum(observability.worker_runs_total, 1);
    if policies.len() == 0 {
        observability.worker_success_total = wrapping_sum(observability.worker_success_total, 1);
        observability.last_run_duration_nanos = nanos_between(started, now);
        return None;
    }
    Some(RollupPass::new(policies, now))
}

/// The counters after a policy started.
pub open spec fn policy_counted(
    counters: RollupObservabilityCounters,
) -> RollupObservabilityCounters {
    RollupObservabilityCounters {
        policy_runs_total: wrapped_sum(counters.policy_runs_total, 1),
        ..counters
    }
}

/// Counts the start of a policy.
pub fn count_policy_run(observability: &mut RollupObservabilityCounters)
    ensures
        *final(observability) == policy_counted(*old(observability)),
{
    observability.policy_runs_total = wrapping_sum(observability.policy_runs_total, 1);
}

/// Counts and starts the policy that a pass is at.
pub fn run_next_policy<P>(
    pass: &mut RollupPass<P>,
    store: &RollupStateStoreContext,
    observability: &mut RollupObservabilityCounters,
    started_nanos: u128,
    started_at_ms: u64,
    matched: Result<MatchedSources, TsinkError>,
    now: u128,
)
    requires
        is_valid(old(pass)@),
        old(pass)@.stage is Matching,
    ensures
        *final(observability) == policy_counted(*old(observability)),
        is_valid(final(pass)@),
        final(pass)@ == after_matching(
            old(pass)@,
            store@,
            old(pass)@.stage->Matching_policy as int,
            started_nanos,
            started_at_ms,
            matched_view(matched),
            now,
        ),
{
    count_policy_run(observability);
    pass.run_policy(store, started_nanos, started_at_ms, matched, now);
}

/// What is left to do when a pass is over. `first_error` is the first error of the pass.
#[derive(Debug)]
pub enum ClosingStep {
    /// A checkpoint moved: the state is to be persisted.
    PersistState { first_error: Option<TsinkError> },
    /// No checkpoint moved: the run can be concluded.
    Conclude { first_error: Option<TsinkError> },
}

impl ClosingStep {
    /// The first error of the pass.
    pub open spec fn first_error(&self) -> Option<ErrorView> {
        match self {
            ClosingStep::PersistState { first_error } => error_view(*first_error),
            ClosingStep::Conclude { first_error } => error_view(*first_error),
        }
    }
}

/// Ends the pass of a run. The state has to be persisted where a checkpoint moved, and
/// nowhere else.
pub fn close_rollup_pass<P>(
    pass: RollupPass<P>,
    store: &mut RollupStateStoreContext,
    observability: &mut RollupObservabilityCounters,
) -> (step: ClosingStep)
    requires
        is_valid(pass@),
        pass@.stage is Finished,
    ensures
        step is PersistState <==> moved_checkpoints(pass@),
        step is PersistState <==> exists|i: int|
            0 <= i < pass@.runs.len() && (#[trigger] pass@.runs[i]).report.checkpoint_changed,
        step.first_error() == pass@.first_error,
        final(store)@ == (StoreView {
            stats: recorded_runs(pass@, old(store)@, pass@.policies.len()),
            ..old(store)@
        }),
        *final(observability) == counted_runs(
            pass@.runs,
            *old(observability),
            pass@.policies.len(),
        ),
{
    let (checkpoints_dirty, first_error) = pass.finish(store, observability);
    if checkpoints_dirty {
        ClosingStep::PersistState { first_error }
    } else {
        ClosingStep::Conclude { first_error }
    }
}

/// The outcome of persisting the state, where that was due. Otherwise it counts as done.
pub open spec fn persisting_view(persisted: Option<Result<(), TsinkError>>) -> Result<
    (),
    ErrorView,
> {
    match persisted {
        Some(outcome) => unit_view(outcome),
        None => Ok(()),
    }
}

/// The counters after a run, and its outcome. Moved checkpoints that could not be persisted
/// end the run at once; otherwise it ends with the first error of the pass, if any.
pub open spec fn run_concluded(
    counters: RollupObservabilityCounters,
    first_error: Option<ErrorView>,
    persisted: Result<(), ErrorView>,
    started: u128,
    now: u128,
) -> (RollupObservabilityCounters, Result<(), ErrorView>) {
    let timed = RollupObservabilityCounters {
        last_run_duration_nanos: elapsed_nanos(started, now),
        ..counters
    };
    match persisted {
        Err(error) => (counters, Err(error)),
        Ok(()) => match first_error {
            Some(error) => (
                RollupObservabilityCounters {
                    worker_errors_total: wrapped_sum(counters.worker_errors_total, 1),
                    ..timed
                },
                Err(error),
            ),
            None => (
                RollupObservabilityCounters {
                    worker_success_total: wrapped_sum(counters.worker_success_total, 1),
                    ..timed
                },
                Ok(()),
            ),
        },
    }
}

/// Ends a run. `persisted` is the outcome of persisting the state, where that was due.
pub fn conclude_rollup_run(
    step: ClosingStep,
    persisted: Option<Result<(), TsinkError>>,
    observability: &mut RollupObservabilityCounters,
    started: u128,
    now: u128,
) -> (outcome: Result<(), TsinkError>)
    requires
        step is PersistState <==> persisted is Some,
    ensures
        (*final(observability), unit_view(outcome)) == run_concluded(
            *old(observability),
            step.first_error(),
            persisting_view(persisted),
            started,
            now,
        ),
{
    match persisted {
        Some(Err(error)) => {
            return Err(error);
        },
        _ => {},
    }
    let first_error = match step {
        ClosingStep::PersistState { first_error } => first_error,
        ClosingStep::Conclude { first_error } => first_error,
    };
    observability.last_run_duration_nanos = nanos_between(started, now);
    match first_error {
        Some(error) => {
            observability.worker_errors_total = wrapping_sum(observability.worker_errors_total, 1);
            Err(error)
        },
        None => {
            observability.worker_success_total =
                wrapping_sum(observability.worker_success_total, 1);
            Ok(())
        },
    }
}

/// The counters after so many policies started.
pub open spec fn policies_counted(
    counters: RollupObservabilityCounters,
    policies: nat,
) -> RollupObservabilityCounters
    decreases policies,
{
    if policies == 0 {
        counters
    } else {
        policy_counted(policies_counted(counters, (policies - 1) as nat))
    }
}

/// Counting policies adds their number, starting over on overflow, and touches no other
/// counter.
pub proof fn law_every_policy_is_counted(counters: RollupObservabilityCounters, policies: nat)
    ensures
        policies_counted(counters, policies) == (RollupObservabilityCounters {
            policy_runs_total: ((counters.policy_runs_total + policies)
                % 0x1_0000_0000_0000_0000) as u64,
            ..counters
        }),
    decreases policies,
{
    if policies > 0 {
        law_every_policy_is_counted(counters, (policies - 1) as nat);
    }
}

/// Recording what the policies materialized touches no counter of runs.
proof fn lemma_runs_keep_the_rest(
    runs: Seq<RunView>,
    counters: RollupObservabilityCounters,
    n: nat,
)
    ensures
        ({
            let after = counted_runs(runs, counters, n);
            after == RollupObservabilityCounters {
                buckets_materialized_total: after.buckets_materialized_total,
                points_materialized_total: after.points_materialized_total,
                ..counters
            }
        }),
    decreases n,
{
    if n > 0 {
        lemma_runs_keep_the_rest(runs, counters, (n - 1) as nat);
    }
}

/// A run over some policies whose state could be persisted, where that was due, counts as
/// one run and as one of every policy. It succeeds where the pass met no error, and otherwise
/// fails with the first one; it counts as the one or the other.
pub proof fn law_runs_are_counted_once(
    counters: RollupObservabilityCounters,
    runs: Seq<RunView>,
    first_error: Option<ErrorView>,
    started: u128,
    begun: u128,
    now: u128,
)
    requires
        runs.len() > 0,
    ensures
        ({
            let (after, outcome) = run_concluded(
                counted_runs(
                    runs,
                    policies_counted(
                        run_begun(counters, runs.len(), started, begun),
                        runs.len(),
                    ),
                    runs.len(),
                ),
                first_error,
                Ok(()),
                started,
                now,
            );
            &&& after.worker_runs_total == wrapped_sum(counters.worker_runs_total, 1)
            &&& after.policy_runs_total == (counters.policy_runs_total + runs.len())
                % 0x1_0000_0000_0000_0000
            &&& match first_error {
                None => {
                    &&& outcome is Ok
                    &&& after.worker_success_total == wrapped_sum(counters.worker_success_total, 1)
                    &&& after.worker_errors_total == counters.worker_errors_total
                },
                Some(error) => {
                    &&& outcome == Err::<(), ErrorView>(error)
                    &&& after.worker_success_total == counters.worker_success_total
                    &&& after.worker_errors_total == wrapped_sum(counters.worker_errors_total, 1)
                },
            }
        }),
{
    let at_start = run_begun(counters, runs.len(), started, begun);
    law_every_policy_is_counted(at_start, runs.len());
    lemma_runs_keep_the_rest(runs, policies_counted(at_start, runs.len()), runs.len());
}

} // verus!
