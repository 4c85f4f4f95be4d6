//! What is recorded and counted at the end of a rollup pass.
use crate::error::ErrorView;
use crate::rollups::pass::{
    counted_runs, fresh_run, least, recorded_runs, written_through, PassView, RollupObservabilityCounters,
    RunView,
};
use crate::rollups::pass_laws::{is_at, is_missing};
use crate::rollups::pipeline::{run_begun, run_concluded};
use crate::rollups::state::{RunStateView, StoreView};
use vstd::prelude::*;

verus! {

/// Checkpoints per policy and source.
pub type Checkpoints = Map<Seq<char>, Map<Seq<char>, i64>>;

proof fn lemma_written_through(
    checkpoints: Checkpoints,
    policy_id: Seq<char>,
    keys: Seq<Seq<char>>,
)
    ensures
        ({
            let written = written_through(checkpoints, policy_id, keys);
            &&& written.len() == keys.filter(
                |key: Seq<char>| !is_missing(checkpoints, policy_id, key),
            ).len()
            &&& written.len() <= keys.len()
            &&& forall|k: int|
                0 <= k < keys.len() && !is_missing(checkpoints, policy_id, #[trigger] keys[k])
                    ==> written.contains(checkpoints[policy_id][keys[k]])
            &&& forall|i: int|
                0 <= i < written.len() ==> exists|k: int|
                    0 <= k < keys.len() && is_at(
                        checkpoints,
                        policy_id,
                        #[trigger] keys[k],
                        #[trigger] written[i],
                    )
        }),
    decreases keys.len(),
{
    reveal(Seq::filter);
    let written = written_through(checkpoints, policy_id, keys);
    if keys.len() > 0 {
        let front = keys.drop_last();
        let before = written_through(checkpoints, policy_id, front);
        lemma_written_through(checkpoints, policy_id, front);
        assert forall|k: int|
            0 <= k < keys.len() && !is_missing(
                checkpoints,
                policy_id,
                #[trigger] keys[k],
            ) implies written.contains(checkpoints[policy_id][keys[k]]) by {
            if k < front.len() {
                assert(front[k] == keys[k]);
                let i = before.index_of(checkpoints[policy_id][keys[k]]);
                assert(written[i] == before[i]);
            } else {
                assert(written.last() == checkpoints[policy_id][keys[k]]);
                assert(written[written.len() - 1] == written.last());
            }
        }
        assert forall|i: int| 0 <= i < written.len() implies exists|k: int|
            0 <= k < keys.len() && is_at(
                checkpoints,
                policy_id,
                #[trigger] keys[k],
                #[trigger] written[i],
            ) by {
            if i < before.len() {
                assert(written[i] == before[i]);
                let k = choose|k: int|
                    0 <= k < front.len() && is_at(
                        checkpoints,
                        policy_id,
                        #[trigger] front[k],
                        before[i],
                    );
                assert(is_at(checkpoints, policy_id, keys[k], written[i]));
            } else {
                assert(is_at(checkpoints, policy_id, keys[keys.len() - 1], written[i]));
            }
        }
    }
}

proof fn lemma_least(values: Seq<i64>)
    ensures
        least(values) is None <==> values.len() == 0,
        least(values) is Some ==> values.contains(least(values)->Some_0) && forall|i: int|
            0 <= i < values.len() ==> least(values)->Some_0 <= #[trigger] values[i],
    decreases values.len(),
{
    if values.len() > 0 {
        let front = values.drop_last();
        lemma_least(front);
        assert(values[values.len() - 1] == values.last());
        if front.len() > 0 {
            let i = front.index_of(least(front)->Some_0);
            assert(values[i] == front[i]);
            assert forall|k: int| 0 <= k < values.len() implies least(values)->Some_0
                <= #[trigger] values[k] by {
                if k < front.len() {
                    assert(front[k] == values[k]);
                }
            }
        }
    }
}

/// The nanoseconds are those from the start to the end, none where the end is not later, and as
/// many as can be counted where there are more.
pub open spec fn is_duration(started: u128, finished: u128, nanos: u64) -> bool {
    ||| finished <= started && nanos == 0
    ||| started + nanos == finished
    ||| finished - started > u64::MAX && nanos == u64::MAX
}

/// What is recorded of a policy's run. How long it took and when it was over follow from its
/// start and its end. A run that failed is recorded with its message and with nothing matched or
/// written. Otherwise the record counts the matched series, and those of its sources that have
/// a checkpoint at all, and says up to where all of those are written: the least of their
/// checkpoints.
pub open spec fn is_record(
    record: RunStateView,
    run: RunView,
    policy_id: Seq<char>,
    checkpoints: Checkpoints,
) -> bool {
    &&& record.last_error == run.error
    &&& record.last_run_started_at_ms == Some(run.started_at_ms)
    &&& is_duration(run.started_nanos, run.finished_nanos, record.last_run_duration_nanos)
    &&& record.last_run_completed_at_ms is Some
    &&& {
        let completed = run.started_at_ms + record.last_run_duration_nanos as int / 1_000_000;
        record.last_run_completed_at_ms->Some_0 == completed || completed > u64::MAX
            && record.last_run_completed_at_ms->Some_0 == u64::MAX
    }
    &&& run.error is Some ==> {
        &&& record.matched_series == 0
        &&& record.materialized_series == 0
        &&& record.materialized_through is None
    }
    &&& run.error is None ==> {
        &&& record.matched_series == run.report.matched_series
        &&& record.materialized_series == run.source_keys.filter(
            |key: Seq<char>| !is_missing(checkpoints, policy_id, key),
        ).len()
        &&& match record.materialized_through {
            None => forall|k: int|
                0 <= k < run.source_keys.len() ==> is_missing(
                    checkpoints,
                    policy_id,
                    #[trigger] run.source_keys[k],
                ),
            Some(through) => {
                &&& exists|k: int|
                    0 <= k < run.source_keys.len() && is_at(
                        checkpoints,
                        policy_id,
                        #[trigger] run.source_keys[k],
                        through,
                    )
                &&& forall|k: int|
                    0 <= k < run.source_keys.len() && !is_missing(
                        checkpoints,
                        policy_id,
                        #[trigger] run.source_keys[k],
                    ) ==> through <= checkpoints[policy_id][run.source_keys[k]]
            },
        }
    }
}

proof fn lemma_recorded<P>(pass: PassView<P>, store: StoreView, n: nat, i: int)
    requires
        0 <= i < n <= pass.policies.len(),
        pass.runs.len() == pass.policies.len(),
        pass.runs[i].source_keys.len() <= u64::MAX,
        forall|j: int| i < j < n ==> #[trigger] pass.policies[j] != pass.policies[i],
    ensures
        recorded_runs(pass, store, n).contains_key(pass.policies[i]),
        is_record(
            recorded_runs(pass, store, n)[pass.policies[i]],
            pass.runs[i],
            pass.policies[i],
            store.checkpoints,
        ),
    decreases n,
{
    if i < n - 1 {
        assert(pass.policies[n - 1] != pass.policies[i]);
        lemma_recorded(pass, store, (n - 1) as nat, i);
    } else {
        let run = pass.runs[i];
        let id = pass.policies[i];
        let written = written_through(store.checkpoints, id, run.source_keys);
        lemma_written_through(store.checkpoints, id, run.source_keys);
        lemma_least(written);
        if least(written) is Some {
            let at = written.index_of(least(written)->Some_0);
            assert(written[at] == least(written)->Some_0);
            assert forall|k: int|
                0 <= k < run.source_keys.len() && !is_missing(
                    store.checkpoints,
                    id,
                    #[trigger] run.source_keys[k],
                ) implies least(written)->Some_0
                <= store.checkpoints[id][run.source_keys[k]] by {
                let value = store.checkpoints[id][run.source_keys[k]];
                assert(written.contains(value));
                assert(written[written.index_of(value)] == value);
            }
        } else {
            assert forall|k: int| 0 <= k < run.source_keys.len() implies is_missing(
                store.checkpoints,
                id,
                #[trigger] run.source_keys[k],
            ) by {
                if !is_missing(store.checkpoints, id, run.source_keys[k]) {
                    assert(written.contains(store.checkpoints[id][run.source_keys[k]]));
                }
            }
        }
    }
}

proof fn lemma_not_recorded<P>(pass: PassView<P>, store: StoreView, n: nat, id: Seq<char>)
    requires
        n <= pass.policies.len(),
        forall|j: int| 0 <= j < n ==> #[trigger] pass.policies[j] != id,
    ensures
        recorded_runs(pass, store, n).contains_key(id) == store.stats.contains_key(id),
        store.stats.contains_key(id) ==> recorded_runs(pass, store, n)[id] == store.stats[id],
    decreases n,
{
    if n > 0 {
        assert(pass.policies[n - 1] != id);
        lemma_not_recorded(pass, store, (n - 1) as nat, id);
    }
}

/// At the end of a pass the run of every policy is recorded under its id, that of the last one
/// where several have it, and nothing is recorded under any other id.
pub proof fn law_every_run_is_recorded<P>(
    pass: PassView<P>,
    store: StoreView,
    i: int,
    other: Seq<char>,
)
    requires
        pass.runs.len() == pass.policies.len(),
        0 <= i < pass.policies.len(),
        pass.runs[i].source_keys.len() <= u64::MAX,
        forall|j: int|
            i < j < pass.policies.len() ==> #[trigger] pass.policies[j] != pass.policies[i],
    ensures
        ({
            let stats = recorded_runs(pass, store, pass.policies.len());
            &&& stats.contains_key(pass.policies[i])
            &&& is_record(
                stats[pass.policies[i]],
                pass.runs[i],
                pass.policies[i],
                store.checkpoints,
            )
            &&& (forall|j: int| 0 <= j < pass.policies.len() ==> #[trigger] pass.policies[j] != other)
                ==> {
                &&& stats.contains_key(other) == store.stats.contains_key(other)
                &&& store.stats.contains_key(other) ==> stats[other] == store.stats[other]
            }
        }),
{
    lemma_recorded(pass, store, pass.policies.len(), i);
    if forall|j: int| 0 <= j < pass.policies.len() ==> #[trigger] pass.policies[j] != other {
        lemma_not_recorded(pass, store, pass.policies.len(), other);
    }
}

/// The buckets that the first `n` runs materialized.
pub open spec fn buckets_in(runs: Seq<RunView>, n: nat) -> int
    decreases n,
{
    if n == 0 {
        0
    } else {
        buckets_in(runs, (n - 1) as nat) + runs[n - 1].report.buckets_materialized
    }
}

/// The points that the first `n` runs materialized.
pub open spec fn points_in(runs: Seq<RunView>, n: nat) -> int
    decreases n,
{
    if n == 0 {
        0
    } else {
        points_in(runs, (n - 1) as nat) + runs[n - 1].report.points_materialized
    }
}

/// The totals grow by what all the runs materialized, starting over on overflow, whether or not
/// a run failed. No other counter changes.
pub proof fn law_totals_grow_by_what_was_materialized(
    runs: Seq<RunView>,
    counters: RollupObservabilityCounters,
    n: nat,
)
    requires
        n <= runs.len(),
    ensures
        ({
            let after = counted_runs(runs, counters, n);
            &&& after.buckets_materialized_total == (counters.buckets_materialized_total
                + buckets_in(runs, n)) % 0x1_0000_0000_0000_0000
            &&& after.points_materialized_total == (counters.points_materialized_total + points_in(
                runs,
                n,
            )) % 0x1_0000_0000_0000_0000
            &&& after.worker_runs_total == counters.worker_runs_total
            &&& after.worker_success_total == counters.worker_success_total
            &&& after.worker_errors_total == counters.worker_errors_total
            &&& after.policy_runs_total == counters.policy_runs_total
            &&& after.last_run_duration_nanos == counters.last_run_duration_nanos
        }),
    decreases n,
{
    if n > 0 {
        law_totals_grow_by_what_was_materialized(runs, counters, (n - 1) as nat);
    }
}

/// A run without policies counts as a run and as a success, and is timed. A run with policies
/// counts as a run when it begins, and as nothing else.
pub proof fn law_beginning_a_run_is_counted(
    counters: RollupObservabilityCounters,
    policies: nat,
    started: u128,
    now: u128,
)
    ensures
        ({
            let after = run_begun(counters, policies, started, now);
            let ends = policies == 0;
            &&& after.worker_runs_total == (counters.worker_runs_total + 1)
                % 0x1_0000_0000_0000_0000
            &&& after.worker_success_total == (if ends {
                (counters.worker_success_total + 1) % 0x1_0000_0000_0000_0000
            } else {
                counters.worker_success_total as int
            })
            &&& ends ==> is_duration(started, now, after.last_run_duration_nanos)
            &&& !ends ==> after.last_run_duration_nanos == counters.last_run_duration_nanos
            &&& after.worker_errors_total == counters.worker_errors_total
            &&& after.policy_runs_total == counters.policy_runs_total
            &&& after.buckets_materialized_total == counters.buckets_materialized_total
            &&& after.points_materialized_total == counters.points_materialized_total
        }),
{
}

/// A run whose state could not be persisted ends with that error, uncounted and untimed.
/// Otherwise it is timed, and it ends with the first error of its pass, counted as an error, or
/// well, counted as a success.
pub proof fn law_ending_a_run_is_counted(
    counters: RollupObservabilityCounters,
    first_error: Option<ErrorView>,
    persisted: Result<(), ErrorView>,
    started: u128,
    now: u128,
)
    ensures
        ({
            let (after, outcome) = run_concluded(counters, first_error, persisted, started, now);
            &&& match (persisted, first_error) {
                (Err(error), _) => outcome == Err::<(), ErrorView>(error) && after == counters,
                (Ok(_), Some(error)) => {
                    &&& outcome == Err::<(), ErrorView>(error)
                    &&& after.worker_errors_total == (counters.worker_errors_total + 1)
                        % 0x1_0000_0000_0000_0000
                    &&& after.worker_success_total == counters.worker_success_total
                    &&& is_duration(started, now, after.last_run_duration_nanos)
                },
                (Ok(_), None) => {
                    &&& outcome is Ok
                    &&& after.worker_success_total == (counters.worker_success_total + 1)
                        % 0x1_0000_0000_0000_0000
                    &&& after.worker_errors_total == counters.worker_errors_total
                    &&& is_duration(started, now, after.last_run_duration_nanos)
                },
            }
            &&& after.worker_runs_total == counters.worker_runs_total
            &&& after.policy_runs_total == counters.policy_runs_total
            &&& after.buckets_materialized_total == counters.buckets_materialized_total
            &&& after.points_materialized_total == counters.points_materialized_total
        }),
{
}

/// The run of a policy that has not begun is recorded with nothing done, no sources and no
/// failure; it took no time.
pub proof fn law_fresh_run_has_done_nothing(now: u128)
    ensures
        ({
            let run = fresh_run(now);
            &&& run.started_nanos == now
            &&& run.finished_nanos == now
            &&& run.started_at_ms == 0
            &&& run.source_keys.len() == 0
            &&& run.error is None
            &&& run.report.matched_series == 0
            &&& run.report.materialized_series == 0
            &&& run.report.materialized_through is None
            &&& run.report.buckets_materialized == 0
            &&& run.report.points_materialized == 0
            &&& !run.report.checkpoint_changed
        }),
{
}

} // verus!
