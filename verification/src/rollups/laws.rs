//! What holds of every rollup pass, whatever the store answers.
use crate::error::ErrorView;
use crate::rollups::nested::at_keys;
use crate::rollups::pass::{
    after_checking, after_inserting, after_matching, after_reading, after_resuming,
    after_staging, as_staged, computed_item, is_item, is_valid, is_writing, new_points, planned_read, planning, points_total, skip_failed,
    DataPoint, MatchedView, PassStage, PassView, PlannedView, RunView,
    ROLLUP_STAGING_BATCH_POINTS,
};
use crate::rollups::sources::SourceSeriesView;
use crate::rollups::state::{
    pending_through, staged_onto, PendingRollupMaterialization, StagedView, StoreView,
};
use vstd::prelude::*;

verus! {

/// What can happen to a pass.
pub enum PassEvent<P> {
    Matched {
        started_nanos: u128,
        started_at_ms: u64,
        matched: Result<MatchedView, ErrorView>,
    },
    Computed(Result<Seq<DataPoint<P>>, ErrorView>),
    Persisted(Result<(), ErrorView>),
    Checked(Result<Seq<i64>, ErrorView>),
    Inserted(Result<(), ErrorView>),
    Resumed,
}

/// The event is what the pass waits for.
pub open spec fn is_awaited<P>(stage: PassStage, event: PassEvent<P>) -> bool {
    match event {
        PassEvent::Matched { .. } => stage is Matching,
        PassEvent::Computed(_) => stage is Reading,
        PassEvent::Persisted(_) => stage is Staging,
        PassEvent::Checked(_) => stage is Checking,
        PassEvent::Inserted(_) => stage is Inserting,
        PassEvent::Resumed => stage is Resuming,
    }
}

/// The pass and the state after an event.
pub open spec fn after_event<P>(
    pass: PassView<P>,
    store: StoreView,
    event: PassEvent<P>,
    now: u128,
) -> (PassView<P>, StoreView) {
    match event {
        PassEvent::Matched { started_nanos, started_at_ms, matched } => (
            after_matching(
                pass,
                store,
                pass.stage->Matching_policy as int,
                started_nanos,
                started_at_ms,
                matched,
                now,
            ),
            store,
        ),
        PassEvent::Computed(buckets) => after_reading(
            pass,
            store,
            pass.stage->Reading_policy as int,
            buckets,
            now,
        ),
        PassEvent::Persisted(persisted) => after_staging(
            pass,
            store,
            pass.stage->Staging_resume,
            persisted,
            now,
        ),
        PassEvent::Checked(existing) => after_checking(
            pass,
            store,
            pass.stage->Checking_resume,
            existing,
            now,
        ),
        PassEvent::Inserted(inserted) => after_inserting(
            pass,
            store,
            pass.stage->Inserting_resume,
            inserted,
            now,
        ),
        PassEvent::Resumed => (
            after_resuming(pass, pass.stage->Resuming_policy as int, now),
            store,
        ),
    }
}

/// A batch that is handed to staging holds no more buckets than the bound, unless it is a
/// single source that has more alone. Until then it is below the bound.
pub proof fn law_batches_are_bounded<P>(pass: PassView<P>)
    requires
        is_valid(pass),
    ensures
        pass.stage is Matching || pass.stage is Reading ==> points_total(pass.staged)
            < ROLLUP_STAGING_BATCH_POINTS,
        pass.stage is Staging ==> points_total(pass.staged) <= ROLLUP_STAGING_BATCH_POINTS
            || pass.staged.len() == 1,
        is_writing(pass.stage) || pass.stage is Resuming || pass.stage is Finished
            ==> pass.staged.len() == 0,
{
}

/// Computed buckets are not lost. A source that has any joins the batch or is held aside;
/// what is held aside stays so until it begins a batch, unless its policy fails; and what is
/// in a batch stays there until the batch is persisted or could not be.
pub proof fn law_computed_buckets_are_kept<P>(
    pass: PassView<P>,
    store: StoreView,
    event: PassEvent<P>,
    now: u128,
)
    requires
        is_valid(pass),
        is_awaited(pass.stage, event),
    ensures
        ({
            let after = after_event(pass, store, event, now).0;
            &&& event matches PassEvent::Computed(Ok(points)) ==> points.len() > 0 ==> {
                let item = computed_item(pass, pass.stage->Reading_policy as int, points);
                after.held == Some(item) || after.staged.contains(item)
            }
            &&& pass.held is Some ==> {
                ||| after.held == pass.held
                ||| after.staged.contains(pass.held->Some_0)
                ||| after.runs[pass.held->Some_0.policy as int].error is Some
            }
            &&& !(event is Persisted) ==> forall|i: int|
                0 <= i < pass.staged.len() ==> after.staged.contains(#[trigger] pass.staged[i])
        }),
{
    let after = after_event(pass, store, event, now).0;
    match event {
        PassEvent::Computed(Ok(points)) => {
            if points.len() > 0 {
                let item = computed_item(pass, pass.stage->Reading_policy as int, points);
                if after.held is None {
                    assert(after.staged == pass.staged.push(item));
                    assert(after.staged[pass.staged.len() as int] == item);
                }
            }
        },
        PassEvent::Resumed => {
            assert(after.staged[0] == pass.held->Some_0);
        },
        _ => {},
    }
    if !(event is Persisted) {
        assert forall|i: int| 0 <= i < pass.staged.len() implies after.staged.contains(
            #[trigger] pass.staged[i],
        ) by {
            assert(after.staged[i] == pass.staged[i]);
        }
    }
}

/// Once a batch was persisted, or could not be, nothing is staged.
pub proof fn law_staging_empties_the_batch<P>(
    pass: PassView<P>,
    store: StoreView,
    persisted: Result<(), ErrorView>,
    now: u128,
)
    requires
        is_valid(pass),
        pass.stage is Staging,
    ensures
        ({
            let after = after_event(pass, store, PassEvent::Persisted(persisted), now).0;
            after.staged.len() == 0 && after.staged_points == 0
        }),
{
}

/// No source joins a batch after its policy has failed.
pub proof fn law_failed_policies_stage_nothing_more<P>(
    pass: PassView<P>,
    store: StoreView,
    event: PassEvent<P>,
    now: u128,
)
    requires
        is_valid(pass),
        is_awaited(pass.stage, event),
    ensures
        ({
            let after = after_event(pass, store, event, now).0;
            forall|i: int|
                0 <= i < after.staged.len() ==> pass.staged.contains(#[trigger] after.staged[i])
                    || after.runs[after.staged[i].policy as int].error is None
        }),
{
    let after = after_event(pass, store, event, now).0;
    assert forall|i: int| 0 <= i < after.staged.len() implies pass.staged.contains(
        #[trigger] after.staged[i],
    ) || after.runs[after.staged[i].policy as int].error is None by {
        if i < pass.staged.len() {
            assert(after.staged[i] == pass.staged[i]);
        }
    }
}

/// The pass waits for a read or a write only on behalf of a policy that has not failed.
pub proof fn law_failed_policies_do_nothing_more<P>(pass: PassView<P>)
    requires
        is_valid(pass),
    ensures
        pass.stage is Reading ==> pass.runs[pass.stage->Reading_policy as int].error is None,
        is_writing(pass.stage) ==> pass.runs[pass.writing[0].policy as int].error is None,
{
}

proof fn lemma_skipped_items<P>(runs: Seq<RunView>, writing: Seq<PlannedView<P>>, i: int)
    requires
        0 <= i < skip_failed(runs, writing).len(),
    ensures
        skip_failed(runs, writing).len() <= writing.len(),
        skip_failed(runs, writing)[i] == writing[i + writing.len() - skip_failed(
            runs,
            writing,
        ).len()],
    decreases writing.len(),
{
    if writing.len() > 0 && runs[writing[0].policy as int].error is Some {
        lemma_skipped_items(runs, writing.drop_first(), i);
    }
}

/// Only items of a persisted batch are written. Where persisting fails, none is, and the
/// state stays as it was; where it succeeds, the state has a pending materialization for
/// every item of the batch that is up for writing.
pub proof fn law_items_are_staged_before_they_are_written<P>(
    pass: PassView<P>,
    store: StoreView,
    persisted: Result<(), ErrorView>,
    now: u128,
)
    requires
        is_valid(pass),
        pass.stage is Staging,
    ensures
        ({
            let (after, state) = after_event(pass, store, PassEvent::Persisted(persisted), now);
            &&& persisted is Err ==> after.writing.len() == 0 && state == store
            &&& persisted is Ok ==> state.pending == staged_onto(
                store.pending,
                as_staged(pass.policies, pass.staged),
            )
            &&& forall|i: int|
                0 <= i < after.writing.len() ==> {
                    &&& pass.staged.contains(#[trigger] after.writing[i])
                    &&& at_keys(
                        state.pending,
                        pass.policies[after.writing[i].policy as int],
                        after.writing[i].source.source_key,
                    ) is Some
                }
        }),
{
    let (after, state) = after_event(pass, store, PassEvent::Persisted(persisted), now);
    if persisted is Ok {
        let batch = as_staged(pass.policies, pass.staged);
        assert forall|i: int| 0 <= i < after.writing.len() implies pass.staged.contains(
            #[trigger] after.writing[i],
        ) && at_keys(
            state.pending,
            pass.policies[after.writing[i].policy as int],
            after.writing[i].source.source_key,
        ) is Some by {
            let left = skip_failed(pass.runs, pass.staged);
            assert(after.writing == left);
            lemma_skipped_items(pass.runs, pass.staged, i);
            let k = i + pass.staged.len() - left.len();
            assert(pass.staged[k] == after.writing[i]);
            lemma_covered(store.pending, batch, k);
            assert(batch[k].policy_id == pass.policies[after.writing[i].policy as int]);
        }
    }
}

/// Every item of a batch is pending once the batch is staged.
proof fn lemma_covered(
    pending: Map<Seq<char>, Map<Seq<char>, PendingRollupMaterialization>>,
    batch: Seq<StagedView>,
    at: int,
)
    requires
        0 <= at < batch.len(),
    ensures
        at_keys(
            staged_onto(pending, batch),
            batch[at].policy_id,
            batch[at].source_key,
        ) is Some,
    decreases batch.len(),
{
    if at < batch.len() - 1 {
        assert(batch.drop_last()[at] == batch[at]);
        lemma_covered(pending, batch.drop_last(), at);
    }
}

/// While a batch is written no item joins it: each one left was there before, for the same
/// policy, source and range.
pub proof fn law_no_item_joins_a_batch<P>(
    pass: PassView<P>,
    store: StoreView,
    event: PassEvent<P>,
    now: u128,
)
    requires
        is_valid(pass),
        is_awaited(pass.stage, event),
        !(event is Persisted),
    ensures
        ({
            let after = after_event(pass, store, event, now).0;
            &&& after.writing.len() <= pass.writing.len()
            &&& forall|i: int|
                0 <= i < after.writing.len() ==> exists|k: int|
                    0 <= k < pass.writing.len() && is_same_item(
                        #[trigger] after.writing[i],
                        #[trigger] pass.writing[k],
                    )
        }),
{
    let after = after_event(pass, store, event, now).0;
    match event {
        PassEvent::Matched { .. } => {},
        PassEvent::Computed(_) => {},
        PassEvent::Persisted(_) => {},
        PassEvent::Checked(existing) => {
            lemma_narrowing_keeps_the_rest(pass, existing);
            lemma_next_items(pass, after, existing is Ok && after.stage is Inserting);
        },
        PassEvent::Inserted(_) => {
            lemma_next_items(pass, after, false);
        },
        PassEvent::Resumed => {},
    }
}

proof fn lemma_narrowing_keeps_the_rest<P>(
    pass: PassView<P>,
    existing: Result<Seq<i64>, ErrorView>,
)
    requires
        pass.writing.len() > 0,
    ensures
        existing is Ok ==> pass.writing.update(
            0,
            PlannedView {
                points: new_points(pass.writing[0].points, existing->Ok_0),
                ..pass.writing[0]
            },
        ).drop_first() == pass.writing.drop_first(),
{
    if existing is Ok {
        let narrowed = PlannedView {
            points: new_points(pass.writing[0].points, existing->Ok_0),
            ..pass.writing[0]
        };
        assert(pass.writing.update(0, narrowed).drop_first() =~= pass.writing.drop_first());
    }
}

/// Two items are for the same policy, source and range.
pub open spec fn is_same_item<P>(a: PlannedView<P>, b: PlannedView<P>) -> bool {
    a.policy == b.policy && a.source == b.source && a.pending == b.pending
}

proof fn lemma_next_items<P>(pass: PassView<P>, after: PassView<P>, narrowed: bool)
    requires
        pass.writing.len() > 0,
        narrowed ==> after.writing.len() == pass.writing.len() && is_same_item(
            after.writing[0],
            pass.writing[0],
        ) && forall|i: int|
            0 < i < pass.writing.len() ==> after.writing[i] == #[trigger] pass.writing[i],
        !narrowed ==> exists|runs: Seq<RunView>| #[trigger]
            skip_failed(runs, pass.writing.drop_first()) == after.writing,
    ensures
        after.writing.len() <= pass.writing.len(),
        forall|i: int|
            0 <= i < after.writing.len() ==> exists|k: int|
                0 <= k < pass.writing.len() && is_same_item(
                    #[trigger] after.writing[i],
                    #[trigger] pass.writing[k],
                ),
{
    if narrowed {
        assert forall|i: int| 0 <= i < after.writing.len() implies exists|k: int|
            0 <= k < pass.writing.len() && is_same_item(
                #[trigger] after.writing[i],
                #[trigger] pass.writing[k],
            ) by {
            assert(is_same_item(after.writing[i], pass.writing[i]));
        }
    } else {
        let rest = pass.writing.drop_first();
        let runs = choose|runs: Seq<RunView>| #[trigger] skip_failed(runs, rest) == after.writing;
        if after.writing.len() > 0 {
            lemma_skipped_items(runs, rest, 0);
        }
        assert forall|i: int| 0 <= i < after.writing.len() implies exists|k: int|
            0 <= k < pass.writing.len() && is_same_item(
                #[trigger] after.writing[i],
                #[trigger] pass.writing[k],
            ) by {
            lemma_skipped_items(runs, rest, i);
            let k = i + rest.len() - after.writing.len() + 1;
            assert(is_same_item(after.writing[i], pass.writing[k]));
        }
    }
}

/// The first error of a pass, and the first message of a policy, are never replaced.
pub proof fn law_first_errors_are_kept<P>(
    pass: PassView<P>,
    store: StoreView,
    event: PassEvent<P>,
    now: u128,
    policy: int,
)
    requires
        is_valid(pass),
        is_awaited(pass.stage, event),
        0 <= policy < pass.runs.len(),
    ensures
        ({
            let after = after_event(pass, store, event, now).0;
            &&& pass.first_error is Some ==> after.first_error == pass.first_error
            &&& pass.runs[policy].error is Some ==> after.runs[policy].error
                == pass.runs[policy].error
        }),
{
    if is_writing(pass.stage) {
        assert(is_item(pass.policies.len(), pass.writing[0]));
    }
}

/// A planned read starts where the source is written up to, and ends later, at the stable
/// end or beyond.
pub proof fn law_reads_move_forward(
    store: StoreView,
    policy_id: Seq<char>,
    source: SourceSeriesView,
    stable_end: i64,
)
    ensures
        match planned_read(store, policy_id, source, stable_end) {
            Some(read) => {
                &&& read.source == source
                &&& read.checkpoint < read.target_end
                &&& read.target_end >= stable_end
                &&& match at_keys(store.checkpoints, policy_id, source.source_key) {
                    Some(checkpoint) => read.checkpoint == checkpoint,
                    None => read.checkpoint == i64::MIN,
                }
                &&& match pending_through(store, policy_id, source.source_key) {
                    Some(through) => read.target_end >= through,
                    None => read.target_end == stable_end,
                }
            },
            None => match at_keys(store.checkpoints, policy_id, source.source_key) {
                Some(checkpoint) => checkpoint >= stable_end,
                None => stable_end == i64::MIN,
            },
        },
{
}

/// A written item moves the checkpoint of its source forward to the end of its range and
/// clears its pending materialization; every other checkpoint stays. An item that fails
/// moves nothing.
pub proof fn law_checkpoints_move_with_writes<P>(
    pass: PassView<P>,
    store: StoreView,
    inserted: Result<(), ErrorView>,
    now: u128,
    other_policy: Seq<char>,
    other_source: Seq<char>,
)
    requires
        is_valid(pass),
        pass.stage is Inserting,
    ensures
        ({
            let item = pass.writing[0];
            let id = pass.policies[item.policy as int];
            let key = item.source.source_key;
            let state = after_event(pass, store, PassEvent::Inserted(inserted), now).1;
            &&& inserted is Err ==> state == store
            &&& inserted is Ok ==> {
                &&& at_keys(state.checkpoints, id, key) == Some(item.pending.materialized_through)
                &&& item.pending.checkpoint < item.pending.materialized_through
                &&& at_keys(state.pending, id, key) is None
            }
            &&& other_policy != id || other_source != key ==> at_keys(
                state.checkpoints,
                other_policy,
                other_source,
            ) == at_keys(store.checkpoints, other_policy, other_source)
        }),
{
    assert(is_item(pass.policies.len(), pass.writing[0]));
}

/// A bucket that the store has already is not inserted again, and every other bucket is.
pub proof fn law_existing_buckets_are_not_rewritten<P>(
    points: Seq<DataPoint<P>>,
    existing: Seq<i64>,
    point: DataPoint<P>,
)
    ensures
        new_points(points, existing).contains(point) <==> points.contains(point)
            && !existing.contains(point.timestamp),
    decreases points.len(),
{
    if points.len() > 0 {
        let shorter = points.drop_last();
        let before = new_points(shorter, existing);
        let all = new_points(points, existing);
        law_existing_buckets_are_not_rewritten(shorter, existing, point);
        assert(points[points.len() - 1] == points.last());
        assert(points.contains(point) <==> shorter.contains(point) || point == points.last()) by {
            if shorter.contains(point) {
                assert(points[shorter.index_of(point)] == point);
            }
            if points.contains(point) && point != points.last() {
                assert(shorter[points.index_of(point)] == point);
            }
        }
        if !existing.contains(points.last().timestamp) {
            assert(all.contains(point) <==> before.contains(point) || point == points.last()) by {
                if before.contains(point) {
                    assert(all[before.index_of(point)] == point);
                }
                assert(all[before.len() as int] == points.last());
                if all.contains(point) && point != points.last() {
                    assert(before[all.index_of(point)] == point);
                }
            }
        }
    }
}

/// How much a pass has still to do: policies, then reads of the policy at hand, then an
/// item held aside and a batch to persist, then items to write.
pub open spec fn work_left<P>(pass: PassView<P>) -> (nat, nat, nat, nat) {
    let policies = match planning(pass.stage) {
        Some(policy) => (2 * (pass.policies.len() - policy) - (if pass.stage is Matching {
            0int
        } else {
            1int
        })) as nat,
        None => 0,
    };
    (
        if pass.stage is Finished {
            0
        } else {
            policies + 1
        },
        pass.reads.len(),
        (if pass.held is Some {
            2nat
        } else {
            0
        }) + (if pass.stage is Staging {
            1nat
        } else {
            0
        }),
        (2 * pass.writing.len() - (if pass.stage is Inserting {
            1int
        } else {
            0int
        })) as nat,
    )
}

/// Less work in the first place where the two differ.
pub open spec fn is_less(a: (nat, nat, nat, nat), b: (nat, nat, nat, nat)) -> bool {
    ||| a.0 < b.0
    ||| a.0 == b.0 && a.1 < b.1
    ||| a.0 == b.0 && a.1 == b.1 && a.2 < b.2
    ||| a.0 == b.0 && a.1 == b.1 && a.2 == b.2 && a.3 < b.3
}

/// Every event leaves less to do, so a pass comes to an end whatever the store answers.
pub proof fn law_passes_end<P>(
    pass: PassView<P>,
    store: StoreView,
    event: PassEvent<P>,
    now: u128,
)
    requires
        is_valid(pass),
        is_awaited(pass.stage, event),
    ensures
        is_less(work_left(after_event(pass, store, event, now).0), work_left(pass)),
{
    let after = after_event(pass, store, event, now).0;
    match event {
        PassEvent::Matched { .. } => {},
        PassEvent::Computed(_) => {},
        PassEvent::Persisted(_) => {},
        PassEvent::Checked(existing) => {
            lemma_narrowing_keeps_the_rest(pass, existing);
            if !(existing is Ok && after.stage is Inserting) {
                lemma_fewer_left(pass, after);
            }
        },
        PassEvent::Inserted(_) => {
            lemma_fewer_left(pass, after);
        },
        PassEvent::Resumed => {},
    }
}

proof fn lemma_fewer_left<P>(pass: PassView<P>, after: PassView<P>)
    requires
        pass.writing.len() > 0,
        exists|runs: Seq<RunView>| #[trigger]
            skip_failed(runs, pass.writing.drop_first()) == after.writing,
    ensures
        after.writing.len() < pass.writing.len(),
{
    let rest = pass.writing.drop_first();
    let runs = choose|runs: Seq<RunView>| #[trigger] skip_failed(runs, rest) == after.writing;
    if after.writing.len() > 0 {
        lemma_skipped_items(runs, rest, 0);
    }
}

/// How many policies of a pass were matched.
pub open spec fn policies_matched<P>(pass: PassView<P>) -> int {
    match pass.stage {
        PassStage::Matching { policy } => policy as int,
        _ => match planning(pass.stage) {
            Some(policy) => policy + 1,
            None => pass.policies.len() as int,
        },
    }
}

/// The policy that a pass is at is one of its policies.
pub open spec fn is_on_course<P>(pass: PassView<P>) -> bool {
    &&& pass.policies.len() <= usize::MAX
    &&& planning(pass.stage) is Some ==> planning(pass.stage)->Some_0 < pass.policies.len()
}

/// The policies are matched one after another: matching takes the pass to the next policy,
/// whether or not it succeeds, and nothing else does.
pub proof fn law_policies_are_matched_in_order<P>(
    pass: PassView<P>,
    store: StoreView,
    event: PassEvent<P>,
    now: u128,
)
    requires
        is_on_course(pass),
        is_awaited(pass.stage, event),
    ensures
        ({
            let after = after_event(pass, store, event, now).0;
            &&& is_on_course(after)
            &&& after.policies == pass.policies
            &&& event is Matched ==> pass.stage == (PassStage::Matching {
                policy: policies_matched(pass) as usize,
            })
            &&& policies_matched(after) == policies_matched(pass) + (if event is Matched {
                1int
            } else {
                0int
            })
        }),
{
}

/// The states that a pass and its store went through, and the events that took them from one
/// to the next.
pub open spec fn is_pass_run<P>(
    states: Seq<(PassView<P>, StoreView)>,
    events: Seq<PassEvent<P>>,
    times: Seq<u128>,
) -> bool {
    &&& states.len() == events.len() + 1
    &&& times.len() == events.len()
    &&& states[0].0.stage == (PassStage::Matching { policy: 0 })
    &&& 0 < states[0].0.policies.len() <= usize::MAX
    &&& forall|k: int|
        #![trigger events[k]]
        0 <= k < events.len() ==> is_awaited(states[k].0.stage, events[k]) && states[k + 1]
            == after_event(states[k].0, states[k].1, events[k], times[k])
}

/// How many of the events start a policy.
pub open spec fn starts_in<P>(events: Seq<PassEvent<P>>) -> nat
    decreases events.len(),
{
    if events.len() == 0 {
        0
    } else {
        starts_in(events.drop_last()) + (if events.last() is Matched {
            1nat
        } else {
            0
        })
    }
}

proof fn lemma_starts<P>(
    states: Seq<(PassView<P>, StoreView)>,
    events: Seq<PassEvent<P>>,
    times: Seq<u128>,
    k: int,
)
    requires
        is_pass_run(states, events, times),
        0 <= k <= events.len(),
    ensures
        is_on_course(states[k].0),
        states[k].0.policies == states[0].0.policies,
        policies_matched(states[k].0) == starts_in(events.take(k)),
    decreases k,
{
    if k > 0 {
        lemma_starts(states, events, times, k - 1);
        let event = events[k - 1];
        assert(states[k - 1 + 1] == states[k]);
        law_policies_are_matched_in_order(
            states[k - 1].0,
            states[k - 1].1,
            event,
            times[k - 1],
        );
        assert(events.take(k).drop_last() =~= events.take(k - 1));
        assert(events.take(k).last() == event);
    }
}

/// A pass that comes to its end has started every policy exactly once, in order, also after
/// one failed: as many events start a policy as there are policies, and each starts the one
/// that is next.
pub proof fn law_every_policy_runs_once<P>(
    states: Seq<(PassView<P>, StoreView)>,
    events: Seq<PassEvent<P>>,
    times: Seq<u128>,
)
    requires
        is_pass_run(states, events, times),
        states.last().0.stage is Finished,
    ensures
        starts_in(events) == states[0].0.policies.len(),
        forall|k: int|
            #![trigger events[k]]
            0 <= k < events.len() && events[k] is Matched ==> states[k].0.stage
                == (PassStage::Matching { policy: starts_in(events.take(k)) as usize }),
{
    lemma_starts(states, events, times, events.len() as int);
    assert(events.take(events.len() as int) =~= events);
    assert forall|k: int|
        #![trigger events[k]]
        0 <= k < events.len() && events[k] is Matched implies states[k].0.stage
        == (PassStage::Matching { policy: starts_in(events.take(k)) as usize }) by {
        lemma_starts(states, events, times, k);
        law_policies_are_matched_in_order(states[k].0, states[k].1, events[k], times[k]);
    }
}

} // verus!
