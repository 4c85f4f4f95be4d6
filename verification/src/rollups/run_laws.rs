//! What a whole rollup pass comes to.
use crate::rollups::event_laws::{
    is_rest_after_failed, law_computed_buckets_join_the_batch,
    law_failures_are_noted_where_they_belong, law_inserted_buckets_are_counted,
    law_persisted_batch_is_pending, law_rest_of_the_batch_is_written,
    law_source_without_buckets_is_done, skips_failed,
};
use crate::rollups::laws::{
    after_event, is_awaited, is_pass_run, law_computed_buckets_are_kept, law_first_errors_are_kept,
    PassEvent,
};
use crate::rollups::pass::{
    is_item, is_valid, is_writing, planning, PassView, PlannedView, ReadView, RunView,
};
use crate::rollups::pass_laws::{
    is_at, law_moved_checkpoints_are_marked, law_only_new_buckets_wait_for_insertion,
};
use crate::rollups::state::StoreView;
use vstd::prelude::*;

verus! {

/// The item holds buckets of the policy for the source of the read, up to its end.
pub open spec fn is_for<P>(item: PlannedView<P>, policy: int, read: ReadView) -> bool {
    &&& item.policy == policy
    &&& item.source == read.source
    &&& item.pending.materialized_through == read.target_end
}

/// The policy has failed, or the read is still to be made, or what it gave is held aside, staged
/// or being written.
spec fn is_under_way<P>(pass: PassView<P>, policy: int, read: ReadView) -> bool {
    ||| pass.runs[policy].error is Some
    ||| is_to_be_read(pass, policy, read)
    ||| pass.held is Some && is_for(pass.held->Some_0, policy, read)
    ||| has_one_for(pass.staged, policy, read)
    ||| has_one_for(pass.writing, policy, read)
}

spec fn is_to_be_read<P>(pass: PassView<P>, policy: int, read: ReadView) -> bool {
    &&& planning(pass.stage) == Some(policy as usize)
    &&& !(pass.stage is Matching)
    &&& pass.reads.contains(read)
}

spec fn has_one_for<P>(items: Seq<PlannedView<P>>, policy: int, read: ReadView) -> bool {
    exists|i: int| 0 <= i < items.len() && is_for(#[trigger] items[i], policy, read)
}

/// The source of the read is written up to its end.
pub open spec fn is_written<P>(
    pass: PassView<P>,
    store: StoreView,
    policy: int,
    read: ReadView,
) -> bool {
    is_at(store.checkpoints, pass.policies[policy], read.source.source_key, read.target_end)
}

proof fn lemma_read_stays_under_way<P>(
    pass: PassView<P>,
    store: StoreView,
    event: PassEvent<P>,
    now: u128,
    policy: int,
    read: ReadView,
)
    requires
        is_valid(pass),
        is_awaited(pass.stage, event),
        0 <= policy < pass.runs.len(),
        is_to_be_read(pass, policy, read),
        pass.runs[policy].error is None,
    ensures
        ({
            let (after, state) = after_event(pass, store, event, now);
            is_under_way(after, policy, read) || is_written(after, state, policy, read)
        }),
{
    let (after, state) = after_event(pass, store, event, now);
    match event {
        PassEvent::Computed(Ok(points)) => {
            let rest = pass.reads.drop_first();
            let at = pass.reads.index_of(read);
            assert(after.reads =~= rest);
            if points.len() == 0 {
                assert(points =~= Seq::empty());
                law_source_without_buckets_is_done(pass, store, now, Seq::empty(), Seq::empty());
            } else {
                law_computed_buckets_join_the_batch(pass, store, points, now);
            }
            if at == 0 {
                if points.len() > 0 && after.held is None {
                    let last = after.staged.len() - 1;
                    assert(is_for(after.staged[last], policy, read));
                }
            } else {
                assert(rest[at - 1] == read);
                assert(after.reads.contains(read));
            }
        },
        PassEvent::Computed(Err(error)) => {
            law_failures_are_noted_where_they_belong(pass, store, event, now, policy);
        },
        _ => {
            if is_writing(pass.stage) {
                assert(is_item(pass.policies.len(), pass.writing[0]));
            }
        },
    }
}

proof fn lemma_rest_keeps<P>(
    runs: Seq<RunView>,
    items: Seq<PlannedView<P>>,
    rest: Seq<PlannedView<P>>,
    policy: int,
    read: ReadView,
)
    requires
        is_rest_after_failed(runs, items, rest),
        has_one_for(items, policy, read),
    ensures
        runs[policy].error is Some || has_one_for(rest, policy, read),
{
    let n = choose|n: int| #[trigger] skips_failed(runs, items, rest, n);
    let i = choose|i: int| 0 <= i < items.len() && is_for(#[trigger] items[i], policy, read);
    if i >= n {
        assert(rest[i - n] == items[i]);
    }
}

proof fn lemma_staged_stays_under_way<P>(
    pass: PassView<P>,
    store: StoreView,
    event: PassEvent<P>,
    now: u128,
    policy: int,
    read: ReadView,
)
    requires
        is_valid(pass),
        is_awaited(pass.stage, event),
        0 <= policy < pass.runs.len(),
        has_one_for(pass.staged, policy, read),
        pass.runs[policy].error is None,
    ensures
        is_under_way(after_event(pass, store, event, now).0, policy, read),
{
    let after = after_event(pass, store, event, now).0;
    let i = choose|i: int|
        0 <= i < pass.staged.len() && is_for(#[trigger] pass.staged[i], policy, read);
    match event {
        PassEvent::Persisted(Ok(_)) => {
            law_persisted_batch_is_pending(pass, store, now, i, Seq::empty(), Seq::empty());
            lemma_rest_keeps(pass.runs, pass.staged, after.writing, policy, read);
        },
        PassEvent::Persisted(Err(_)) => {
            law_failures_are_noted_where_they_belong(pass, store, event, now, policy);
        },
        _ => {
            law_computed_buckets_are_kept(pass, store, event, now);
            assert(after.staged.contains(pass.staged[i]));
            let k = after.staged.index_of(pass.staged[i]);
            assert(is_for(after.staged[k], policy, read));
        },
    }
}

proof fn lemma_writing_stays_under_way<P>(
    pass: PassView<P>,
    store: StoreView,
    event: PassEvent<P>,
    now: u128,
    policy: int,
    read: ReadView,
)
    requires
        is_valid(pass),
        is_awaited(pass.stage, event),
        0 <= policy < pass.runs.len(),
        has_one_for(pass.writing, policy, read),
        pass.runs[policy].error is None,
    ensures
        ({
            let (after, state) = after_event(pass, store, event, now);
            is_under_way(after, policy, read) || is_written(after, state, policy, read)
        }),
{
    let (after, state) = after_event(pass, store, event, now);
    let rest = pass.writing.drop_first();
    let item = pass.writing[0];
    let i = choose|i: int|
        0 <= i < pass.writing.len() && is_for(#[trigger] pass.writing[i], policy, read);
    assert(is_item(pass.policies.len(), item));
    if let PassEvent::Checked(Ok(existing)) = event {
        let point = item.points[0];
        law_only_new_buckets_wait_for_insertion(pass, store, existing, now, point);
    }
    if let PassEvent::Inserted(Ok(_)) = event {
        law_inserted_buckets_are_counted(pass, store, now, Seq::empty(), Seq::empty());
    }
    law_failures_are_noted_where_they_belong(pass, store, event, now, policy);
    if after.stage is Inserting {
        if i == 0 {
            assert(is_for(after.writing[0], policy, read));
        } else {
            assert(after.writing.drop_first()[i - 1] == pass.writing[i]);
            assert(is_for(after.writing[i], policy, read));
        }
    } else {
        law_rest_of_the_batch_is_written(pass, store, event, now);
        if i > 0 {
            assert(rest[i - 1] == pass.writing[i]);
            lemma_rest_keeps(after.runs, rest, after.writing, policy, read);
        }
    }
}

proof fn lemma_stays_under_way<P>(
    pass: PassView<P>,
    store: StoreView,
    event: PassEvent<P>,
    now: u128,
    policy: int,
    read: ReadView,
)
    requires
        is_valid(pass),
        is_awaited(pass.stage, event),
        0 <= policy < pass.runs.len(),
        is_under_way(pass, policy, read),
    ensures
        ({
            let (after, state) = after_event(pass, store, event, now);
            &&& after.policies == pass.policies
            &&& after.runs.len() == pass.runs.len()
            &&& is_under_way(after, policy, read) || is_written(after, state, policy, read)
        }),
{
    let (after, state) = after_event(pass, store, event, now);
    law_first_errors_are_kept(pass, store, event, now, policy);
    if pass.runs[policy].error is None {
        if is_to_be_read(pass, policy, read) {
            lemma_read_stays_under_way(pass, store, event, now, policy, read);
        } else if has_one_for(pass.staged, policy, read) {
            lemma_staged_stays_under_way(pass, store, event, now, policy, read);
        } else if has_one_for(pass.writing, policy, read) {
            lemma_writing_stays_under_way(pass, store, event, now, policy, read);
        } else {
            law_computed_buckets_are_kept(pass, store, event, now);
            let held = pass.held->Some_0;
            if after.staged.contains(held) {
                let k = after.staged.index_of(held);
                assert(is_for(after.staged[k], policy, read));
            }
        }
    }
}

proof fn lemma_trace<P>(
    states: Seq<(PassView<P>, StoreView)>,
    events: Seq<PassEvent<P>>,
    times: Seq<u128>,
    start: int,
    k: int,
    policy: int,
    read: ReadView,
)
    requires
        is_pass_run(states, events, times),
        forall|i: int| 0 <= i < states.len() ==> is_valid((#[trigger] states[i]).0),
        0 <= start <= k < states.len(),
        0 <= policy < states[start].0.runs.len(),
        is_to_be_read(states[start].0, policy, read),
    ensures
        states[k].0.policies == states[start].0.policies,
        states[k].0.runs.len() == states[start].0.runs.len(),
        is_under_way(states[k].0, policy, read) || exists|j: int|
            start < j <= k && #[trigger] is_written(states[j].0, states[j].1, policy, read),
    decreases k - start,
{
    if start < k {
        lemma_trace(states, events, times, start, k - 1, policy, read);
        let event = events[k - 1];
        assert(states[k - 1 + 1] == after_event(
            states[k - 1].0,
            states[k - 1].1,
            event,
            times[k - 1],
        ));
        assert(is_valid(states[k - 1].0));
        if is_under_way(states[k - 1].0, policy, read) {
            lemma_stays_under_way(
                states[k - 1].0,
                states[k - 1].1,
                event,
                times[k - 1],
                policy,
                read,
            );
            if !is_under_way(states[k].0, policy, read) {
                assert(is_written(states[k].0, states[k].1, policy, read));
            }
        } else {
            let j = choose|j: int|
                start < j <= k - 1 && #[trigger] is_written(
                    states[j].0,
                    states[j].1,
                    policy,
                    read,
                );
            assert(is_written(states[j].0, states[j].1, policy, read));
            law_moved_checkpoints_are_marked(
                states[k - 1].0,
                states[k - 1].1,
                event,
                times[k - 1],
                Seq::empty(),
            );
        }
    }
}

/// Nothing that is planned is forgotten: whatever the store answers, once a pass is finished,
/// every read that was planned for a policy has had its source written up to the end of the
/// read, at some moment after it was planned, unless the policy has failed.
pub proof fn law_planned_reads_are_written<P>(
    states: Seq<(PassView<P>, StoreView)>,
    events: Seq<PassEvent<P>>,
    times: Seq<u128>,
    start: int,
    at: int,
)
    requires
        is_pass_run(states, events, times),
        forall|i: int| 0 <= i < states.len() ==> is_valid((#[trigger] states[i]).0),
        0 <= start < states.len(),
        states[start].0.stage is Reading,
        0 <= at < states[start].0.reads.len(),
        states.last().0.stage is Finished,
    ensures
        ({
            let policy = states[start].0.stage->Reading_policy as int;
            let read = states[start].0.reads[at];
            states.last().0.runs[policy].error is Some || exists|j: int|
                start < j < states.len() && #[trigger] is_written(
                    states[j].0,
                    states[j].1,
                    policy,
                    read,
                )
        }),
{
    let policy = states[start].0.stage->Reading_policy as int;
    let read = states[start].0.reads[at];
    assert(is_valid(states[start].0));
    assert(states[start].0.reads.contains(read));
    assert(is_to_be_read(states[start].0, policy, read));
    lemma_trace(states, events, times, start, states.len() - 1, policy, read);
    assert(is_valid(states[states.len() - 1].0));
}

} // verus!
