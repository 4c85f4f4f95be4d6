//! What an event does to a rollup pass and to its store, in terms of what the pass held and
//! what the event brought.
use crate::rollups::laws::{
    after_event, is_awaited, is_pass_run, law_existing_buckets_are_not_rewritten, PassEvent,
};
use crate::rollups::pass::{
    is_item, is_valid, is_writing, moved_checkpoints, new_points, skip_failed, DataPoint, PassView,
    PlannedView, RunView,
};
use crate::rollups::state::StoreView;
use vstd::prelude::*;

verus! {

/// The map has that value at two keys.
pub open spec fn is_at<V>(
    map: Map<Seq<char>, Map<Seq<char>, V>>,
    outer: Seq<char>,
    inner: Seq<char>,
    value: V,
) -> bool {
    map.contains_key(outer) && map[outer].contains_key(inner) && map[outer][inner] == value
}

/// The map has no value at two keys.
pub open spec fn is_missing<V>(
    map: Map<Seq<char>, Map<Seq<char>, V>>,
    outer: Seq<char>,
    inner: Seq<char>,
) -> bool {
    !(map.contains_key(outer) && map[outer].contains_key(inner))
}

/// The two maps have the same, or both nothing, at two keys.
pub open spec fn agree_at<V>(
    a: Map<Seq<char>, Map<Seq<char>, V>>,
    b: Map<Seq<char>, Map<Seq<char>, V>>,
    outer: Seq<char>,
    inner: Seq<char>,
) -> bool {
    if a.contains_key(outer) && a[outer].contains_key(inner) {
        is_at(b, outer, inner, a[outer][inner])
    } else {
        is_missing(b, outer, inner)
    }
}

proof fn lemma_new_points_are_filtered<P>(points: Seq<DataPoint<P>>, existing: Seq<i64>)
    ensures
        new_points(points, existing) == points.filter(
            |point: DataPoint<P>| !existing.contains(point.timestamp),
        ),
    decreases points.len(),
{
    reveal(Seq::filter);
    if points.len() > 0 {
        lemma_new_points_are_filtered(points.drop_last(), existing);
    }
}

/// After the existing buckets of the next item were looked up, the item that waits to be
/// inserted holds a point exactly where it held it before and its timestamp is not among the
/// existing ones; all such points, in their order. It waits exactly where there is such a
/// point. Nothing else changes then. Where there is none the item is done: its source is
/// written up to the end of the range, and nothing is pending for it.
pub proof fn law_only_new_buckets_wait_for_insertion<P>(
    pass: PassView<P>,
    store: StoreView,
    existing: Seq<i64>,
    now: u128,
    point: DataPoint<P>,
)
    requires
        is_valid(pass),
        pass.stage is Checking,
    ensures
        ({
            let item = pass.writing[0];
            let id = pass.policies[item.policy as int];
            let key = item.source.source_key;
            let (after, state) = after_event(pass, store, PassEvent::Checked(Ok(existing)), now);
            &&& after.stage is Inserting <==> exists|i: int|
                0 <= i < item.points.len() && !existing.contains(
                    (#[trigger] item.points[i]).timestamp,
                )
            &&& after.stage is Inserting ==> {
                &&& after.writing.len() == pass.writing.len()
                &&& after.writing[0].points.contains(point) <==> item.points.contains(point)
                    && !existing.contains(point.timestamp)
                &&& after.writing[0].points == item.points.filter(
                    |one: DataPoint<P>| !existing.contains(one.timestamp),
                )
                &&& after.writing[0].policy == item.policy
                &&& after.writing[0].source == item.source
                &&& after.writing[0].pending == item.pending
                &&& after.writing.drop_first() == pass.writing.drop_first()
                &&& after.runs == pass.runs
                &&& after.first_error == pass.first_error
                &&& after.reads == pass.reads
                &&& after.held == pass.held
                &&& state == store
            }
            &&& !(after.stage is Inserting) ==> {
                &&& is_at(state.checkpoints, id, key, item.pending.materialized_through)
                &&& is_missing(state.pending, id, key)
                &&& after.writing.len() < pass.writing.len()
            }
        }),
{
    let item = pass.writing[0];
    let (after, state) = after_event(pass, store, PassEvent::Checked(Ok(existing)), now);
    let is_new = |one: DataPoint<P>| !existing.contains(one.timestamp);
    let kept = item.points.filter(is_new);
    lemma_new_points_are_filtered(item.points, existing);
    assert(new_points(item.points, existing) == kept);
    assert(is_item(pass.policies.len(), item));
    assert forall|one: DataPoint<P>| kept.contains(one) <==> item.points.contains(one)
        && !existing.contains(one.timestamp) by {
        law_existing_buckets_are_not_rewritten(item.points, existing, one);
    }
    if kept.len() > 0 {
        assert(kept.contains(kept[0]));
        let i = item.points.index_of(kept[0]);
        assert(!existing.contains(item.points[i].timestamp));
        assert(after.writing.drop_first() =~= pass.writing.drop_first());
    } else {
        assert forall|i: int| 0 <= i < item.points.len() implies existing.contains(
            (#[trigger] item.points[i]).timestamp,
        ) by {
            if !existing.contains(item.points[i].timestamp) {
                assert(item.points.contains(item.points[i]));
                assert(kept.contains(item.points[i]));
            }
        }
        let narrowed = PlannedView { points: kept, ..item };
        let rest = pass.writing.update(0, narrowed).drop_first();
        assert(rest =~= pass.writing.drop_first());
        lemma_skipping_shortens(after.runs, rest);
    }
}

proof fn lemma_skipping_shortens<P>(runs: Seq<RunView>, writing: Seq<PlannedView<P>>)
    ensures
        skip_failed(runs, writing).len() <= writing.len(),
    decreases writing.len(),
{
    if writing.len() > 0 && runs[writing[0].policy as int].error is Some {
        lemma_skipping_shortens(runs, writing.drop_first());
    }
}

/// Some checkpoint of the policy is another one in the two states.
pub open spec fn moved_for(before: StoreView, after: StoreView, policy_id: Seq<char>) -> bool {
    exists|source_key: Seq<char>|
        !#[trigger] agree_at(before.checkpoints, after.checkpoints, policy_id, source_key)
}

/// An event that changes a checkpoint of a policy marks the run of that policy, and no event
/// takes a mark back. An event that brings a failure, starts a policy, persists a batch or goes
/// on with a held item changes no checkpoint and marks nothing, and neither does one that
/// brings buckets.
pub proof fn law_moved_checkpoints_are_marked<P>(
    pass: PassView<P>,
    store: StoreView,
    event: PassEvent<P>,
    now: u128,
    policy_id: Seq<char>,
)
    requires
        is_valid(pass),
        is_awaited(pass.stage, event),
    ensures
        ({
            let (after, state) = after_event(pass, store, event, now);
            &&& after.policies == pass.policies
            &&& after.runs.len() == pass.runs.len()
            &&& forall|i: int|
                #![trigger after.runs[i]]
                0 <= i < pass.runs.len() && pass.runs[i].report.checkpoint_changed
                    ==> after.runs[i].report.checkpoint_changed
            &&& moved_for(store, state, policy_id) ==> exists|i: int|
                0 <= i < after.runs.len() && pass.policies[i] == policy_id
                    && (#[trigger] after.runs[i]).report.checkpoint_changed
            &&& state.checkpoints != store.checkpoints ==> exists|i: int|
                0 <= i < after.runs.len() && (#[trigger] after.runs[i]).report.checkpoint_changed
            &&& brings_no_write(event) ==> state.checkpoints == store.checkpoints && forall|i: int|
                #![trigger after.runs[i]]
                0 <= i < pass.runs.len() ==> after.runs[i].report.checkpoint_changed
                    == pass.runs[i].report.checkpoint_changed
        }),
{
    let (after, state) = after_event(pass, store, event, now);
    if is_writing(pass.stage) {
        let item = pass.writing[0];
        assert(is_item(pass.policies.len(), item));
        if state.checkpoints != store.checkpoints {
            let at = item.policy as int;
            assert(after.runs[at].report.checkpoint_changed);
            assert(state.checkpoints.dom() =~= store.checkpoints.dom().insert(pass.policies[at]));
        }
    }
    if pass.stage is Reading && state.checkpoints != store.checkpoints {
        let at = pass.stage->Reading_policy as int;
        assert(after.runs[at].report.checkpoint_changed);
    }
}

/// The event cannot complete a source.
pub open spec fn brings_no_write<P>(event: PassEvent<P>) -> bool {
    match event {
        PassEvent::Matched { .. } => true,
        PassEvent::Computed(Ok(points)) => points.len() > 0,
        PassEvent::Computed(Err(_)) => true,
        PassEvent::Persisted(_) => true,
        PassEvent::Checked(Ok(_)) => false,
        PassEvent::Checked(Err(_)) => true,
        PassEvent::Inserted(Ok(_)) => false,
        PassEvent::Inserted(Err(_)) => true,
        PassEvent::Resumed => true,
    }
}

proof fn lemma_marks_stay<P>(
    states: Seq<(PassView<P>, StoreView)>,
    events: Seq<PassEvent<P>>,
    times: Seq<u128>,
    i: int,
    j: int,
)
    requires
        is_pass_run(states, events, times),
        forall|k: int| 0 <= k < states.len() ==> is_valid((#[trigger] states[k]).0),
        0 <= i <= j < states.len(),
    ensures
        states[j].0.policies == states[i].0.policies,
        states[j].0.runs.len() == states[i].0.runs.len(),
        forall|p: int|
            #![trigger states[j].0.runs[p]]
            0 <= p < states[i].0.runs.len() && states[i].0.runs[p].report.checkpoint_changed
                ==> states[j].0.runs[p].report.checkpoint_changed,
        states[j].1.checkpoints != states[i].1.checkpoints ==> exists|p: int|
            0 <= p < states[j].0.runs.len() && (#[trigger] states[j].0.runs[p]).report.checkpoint_changed,
    decreases j - i,
{
    if i < j {
        lemma_marks_stay(states, events, times, i, j - 1);
        let event = events[j - 1];
        assert(states[j - 1 + 1] == after_event(
            states[j - 1].0,
            states[j - 1].1,
            event,
            times[j - 1],
        ));
        assert(is_valid(states[j - 1].0));
        law_moved_checkpoints_are_marked(
            states[j - 1].0,
            states[j - 1].1,
            event,
            times[j - 1],
            Seq::empty(),
        );
        if states[j].1.checkpoints == states[j - 1].1.checkpoints && states[j].1.checkpoints
            != states[i].1.checkpoints {
            let p = choose|p: int|
                0 <= p < states[j - 1].0.runs.len() && (#[trigger] states[j
                    - 1].0.runs[p]).report.checkpoint_changed;
            assert(states[j].0.runs[p].report.checkpoint_changed);
        }
    }
}

/// A pass over whose life any checkpoint moved ends with a marked run, so that its state is
/// persisted.
pub proof fn law_a_pass_that_moved_a_checkpoint_is_persisted<P>(
    states: Seq<(PassView<P>, StoreView)>,
    events: Seq<PassEvent<P>>,
    times: Seq<u128>,
    i: int,
    j: int,
)
    requires
        is_pass_run(states, events, times),
        forall|k: int| 0 <= k < states.len() ==> is_valid((#[trigger] states[k]).0),
        0 <= i <= j < states.len(),
        states[i].1.checkpoints != states[j].1.checkpoints,
    ensures
        moved_checkpoints(states.last().0),
        exists|p: int|
            0 <= p < states.last().0.runs.len() && (#[trigger] states.last().0.runs[p]).report.checkpoint_changed,
{
    lemma_marks_stay(states, events, times, i, j);
    lemma_marks_stay(states, events, times, j, states.len() - 1);
    let p = choose|p: int|
        0 <= p < states[j].0.runs.len() && (#[trigger] states[j].0.runs[p]).report.checkpoint_changed;
    assert(states.last().0.runs[p].report.checkpoint_changed);
}

} // verus!
