//! What each event of a rollup pass changes, and what it leaves alone.
use crate::error::{error_text, ErrorView};
use crate::rollups::laws::{after_event, is_awaited, PassEvent};
use crate::rollups::nested::at_keys;
use crate::rollups::pass::{
    as_staged, is_item, is_valid, is_writing, new_points, planned_read, planned_reads, skip_failed, DataPoint,
    MatchedView, PassStage, PassView, PlannedView, ReadView, RunView,
};
use crate::rollups::pass_laws::{agree_at, is_at, is_missing};
use crate::rollups::sources::SourceSeriesView;
use crate::rollups::state::{
    generation_of, law_batch_is_covered, law_staging_touches_only_the_batch, pending_through,
    StoreView,
};
use vstd::prelude::*;

verus! {

/// The generation that a state has for a policy: 0 where it has none.
pub open spec fn stored_generation(store: StoreView, policy_id: Seq<char>) -> u64 {
    if store.generations.contains_key(policy_id) {
        store.generations[policy_id]
    } else {
        0
    }
}

/// Where the buckets of a source start: at its checkpoint or, without one, at the beginning of
/// time.
pub open spec fn starts_at(store: StoreView, policy_id: Seq<char>, key: Seq<char>, at: i64) -> bool {
    is_at(store.checkpoints, policy_id, key, at) || is_missing(store.checkpoints, policy_id, key)
        && at == i64::MIN
}

/// Buckets of the current generation up to `through` are pending for the source.
pub open spec fn is_pending_through(
    store: StoreView,
    policy_id: Seq<char>,
    key: Seq<char>,
    through: i64,
) -> bool {
    &&& !is_missing(store.pending, policy_id, key)
    &&& store.pending[policy_id][key].materialized_through == through
    &&& store.pending[policy_id][key].generation == stored_generation(store, policy_id)
}

/// Where the buckets of a source end: at the stable end or, where buckets beyond it are pending
/// in the current generation, at the end of those.
pub open spec fn ends_at(
    store: StoreView,
    policy_id: Seq<char>,
    key: Seq<char>,
    stable_end: i64,
    at: i64,
) -> bool {
    ||| at > stable_end && is_pending_through(store, policy_id, key, at)
    ||| at == stable_end && forall|through: i64|
        through > stable_end ==> !#[trigger] is_pending_through(store, policy_id, key, through)
}

/// The read is that of a source which has buckets to compute.
pub open spec fn is_due_read(
    store: StoreView,
    policy_id: Seq<char>,
    source: SourceSeriesView,
    stable_end: i64,
    read: ReadView,
) -> bool {
    &&& read.source == source
    &&& starts_at(store, policy_id, source.source_key, read.checkpoint)
    &&& ends_at(store, policy_id, source.source_key, stable_end, read.target_end)
    &&& read.checkpoint < read.target_end
}

/// The source has buckets to compute.
pub open spec fn is_due(
    store: StoreView,
    policy_id: Seq<char>,
    source: SourceSeriesView,
    stable_end: i64,
) -> bool {
    exists|read: ReadView| #[trigger] is_due_read(store, policy_id, source, stable_end, read)
}

/// The reads are those of the due sources, each at its position, ascending.
pub open spec fn are_due_reads(
    store: StoreView,
    policy_id: Seq<char>,
    sources: Seq<SourceSeriesView>,
    stable_end: i64,
    reads: Seq<ReadView>,
    positions: Seq<int>,
) -> bool {
    &&& positions.len() == reads.len()
    &&& forall|k: int|
        0 <= k < positions.len() ==> 0 <= #[trigger] positions[k] < sources.len() && is_due_read(
            store,
            policy_id,
            sources[positions[k]],
            stable_end,
            reads[k],
        )
    &&& forall|k: int, l: int|
        #![trigger positions[k], positions[l]]
        0 <= k < l < positions.len() ==> positions[k] < positions[l]
    &&& forall|i: int|
        0 <= i < sources.len() && is_due(store, policy_id, #[trigger] sources[i], stable_end)
            ==> positions.contains(i)
}

proof fn lemma_read_is_due(
    store: StoreView,
    policy_id: Seq<char>,
    source: SourceSeriesView,
    stable_end: i64,
    read: ReadView,
)
    ensures
        is_due_read(store, policy_id, source, stable_end, read) <==> planned_read(
            store,
            policy_id,
            source,
            stable_end,
        ) == Some(read),
{
    let key = source.source_key;
    assert(generation_of(store, policy_id) == stored_generation(store, policy_id));
    match pending_through(store, policy_id, key) {
        Some(through) => {
            assert(is_pending_through(store, policy_id, key, through));
        },
        None => {},
    }
    match planned_read(store, policy_id, source, stable_end) {
        Some(planned) => {
            assert(is_due_read(store, policy_id, source, stable_end, planned));
        },
        None => {},
    }
}

proof fn lemma_reads_are_due(
    store: StoreView,
    policy_id: Seq<char>,
    sources: Seq<SourceSeriesView>,
    stable_end: i64,
) -> (positions: Seq<int>)
    ensures
        are_due_reads(
            store,
            policy_id,
            sources,
            stable_end,
            planned_reads(store, policy_id, sources, stable_end),
            positions,
        ),
    decreases sources.len(),
{
    let reads = planned_reads(store, policy_id, sources, stable_end);
    if sources.len() == 0 {
        Seq::empty()
    } else {
        let rest = sources.drop_first();
        let later = lemma_reads_are_due(store, policy_id, rest, stable_end);
        let later_reads = planned_reads(store, policy_id, rest, stable_end);
        let moved = Seq::new(later.len(), |k: int| later[k] + 1);
        let planned = planned_read(store, policy_id, sources[0], stable_end);
        let positions = match planned {
            Some(_) => seq![0int] + moved,
            None => moved,
        };
        let shift: int = if planned is Some {
            1
        } else {
            0
        };
        assert forall|k: int| shift <= k < positions.len() implies #[trigger] positions[k]
            == later[k - shift] + 1 && reads[k] == later_reads[k - shift] by {
            assert(positions[k] == moved[k - shift]);
        }
        assert forall|k: int| 0 <= k < positions.len() implies 0 <= #[trigger] positions[k]
            < sources.len() && is_due_read(
            store,
            policy_id,
            sources[positions[k]],
            stable_end,
            reads[k],
        ) by {
            if k < shift {
                lemma_read_is_due(store, policy_id, sources[0], stable_end, reads[0]);
            } else {
                assert(rest[later[k - shift]] == sources[positions[k]]);
            }
        }
        assert forall|k: int, l: int|
            #![trigger positions[k], positions[l]]
            0 <= k < l < positions.len() implies positions[k] < positions[l] by {
            assert(positions[l] == later[l - shift] + 1);
            if k >= shift {
                assert(positions[k] == later[k - shift] + 1);
            }
        }
        assert forall|i: int|
            0 <= i < sources.len() && is_due(
                store,
                policy_id,
                #[trigger] sources[i],
                stable_end,
            ) implies positions.contains(i) by {
            let read = choose|read: ReadView| #[trigger]
                is_due_read(store, policy_id, sources[i], stable_end, read);
            if i == 0 {
                lemma_read_is_due(store, policy_id, sources[0], stable_end, read);
                assert(positions[0] == 0);
            } else {
                assert(rest[i - 1] == sources[i]);
                assert(is_due(store, policy_id, rest[i - 1], stable_end));
                let k = later.index_of(i - 1);
                assert(positions[k + shift] == i);
            }
        }
        positions
    }
}

/// Starting a policy notes when it started, how many sources match it and which, and the
/// generation of its rollups, and plans a read for just those sources that have buckets to
/// compute, in their order: from the checkpoint up to the stable end, or further where more is
/// pending in the current generation. Without a stable end nothing is read. The pass then waits
/// for the first read, where there is one. Nothing else of any run changes.
pub proof fn law_due_sources_are_read<P>(
    pass: PassView<P>,
    store: StoreView,
    started_nanos: u128,
    started_at_ms: u64,
    matched: MatchedView,
    now: u128,
)
    requires
        is_valid(pass),
        pass.stage is Matching,
        pass.runs[pass.stage->Matching_policy as int].error is None,
        matched.sources.len() <= u64::MAX,
    ensures
        ({
            let policy = pass.stage->Matching_policy as int;
            let id = pass.policies[policy];
            let event = PassEvent::<P>::Matched { started_nanos, started_at_ms, matched: Ok(matched) };
            let (after, state) = after_event(pass, store, event, now);
            let run = after.runs[policy];
            &&& state == store
            &&& run.started_nanos == started_nanos
            &&& run.started_at_ms == started_at_ms
            &&& run.error is None
            &&& run.report.matched_series == matched.sources.len()
            &&& run.source_keys.len() == matched.sources.len()
            &&& forall|i: int|
                0 <= i < run.source_keys.len() ==> #[trigger] run.source_keys[i]
                    == matched.sources[i].source_key
            &&& after.generation == stored_generation(store, id)
            &&& matched.stable_end is None ==> after.reads.len() == 0
            &&& matched.stable_end is Some ==> exists|positions: Seq<int>| #[trigger]
                are_due_reads(
                    store,
                    id,
                    matched.sources,
                    matched.stable_end->Some_0,
                    after.reads,
                    positions,
                )
            &&& after.reads.len() > 0 <==> after.stage == (PassStage::Reading {
                policy: policy as usize,
            })
            &&& after.staged == pass.staged
            &&& after.first_error == pass.first_error
            &&& forall|i: int|
                0 <= i < pass.runs.len() && i != policy ==> #[trigger] after.runs[i] == pass.runs[i]
        }),
{
    let policy = pass.stage->Matching_policy as int;
    let id = pass.policies[policy];
    let event = PassEvent::<P>::Matched { started_nanos, started_at_ms, matched: Ok(matched) };
    let after = after_event(pass, store, event, now).0;
    if matched.stable_end is Some {
        let stable_end = matched.stable_end->Some_0;
        let positions = lemma_reads_are_due(store, id, matched.sources, stable_end);
        assert(after.reads =~= planned_reads(store, id, matched.sources, stable_end));
        assert(are_due_reads(store, id, matched.sources, stable_end, after.reads, positions));
    }
}

/// The item holds the buckets computed for a read.
pub open spec fn is_item_of<P>(
    item: PlannedView<P>,
    policy: int,
    read: ReadView,
    generation: u64,
    points: Seq<DataPoint<P>>,
) -> bool {
    &&& item.policy == policy
    &&& item.source == read.source
    &&& item.pending.checkpoint == read.checkpoint
    &&& item.pending.materialized_through == read.target_end
    &&& item.pending.generation == generation
    &&& item.points == points
}

/// The report and the message of every run are as they were.
pub open spec fn nothing_is_noted<P>(before: PassView<P>, after: PassView<P>) -> bool {
    &&& after.runs.len() == before.runs.len()
    &&& after.first_error == before.first_error
    &&& forall|i: int|
        0 <= i < before.runs.len() ==> {
            &&& (#[trigger] after.runs[i]).report == before.runs[i].report
            &&& after.runs[i].error == before.runs[i].error
        }
}

/// The buckets computed for a read become an item of their policy: for the source and range of
/// the read, in the generation of the pass, with all the buckets. It joins the batch, which is
/// persisted once it has 65536 buckets; where the batch would come to have more than that, and
/// holds something already, the item is held aside and the batch is persisted first. The store
/// stays as it is.
pub proof fn law_computed_buckets_join_the_batch<P>(
    pass: PassView<P>,
    store: StoreView,
    points: Seq<DataPoint<P>>,
    now: u128,
)
    requires
        is_valid(pass),
        pass.stage is Reading,
        points.len() > 0,
    ensures
        ({
            let policy = pass.stage->Reading_policy as int;
            let read = pass.reads[0];
            let total = pass.staged_points + points.len();
            let (after, state) = after_event(pass, store, PassEvent::Computed(Ok(points)), now);
            let full = PassStage::Staging { resume: Some(policy as usize) };
            &&& state == store
            &&& after.reads == pass.reads.drop_first()
            &&& nothing_is_noted(pass, after)
            &&& after.held is Some <==> pass.staged.len() > 0 && total > 65536
            &&& after.held is Some ==> {
                &&& is_item_of(after.held->Some_0, policy, read, pass.generation, points)
                &&& after.staged == pass.staged
                &&& after.stage == full
            }
            &&& after.held is None ==> {
                &&& after.staged.len() == pass.staged.len() + 1
                &&& after.staged.drop_last() == pass.staged
                &&& is_item_of(after.staged.last(), policy, read, pass.generation, points)
                &&& after.staged_points == total || after.staged_points == usize::MAX && total
                    > usize::MAX
                &&& total >= 65536 <==> after.stage == full
                &&& total < 65536 && pass.reads.len() > 1 ==> after.stage == pass.stage
            }
        }),
{
    let policy = pass.stage->Reading_policy as int;
    let (after, state) = after_event(pass, store, PassEvent::Computed(Ok(points)), now);
    assert(pass.held is None);
    if after.held is None {
        assert(after.staged.drop_last() =~= pass.staged);
    }
    assert(after.reads =~= pass.reads.drop_first());
}

/// A source without buckets is done at once: it counts as written up to the end of its read,
/// nothing is pending for it, its policy is marked, and no other source is touched.
pub proof fn law_source_without_buckets_is_done<P>(
    pass: PassView<P>,
    store: StoreView,
    now: u128,
    other_policy: Seq<char>,
    other_source: Seq<char>,
)
    requires
        is_valid(pass),
        pass.stage is Reading,
    ensures
        ({
            let policy = pass.stage->Reading_policy as int;
            let id = pass.policies[policy];
            let key = pass.reads[0].source.source_key;
            let (after, state) = after_event(
                pass,
                store,
                PassEvent::Computed(Ok(Seq::empty())),
                now,
            );
            &&& is_at(state.checkpoints, id, key, pass.reads[0].target_end)
            &&& is_missing(state.pending, id, key)
            &&& other_policy != id || other_source != key ==> {
                &&& agree_at(store.checkpoints, state.checkpoints, other_policy, other_source)
                &&& agree_at(store.pending, state.pending, other_policy, other_source)
            }
            &&& state.generations == store.generations
            &&& state.stats == store.stats
            &&& after.runs[policy].report.checkpoint_changed
            &&& after.reads == pass.reads.drop_first()
            &&& after.staged == pass.staged
            &&& after.held is None
            &&& after.first_error == pass.first_error
        }),
{
    let policy = pass.stage->Reading_policy as int;
    let id = pass.policies[policy];
    let key = pass.reads[0].source.source_key;
    let (after, state) = after_event(pass, store, PassEvent::Computed(Ok(Seq::empty())), now);
    assert(pass.held is None);
    assert(after.reads =~= pass.reads.drop_first());
    lemma_dropped_at(store.pending, id, key, other_policy, other_source);
}

proof fn lemma_dropped_at<V>(
    map: Map<Seq<char>, Map<Seq<char>, V>>,
    outer: Seq<char>,
    inner: Seq<char>,
    other_outer: Seq<char>,
    other_inner: Seq<char>,
)
    ensures
        is_missing(crate::rollups::nested::drop_at(map, outer, inner), outer, inner),
        other_outer != outer || other_inner != inner ==> agree_at(
            map,
            crate::rollups::nested::drop_at(map, outer, inner),
            other_outer,
            other_inner,
        ),
{
    if map.contains_key(outer) {
        let entries = map[outer].remove(inner);
        if entries =~= Map::<Seq<char>, V>::empty() {
            if other_outer == outer && other_inner != inner {
                assert(entries.contains_key(other_inner) == map[outer].contains_key(other_inner));
            }
        }
    }
}

/// The items that are up are the rest of those given, from the first whose policy has not failed.
pub open spec fn is_rest_after_failed<P>(
    runs: Seq<RunView>,
    items: Seq<PlannedView<P>>,
    rest: Seq<PlannedView<P>>,
) -> bool {
    exists|n: int| #[trigger] skips_failed(runs, items, rest, n)
}

/// The first `n` items, whose policies have failed, are skipped.
pub open spec fn skips_failed<P>(
    runs: Seq<RunView>,
    items: Seq<PlannedView<P>>,
    rest: Seq<PlannedView<P>>,
    n: int,
) -> bool {
    &&& 0 <= n <= items.len()
    &&& rest == items.skip(n)
    &&& forall|i: int|
        0 <= i < n ==> runs[(#[trigger] items[i]).policy as int].error is Some
    &&& n < items.len() ==> runs[items[n].policy as int].error is None
}

proof fn lemma_skips<P>(runs: Seq<RunView>, items: Seq<PlannedView<P>>)
    ensures
        is_rest_after_failed(runs, items, skip_failed(runs, items)),
    decreases items.len(),
{
    if items.len() > 0 && runs[items[0].policy as int].error is Some {
        let later = items.drop_first();
        lemma_skips(runs, later);
        let rest = skip_failed(runs, items);
        let n = choose|n: int| #[trigger] skips_failed(runs, later, rest, n);
        assert(later.skip(n) =~= items.skip(n + 1));
        assert forall|i: int| 0 <= i < n + 1 implies runs[(
        #[trigger] items[i]).policy as int].error is Some by {
            if i > 0 {
                assert(later[i - 1] == items[i]);
            }
        }
        if n < later.len() {
            assert(later[n] == items[n + 1]);
        }
        assert(skips_failed(runs, items, rest, n + 1));
    } else {
        assert(items.skip(0) =~= items);
        assert(skips_failed(runs, items, items, 0));
    }
}

/// A batch that was persisted is what the state has pending: for each of its items, under policy
/// and source, the range of that item, or that of a later item for the same. Nothing else is
/// changed, and the items are up for writing, but for those at the front whose policies have
/// failed.
pub proof fn law_persisted_batch_is_pending<P>(
    pass: PassView<P>,
    store: StoreView,
    now: u128,
    at: int,
    other_policy: Seq<char>,
    other_source: Seq<char>,
)
    requires
        is_valid(pass),
        pass.stage is Staging,
        0 <= at < pass.staged.len(),
    ensures
        ({
            let (after, state) = after_event(pass, store, PassEvent::Persisted(Ok(())), now);
            let item = pass.staged[at];
            &&& (forall|later: int|
                at < later < pass.staged.len() ==> pass.policies[(
                #[trigger] pass.staged[later]).policy as int] != pass.policies[item.policy as int]
                    || pass.staged[later].source.source_key != item.source.source_key) ==> is_at(
                state.pending,
                pass.policies[item.policy as int],
                item.source.source_key,
                item.pending,
            )
            &&& (forall|i: int|
                0 <= i < pass.staged.len() ==> pass.policies[(
                #[trigger] pass.staged[i]).policy as int] != other_policy
                    || pass.staged[i].source.source_key != other_source) ==> agree_at(
                store.pending,
                state.pending,
                other_policy,
                other_source,
            )
            &&& state.checkpoints == store.checkpoints
            &&& state.generations == store.generations
            &&& state.stats == store.stats
            &&& nothing_is_noted(pass, after)
            &&& is_rest_after_failed(pass.runs, pass.staged, after.writing)
            &&& after.staged.len() == 0
            &&& after.writing.len() > 0 <==> after.stage is Checking
        }),
{
    let (after, state) = after_event(pass, store, PassEvent::Persisted(Ok(())), now);
    let batch = as_staged(pass.policies, pass.staged);
    let item = pass.staged[at];
    let id = pass.policies[item.policy as int];
    let key = item.source.source_key;
    lemma_skips(pass.runs, pass.staged);
    assert(batch[at].policy_id == id && batch[at].source_key == key);
    if forall|later: int|
        at < later < pass.staged.len() ==> pass.policies[(
        #[trigger] pass.staged[later]).policy as int] != id
            || pass.staged[later].source.source_key != key {
        assert forall|later: int| at < later < batch.len() implies (
        #[trigger] batch[later]).policy_id != batch[at].policy_id || batch[later].source_key
            != batch[at].source_key by {
            assert(pass.policies[pass.staged[later].policy as int] != id
                || pass.staged[later].source.source_key != key);
        }
        law_batch_is_covered(store.pending, batch, at);
        assert(at_keys(state.pending, id, key) == Some(item.pending));
    }
    if forall|i: int|
        0 <= i < pass.staged.len() ==> pass.policies[(
        #[trigger] pass.staged[i]).policy as int] != other_policy
            || pass.staged[i].source.source_key != other_source {
        assert forall|i: int| 0 <= i < batch.len() implies (#[trigger] batch[i]).policy_id
            != other_policy || batch[i].source_key != other_source by {
            assert(pass.policies[pass.staged[i].policy as int] != other_policy
                || pass.staged[i].source.source_key != other_source);
        }
        law_staging_touches_only_the_batch(store.pending, batch, other_policy, other_source);
        assert(at_keys(state.pending, other_policy, other_source) == at_keys(
            store.pending,
            other_policy,
            other_source,
        ));
    }
}

/// The failure that an event brings, if it brings one.
pub open spec fn failure_in<P>(event: PassEvent<P>) -> Option<ErrorView> {
    match event {
        PassEvent::Matched { matched: Err(error), .. } => Some(error),
        PassEvent::Computed(Err(error)) => Some(error),
        PassEvent::Persisted(Err(error)) => Some(error),
        PassEvent::Checked(Err(error)) => Some(error),
        PassEvent::Inserted(Err(error)) => Some(error),
        _ => None,
    }
}

/// A failure at this point of the pass concerns the policy: while a batch is persisted, every
/// policy that has an item in it; otherwise the one whose sources are matched or read, or whose
/// item is being written.
pub open spec fn is_concerned<P>(pass: PassView<P>, policy: int) -> bool {
    match pass.stage {
        PassStage::Matching { policy: at } => at == policy,
        PassStage::Reading { policy: at } => at == policy,
        PassStage::Staging { .. } => exists|k: int|
            0 <= k < pass.staged.len() && (#[trigger] pass.staged[k]).policy == policy,
        PassStage::Checking { .. } => pass.writing[0].policy == policy,
        PassStage::Inserting { .. } => pass.writing[0].policy == policy,
        _ => false,
    }
}

/// A failure is noted in the runs of the policies it concerns, as their message where they had
/// none, and nowhere else; it is the error of the pass where that had none. It leaves the store
/// and every report alone. Without a failure no message and no error appears.
pub proof fn law_failures_are_noted_where_they_belong<P>(
    pass: PassView<P>,
    store: StoreView,
    event: PassEvent<P>,
    now: u128,
    policy: int,
)
    requires
        is_valid(pass),
        is_awaited(pass.stage, event),
        0 <= policy < pass.runs.len(),
    ensures
        ({
            let (after, state) = after_event(pass, store, event, now);
            let before = pass.runs[policy];
            let run = after.runs[policy];
            match failure_in(event) {
                Some(error) => {
                    &&& state == store
                    &&& run.report == before.report
                    &&& run.source_keys == before.source_keys
                    &&& after.first_error == (if pass.first_error is None {
                        Some(error)
                    } else {
                        pass.first_error
                    })
                    &&& run.error == (if before.error is None && is_concerned(pass, policy) {
                        Some(error_text(error))
                    } else {
                        before.error
                    })
                    &&& is_concerned(pass, policy) ==> run.finished_nanos == now
                },
                None => run.error == before.error && after.first_error == pass.first_error,
            }
        }),
{
    let (after, state) = after_event(pass, store, event, now);
    if is_writing(pass.stage) {
        assert(is_item(pass.policies.len(), pass.writing[0]));
    }
    if let PassEvent::Persisted(Err(error)) = event {
        assert(is_concerned(pass, policy) == crate::rollups::pass::has_item_of(
            pass.staged,
            policy,
        ));
    }
}

/// A written item counts its buckets for its policy, once as buckets and once as points, as far
/// as the counters go; its source is written up to the end of the range, and nothing is pending
/// for it. No other source and no other report is touched, and the next item is up whose policy
/// has not failed.
pub proof fn law_inserted_buckets_are_counted<P>(
    pass: PassView<P>,
    store: StoreView,
    now: u128,
    other_policy: Seq<char>,
    other_source: Seq<char>,
)
    requires
        is_valid(pass),
        pass.stage is Inserting,
    ensures
        ({
            let item = pass.writing[0];
            let policy = item.policy as int;
            let id = pass.policies[policy];
            let key = item.source.source_key;
            let (after, state) = after_event(pass, store, PassEvent::Inserted(Ok(())), now);
            let before = pass.runs[policy].report;
            let report = after.runs[policy].report;
            let buckets = before.buckets_materialized + item.points.len();
            let points = before.points_materialized + item.points.len();
            &&& report.buckets_materialized == buckets || buckets > u64::MAX
                && report.buckets_materialized == u64::MAX
            &&& report.points_materialized == points || points > u64::MAX
                && report.points_materialized == u64::MAX
            &&& report.checkpoint_changed
            &&& report.matched_series == before.matched_series
            &&& after.runs[policy].finished_nanos == now
            &&& is_at(state.checkpoints, id, key, item.pending.materialized_through)
            &&& is_missing(state.pending, id, key)
            &&& other_policy != id || other_source != key ==> {
                &&& agree_at(store.checkpoints, state.checkpoints, other_policy, other_source)
                &&& agree_at(store.pending, state.pending, other_policy, other_source)
            }
            &&& state.generations == store.generations
            &&& state.stats == store.stats
            &&& is_rest_after_failed(after.runs, pass.writing.drop_first(), after.writing)
        }),
{
    let item = pass.writing[0];
    let policy = item.policy as int;
    let id = pass.policies[policy];
    let key = item.source.source_key;
    assert(is_item(pass.policies.len(), item));
    let (after, state) = after_event(pass, store, PassEvent::Inserted(Ok(())), now);
    lemma_dropped_at(store.pending, id, key, other_policy, other_source);
    let noted = pass.runs.update(
        policy,
        RunView { report: after.runs[policy].report, finished_nanos: now, ..pass.runs[policy] },
    );
    assert(skip_failed(noted, pass.writing.drop_first()) == after.writing);
    assert forall|i: int| 0 <= i < noted.len() implies (#[trigger] noted[i]).error
        == after.runs[i].error by {}
    lemma_skips(noted, pass.writing.drop_first());
    let n = choose|n: int| #[trigger]
        skips_failed(noted, pass.writing.drop_first(), after.writing, n);
    let rest = pass.writing.drop_first();
    assert forall|i: int| 0 <= i < rest.len() implies (#[trigger] rest[i]).policy
        < pass.runs.len() by {
        assert(is_item(pass.policies.len(), pass.writing[i + 1]));
    }
    assert(skips_failed(after.runs, rest, after.writing, n));
}

/// Counts of buckets and points change with an insertion alone, and the number of matched
/// series, the source keys and the time of the start with the start of the policy alone.
pub proof fn law_reports_change_for_their_reasons<P>(
    pass: PassView<P>,
    store: StoreView,
    event: PassEvent<P>,
    now: u128,
    policy: int,
)
    requires
        is_valid(pass),
        is_awaited(pass.stage, event),
        0 <= policy < pass.runs.len(),
    ensures
        ({
            let after = after_event(pass, store, event, now).0;
            let before = pass.runs[policy];
            let run = after.runs[policy];
            &&& !(event matches PassEvent::Inserted(Ok(_))) || pass.writing[0].policy != policy
                ==> run.report.buckets_materialized == before.report.buckets_materialized
                && run.report.points_materialized == before.report.points_materialized
            &&& !(event is Matched) || pass.stage->Matching_policy != policy
                ==> run.report.matched_series == before.report.matched_series && run.source_keys
                == before.source_keys && run.started_nanos == before.started_nanos
                && run.started_at_ms == before.started_at_ms
            &&& run.finished_nanos == before.finished_nanos || run.finished_nanos == now
            &&& after.generation == pass.generation || event is Matched
        }),
{
    if is_writing(pass.stage) {
        assert(is_item(pass.policies.len(), pass.writing[0]));
    }
}

/// Where a batch interrupted the planning of a policy.
pub open spec fn interrupted(stage: PassStage) -> Option<usize> {
    match stage {
        PassStage::Staging { resume } => resume,
        PassStage::Checking { resume } => resume,
        PassStage::Inserting { resume } => resume,
        _ => None,
    }
}

/// Once a batch is done the pass goes on where the batch interrupted it: with the item held
/// aside, with the next read of the policy, or, where that has failed or has no reads left, with
/// the next policy, when the work on the policy has ended. An item of a policy that failed is
/// not held any longer. After the last policy the pass is finished.
pub proof fn law_interrupted_planning_goes_on<P>(
    pass: PassView<P>,
    store: StoreView,
    event: PassEvent<P>,
    now: u128,
)
    requires
        is_valid(pass),
        is_awaited(pass.stage, event),
        pass.stage is Staging || is_writing(pass.stage),
        after_event(pass, store, event, now).0.writing.len() == 0,
    ensures
        ({
            let after = after_event(pass, store, event, now).0;
            match interrupted(pass.stage) {
                None => after.stage is Finished,
                Some(policy) => if after.runs[policy as int].error is None && pass.held is Some {
                    &&& after.stage == (PassStage::Resuming { policy })
                    &&& after.held == pass.held
                    &&& after.reads == pass.reads
                } else if after.runs[policy as int].error is None && pass.reads.len() > 0 {
                    &&& after.stage == (PassStage::Reading { policy })
                    &&& after.held is None
                    &&& after.reads == pass.reads
                } else {
                    &&& after.held is None
                    &&& after.reads.len() == 0
                    &&& after.runs[policy as int].finished_nanos == now
                    &&& if policy + 1 < pass.policies.len() {
                        after.stage == (PassStage::Matching { policy: (policy + 1) as usize })
                    } else {
                        after.stage is Finished
                    }
                },
            }
        }),
{
    if is_writing(pass.stage) {
        assert(is_item(pass.policies.len(), pass.writing[0]));
        if let PassEvent::Checked(Ok(existing)) = event {
            assert(!(after_event(pass, store, event, now).0.stage is Inserting));
        }
    }
}

/// The policy that is being planned.
pub open spec fn planned_policy(stage: PassStage) -> int {
    match stage {
        PassStage::Matching { policy } => policy as int,
        PassStage::Reading { policy } => policy as int,
        PassStage::Resuming { policy } => policy as int,
        _ => 0,
    }
}

/// While a policy is planned the pass waits for its next read, or persists a full batch before
/// that. Else the next policy is up and, after the last one, what is staged is persisted, where
/// anything is; where nothing is the pass is finished. The work on the policy ended then. The
/// item held aside begins the batch.
pub proof fn law_policies_are_planned_one_by_one<P>(
    pass: PassView<P>,
    store: StoreView,
    event: PassEvent<P>,
    now: u128,
)
    requires
        is_valid(pass),
        is_awaited(pass.stage, event),
        pass.stage is Matching || pass.stage is Reading || pass.stage is Resuming,
    ensures
        ({
            let after = after_event(pass, store, event, now).0;
            let policy = planned_policy(pass.stage);
            &&& after.stage == (PassStage::Reading { policy: policy as usize }) || after.stage == (
            PassStage::Staging { resume: Some(policy as usize) }) || (if policy + 1
                < pass.policies.len() {
                after.stage == (PassStage::Matching { policy: (policy + 1) as usize })
            } else if after.staged.len() > 0 {
                after.stage == (PassStage::Staging { resume: None })
            } else {
                after.stage is Finished
            })
            &&& after.stage is Reading ==> after.reads.len() > 0 && after.runs[policy].error is None
            &&& after.stage is Matching || after.stage == (PassStage::Staging { resume: None })
                || after.stage is Finished ==> after.runs[policy].finished_nanos == now
                && after.reads.len() == 0
            &&& event is Resumed ==> {
                &&& after.held is None
                &&& after.staged.len() == 1
                &&& after.staged[0] == pass.held->Some_0
                &&& after.reads == pass.reads
                &&& after.stage is Staging || pass.held->Some_0.points.len() < 65536
                &&& pass.held->Some_0.points.len() >= 65536 ==> after.stage is Staging
            }
        }),
{
}

/// Once the next item of a batch is written or has failed, it leaves the batch, and the next one
/// is up whose policy has not failed; all that come after it stay. Until the batch is done, what
/// it interrupted is left as it is.
pub proof fn law_rest_of_the_batch_is_written<P>(
    pass: PassView<P>,
    store: StoreView,
    event: PassEvent<P>,
    now: u128,
)
    requires
        is_valid(pass),
        is_awaited(pass.stage, event),
        is_writing(pass.stage),
        !(after_event(pass, store, event, now).0.stage is Inserting),
    ensures
        ({
            let after = after_event(pass, store, event, now).0;
            &&& is_rest_after_failed(after.runs, pass.writing.drop_first(), after.writing)
            &&& after.staged.len() == 0
            &&& after.generation == pass.generation
            &&& after.writing.len() > 0 ==> {
                &&& after.stage == (PassStage::Checking { resume: interrupted(pass.stage) })
                &&& after.held == pass.held
                &&& after.reads == pass.reads
            }
        }),
{
    let after = after_event(pass, store, event, now).0;
    let item = pass.writing[0];
    let rest = pass.writing.drop_first();
    assert(is_item(pass.policies.len(), item));
    assert forall|i: int| 0 <= i < rest.len() implies (#[trigger] rest[i]).policy
        < pass.runs.len() by {
        assert(is_item(pass.policies.len(), pass.writing[i + 1]));
    }
    if let PassEvent::Checked(Ok(existing)) = event {
        let points = new_points(item.points, existing);
        assert(pass.writing.update(0, PlannedView { points, ..item }).drop_first() =~= rest);
    }
    let policy = item.policy as int;
    let noted = pass.runs.update(
        policy,
        RunView {
            report: after.runs[policy].report,
            error: after.runs[policy].error,
            finished_nanos: now,
            ..pass.runs[policy]
        },
    );
    let with_error = RunView { error: after.runs[policy].error, ..pass.runs[policy] };
    assert(pass.runs.update(policy, with_error).update(
        policy,
        RunView { finished_nanos: now, ..with_error },
    ) =~= pass.runs.update(policy, RunView { finished_nanos: now, ..with_error }));
    assert(skip_failed(noted, rest) == after.writing);
    lemma_skips(noted, rest);
    let n = choose|n: int| #[trigger] skips_failed(noted, rest, after.writing, n);
    assert(skips_failed(after.runs, rest, after.writing, n));
}

} // verus!
