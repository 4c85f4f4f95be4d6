//! What holds of whole offline runs, whatever the store answers.
use crate::compactor::final_level::{
    final_segments, is_crowded, is_final_level_merge, is_final_reading, is_full, is_group_of,
    is_scan, is_span_list, law_final_level_merge_is_unique, merges_before, points_of,
    positions_outside, segment_view, small_in_span, FinalLevelSegment,
};
use crate::compactor::final_level_laws::{
    has_company, law_company_is_merged, law_merge_keeps_the_rest_in_order,
    law_scan_lists_level_two, lists_level_two,
};
use crate::compactor::overlap::lemma_filtered_from;
use crate::compactor::planning::SegmentReading;
use crate::compactor::{no_stats, CompactionRunStats};
use crate::error::{ErrorView, TsinkError};
use crate::maintenance::final_level::{
    highest_with, is_idle_merge, is_settled, law_finished_run_leaves_nothing_to_merge,
    request_error, totals_fit, FinalLevelRequest, MergeReport, OfflineCompaction, OfflineReply,
    OfflineStepView,
};
use crate::segment::{SegmentLaneFamily, SegmentManifest};
use vstd::prelude::*;

verus! {

/// A run that has done nothing yet.
pub open spec fn is_begun(run: OfflineCompaction) -> bool {
    &&& run.step@ == OfflineStepView::AcquireLock
    &&& run.numeric@.len() == 0
    &&& run.blob@.len() == 0
    &&& run.max_segment_id is None
    &&& run.total == no_stats()
}

/// The states that a run went through, and the replies that took it from one to the next.
pub open spec fn is_run(states: Seq<OfflineCompaction>, replies: Seq<OfflineReply>) -> bool {
    &&& states.len() == replies.len() + 1
    &&& is_begun(states[0])
    &&& forall|k: int|
        0 <= k < replies.len() ==> states[k].is_successor(#[trigger] replies[k], states[k + 1])
}

/// The run ended well.
pub open spec fn is_done_well(run: OfflineCompaction) -> bool {
    run.step@ matches OfflineStepView::Done { outcome: Ok(_) }
}

/// `from` names a different segment of `left` for each of those found.
pub open spec fn tells_where(
    found: Seq<(Seq<char>, SegmentManifest)>,
    left: Seq<FinalLevelSegment>,
    from: Seq<int>,
) -> bool {
    &&& from.len() == found.len()
    &&& from.no_duplicates()
    &&& forall|k: int|
        0 <= k < from.len() ==> 0 <= #[trigger] from[k] < left.len() && segment_view(left[from[k]])
            == found[k]
}

/// Every manifest can be read, and each final-level segment is one of those left, in
/// whatever order.
pub open spec fn finds(readings: Seq<SegmentReading>, left: Seq<FinalLevelSegment>) -> bool {
    &&& forall|i: int| 0 <= i < readings.len() ==> (#[trigger] readings[i]).manifest is Ok
    &&& exists|from: Seq<int>| #[trigger] tells_where(final_segments(readings), left, from)
}

/// The reply that a store gives which nobody has touched since a run left it.
pub open spec fn is_untouched_reply(
    step: OfflineStepView,
    reply: OfflineReply,
    left: OfflineCompaction,
) -> bool {
    match step {
        OfflineStepView::AcquireLock => reply matches OfflineReply::Locked(Ok(_)),
        OfflineStepView::ScanLane { lane } => reply matches OfflineReply::Scanned(Ok(readings))
            && finds(readings@, left.lane(lane)),
        _ => true,
    }
}

proof fn lemma_run_is_settled(
    states: Seq<OfflineCompaction>,
    replies: Seq<OfflineReply>,
    k: int,
)
    requires
        is_run(states, replies),
        forall|i: int| 0 <= i < replies.len() ==> !is_idle_merge(#[trigger] replies[i]),
        0 <= k < states.len(),
    ensures
        is_settled(states[k]),
        states[k].same_settings(states[0]),
    decreases k,
{
    if k > 0 {
        lemma_run_is_settled(states, replies, k - 1);
        assert(states[k - 1].is_successor(replies[k - 1], states[k]));
        law_finished_run_leaves_nothing_to_merge(states[k - 1], replies[k - 1], states[k]);
    }
}

/// Fewer segments, in another order, hold no merge where there was none.
proof fn lemma_nothing_new(
    found: Seq<FinalLevelSegment>,
    left: Seq<FinalLevelSegment>,
    from: Seq<int>,
    window: i64,
    point_budget: usize,
    max_sources: usize,
)
    requires
        tells_where(
            found.map_values(|segment: FinalLevelSegment| segment_view(segment)),
            left,
            from,
        ),
        is_final_level_merge(left, window, point_budget, max_sources, None),
    ensures
        is_final_level_merge(found, window, point_budget, max_sources, None),
{
    let views = found.map_values(|segment: FinalLevelSegment| segment_view(segment));
    assert forall|span: int| !#[trigger] is_crowded(found, window, point_budget, span) by {
        if is_crowded(found, window, point_budget, span) {
            let (i, j) = choose|i: int, j: int|
                #![trigger small_in_span(found, window, point_budget, span, i), small_in_span(found, window, point_budget, span, j)]
                i != j && small_in_span(found, window, point_budget, span, i) && small_in_span(
                    found,
                    window,
                    point_budget,
                    span,
                    j,
                );
            assert(views[i] == segment_view(left[from[i]]));
            assert(views[j] == segment_view(left[from[j]]));
            assert(small_in_span(left, window, point_budget, span, from[i]));
            assert(small_in_span(left, window, point_budget, span, from[j]));
            assert(is_crowded(left, window, point_budget, span));
        }
    }
}

/// Where a run that finds nothing to merge stands after so many replies.
pub open spec fn empty_run_step(replies: int) -> OfflineStepView {
    if replies == 0 {
        OfflineStepView::AcquireLock
    } else if replies == 1 {
        OfflineStepView::ScanLane { lane: SegmentLaneFamily::Numeric }
    } else if replies == 2 {
        OfflineStepView::ScanLane { lane: SegmentLaneFamily::Blob }
    } else {
        OfflineStepView::Done { outcome: Ok::<CompactionRunStats, ErrorView>(no_stats()) }
    }
}

/// A finished run leaves no two small segments in one span of a lane, and a second run over
/// what it left, untouched since, merges nothing: it takes the lock, scans both lanes, and
/// ends with empty totals. A first run in which a merge merged nothing is left out.
pub proof fn law_second_run_merges_nothing(
    first: Seq<OfflineCompaction>,
    first_replies: Seq<OfflineReply>,
    second: Seq<OfflineCompaction>,
    second_replies: Seq<OfflineReply>,
)
    requires
        is_run(first, first_replies),
        is_done_well(first.last()),
        forall|i: int| 0 <= i < first_replies.len() ==> !is_idle_merge(#[trigger] first_replies[i]),
        is_run(second, second_replies),
        second[0].same_settings(first[0]),
        forall|k: int|
            0 <= k < second_replies.len() ==> is_untouched_reply(
                second[k].step@,
                #[trigger] second_replies[k],
                first.last(),
            ),
    ensures
        first.last().is_lane_merge(SegmentLaneFamily::Numeric, None),
        first.last().is_lane_merge(SegmentLaneFamily::Blob, None),
        second.len() <= 4,
        forall|k: int|
            0 <= k < second.len() ==> (#[trigger] second[k]).step@ == empty_run_step(k),
        forall|k: int| 0 <= k < second.len() ==> (#[trigger] second[k]).total == no_stats(),
{
    let left = first.last();
    lemma_run_is_settled(first, first_replies, first.len() - 1);
    if second.len() > 1 {
        assert(is_untouched_reply(second[0].step@, second_replies[0], left));
        assert(second[0].is_successor(second_replies[0], second[1]));
    }
    if second.len() > 2 {
        assert(is_untouched_reply(second[1].step@, second_replies[1], left));
        assert(second[1].is_successor(second_replies[1], second[2]));
        lemma_scan_merges_nothing(second[1], second_replies[1], second[2], left);
    }
    if second.len() > 3 {
        assert(is_untouched_reply(second[2].step@, second_replies[2], left));
        assert(second[2].is_successor(second_replies[2], second[3]));
        lemma_scan_merges_nothing(second[2], second_replies[2], second[3], left);
        assert(second[3].is_lane_merge(SegmentLaneFamily::Numeric, None));
        assert(second[3].is_lane_merge(SegmentLaneFamily::Blob, None));
    }
    if second.len() > 4 {
        assert(second[3].is_successor(second_replies[3], second[4]));
    }
}

/// Scanning what a settled run left finds a lane without a merge.
proof fn lemma_scan_merges_nothing(
    run: OfflineCompaction,
    reply: OfflineReply,
    next: OfflineCompaction,
    left: OfflineCompaction,
)
    requires
        run.step@ is ScanLane,
        run.is_successor(reply, next),
        run.same_settings(left),
        is_untouched_reply(run.step@, reply, left),
        left.is_lane_merge(run.step@->ScanLane_lane, None),
    ensures
        next.is_lane_merge(run.step@->ScanLane_lane, None),
        exists|segments: Vec<FinalLevelSegment>, highest: Option<u64>| #[trigger]
            run.is_scanned(run.step@->ScanLane_lane, Ok((segments, highest)), next),
{
    let lane = run.step@->ScanLane_lane;
    let readings = reply->Scanned_0->Ok_0@;
    let scan = choose|scan: Result<(Vec<FinalLevelSegment>, Option<u64>), TsinkError>|
        {
            &&& #[trigger] is_scan(readings, scan)
            &&& run.is_scanned(lane, scan, next)
        };
    match scan {
        Ok((segments, highest)) => {
            let from = choose|from: Seq<int>| #[trigger]
                tells_where(final_segments(readings), left.lane(lane), from);
            lemma_nothing_new(
                segments@,
                left.lane(lane),
                from,
                left.window,
                left.compactor.point_budget() as usize,
                left.compactor.source_window_segments,
            );
            assert(run.is_scanned(lane, Ok((segments, highest)), next));
        },
        Err(_) => {},
    }
}

/// The step works on the segments of the lane.
pub open spec fn works_on(step: OfflineStepView, lane: SegmentLaneFamily) -> bool {
    match step {
        OfflineStepView::ScanLane { lane: at } => at == lane,
        OfflineStepView::MergeGroup { lane: at, .. } => at == lane,
        _ => false,
    }
}

/// The segments that a lane holds after so many replies, where a merge that merged nothing
/// leaves its sources in place.
pub open spec fn stored(
    states: Seq<OfflineCompaction>,
    replies: Seq<OfflineReply>,
    k: int,
    lane: SegmentLaneFamily,
) -> Seq<FinalLevelSegment>
    decreases k,
{
    if k <= 0 {
        Seq::empty()
    } else if works_on(states[k - 1].step@, lane) && !is_idle_merge(replies[k - 1]) {
        states[k].lane(lane)
    } else {
        stored(states, replies, k - 1, lane)
    }
}

/// Roots and manifests of the segments at some positions.
pub open spec fn picked_views(segments: Seq<FinalLevelSegment>, group: Seq<usize>) -> Seq<
    (Seq<char>, SegmentManifest),
> {
    Seq::new(group.len(), |i: int| segment_view(segments[group[i] as int]))
}

/// The merge that a run asked for after so many replies was of these segments, and merged
/// nothing.
pub open spec fn merged_nothing_at(
    states: Seq<OfflineCompaction>,
    replies: Seq<OfflineReply>,
    sources: Seq<(Seq<char>, SegmentManifest)>,
    k: int,
) -> bool {
    &&& 0 <= k < replies.len()
    &&& is_idle_merge(replies[k])
    &&& states[k].step@ matches OfflineStepView::MergeGroup { lane, group } && picked_views(
        states[k].lane(lane),
        group,
    ) == sources
}

/// Merging these segments merged nothing in the run.
pub open spec fn merged_nothing(
    states: Seq<OfflineCompaction>,
    replies: Seq<OfflineReply>,
    sources: Seq<(Seq<char>, SegmentManifest)>,
) -> bool {
    exists|k: int| merged_nothing_at(states, replies, sources, k)
}

/// No two segments have the same id.
pub open spec fn ids_differ(segments: Seq<FinalLevelSegment>) -> bool {
    forall|i: int, j: int|
        #![trigger segments[i], segments[j]]
        0 <= i < segments.len() && 0 <= j < segments.len() && i != j
            ==> segments[i].manifest.segment_id != segments[j].manifest.segment_id
}

/// Every manifest can be read, and the final-level segments are exactly those left, in
/// whatever order.
pub open spec fn finds_all(readings: Seq<SegmentReading>, left: Seq<FinalLevelSegment>) -> bool {
    &&& forall|i: int| 0 <= i < readings.len() ==> (#[trigger] readings[i]).manifest is Ok
    &&& exists|from: Seq<int>| #[trigger]
        is_rearrangement(final_segments(readings), left, from)
}

/// `from` names each segment of `left` once, for the segments found.
pub open spec fn is_rearrangement(
    found: Seq<(Seq<char>, SegmentManifest)>,
    left: Seq<FinalLevelSegment>,
    from: Seq<int>,
) -> bool {
    &&& tells_where(found, left, from)
    &&& forall|i: int| 0 <= i < left.len() ==> #[trigger] from.contains(i)
}

/// The reply of a store that nobody has touched since a run left it. Merging what merged
/// nothing merges nothing again.
pub open spec fn is_repeated_reply(
    run: OfflineCompaction,
    reply: OfflineReply,
    first: Seq<OfflineCompaction>,
    first_replies: Seq<OfflineReply>,
) -> bool {
    match run.step@ {
        OfflineStepView::AcquireLock => reply matches OfflineReply::Locked(Ok(_)),
        OfflineStepView::ScanLane { lane } => reply matches OfflineReply::Scanned(Ok(readings))
            && finds_all(
            readings@,
            stored(first, first_replies, first.len() - 1, lane),
        ),
        OfflineStepView::MergeGroup { lane, group } => merged_nothing(
            first,
            first_replies,
            picked_views(run.lane(lane), group),
        ) ==> is_idle_merge(reply),
        _ => true,
    }
}

/// The run has left the lane behind.
spec fn has_left(step: OfflineStepView, lane: SegmentLaneFamily) -> bool {
    match step {
        OfflineStepView::MergeGroup { lane: at, .. } => at == SegmentLaneFamily::Blob && lane
            == SegmentLaneFamily::Numeric,
        OfflineStepView::Done { .. } => true,
        _ => false,
    }
}

/// The run would merge so in a lane that holds these segments.
spec fn would_merge(
    run: OfflineCompaction,
    segments: Seq<FinalLevelSegment>,
    merge: Option<Seq<usize>>,
) -> bool {
    is_final_level_merge(
        segments,
        run.window,
        run.compactor.point_budget() as usize,
        run.compactor.source_window_segments,
        merge,
    )
}

/// What holds of a lane that was left: nothing to merge, or a merge that merged nothing.
spec fn is_ended(
    states: Seq<OfflineCompaction>,
    replies: Seq<OfflineReply>,
    segments: Seq<FinalLevelSegment>,
) -> bool {
    ||| would_merge(states[0], segments, None)
    ||| exists|group: Seq<usize>| #[trigger]
        would_merge(states[0], segments, Some(group)) && merged_nothing(
            states,
            replies,
            picked_views(segments, group),
        )
}

spec fn is_tracked(
    states: Seq<OfflineCompaction>,
    replies: Seq<OfflineReply>,
    k: int,
    lane: SegmentLaneFamily,
) -> bool {
    if has_left(states[k].step@, lane) {
        is_ended(states, replies, stored(states, replies, k, lane))
    } else {
        stored(states, replies, k, lane) == states[k].lane(lane)
    }
}

proof fn lemma_run_is_tracked(
    states: Seq<OfflineCompaction>,
    replies: Seq<OfflineReply>,
    k: int,
)
    requires
        is_run(states, replies),
        0 <= k < states.len(),
    ensures
        states[k].same_settings(states[0]),
        states[k].step@ matches OfflineStepView::MergeGroup { lane, group }
            ==> states[k].is_lane_merge(lane, Some(group)),
        !(states[k].step@ matches OfflineStepView::Done { outcome: Err(_) }) ==> is_tracked(
            states,
            replies,
            k,
            SegmentLaneFamily::Numeric,
        ) && is_tracked(states, replies, k, SegmentLaneFamily::Blob),
    decreases k,
{
    if k == 0 {
        assert(stored(states, replies, 0, SegmentLaneFamily::Numeric) =~= states[0].numeric@);
        assert(stored(states, replies, 0, SegmentLaneFamily::Blob) =~= states[0].blob@);
    } else {
        let run = states[k - 1];
        let reply = replies[k - 1];
        let next = states[k];
        lemma_run_is_tracked(states, replies, k - 1);
        assert(run.is_successor(reply, states[k - 1 + 1]));
        if is_idle_merge(reply) {
            if let OfflineStepView::MergeGroup { lane, group } = run.step@ {
                let segments = stored(states, replies, k, lane);
                assert(segments == run.lane(lane));
                assert(merged_nothing_at(
                    states,
                    replies,
                    picked_views(segments, group),
                    k - 1,
                ));
                assert(would_merge(states[0], segments, Some(group)));
                assert(is_ended(states, replies, segments));
            }
        }
    }
}

/// What is selected does not depend on the order in which segments are listed.
proof fn lemma_selection_moves_along(
    found: Seq<FinalLevelSegment>,
    left: Seq<FinalLevelSegment>,
    from: Seq<int>,
    window: i64,
    point_budget: usize,
    max_sources: usize,
    group: Seq<usize>,
)
    requires
        left.len() <= usize::MAX,
        found.len() <= usize::MAX,
        is_rearrangement(
            found.map_values(|segment: FinalLevelSegment| segment_view(segment)),
            left,
            from,
        ),
        ids_differ(left),
        is_final_level_merge(found, window, point_budget, max_sources, Some(group)),
    ensures
        exists|moved: Seq<usize>|
            {
                &&& #[trigger] is_final_level_merge(
                    left,
                    window,
                    point_budget,
                    max_sources,
                    Some(moved),
                )
                &&& picked_views(left, moved) == picked_views(found, group)
            },
{
    let views = found.map_values(|segment: FinalLevelSegment| segment_view(segment));
    assert forall|k: int| 0 <= k < found.len() implies 0 <= #[trigger] from[k] < left.len()
        && segment_view(left[from[k]]) == segment_view(found[k]) by {
        assert(views[k] == segment_view(found[k]));
    }
    assert forall|span: int, k: int|
        #![trigger small_in_span(found, window, point_budget, span, k)]
        0 <= k < found.len() implies small_in_span(found, window, point_budget, span, k)
        == small_in_span(left, window, point_budget, span, from[k]) by {}
    assert forall|span: int| #[trigger]
        is_crowded(left, window, point_budget, span) implies is_crowded(
        found,
        window,
        point_budget,
        span,
    ) by {
        let (i, j) = choose|i: int, j: int|
            #![trigger small_in_span(left, window, point_budget, span, i), small_in_span(left, window, point_budget, span, j)]
            i != j && small_in_span(left, window, point_budget, span, i) && small_in_span(
                left,
                window,
                point_budget,
                span,
                j,
            );
        assert(from.contains(i) && from.contains(j));
        let a = from.index_of(i);
        let b = from.index_of(j);
        assert(small_in_span(found, window, point_budget, span, a));
        assert(small_in_span(found, window, point_budget, span, b));
    }
    let (span, list) = choose|span: int, list: Seq<usize>|
        {
            &&& is_crowded(found, window, point_budget, span)
            &&& forall|other: int| #[trigger]
                is_crowded(found, window, point_budget, other) ==> span <= other
            &&& #[trigger] is_span_list(found, window, point_budget, span, list)
            &&& is_group_of(found, list, point_budget, max_sources, group)
        };
    let moved_list = Seq::new(list.len(), |k: int| from[list[k] as int] as usize);
    let moved = Seq::new(group.len(), |k: int| from[group[k] as int] as usize);
    assert forall|k: int| 0 <= k < list.len() implies small_in_span(
        found,
        window,
        point_budget,
        span,
        #[trigger] list[k] as int,
    ) && moved_list[k] == from[list[k] as int] by {}
    assert(is_crowded(left, window, point_budget, span)) by {
        let (i, j) = choose|i: int, j: int|
            #![trigger small_in_span(found, window, point_budget, span, i), small_in_span(found, window, point_budget, span, j)]
            i != j && small_in_span(found, window, point_budget, span, i) && small_in_span(
                found,
                window,
                point_budget,
                span,
                j,
            );
        assert(small_in_span(left, window, point_budget, span, from[i]));
        assert(small_in_span(left, window, point_budget, span, from[j]));
    }
    assert(is_span_list(left, window, point_budget, span, moved_list)) by {
        assert forall|k: int| 0 <= k < moved_list.len() implies small_in_span(
            left,
            window,
            point_budget,
            span,
            #[trigger] moved_list[k] as int,
        ) by {
            assert(small_in_span(found, window, point_budget, span, list[k] as int));
        }
        assert forall|i: int| #[trigger]
            small_in_span(left, window, point_budget, span, i) implies moved_list.contains(
            i as usize,
        ) by {
            assert(from.contains(i));
            let at = from.index_of(i);
            assert(small_in_span(found, window, point_budget, span, at));
            assert(list.contains(at as usize));
            let k = list.index_of(at as usize);
            assert(moved_list[k] == i as usize);
        }
        assert forall|k: int, l: int|
            #![trigger moved_list[k], moved_list[l]]
            0 <= k < l < moved_list.len() implies merges_before(
            left,
            moved_list[k] as int,
            moved_list[l] as int,
        ) by {
            let p = list[k] as int;
            let q = list[l] as int;
            assert(small_in_span(found, window, point_budget, span, p));
            assert(small_in_span(found, window, point_budget, span, q));
            assert(merges_before(found, p, q));
            assert(p != q);
            assert(left[from[p]].manifest == found[p].manifest);
            assert(left[from[q]].manifest == found[q].manifest);
            assert(from[p] != from[q]);
        }
    }
    assert forall|n: int| 0 <= n <= list.len() implies points_of(left, #[trigger] moved_list.take(n))
        == points_of(found, list.take(n)) by {
        lemma_points_move_along(found, left, from, list, moved_list, n);
    }
    assert(is_group_of(left, moved_list, point_budget, max_sources, moved)) by {
        assert(moved =~= moved_list.take(moved.len() as int)) by {
            assert forall|k: int| 0 <= k < group.len() implies moved[k] == moved_list[k] by {
                assert(group[k] == list.take(group.len() as int)[k]);
            }
        }
        assert forall|n: int| 0 <= n <= list.len() implies #[trigger] is_full(
            left,
            moved_list,
            point_budget,
            max_sources,
            n,
        ) == is_full(found, list, point_budget, max_sources, n) by {
            assert(points_of(left, moved_list.take(n)) == points_of(found, list.take(n)));
        }
    }
    assert(is_final_level_merge(left, window, point_budget, max_sources, Some(moved)));
    assert(picked_views(left, moved) =~= picked_views(found, group)) by {
        assert forall|k: int| 0 <= k < group.len() implies picked_views(left, moved)[k]
            == picked_views(found, group)[k] by {
            assert(group[k] == list.take(group.len() as int)[k]);
            assert(small_in_span(found, window, point_budget, span, list[k] as int));
        }
    }
}

proof fn lemma_points_move_along(
    found: Seq<FinalLevelSegment>,
    left: Seq<FinalLevelSegment>,
    from: Seq<int>,
    list: Seq<usize>,
    moved: Seq<usize>,
    n: int,
)
    requires
        0 <= n <= list.len() == moved.len(),
        forall|k: int|
            #![trigger list[k]]
            0 <= k < list.len() ==> moved[k] as int == from[list[k] as int] && left[from[list[k]
                as int]].manifest == found[list[k] as int].manifest,
    ensures
        points_of(left, moved.take(n)) == points_of(found, list.take(n)),
    decreases n,
{
    if n > 0 {
        lemma_points_move_along(found, left, from, list, moved, n - 1);
        assert(moved.take(n).drop_last() =~= moved.take(n - 1));
        assert(list.take(n).drop_last() =~= list.take(n - 1));
        assert(list.take(n).last() == list[n - 1]);
        assert(moved.take(n).last() == moved[n - 1]);
    }
}

/// What is selected in a lane that a run left behind has merged nothing before.
proof fn lemma_selected_again(
    first: Seq<OfflineCompaction>,
    first_replies: Seq<OfflineReply>,
    lane: SegmentLaneFamily,
    run: OfflineCompaction,
    group: Seq<usize>,
    readings: Seq<SegmentReading>,
)
    requires
        is_run(first, first_replies),
        is_done_well(first.last()),
        ids_differ(stored(first, first_replies, first.len() - 1, lane)),
        stored(first, first_replies, first.len() - 1, lane).len() <= usize::MAX,
        finds_all(readings, stored(first, first_replies, first.len() - 1, lane)),
        run.lane(lane).map_values(|segment: FinalLevelSegment| segment_view(segment))
            == final_segments(readings),
        run.same_settings(first[0]),
        run.is_lane_merge(lane, Some(group)),
    ensures
        merged_nothing(first, first_replies, picked_views(run.lane(lane), group)),
{
    let left = stored(first, first_replies, first.len() - 1, lane);
    let found = run.lane(lane);
    lemma_run_is_tracked(first, first_replies, first.len() - 1);
    let from = choose|from: Seq<int>| #[trigger]
        is_rearrangement(final_segments(readings), left, from);
    assert(found.len() <= usize::MAX) by {
        assert(run.numeric.len() == run.numeric@.len());
        assert(run.blob.len() == run.blob@.len());
    }
    lemma_selection_moves_along(
        found,
        left,
        from,
        run.window,
        run.compactor.point_budget() as usize,
        run.compactor.source_window_segments,
        group,
    );
    let moved = choose|moved: Seq<usize>|
        {
            &&& #[trigger] is_final_level_merge(
                left,
                run.window,
                run.compactor.point_budget() as usize,
                run.compactor.source_window_segments,
                Some(moved),
            )
            &&& picked_views(left, moved) == picked_views(found, group)
        };
    assert(would_merge(first[0], left, Some(moved)));
    assert(is_ended(first, first_replies, left));
    if would_merge(first[0], left, None) {
        law_final_level_merge_is_unique(
            left,
            run.window,
            run.compactor.point_budget() as usize,
            run.compactor.source_window_segments,
            None,
            Some(moved),
        );
    } else {
        let known = choose|known: Seq<usize>| #[trigger]
            would_merge(first[0], left, Some(known)) && merged_nothing(
                first,
                first_replies,
                picked_views(left, known),
            );
        law_final_level_merge_is_unique(
            left,
            run.window,
            run.compactor.point_budget() as usize,
            run.compactor.source_window_segments,
            Some(known),
            Some(moved),
        );
    }
}

/// Whatever a first run met: where a merge that merges nothing leaves its sources in place
/// and merges nothing when it is tried again, a second run over the untouched store counts
/// nothing and ends with empty totals.
pub proof fn law_second_run_has_empty_totals(
    first: Seq<OfflineCompaction>,
    first_replies: Seq<OfflineReply>,
    second: Seq<OfflineCompaction>,
    second_replies: Seq<OfflineReply>,
)
    requires
        is_run(first, first_replies),
        is_done_well(first.last()),
        forall|lane: SegmentLaneFamily|
            {
                let left = #[trigger] stored(first, first_replies, first.len() - 1, lane);
                ids_differ(left) && left.len() <= usize::MAX
            },
        is_run(second, second_replies),
        second[0].same_settings(first[0]),
        forall|k: int|
            0 <= k < second_replies.len() ==> is_repeated_reply(
                second[k],
                #[trigger] second_replies[k],
                first,
                first_replies,
            ),
    ensures
        second.len() <= 6,
        forall|k: int| 0 <= k < second.len() ==> (#[trigger] second[k]).total == no_stats(),
        forall|k: int|
            0 <= k < second.len() && (#[trigger] second[k]).step@ is Done ==> second[k].step@
                == (OfflineStepView::Done {
                outcome: Ok::<CompactionRunStats, ErrorView>(no_stats()),
            }),
{
    if second.len() > 1 {
        assert(is_repeated_reply(second[0], second_replies[0], first, first_replies));
        assert(second[0].is_successor(second_replies[0], second[1]));
    }
    if second.len() > 2 {
        assert(is_repeated_reply(second[1], second_replies[1], first, first_replies));
        assert(second[1].is_successor(second_replies[1], second[2]));
        lemma_scan_found(second[1], second_replies[1], second[2]);
    }
    if second.len() > 3 {
        assert(is_repeated_reply(second[2], second_replies[2], first, first_replies));
        assert(second[2].is_successor(second_replies[2], second[3]));
        lemma_scan_found(second[2], second_replies[2], second[3]);
        let numeric = second_replies[1]->Scanned_0->Ok_0@;
        let blob = second_replies[2]->Scanned_0->Ok_0@;
        lemma_idle_end(first, first_replies, second, second_replies, 3, numeric, blob);
        if second.len() > 4 {
            lemma_idle_end(first, first_replies, second, second_replies, 4, numeric, blob);
        }
        if second.len() > 5 {
            lemma_idle_end(first, first_replies, second, second_replies, 5, numeric, blob);
        }
    }
}

/// What a scan that can read every manifest lists.
proof fn lemma_scan_found(run: OfflineCompaction, reply: OfflineReply, next: OfflineCompaction)
    requires
        run.step@ is ScanLane,
        run.is_successor(reply, next),
        reply matches OfflineReply::Scanned(Ok(readings)) && forall|i: int|
            0 <= i < readings@.len() ==> (#[trigger] readings@[i]).manifest is Ok,
    ensures
        ({
            let lane = run.step@->ScanLane_lane;
            &&& next.lane(lane).map_values(|segment: FinalLevelSegment| segment_view(segment))
                == final_segments(reply->Scanned_0->Ok_0@)
            &&& next.total == run.total
            &&& lane == SegmentLaneFamily::Numeric ==> next.step@ == (OfflineStepView::ScanLane {
                lane: SegmentLaneFamily::Blob,
            })
            &&& lane == SegmentLaneFamily::Blob ==> next.numeric@ == run.numeric@
                && next.looks_from(SegmentLaneFamily::Numeric)
        }),
{
    let lane = run.step@->ScanLane_lane;
    let readings = reply->Scanned_0->Ok_0@;
    let scan = choose|scan: Result<(Vec<FinalLevelSegment>, Option<u64>), TsinkError>|
        {
            &&& #[trigger] is_scan(readings, scan)
            &&& run.is_scanned(lane, scan, next)
        };
    assert(scan is Ok);
}

/// The lane that a run is at, or has still to look at, holds what a scan listed.
spec fn is_as_scanned(
    run: OfflineCompaction,
    lane: SegmentLaneFamily,
    readings: Seq<SegmentReading>,
) -> bool {
    run.lane(lane).map_values(|segment: FinalLevelSegment| segment_view(segment))
        == final_segments(readings)
}

/// The steps of a second run after its scans, each of which counts nothing.
spec fn is_idle_state(
    states: Seq<OfflineCompaction>,
    k: int,
    numeric: Seq<SegmentReading>,
    blob: Seq<SegmentReading>,
) -> bool {
    &&& states[k].total == no_stats()
    &&& match states[k].step@ {
        OfflineStepView::MergeGroup { lane: SegmentLaneFamily::Numeric, group } => {
            &&& k == 3
            &&& is_as_scanned(states[k], SegmentLaneFamily::Numeric, numeric)
            &&& is_as_scanned(states[k], SegmentLaneFamily::Blob, blob)
            &&& states[k].is_lane_merge(SegmentLaneFamily::Numeric, Some(group))
        },
        OfflineStepView::MergeGroup { lane: SegmentLaneFamily::Blob, group } => {
            &&& k <= 4
            &&& is_as_scanned(states[k], SegmentLaneFamily::Blob, blob)
            &&& states[k].is_lane_merge(SegmentLaneFamily::Blob, Some(group))
        },
        OfflineStepView::Done { outcome } => outcome == Ok::<CompactionRunStats, ErrorView>(
            no_stats(),
        ),
        _ => false,
    }
}

proof fn lemma_idle_end(
    first: Seq<OfflineCompaction>,
    first_replies: Seq<OfflineReply>,
    second: Seq<OfflineCompaction>,
    second_replies: Seq<OfflineReply>,
    k: int,
    numeric: Seq<SegmentReading>,
    blob: Seq<SegmentReading>,
)
    requires
        is_run(first, first_replies),
        is_done_well(first.last()),
        forall|lane: SegmentLaneFamily|
            {
                let left = #[trigger] stored(first, first_replies, first.len() - 1, lane);
                ids_differ(left) && left.len() <= usize::MAX
            },
        is_run(second, second_replies),
        second[k].same_settings(first[0]),
        3 <= k < second.len(),
        forall|i: int|
            0 <= i < second_replies.len() ==> is_repeated_reply(
                second[i],
                #[trigger] second_replies[i],
                first,
                first_replies,
            ),
        finds_all(
            numeric,
            stored(first, first_replies, first.len() - 1, SegmentLaneFamily::Numeric),
        ),
        finds_all(blob, stored(first, first_replies, first.len() - 1, SegmentLaneFamily::Blob)),
        is_idle_state(second, k, numeric, blob),
    ensures
        second[k].step@ is Done ==> second.len() == k + 1,
        k + 1 < second.len() ==> is_idle_state(second, k + 1, numeric, blob)
            && second[k + 1].same_settings(first[0]),
{
    if k + 1 < second.len() {
        let run = second[k];
        let reply = second_replies[k];
        assert(run.is_successor(reply, second[k + 1]));
        assert(is_repeated_reply(run, reply, first, first_replies));
        if let OfflineStepView::MergeGroup { lane, group } = run.step@ {
            let readings = match lane {
                SegmentLaneFamily::Numeric => numeric,
                SegmentLaneFamily::Blob => blob,
            };
            lemma_selected_again(first, first_replies, lane, run, group, readings);
        }
    }
}

/// No segment of a lane has a higher id than the highest one known.
pub open spec fn knows_ids(run: OfflineCompaction) -> bool {
    forall|lane: SegmentLaneFamily, i: int|
        #![trigger run.lane(lane)[i]]
        0 <= i < run.lane(lane).len() ==> is_within(
            run.lane(lane)[i].manifest.segment_id,
            run.max_segment_id,
        )
}

/// The id is at most the highest one known.
pub open spec fn is_within(id: u64, highest: Option<u64>) -> bool {
    highest is Some && id <= highest->Some_0
}

proof fn lemma_highest_with(highest: Option<u64>, segments: Seq<FinalLevelSegment>)
    ensures
        highest is Some ==> is_within(highest->Some_0, highest_with(highest, segments)),
        forall|i: int|
            0 <= i < segments.len() ==> is_within(
                (#[trigger] segments[i]).manifest.segment_id,
                highest_with(highest, segments),
            ),
    decreases segments.len(),
{
    if segments.len() > 0 {
        let shorter = segments.drop_last();
        lemma_highest_with(highest, shorter);
        assert forall|i: int| 0 <= i < segments.len() implies is_within(
            (#[trigger] segments[i]).manifest.segment_id,
            highest_with(highest, segments),
        ) by {
            if i < shorter.len() {
                assert(segments[i] == shorter[i]);
            }
        }
    }
}

proof fn lemma_scanned_ids(
    readings: Seq<SegmentReading>,
    segments: Vec<FinalLevelSegment>,
    highest: Option<u64>,
)
    requires
        is_scan(readings, Ok((segments, highest))),
    ensures
        forall|i: int|
            0 <= i < segments@.len() ==> is_within(
                (#[trigger] segments@[i]).manifest.segment_id,
                highest,
            ),
{
    let wanted = |reading: SegmentReading| is_final_reading(reading);
    let views = segments@.map_values(|segment: FinalLevelSegment| segment_view(segment));
    let kept = readings.filter(wanted);
    assert(final_segments(readings) == kept.map_values(
        |reading: SegmentReading| (reading.root@, reading.manifest->Ok_0),
    ));
    assert forall|i: int| 0 <= i < segments@.len() implies is_within(
        (#[trigger] segments@[i]).manifest.segment_id,
        highest,
    ) by {
        assert(views[i] == final_segments(readings)[i]);
        assert(views[i].1 == kept[i].manifest->Ok_0);
        lemma_filtered_from(readings, wanted, i);
        let at = choose|at: int| 0 <= at < readings.len() && readings[at] == kept[i];
        assert(readings[at].manifest->Ok_0.segment_id <= highest->Some_0);
    }
}

/// What a run writes gets ids that no segment has: the id for the next output lies above the
/// highest one known, which is never lowered, and no segment of a lane is above that.
pub proof fn law_output_ids_are_new(
    run: OfflineCompaction,
    reply: OfflineReply,
    next: OfflineCompaction,
)
    requires
        knows_ids(run),
        run.is_successor(reply, next),
    ensures
        knows_ids(next),
        run.max_segment_id is Some ==> is_within(run.max_segment_id->Some_0, next.max_segment_id),
{
    match (run.step@, reply) {
        (OfflineStepView::ScanLane { lane }, OfflineReply::Scanned(Ok(readings))) => {
            let scan = choose|scan: Result<(Vec<FinalLevelSegment>, Option<u64>), TsinkError>|
                {
                    &&& #[trigger] is_scan(readings@, scan)
                    &&& run.is_scanned(lane, scan, next)
                };
            if let Ok((segments, highest)) = scan {
                lemma_scanned_ids(readings@, segments, highest);
                assert(next.lane(lane) == segments@);
            }
        },
        (OfflineStepView::MergeGroup { lane, group }, OfflineReply::Merged(Ok(report))) => {
            let before = run.lane(lane);
            let outputs = report.outputs@;
            let all = Seq::new(before.len(), |k: int| k as usize);
            let outside = |k: usize| !group.contains(k);
            let kept = positions_outside(before.len(), group);
            lemma_highest_with(run.max_segment_id, outputs);
            assert forall|i: int| 0 <= i < next.lane(lane).len() implies is_within(
                (#[trigger] next.lane(lane)[i]).manifest.segment_id,
                next.max_segment_id,
            ) by {
                if i < kept.len() {
                    lemma_filtered_from(all, outside, i);
                    assert(before.len() <= usize::MAX) by {
                        assert(run.numeric.len() == run.numeric@.len());
                        assert(run.blob.len() == run.blob@.len());
                    }
                    let at = choose|at: int| 0 <= at < all.len() && all[at] == kept[i];
                    assert(next.lane(lane)[i] == before[at]);
                    assert(is_within(run.lane(lane)[at].manifest.segment_id, run.max_segment_id));
                } else {
                    assert(next.lane(lane)[i] == outputs[i - kept.len()]);
                }
            }
        },
        _ => {},
    }
    assert forall|lane: SegmentLaneFamily, i: int|
        #![trigger next.lane(lane)[i]]
        0 <= i < next.lane(lane).len() implies is_within(
        next.lane(lane)[i].manifest.segment_id,
        next.max_segment_id,
    ) by {
        if next.lane(lane) == run.lane(lane) {
            assert(is_within(run.lane(lane)[i].manifest.segment_id, run.max_segment_id));
        }
    }
}

/// One of the counters in the statistics of a merge.
pub enum StatsCounter {
    SourceSegments,
    OutputSegments,
    SourceChunks,
    OutputChunks,
    SourcePoints,
    OutputPoints,
}

/// What a counter says.
pub open spec fn count_in(stats: CompactionRunStats, counter: StatsCounter) -> int {
    match counter {
        StatsCounter::SourceSegments => stats.source_segments as int,
        StatsCounter::OutputSegments => stats.output_segments as int,
        StatsCounter::SourceChunks => stats.source_chunks as int,
        StatsCounter::OutputChunks => stats.output_chunks as int,
        StatsCounter::SourcePoints => stats.source_points as int,
        StatsCounter::OutputPoints => stats.output_points as int,
    }
}

/// The reply reports a merge that merged something.
pub open spec fn is_counted_merge(reply: OfflineReply) -> bool {
    reply matches OfflineReply::Merged(Ok(report)) && report.stats.compacted
}

/// What a counter says over all the merges among the replies that merged something.
pub open spec fn sum_over(replies: Seq<OfflineReply>, counter: StatsCounter) -> int
    decreases replies.len(),
{
    if replies.len() == 0 {
        0
    } else if is_counted_merge(replies.last()) {
        sum_over(replies.drop_last(), counter) + count_in(
            replies.last()->Merged_0->Ok_0.stats,
            counter,
        )
    } else {
        sum_over(replies.drop_last(), counter)
    }
}

/// The totals of a run are the sums of the statistics of all its merges that merged something,
/// in each of the six counters, and a run that ends well gives these sums. The totals say that
/// something was merged exactly where something was; the levels are then the final one.
pub proof fn law_totals_are_the_sums_of_the_merges(
    states: Seq<OfflineCompaction>,
    replies: Seq<OfflineReply>,
    k: int,
    counter: StatsCounter,
)
    requires
        is_run(states, replies),
        forall|i: int|
            #![trigger replies[i]]
            0 <= i < replies.len() ==> states[i].accepts(replies[i]),
        0 <= k < states.len(),
    ensures
        count_in(states[k].total, counter) == sum_over(replies.take(k), counter),
        states[k].total.compacted <==> exists|i: int|
            0 <= i < k && is_counted_merge(#[trigger] replies[i]),
        states[k].total.compacted ==> states[k].total.source_level == Some(2u8)
            && states[k].total.target_level == Some(2u8),
        !states[k].total.compacted ==> states[k].total.source_level is None
            && states[k].total.target_level is None,
        states[k].step@ matches OfflineStepView::Done { outcome: Ok(outcome) } ==> count_in(
            outcome,
            counter,
        ) == sum_over(replies.take(k), counter) && outcome.compacted
            == states[k].total.compacted && outcome.source_level == states[k].total.source_level
            && outcome.target_level == states[k].total.target_level,
    decreases k,
{
    if k == 0 {
        assert(replies.take(0).len() == 0);
    } else {
        let run = states[k - 1];
        let reply = replies[k - 1];
        let next = states[k];
        law_totals_are_the_sums_of_the_merges(states, replies, k - 1, counter);
        assert(run.is_successor(reply, states[k - 1 + 1]));
        assert(run.accepts(reply));
        assert(replies.take(k).drop_last() =~= replies.take(k - 1));
        assert(replies.take(k).last() == reply);
    }
}

/// A request is refused exactly where it has no data path, has an object store, or has a window
/// that is not positive; the first of these that holds is what is reported.
pub proof fn law_requests_are_refused_for_their_reasons(request: FinalLevelRequest)
    ensures
        request_error(request) is None <==> request.data_path is Some
            && request.object_store_path is None && request.window >= 1,
        request.data_path is None ==> request_error(request) == Some(
            ErrorView::InvalidConfiguration("final-level compaction needs a data path"@),
        ),
        request.data_path is Some && request.object_store_path is Some ==> request_error(request)
            == Some(
            ErrorView::InvalidConfiguration(
                "final-level compaction does not cover an object store"@,
            ),
        ),
        request.data_path is Some && request.object_store_path is None && request.window < 1
            ==> request_error(request) == Some(
            ErrorView::InvalidConfiguration("final-level compaction window must be positive"@),
        ),
{
}

/// The failure that a reply reports, if it reports one.
pub open spec fn failure_in(reply: OfflineReply) -> Option<TsinkError> {
    match reply {
        OfflineReply::Locked(Err(error)) => Some(error),
        OfflineReply::Scanned(Err(error)) => Some(error),
        OfflineReply::Merged(Err(error)) => Some(error),
        _ => None,
    }
}

/// What comes before a step of a run. The lock is taken before anything is read; the numeric
/// lane is scanned before the blob lane, and both before anything is merged; and once the blob
/// lane is merged, or a merge in the numeric lane merged nothing, the numeric lane is done with.
/// Failed work ends the run with that very failure, and then nothing that the run knows has
/// changed; nor has it when the lock is taken.
pub proof fn law_lanes_are_scanned_and_merged_in_turn(
    run: OfflineCompaction,
    reply: OfflineReply,
    next: OfflineCompaction,
)
    requires
        run.accepts(reply),
        run.is_successor(reply, next),
    ensures
        next.compactor == run.compactor,
        next.window == run.window,
        failure_in(reply) is Some ==> {
            &&& next.step@ == (OfflineStepView::Done {
                outcome: Err::<CompactionRunStats, ErrorView>(failure_in(reply)->Some_0@),
            })
            &&& next.numeric@ == run.numeric@
            &&& next.blob@ == run.blob@
            &&& next.max_segment_id == run.max_segment_id
            &&& next.total == run.total
        },
        run.step@ == OfflineStepView::AcquireLock ==> {
            &&& next.numeric@ == run.numeric@
            &&& next.blob@ == run.blob@
            &&& next.max_segment_id == run.max_segment_id
            &&& next.total == run.total
        },
        match next.step@ {
            OfflineStepView::AcquireLock => false,
            OfflineStepView::ScanLane { lane: SegmentLaneFamily::Numeric } => run.step@
                == OfflineStepView::AcquireLock,
            OfflineStepView::ScanLane { lane: SegmentLaneFamily::Blob } => run.step@ == (
            OfflineStepView::ScanLane { lane: SegmentLaneFamily::Numeric }),
            OfflineStepView::MergeGroup { lane: SegmentLaneFamily::Numeric, .. } => {
                ||| run.step@ == (OfflineStepView::ScanLane { lane: SegmentLaneFamily::Blob })
                ||| run.step@ is MergeGroup && run.step@->MergeGroup_lane
                    == SegmentLaneFamily::Numeric && is_counted_merge(reply)
            },
            OfflineStepView::MergeGroup { lane: SegmentLaneFamily::Blob, .. } => {
                ||| run.step@ == (OfflineStepView::ScanLane { lane: SegmentLaneFamily::Blob })
                ||| run.step@ is MergeGroup && (run.step@->MergeGroup_lane
                    == SegmentLaneFamily::Numeric || is_counted_merge(reply))
            },
            OfflineStepView::Done { outcome: Ok(_) } => run.step@ == (OfflineStepView::ScanLane {
                lane: SegmentLaneFamily::Blob,
            }) || run.step@ is MergeGroup,
            OfflineStepView::Done { outcome: Err(_) } => true,
        },
{
}

/// What is merged next is what the lane offers under the settings of the run: its window, the
/// points that fit into one output segment, and the number of segments that one pass merges. The
/// blob lane is merged while the numeric lane offers something only after a merge there merged
/// nothing.
pub proof fn law_run_merges_what_its_lanes_offer(
    run: OfflineCompaction,
    reply: OfflineReply,
    next: OfflineCompaction,
)
    requires
        run.accepts(reply),
        run.is_successor(reply, next),
        next.step@ is MergeGroup,
    ensures
        ({
            let budget = next.compactor.point_budget() as usize;
            let numeric = OfflineStepView::MergeGroup {
                lane: SegmentLaneFamily::Numeric,
                group: next.step@->group,
            };
            &&& is_final_level_merge(
                if next.step@ == numeric {
                    next.numeric@
                } else {
                    next.blob@
                },
                next.window,
                budget,
                next.compactor.source_window_segments,
                Some(next.step@->group),
            )
            &&& run.step@ == (OfflineStepView::ScanLane { lane: SegmentLaneFamily::Blob })
                && next.step@ != numeric ==> is_final_level_merge(
                next.numeric@,
                next.window,
                budget,
                next.compactor.source_window_segments,
                None,
            )
        }),
{
}

/// A scanned lane holds the segments of level 2 that were read, the other lane what it held, and
/// the highest id known is that of any segment read or known before.
pub proof fn law_scanned_lane_holds_what_was_read(
    run: OfflineCompaction,
    readings: Vec<SegmentReading>,
    next: OfflineCompaction,
)
    requires
        run.step@ is ScanLane,
        run.is_successor(OfflineReply::Scanned(Ok(readings)), next),
        forall|i: int| 0 <= i < readings@.len() ==> (#[trigger] readings@[i]).manifest is Ok,
    ensures
        ({
            let numeric = run.step@ == (OfflineStepView::ScanLane {
                lane: SegmentLaneFamily::Numeric,
            });
            &&& numeric ==> exists|positions: Seq<int>| #[trigger]
                lists_level_two(readings@, next.numeric@, positions)
            &&& !numeric ==> exists|positions: Seq<int>| #[trigger]
                lists_level_two(readings@, next.blob@, positions)
            &&& numeric ==> next.blob@ == run.blob@
            &&& !numeric ==> next.numeric@ == run.numeric@
            &&& next.total == run.total
            &&& forall|i: int|
                0 <= i < readings@.len() ==> next.max_segment_id is Some && (
                #[trigger] readings@[i]).manifest->Ok_0.segment_id <= next.max_segment_id->Some_0
            &&& run.max_segment_id is Some ==> next.max_segment_id is Some
                && run.max_segment_id->Some_0 <= next.max_segment_id->Some_0
            &&& next.max_segment_id == run.max_segment_id || exists|i: int|
                0 <= i < readings@.len() && next.max_segment_id == Some(
                    (#[trigger] readings@[i]).manifest->Ok_0.segment_id,
                )
        }),
{
    let lane = run.step@->ScanLane_lane;
    let scan = choose|scan: Result<(Vec<FinalLevelSegment>, Option<u64>), TsinkError>|
        {
            &&& #[trigger] is_scan(readings@, scan)
            &&& run.is_scanned(lane, scan, next)
        };
    law_scan_lists_level_two(readings@, scan);
}

/// A merged lane has its sources replaced by what was written, at the end; the rest of it stays
/// in order, and the other lane stays as it is. The highest id known is then that of any segment
/// written or known before. `stays` are the positions of what stays.
pub proof fn law_merged_lane_has_its_sources_replaced(
    run: OfflineCompaction,
    report: MergeReport,
    next: OfflineCompaction,
) -> (stays: Seq<int>)
    requires
        run.step@ is MergeGroup,
        run.is_successor(OfflineReply::Merged(Ok(report)), next),
    ensures
        ({
            let group = run.step@->group;
            let numeric = run.step@ == (OfflineStepView::MergeGroup {
                lane: SegmentLaneFamily::Numeric,
                group,
            });
            let before = if numeric {
                run.numeric@
            } else {
                run.blob@
            };
            let after = if numeric {
                next.numeric@
            } else {
                next.blob@
            };
            &&& after == Seq::new(stays.len(), |k: int| before[stays[k]]) + report.outputs@
            &&& forall|k: int|
                0 <= k < stays.len() ==> 0 <= #[trigger] stays[k] < before.len() && !group.contains(
                    stays[k] as usize,
                )
            &&& forall|k: int, l: int|
                #![trigger stays[k], stays[l]]
                0 <= k < l < stays.len() ==> stays[k] < stays[l]
            &&& forall|i: int|
                0 <= i < before.len() && !group.contains(i as usize)
                    ==> #[trigger] stays.contains(i)
            &&& numeric ==> next.blob@ == run.blob@
            &&& !numeric ==> next.numeric@ == run.numeric@
            &&& forall|i: int|
                0 <= i < report.outputs@.len() ==> next.max_segment_id is Some && (
                #[trigger] report.outputs@[i]).manifest.segment_id <= next.max_segment_id->Some_0
            &&& run.max_segment_id is Some ==> next.max_segment_id is Some
                && run.max_segment_id->Some_0 <= next.max_segment_id->Some_0
            &&& next.max_segment_id == run.max_segment_id || exists|i: int|
                0 <= i < report.outputs@.len() && next.max_segment_id == Some(
                    (#[trigger] report.outputs@[i]).manifest.segment_id,
                )
        }),
{
    let group = run.step@->group;
    let lane = run.step@->MergeGroup_lane;
    let before = run.lane(lane);
    assert(before.len() <= usize::MAX) by {
        assert(run.numeric.len() == run.numeric@.len());
        assert(run.blob.len() == run.blob@.len());
    }
    lemma_highest_with(run.max_segment_id, report.outputs@);
    lemma_highest_is_known(run.max_segment_id, report.outputs@);
    law_merge_keeps_the_rest_in_order(before, group, report.outputs@)
}

proof fn lemma_highest_is_known(highest: Option<u64>, segments: Seq<FinalLevelSegment>)
    ensures
        highest_with(highest, segments) == highest || exists|i: int|
            0 <= i < segments.len() && highest_with(highest, segments) == Some(
                (#[trigger] segments[i]).manifest.segment_id,
            ),
    decreases segments.len(),
{
    if segments.len() > 0 {
        let shorter = segments.drop_last();
        lemma_highest_is_known(highest, shorter);
        if highest_with(highest, segments) == highest_with(highest, shorter) {
            if highest_with(highest, shorter) != highest {
                let i = choose|i: int|
                    0 <= i < shorter.len() && highest_with(highest, shorter) == Some(
                        (#[trigger] shorter[i]).manifest.segment_id,
                    );
                assert(segments[i] == shorter[i]);
            }
        } else {
            assert(segments[segments.len() - 1] == segments.last());
        }
    }
}

/// A run that ended well, and in which no merge merged nothing, has left no two little segments
/// of a lane that end in one span.
pub proof fn law_finished_run_leaves_no_company(
    states: Seq<OfflineCompaction>,
    replies: Seq<OfflineReply>,
    span: int,
)
    requires
        is_run(states, replies),
        is_done_well(states.last()),
        forall|i: int| 0 <= i < replies.len() ==> !is_idle_merge(#[trigger] replies[i]),
    ensures
        ({
            let run = states.last();
            let budget = run.compactor.point_budget() as usize;
            &&& !has_company(run.numeric@, run.window, budget, span)
            &&& !has_company(run.blob@, run.window, budget, span)
        }),
{
    let run = states.last();
    let budget = run.compactor.point_budget() as usize;
    lemma_run_is_settled(states, replies, states.len() - 1);
    law_company_is_merged(
        run.numeric@,
        run.window,
        budget,
        run.compactor.source_window_segments,
        None,
    );
    law_company_is_merged(
        run.blob@,
        run.window,
        budget,
        run.compactor.source_window_segments,
        None,
    );
}

/// Statistics can be added exactly where each of the six sums can be counted.
pub proof fn law_totals_fit_where_every_sum_does(
    total: CompactionRunStats,
    stats: CompactionRunStats,
)
    ensures
        totals_fit(total, stats) <==> forall|counter: StatsCounter|
            #[trigger] count_in(total, counter) + count_in(stats, counter) <= usize::MAX,
{
    if forall|counter: StatsCounter|
        #[trigger] count_in(total, counter) + count_in(stats, counter) <= usize::MAX {
        assert(count_in(total, StatsCounter::SourceSegments) + count_in(
            stats,
            StatsCounter::SourceSegments,
        ) <= usize::MAX);
        assert(count_in(total, StatsCounter::OutputSegments) + count_in(
            stats,
            StatsCounter::OutputSegments,
        ) <= usize::MAX);
        assert(count_in(total, StatsCounter::SourceChunks) + count_in(
            stats,
            StatsCounter::SourceChunks,
        ) <= usize::MAX);
        assert(count_in(total, StatsCounter::OutputChunks) + count_in(
            stats,
            StatsCounter::OutputChunks,
        ) <= usize::MAX);
        assert(count_in(total, StatsCounter::SourcePoints) + count_in(
            stats,
            StatsCounter::SourcePoints,
        ) <= usize::MAX);
        assert(count_in(total, StatsCounter::OutputPoints) + count_in(
            stats,
            StatsCounter::OutputPoints,
        ) <= usize::MAX);
    }
}

/// A run ends well only where the blob lane offers nothing to merge, or where its last merge there
/// merged nothing; and where it came from a scan or from a merge of the numeric lane that merged
/// something, only where that lane offers nothing either.
pub proof fn law_run_ends_when_its_lanes_offer_nothing(
    run: OfflineCompaction,
    reply: OfflineReply,
    next: OfflineCompaction,
)
    requires
        run.accepts(reply),
        run.is_successor(reply, next),
        is_done_well(next),
    ensures
        ({
            let budget = next.compactor.point_budget() as usize;
            let sources = next.compactor.source_window_segments;
            let in_blob = run.step@ is MergeGroup && run.step@->MergeGroup_lane
                == SegmentLaneFamily::Blob;
            let in_numeric = run.step@ is MergeGroup && run.step@->MergeGroup_lane
                == SegmentLaneFamily::Numeric;
            &&& is_final_level_merge(next.blob@, next.window, budget, sources, None) || in_blob
                && !is_counted_merge(reply)
            &&& run.step@ is ScanLane || in_numeric && is_counted_merge(reply)
                ==> is_final_level_merge(next.numeric@, next.window, budget, sources, None)
        }),
{
}

/// A scan that comes upon a manifest which cannot be read ends the run with the first such
/// failure, and then nothing that the run knows has changed.
pub proof fn law_unreadable_manifest_ends_the_run(
    run: OfflineCompaction,
    readings: Vec<SegmentReading>,
    next: OfflineCompaction,
    at: int,
)
    requires
        run.step@ is ScanLane,
        run.is_successor(OfflineReply::Scanned(Ok(readings)), next),
        0 <= at < readings@.len(),
        readings@[at].manifest is Err,
        forall|i: int| 0 <= i < at ==> (#[trigger] readings@[i]).manifest is Ok,
    ensures
        next.step@ == (OfflineStepView::Done {
            outcome: Err::<CompactionRunStats, ErrorView>(readings@[at].manifest->Err_0@),
        }),
        next.numeric@ == run.numeric@,
        next.blob@ == run.blob@,
        next.max_segment_id == run.max_segment_id,
        next.total == run.total,
{
    let lane = run.step@->ScanLane_lane;
    let scan = choose|scan: Result<(Vec<FinalLevelSegment>, Option<u64>), TsinkError>|
        {
            &&& #[trigger] is_scan(readings@, scan)
            &&& run.is_scanned(lane, scan, next)
        };
    assert(!(readings@[at].manifest is Ok));
    let error = scan->Err_0;
    let i = choose|i: int|
        {
            &&& 0 <= i < readings@.len()
            &&& (#[trigger] readings@[i]).manifest is Err
            &&& readings@[i].manifest->Err_0@ == error@
            &&& forall|k: int| 0 <= k < i ==> (#[trigger] readings@[k]).manifest is Ok
        };
    assert(i == at) by {
        if i < at {
            assert(readings@[i].manifest is Ok);
        }
        if at < i {
            assert(readings@[at].manifest is Ok);
        }
    }
}

} // verus!
