//! Which final-level segments are merged, in terms of their manifests.
use crate::compactor::final_level::{
    after_merge, final_segments, is_crowded, is_final_level_merge, is_final_reading, is_full,
    is_group_of, is_scan, is_span_list, law_group_writes_fewer_segments, merges_before, points_of,
    positions_outside, segment_view, small_in_span, span_of, FinalLevelSegment,
};
use crate::compactor::planning::SegmentReading;
use crate::compactor::Compactor;
use crate::error::TsinkError;
use vstd::arithmetic::div_mod::{
    lemma_fundamental_div_mod, lemma_fundamental_div_mod_converse, lemma_mod_bound,
};
use vstd::prelude::*;

verus! {

/// The segment holds points, and twice as many and two more still fit into one output segment.
pub open spec fn is_little(segment: FinalLevelSegment, point_budget: usize) -> bool {
    &&& segment.manifest.min_ts is Some
    &&& segment.manifest.max_ts is Some
    &&& 2 * segment.manifest.point_count + 2 <= point_budget
}

/// How long a span is: the window, or 1 where that is less.
pub open spec fn span_length(window: i64) -> int {
    if window < 1 {
        1
    } else {
        window as int
    }
}

/// The newest point of the segment lies in that span, counted from timestamp 0.
pub open spec fn ends_in(segment: FinalLevelSegment, window: i64, span: int) -> bool {
    span * span_length(window) <= segment.manifest.max_ts->Some_0 < (span + 1) * span_length(window)
}

/// The little segment at `i` ends in the span.
pub open spec fn is_candidate(
    segments: Seq<FinalLevelSegment>,
    window: i64,
    point_budget: usize,
    span: int,
    i: int,
) -> bool {
    0 <= i < segments.len() && is_little(segments[i], point_budget) && ends_in(
        segments[i],
        window,
        span,
    )
}

/// Two little segments end in the span.
pub open spec fn has_company(
    segments: Seq<FinalLevelSegment>,
    window: i64,
    point_budget: usize,
    span: int,
) -> bool {
    exists|i: int, j: int|
        #![trigger is_candidate(segments, window, point_budget, span, i), is_candidate(segments, window, point_budget, span, j)]
        i != j && is_candidate(segments, window, point_budget, span, i) && is_candidate(
            segments,
            window,
            point_budget,
            span,
            j,
        )
}

/// The segment at `i` is merged before the one at `j`: its oldest point is older or, at equal
/// ones, its id is lower or, at equal ones, it is listed first.
pub open spec fn is_due_before(segments: Seq<FinalLevelSegment>, i: int, j: int) -> bool {
    let a = segments[i].manifest;
    let b = segments[j].manifest;
    ||| a.min_ts->Some_0 < b.min_ts->Some_0
    ||| a.min_ts->Some_0 == b.min_ts->Some_0 && a.segment_id < b.segment_id
    ||| a.min_ts->Some_0 == b.min_ts->Some_0 && a.segment_id == b.segment_id && i < j
}

/// How many points the segments at some positions hold together.
pub open spec fn total_points(segments: Seq<FinalLevelSegment>, positions: Seq<usize>) -> int
    decreases positions.len(),
{
    if positions.len() == 0 {
        0
    } else {
        segments[positions.last() as int].manifest.point_count + total_points(
            segments,
            positions.drop_last(),
        )
    }
}

proof fn lemma_total_points(segments: Seq<FinalLevelSegment>, positions: Seq<usize>)
    ensures
        total_points(segments, positions) == points_of(segments, positions),
    decreases positions.len(),
{
    if positions.len() > 0 {
        lemma_total_points(segments, positions.drop_last());
    }
}

proof fn lemma_span(segment: FinalLevelSegment, window: i64, span: int)
    ensures
        ends_in(segment, window, span) <==> span_of(segment, window) == span,
{
    let d = span_length(window);
    let x = segment.manifest.max_ts->Some_0 as int;
    lemma_fundamental_div_mod(x, d);
    lemma_mod_bound(x, d);
    assert(d * (x / d) == (x / d) * d) by (nonlinear_arith);
    assert((x / d + 1) * d == (x / d) * d + d) by (nonlinear_arith);
    assert((span + 1) * d == span * d + d) by (nonlinear_arith);
    if ends_in(segment, window, span) {
        lemma_fundamental_div_mod_converse(x, d, span, x - span * d);
    }
}

proof fn lemma_candidates(
    segments: Seq<FinalLevelSegment>,
    window: i64,
    point_budget: usize,
    span: int,
    i: int,
)
    ensures
        is_candidate(segments, window, point_budget, span, i) == small_in_span(
            segments,
            window,
            point_budget,
            span,
            i,
        ),
{
    if 0 <= i < segments.len() {
        lemma_span(segments[i], window, span);
    }
}

proof fn lemma_company(
    segments: Seq<FinalLevelSegment>,
    window: i64,
    point_budget: usize,
    span: int,
)
    ensures
        has_company(segments, window, point_budget, span) == is_crowded(
            segments,
            window,
            point_budget,
            span,
        ),
{
    if has_company(segments, window, point_budget, span) {
        let (i, j) = choose|i: int, j: int|
            #![trigger is_candidate(segments, window, point_budget, span, i), is_candidate(segments, window, point_budget, span, j)]
            i != j && is_candidate(segments, window, point_budget, span, i) && is_candidate(
                segments,
                window,
                point_budget,
                span,
                j,
            );
        lemma_candidates(segments, window, point_budget, span, i);
        lemma_candidates(segments, window, point_budget, span, j);
        assert(small_in_span(segments, window, point_budget, span, i));
        assert(small_in_span(segments, window, point_budget, span, j));
    }
    if is_crowded(segments, window, point_budget, span) {
        let (i, j) = choose|i: int, j: int|
            #![trigger small_in_span(segments, window, point_budget, span, i), small_in_span(segments, window, point_budget, span, j)]
            i != j && small_in_span(segments, window, point_budget, span, i) && small_in_span(
                segments,
                window,
                point_budget,
                span,
                j,
            );
        lemma_candidates(segments, window, point_budget, span, i);
        lemma_candidates(segments, window, point_budget, span, j);
        assert(is_candidate(segments, window, point_budget, span, i));
        assert(is_candidate(segments, window, point_budget, span, j));
    }
}

/// There is something to merge exactly where two little segments end in one span.
pub proof fn law_company_is_merged(
    segments: Seq<FinalLevelSegment>,
    window: i64,
    point_budget: usize,
    max_sources: usize,
    merge: Option<Seq<usize>>,
)
    requires
        is_final_level_merge(segments, window, point_budget, max_sources, merge),
    ensures
        merge is Some <==> exists|span: int| #[trigger]
            has_company(segments, window, point_budget, span),
{
    if merge is None {
        assert forall|span: int| !#[trigger] has_company(
            segments,
            window,
            point_budget,
            span,
        ) by {
            lemma_company(segments, window, point_budget, span);
        }
    } else {
        let (span, list) = choose|span: int, list: Seq<usize>|
            {
                &&& is_crowded(segments, window, point_budget, span)
                &&& forall|other: int| #[trigger]
                    is_crowded(segments, window, point_budget, other) ==> span <= other
                &&& #[trigger] is_span_list(segments, window, point_budget, span, list)
                &&& is_group_of(segments, list, point_budget, max_sources, merge->Some_0)
            };
        lemma_company(segments, window, point_budget, span);
    }
}

/// What is merged: two or more little segments of the earliest span in which two of them end,
/// those with the oldest points first. Without the last of them they are not full, and where a
/// little segment of the span is left out, which then comes after all of them, they are: they
/// hold as many points as one output segment, or are as many as one merge takes, but at least
/// two.
pub proof fn law_merge_takes_the_front_of_the_earliest_span(
    segments: Seq<FinalLevelSegment>,
    window: i64,
    point_budget: usize,
    max_sources: usize,
    group: Seq<usize>,
) -> (span: int)
    requires
        segments.len() <= usize::MAX,
        is_final_level_merge(segments, window, point_budget, max_sources, Some(group)),
    ensures
        group.len() >= 2,
        has_company(segments, window, point_budget, span),
        forall|other: int| #[trigger]
            has_company(segments, window, point_budget, other) ==> span <= other,
        forall|k: int|
            0 <= k < group.len() ==> is_candidate(
                segments,
                window,
                point_budget,
                span,
                #[trigger] group[k] as int,
            ),
        forall|k: int, l: int|
            #![trigger group[k], group[l]]
            0 <= k < l < group.len() ==> is_due_before(segments, group[k] as int, group[l] as int),
        total_points(segments, group.drop_last()) < point_budget,
        group.len() <= max_sources || group.len() == 2,
        forall|i: int|
            #[trigger] is_candidate(segments, window, point_budget, span, i) && !group.contains(
                i as usize,
            ) ==> {
                &&& is_due_before(segments, group.last() as int, i)
                &&& total_points(segments, group) >= point_budget || group.len() >= max_sources
            },
{
    let (span, list) = choose|span: int, list: Seq<usize>|
        {
            &&& is_crowded(segments, window, point_budget, span)
            &&& forall|other: int| #[trigger]
                is_crowded(segments, window, point_budget, other) ==> span <= other
            &&& #[trigger] is_span_list(segments, window, point_budget, span, list)
            &&& is_group_of(segments, list, point_budget, max_sources, group)
        };
    law_group_writes_fewer_segments(segments, window, point_budget, max_sources, group);
    lemma_company(segments, window, point_budget, span);
    assert forall|other: int| #[trigger]
        has_company(segments, window, point_budget, other) implies span <= other by {
        lemma_company(segments, window, point_budget, other);
    }
    assert forall|k: int| 0 <= k < group.len() implies group[k] == #[trigger] list[k] by {
        assert(group[k] == list.take(group.len() as int)[k]);
    }
    assert forall|k: int| 0 <= k < group.len() implies is_candidate(
        segments,
        window,
        point_budget,
        span,
        #[trigger] group[k] as int,
    ) by {
        assert(group[k] == list[k]);
        lemma_candidates(segments, window, point_budget, span, list[k] as int);
    }
    assert forall|k: int, l: int|
        #![trigger group[k], group[l]]
        0 <= k < l < group.len() implies is_due_before(
        segments,
        group[k] as int,
        group[l] as int,
    ) by {
        assert(group[k] == list[k] && group[l] == list[l]);
        assert(merges_before(segments, list[k] as int, list[l] as int));
    }
    let n = group.len() as int;
    assert(!is_full(segments, list, point_budget, max_sources, n - 1));
    assert(group.drop_last() =~= list.take(n - 1));
    lemma_total_points(segments, group.drop_last());
    lemma_total_points(segments, group);
    assert forall|i: int|
        #[trigger] is_candidate(segments, window, point_budget, span, i) && !group.contains(
            i as usize,
        ) implies is_due_before(segments, group.last() as int, i) && (total_points(segments, group)
        >= point_budget || group.len() >= max_sources) by {
        lemma_candidates(segments, window, point_budget, span, i);
        assert(list.contains(i as usize));
        let at = list.index_of(i as usize);
        if at < n {
            assert(group[at] == list[at]);
        }
        assert(group[n - 1] == list[n - 1]);
        assert(merges_before(segments, list[n - 1] as int, list[at] as int));
        assert(is_full(segments, list, point_budget, max_sources, n));
    }
    span
}

/// What fits into one output segment: as many chunks as the multiplier says, each with as many
/// points as a chunk holds, as far as that can be counted; but never less than one chunk holds.
pub proof fn law_point_budget(compactor: Compactor)
    ensures
        compactor.point_budget() >= compactor.point_cap,
        compactor.point_budget() <= usize::MAX,
        compactor.output_segment_chunk_multiplier >= 1 && compactor.point_cap
            * compactor.output_segment_chunk_multiplier <= usize::MAX ==> compactor.point_budget()
            == compactor.point_cap * compactor.output_segment_chunk_multiplier,
        compactor.point_cap * compactor.output_segment_chunk_multiplier > usize::MAX
            ==> compactor.point_budget() == usize::MAX,
        compactor.output_segment_chunk_multiplier == 0 ==> compactor.point_budget()
            == compactor.point_cap,
{
    let cap = compactor.point_cap as int;
    let times = compactor.output_segment_chunk_multiplier as int;
    if times >= 1 {
        assert(cap * times >= cap) by (nonlinear_arith)
            requires
                cap >= 0,
                times >= 1,
        ;
    }
    if times == 0 {
        assert(cap * times == 0) by (nonlinear_arith)
            requires
                times == 0,
        ;
    }
}

/// A filter keeps items in their order: there are ascending positions of what is kept, and every
/// wanted item is at one of them.
proof fn lemma_kept_positions<T>(items: Seq<T>, keep: spec_fn(T) -> bool) -> (positions: Seq<int>)
    ensures
        is_choice(items, keep, positions),
        items.filter(keep) == Seq::new(positions.len(), |k: int| items[positions[k]]),
    decreases items.len(),
{
    reveal(Seq::filter);
    if items.len() == 0 {
        let positions = Seq::<int>::empty();
        assert(items.filter(keep) =~= Seq::new(positions.len(), |k: int| items[positions[k]]));
        positions
    } else {
        let front = items.drop_last();
        let before = lemma_kept_positions(front, keep);
        let positions = if keep(items.last()) {
            before.push(items.len() - 1)
        } else {
            before
        };
        assert forall|i: int| 0 <= i < items.len() && keep(#[trigger] items[i]) implies
            positions.contains(i) by {
            if i < front.len() {
                assert(keep(front[i]));
                assert(before.contains(i));
                let k = before.index_of(i);
                assert(positions[k] == i);
            } else {
                assert(positions[before.len() as int] == i);
            }
        }
        assert forall|k: int| 0 <= k < positions.len() implies 0 <= #[trigger] positions[k]
            < items.len() && keep(items[positions[k]]) by {
            if k < before.len() {
                assert(positions[k] == before[k]);
                assert(front[before[k]] == items[before[k]]);
            }
        }
        assert forall|k: int, l: int|
            #![trigger positions[k], positions[l]]
            0 <= k < l < positions.len() implies positions[k] < positions[l] by {
            assert(positions[k] == before[k]);
            if l < before.len() {
                assert(positions[l] == before[l]);
            }
        }
        let listed = Seq::new(positions.len(), |k: int| items[positions[k]]);
        assert(items.filter(keep) =~= listed) by {
            assert forall|k: int| 0 <= k < before.len() implies front[before[k]] == #[trigger] listed[k] by {
                assert(positions[k] == before[k]);
            }
        }
        positions
    }
}

/// The positions are those of the wanted items, ascending.
pub open spec fn is_choice<T>(items: Seq<T>, keep: spec_fn(T) -> bool, positions: Seq<int>) -> bool {
    &&& forall|k: int|
        0 <= k < positions.len() ==> 0 <= #[trigger] positions[k] < items.len() && keep(
            items[positions[k]],
        )
    &&& forall|k: int, l: int|
        #![trigger positions[k], positions[l]]
        0 <= k < l < positions.len() ==> positions[k] < positions[l]
    &&& forall|i: int|
        0 <= i < items.len() && keep(#[trigger] items[i]) ==> positions.contains(i)
}

/// The segments are those of the readings at ascending positions: roots and manifests of just
/// those readings whose manifest says level 2.
pub open spec fn lists_level_two(
    readings: Seq<SegmentReading>,
    segments: Seq<FinalLevelSegment>,
    positions: Seq<int>,
) -> bool {
    &&& positions.len() == segments.len()
    &&& forall|k: int|
        0 <= k < positions.len() ==> {
            &&& 0 <= #[trigger] positions[k] < readings.len()
            &&& readings[positions[k]].manifest == Ok::<_, TsinkError>(segments[k].manifest)
            &&& readings[positions[k]].root@ == segments[k].root@
            &&& segments[k].manifest.level == 2
        }
    &&& forall|k: int, l: int|
        #![trigger positions[k], positions[l]]
        0 <= k < l < positions.len() ==> positions[k] < positions[l]
    &&& forall|i: int|
        0 <= i < readings.len() && (#[trigger] readings[i]).manifest->Ok_0.level == 2
            ==> positions.contains(i)
}

/// A scan that reads every manifest lists the segments of level 2, in order, and the highest id
/// at any level. One that cannot read a manifest ends with the first such failure.
pub proof fn law_scan_lists_level_two(
    readings: Seq<SegmentReading>,
    outcome: Result<(Vec<FinalLevelSegment>, Option<u64>), TsinkError>,
)
    requires
        is_scan(readings, outcome),
    ensures
        outcome is Ok <==> forall|i: int|
            0 <= i < readings.len() ==> (#[trigger] readings[i]).manifest is Ok,
        match outcome {
            Ok((segments, highest)) => {
                &&& exists|positions: Seq<int>| #[trigger]
                    lists_level_two(readings, segments@, positions)
                &&& highest is None <==> readings.len() == 0
                &&& highest is Some ==> exists|i: int|
                    0 <= i < readings.len() && (#[trigger] readings[i]).manifest->Ok_0.segment_id
                        == highest->Some_0
                &&& forall|i: int|
                    0 <= i < readings.len() ==> (#[trigger] readings[i]).manifest->Ok_0.segment_id
                        <= highest->Some_0
            },
            Err(error) => exists|i: int|
                {
                    &&& 0 <= i < readings.len()
                    &&& (#[trigger] readings[i]).manifest is Err
                    &&& readings[i].manifest->Err_0@ == error@
                    &&& forall|k: int| 0 <= k < i ==> (#[trigger] readings[k]).manifest is Ok
                },
        },
{
    if let Ok((segments, highest)) = outcome {
        let wanted = |reading: SegmentReading| is_final_reading(reading);
        let views = segments@.map_values(|segment: FinalLevelSegment| segment_view(segment));
        let positions = lemma_kept_positions(readings, wanted);
        let kept = readings.filter(wanted);
        assert(final_segments(readings) == kept.map_values(
            |reading: SegmentReading| (reading.root@, reading.manifest->Ok_0),
        ));
        assert(views.len() == positions.len());
        assert forall|k: int| 0 <= k < positions.len() implies {
            &&& 0 <= #[trigger] positions[k] < readings.len()
            &&& readings[positions[k]].manifest == Ok::<_, TsinkError>(segments@[k].manifest)
            &&& readings[positions[k]].root@ == segments@[k].root@
            &&& segments@[k].manifest.level == 2
        } by {
            assert(wanted(readings[positions[k]]));
            assert(kept[k] == readings[positions[k]]);
            assert(views[k] == final_segments(readings)[k]);
            assert(views[k] == segment_view(segments@[k]));
        }
        assert forall|i: int|
            0 <= i < readings.len() && (#[trigger] readings[i]).manifest->Ok_0.level
                == 2 implies positions.contains(i) by {
            assert(readings[i].manifest is Ok);
            assert(wanted(readings[i]));
        }
        assert(lists_level_two(readings, segments@, positions));
    }
}

/// A merge takes its sources out and puts what it wrote at the end; what stays keeps its order.
/// `stays` are the positions of what stays.
pub proof fn law_merge_keeps_the_rest_in_order(
    segments: Seq<FinalLevelSegment>,
    group: Seq<usize>,
    outputs: Seq<FinalLevelSegment>,
) -> (stays: Seq<int>)
    requires
        segments.len() <= usize::MAX,
    ensures
        forall|k: int|
            0 <= k < stays.len() ==> 0 <= #[trigger] stays[k] < segments.len() && !group.contains(
                stays[k] as usize,
            ),
        forall|k: int, l: int|
            #![trigger stays[k], stays[l]]
            0 <= k < l < stays.len() ==> stays[k] < stays[l],
        forall|i: int|
            0 <= i < segments.len() && !group.contains(i as usize) ==> #[trigger] stays.contains(i),
        after_merge(segments, group, outputs) == Seq::new(
            stays.len(),
            |k: int| segments[stays[k]],
        ) + outputs,
{
    let all = Seq::new(segments.len(), |k: int| k as usize);
    let outside = |k: usize| !group.contains(k);
    let stays = lemma_kept_positions(all, outside);
    let kept = positions_outside(segments.len(), group);
    assert(kept == all.filter(outside));
    assert forall|i: int|
        0 <= i < segments.len() && !group.contains(i as usize) implies #[trigger] stays.contains(i) by {
        assert(outside(all[i]));
    }
    assert forall|k: int| 0 <= k < stays.len() implies 0 <= #[trigger] stays[k] < segments.len()
        && !group.contains(stays[k] as usize) && kept[k] == stays[k] by {
        assert(outside(all[stays[k]]));
    }
    assert(after_merge(segments, group, outputs) =~= Seq::new(
        stays.len(),
        |k: int| segments[stays[k]],
    ) + outputs);
    stays
}

} // verus!
