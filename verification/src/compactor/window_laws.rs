//! Which segments of a level a pass merges, in terms of their chunks and ids.
use crate::compactor::overlap::{
    at_most, component, connected, holds, is_chain, is_oldest_overlap, is_overlap_window,
    law_overlap_is_company, law_overlap_window_shape, lemma_connected_self,
    lemma_connected_symmetric, lemma_filter_ascends, lemma_filtered_from, lemma_window_in_range,
    linked, overlaps_another, ranges_meet,
};
use crate::compactor::planning::{
    after_level, is_level_decision, is_selection, level_above, level_number, picked,
    storage_keys, window_limit, CompactionLevel, CompactionReply, CompactionStep, StepView,
};
use crate::compactor::Compactor;
use crate::segment::{ChunkHeader, LoadedSegment};
use crate::sorting::{arranged, is_order, key_before, lemma_order_covers};
use vstd::prelude::*;

verus! {

/// Two chunks hold points, and a time that both cover.
pub open spec fn chunks_meet(a: ChunkHeader, b: ChunkHeader) -> bool {
    a.point_count > 0 && b.point_count > 0 && a.min_ts <= b.max_ts && b.min_ts <= a.max_ts
}

/// Two segments hold chunks of the same series that cover a common time.
pub open spec fn share_time(a: LoadedSegment, b: LoadedSegment) -> bool {
    exists|s: int, c: int, t: int, d: int|
        #![trigger a.chunks_by_series@[s].chunks@[c], b.chunks_by_series@[t].chunks@[d]]
        {
            &&& 0 <= s < a.chunks_by_series@.len()
            &&& 0 <= c < a.chunks_by_series@[s].chunks@.len()
            &&& 0 <= t < b.chunks_by_series@.len()
            &&& 0 <= d < b.chunks_by_series@[t].chunks@.len()
            &&& a.chunks_by_series@[s].series_id == b.chunks_by_series@[t].series_id
            &&& chunks_meet(a.chunks_by_series@[s].chunks@[c], b.chunks_by_series@[t].chunks@[d])
        }
}

/// No chunk with points ends before it starts.
pub open spec fn has_ordinary_chunks(segment: LoadedSegment) -> bool {
    forall|s: int, c: int|
        #![trigger segment.chunks_by_series@[s].chunks@[c]]
        0 <= s < segment.chunks_by_series@.len() && 0 <= c
            < segment.chunks_by_series@[s].chunks@.len()
            && segment.chunks_by_series@[s].chunks@[c].point_count > 0
            ==> segment.chunks_by_series@[s].chunks@[c].min_ts
            <= segment.chunks_by_series@[s].chunks@[c].max_ts
}

/// No chunk of the segments ends before it starts.
pub open spec fn have_ordinary_chunks(segments: Seq<LoadedSegment>) -> bool {
    forall|i: int| 0 <= i < segments.len() ==> has_ordinary_chunks(#[trigger] segments[i])
}

/// The segment shares a time with some other one.
pub open spec fn is_crossed(segments: Seq<LoadedSegment>, i: int) -> bool {
    exists|j: int|
        0 <= j < segments.len() && j != i && share_time(segments[i], #[trigger] segments[j])
}

/// Some two segments share a time.
pub open spec fn has_overlap(segments: Seq<LoadedSegment>) -> bool {
    exists|i: int| 0 <= i < segments.len() && #[trigger] is_crossed(segments, i)
}

/// A way through the segments on which each one shares a time with the next.
pub open spec fn is_way(segments: Seq<LoadedSegment>, way: Seq<int>) -> bool {
    &&& way.len() > 0
    &&& forall|k: int| 0 <= k < way.len() ==> 0 <= #[trigger] way[k] < segments.len()
    &&& forall|k: int, l: int|
        #![trigger way[k], way[l]]
        0 <= k && l == k + 1 && l < way.len() ==> share_time(segments[way[k]], segments[way[l]])
}

/// Some way leads from one segment to the other.
pub open spec fn is_reached(segments: Seq<LoadedSegment>, from: int, to: int) -> bool {
    exists|way: Seq<int>| #[trigger]
        is_way(segments, way) && way.first() == from && way.last() == to
}

/// The segment is older than the other one: it has the lower id or, at equal ids, comes first.
pub open spec fn is_older(segments: Seq<LoadedSegment>, i: int, j: int) -> bool {
    segments[i].manifest.segment_id < segments[j].manifest.segment_id
        || segments[i].manifest.segment_id == segments[j].manifest.segment_id && i < j
}

/// The sources are different segments that exist, oldest first.
pub open spec fn are_oldest_first(segments: Seq<LoadedSegment>, sources: Seq<usize>) -> bool {
    &&& forall|k: int| 0 <= k < sources.len() ==> (#[trigger] sources[k]) < segments.len()
    &&& forall|k: int, l: int|
        #![trigger sources[k], sources[l]]
        0 <= k < l < sources.len() ==> is_older(segments, sources[k] as int, sources[l] as int)
}

/// The lower of two numbers.
pub open spec fn lower(a: int, b: int) -> int {
    if a < b {
        a
    } else {
        b
    }
}

/// The number, or 2 where it is less.
pub open spec fn at_least_two(n: usize) -> int {
    if n < 2 {
        2
    } else {
        n as int
    }
}

/// How many segments make a pass over the level due.
pub open spec fn due_at(compactor: Compactor, source: CompactionLevel) -> usize {
    match source {
        CompactionLevel::L0 => compactor.l0_trigger,
        _ => compactor.l1_trigger,
    }
}

proof fn lemma_linked_is_sharing(segments: Seq<LoadedSegment>, i: int, j: int)
    requires
        has_ordinary_chunks(segments[i]),
        has_ordinary_chunks(segments[j]),
    ensures
        linked(segments, i, j) <==> share_time(segments[i], segments[j]),
{
    let a = segments[i];
    let b = segments[j];
    if linked(segments, i, j) {
        let (id, x, y) = choose|id: u64, x: (i64, i64), y: (i64, i64)|
            #![trigger holds(segments[i], id, x), holds(segments[j], id, y)]
            holds(segments[i], id, x) && holds(segments[j], id, y) && ranges_meet(x, y);
        let (s, c) = choose|s: int, c: int|
            #![trigger a.chunks_by_series@[s].chunks@[c]]
            0 <= s < a.chunks_by_series@.len() && 0 <= c < a.chunks_by_series@[s].chunks@.len()
                && a.chunks_by_series@[s].series_id == id
                && a.chunks_by_series@[s].chunks@[c].point_count > 0
                && a.chunks_by_series@[s].chunks@[c].min_ts == x.0
                && a.chunks_by_series@[s].chunks@[c].max_ts == x.1;
        let (t, d) = choose|t: int, d: int|
            #![trigger b.chunks_by_series@[t].chunks@[d]]
            0 <= t < b.chunks_by_series@.len() && 0 <= d < b.chunks_by_series@[t].chunks@.len()
                && b.chunks_by_series@[t].series_id == id
                && b.chunks_by_series@[t].chunks@[d].point_count > 0
                && b.chunks_by_series@[t].chunks@[d].min_ts == y.0
                && b.chunks_by_series@[t].chunks@[d].max_ts == y.1;
        assert(chunks_meet(a.chunks_by_series@[s].chunks@[c], b.chunks_by_series@[t].chunks@[d]));
    }
    if share_time(a, b) {
        let (s, c, t, d) = choose|s: int, c: int, t: int, d: int|
            #![trigger a.chunks_by_series@[s].chunks@[c], b.chunks_by_series@[t].chunks@[d]]
            {
                &&& 0 <= s < a.chunks_by_series@.len()
                &&& 0 <= c < a.chunks_by_series@[s].chunks@.len()
                &&& 0 <= t < b.chunks_by_series@.len()
                &&& 0 <= d < b.chunks_by_series@[t].chunks@.len()
                &&& a.chunks_by_series@[s].series_id == b.chunks_by_series@[t].series_id
                &&& chunks_meet(
                    a.chunks_by_series@[s].chunks@[c],
                    b.chunks_by_series@[t].chunks@[d],
                )
            };
        let id = a.chunks_by_series@[s].series_id;
        let first = a.chunks_by_series@[s].chunks@[c];
        let second = b.chunks_by_series@[t].chunks@[d];
        let x = (first.min_ts, first.max_ts);
        let y = (second.min_ts, second.max_ts);
        assert(holds(segments[i], id, x));
        assert(holds(segments[j], id, y));
        assert(ranges_meet(x, y));
    }
}

/// What a pass decided, and the storage order it decided in.
proof fn lemma_decided(
    compactor: Compactor,
    source: CompactionLevel,
    segments: Vec<LoadedSegment>,
    next: CompactionStep,
) -> (found: (Seq<usize>, Option<Seq<usize>>))
    requires
        source != CompactionLevel::L2,
        segments@.len() >= 2,
        compactor.is_next_step(
            CompactionStep::LoadSegments { source },
            CompactionReply::SegmentsLoaded(Ok(segments)),
            next,
        ),
    ensures
        is_order(storage_keys(segments@), found.0),
        is_selection(
            arranged(segments@, found.0),
            due_at(compactor, source),
            compactor.source_window_segments,
            found.1,
        ),
        match found.1 {
            Some(indexes) if indexes.len() >= 2 => next@ == (StepView::MergeSegments {
                source_level: level_number(source),
                target_level: level_number(level_above(source)),
                sources: arranged(found.0, indexes),
            }),
            _ => next@ == after_level(source),
        },
{
    let sources = choose|sources: Option<Seq<usize>>|
        {
            &&& #[trigger] is_level_decision(
                segments@,
                compactor.trigger(source),
                compactor.source_window_segments,
                sources,
            )
            &&& match sources {
                Some(sources) => next@ == (StepView::MergeSegments {
                    source_level: level_number(source),
                    target_level: level_number(level_above(source)),
                    sources,
                }),
                None => next@ == after_level(source),
            }
        };
    choose|order: Seq<usize>, selection: Option<Seq<usize>>|
        {
            &&& #[trigger] is_order(storage_keys(segments@), order)
            &&& #[trigger] is_selection(
                arranged(segments@, order),
                compactor.trigger(source),
                compactor.source_window_segments,
                selection,
            )
            &&& sources == (match selection {
                Some(indexes) if indexes.len() >= 2 => Some(arranged(order, indexes)),
                _ => None,
            })
        }
}

/// Storage order is that of age.
proof fn lemma_order_is_age(segments: Seq<LoadedSegment>, order: Seq<usize>, p: int, q: int)
    requires
        is_order(storage_keys(segments), order),
        0 <= p < order.len(),
        0 <= q < order.len(),
    ensures
        p < q <==> is_older(segments, order[p] as int, order[q] as int),
        p == q <==> order[p] == order[q],
{
    let keys = storage_keys(segments);
    assert(keys[order[p] as int].0 == segments[order[p] as int].manifest.segment_id);
    assert(keys[order[q] as int].0 == segments[order[q] as int].manifest.segment_id);
    if p < q {
        assert(key_before(keys, order[p] as int, order[q] as int));
    }
    if q < p {
        assert(key_before(keys, order[q] as int, order[p] as int));
    }
}

/// Segments overlap in storage order as they do in the order they were loaded in.
proof fn lemma_same_overlap(segments: Seq<LoadedSegment>, order: Seq<usize>)
    requires
        is_order(storage_keys(segments), order),
        have_ordinary_chunks(segments),
    ensures
        forall|p: int|
            0 <= p < order.len() ==> (overlaps_another(arranged(segments, order), p)
                <==> is_crossed(segments, #[trigger] order[p] as int)),
        has_overlap(segments) <==> !is_overlap_window(arranged(segments, order), 2, None),
{
    let sorted = arranged(segments, order);
    let keys = storage_keys(segments);
    assert forall|p: int| 0 <= p < order.len() implies (overlaps_another(sorted, p) <==> is_crossed(
        segments,
        #[trigger] order[p] as int,
    )) by {
        let i = order[p] as int;
        assert(has_ordinary_chunks(segments[i]));
        if overlaps_another(sorted, p) {
            let q = choose|q: int|
                0 <= q < sorted.len() && q != p && #[trigger] linked(sorted, p, q);
            assert(has_ordinary_chunks(segments[order[q] as int]));
            lemma_linked_is_sharing(sorted, p, q);
            lemma_order_is_age(segments, order, p, q);
            assert(share_time(segments[i], segments[order[q] as int]));
        }
        if is_crossed(segments, i) {
            let j = choose|j: int|
                0 <= j < segments.len() && j != i && share_time(segments[i], #[trigger] segments[j]);
            lemma_order_covers(keys, order, j);
            let q = choose|q: int| 0 <= q < order.len() && #[trigger] order[q] == j;
            assert(has_ordinary_chunks(segments[j]));
            lemma_linked_is_sharing(sorted, p, q);
            assert(linked(sorted, p, q));
        }
    }
    if has_overlap(segments) {
        let i = choose|i: int| 0 <= i < segments.len() && #[trigger] is_crossed(segments, i);
        lemma_order_covers(keys, order, i);
        let p = choose|p: int| 0 <= p < order.len() && #[trigger] order[p] == i;
        assert(overlaps_another(sorted, p));
    }
    if !is_overlap_window(sorted, 2, None) {
        let p = choose|p: int| 0 <= p < sorted.len() && #[trigger] overlaps_another(sorted, p);
        assert(is_crossed(segments, order[p] as int));
    }
}

/// Segments are connected in storage order as they are in the order they were loaded in.
proof fn lemma_same_ways(segments: Seq<LoadedSegment>, order: Seq<usize>, p: int, q: int)
    requires
        is_order(storage_keys(segments), order),
        have_ordinary_chunks(segments),
        0 <= p < order.len(),
        0 <= q < order.len(),
    ensures
        connected(arranged(segments, order), p, q) <==> is_reached(
            segments,
            order[p] as int,
            order[q] as int,
        ),
{
    let sorted = arranged(segments, order);
    let keys = storage_keys(segments);
    if connected(sorted, p, q) {
        let path = choose|path: Seq<int>| #[trigger]
            is_chain(sorted, path) && path.first() == p && path.last() == q;
        let way = Seq::new(path.len(), |k: int| order[path[k]] as int);
        assert forall|k: int, l: int|
            #![trigger way[k], way[l]]
            0 <= k && l == k + 1 && l < way.len() implies share_time(
            segments[way[k]],
            segments[way[l]],
        ) by {
            assert(linked(sorted, path[k], path[l]));
            assert(has_ordinary_chunks(segments[order[path[k]] as int]));
            assert(has_ordinary_chunks(segments[order[path[l]] as int]));
            lemma_linked_is_sharing(sorted, path[k], path[l]);
        }
        assert(is_way(segments, way));
    }
    if is_reached(segments, order[p] as int, order[q] as int) {
        let way = choose|way: Seq<int>| #[trigger]
            is_way(segments, way) && way.first() == order[p] as int && way.last()
                == order[q] as int;
        let path = Seq::new(
            way.len(),
            |k: int| choose|r: int| 0 <= r < order.len() && #[trigger] order[r] == way[k],
        );
        assert forall|k: int| 0 <= k < way.len() implies 0 <= #[trigger] path[k] < order.len()
            && order[path[k]] == way[k] by {
            assert(0 <= way[k] < segments.len());
            lemma_order_covers(keys, order, way[k]);
            let r = choose|r: int| 0 <= r < order.len() && #[trigger] order[r] == way[k];
            assert(path[k] == r);
        }
        assert forall|k: int, l: int|
            #![trigger path[k], path[l]]
            0 <= k && l == k + 1 && l < path.len() implies linked(sorted, path[k], path[l]) by {
            assert(share_time(segments[way[k]], segments[way[l]]));
            assert(has_ordinary_chunks(segments[way[k]]));
            assert(has_ordinary_chunks(segments[way[l]]));
            lemma_linked_is_sharing(sorted, path[k], path[l]);
        }
        assert(is_chain(sorted, path));
        lemma_order_is_age(segments, order, path[0], p);
        lemma_order_is_age(segments, order, path.last(), q);
        assert(path.first() == p && path.last() == q);
    }
}

/// A level is merged exactly where two of its segments share a time, or where it has at least
/// two segments and as many as make a pass due: the level-0 trigger for level 0, the level-1
/// trigger for level 1.
pub proof fn law_level_is_merged_when_due(
    compactor: Compactor,
    source: CompactionLevel,
    segments: Vec<LoadedSegment>,
    next: CompactionStep,
)
    requires
        source != CompactionLevel::L2,
        have_ordinary_chunks(segments@),
        compactor.is_next_step(
            CompactionStep::LoadSegments { source },
            CompactionReply::SegmentsLoaded(Ok(segments)),
            next,
        ),
    ensures
        next@ is MergeSegments <==> has_overlap(segments@) || segments@.len() >= 2
            && segments@.len() >= due_at(compactor, source),
{
    if segments@.len() < 2 {
        if has_overlap(segments@) {
            let i = choose|i: int| 0 <= i < segments@.len() && #[trigger] is_crossed(segments@, i);
        }
    } else {
        let (order, selection) = lemma_decided(compactor, source, segments, next);
        let sorted = arranged(segments@, order);
        let limit = window_limit(compactor.source_window_segments);
        lemma_same_overlap(segments@, order);
        assert(is_overlap_window(sorted, limit, None) == is_overlap_window(sorted, 2, None));
        if has_overlap(segments@) {
            assert(segments@.len() <= usize::MAX) by {
                assert(segments.len() == segments@.len());
            }
            law_overlap_window_shape(sorted, limit, selection->Some_0);
        }
    }
}

/// Where no two segments share a time, a pass merges the oldest segments, oldest first: as many
/// as make it due, but at least two, and no more than one pass may merge or there are.
pub proof fn law_due_merge_takes_the_oldest(
    compactor: Compactor,
    source: CompactionLevel,
    segments: Vec<LoadedSegment>,
    next: CompactionStep,
)
    requires
        source != CompactionLevel::L2,
        have_ordinary_chunks(segments@),
        compactor.is_next_step(
            CompactionStep::LoadSegments { source },
            CompactionReply::SegmentsLoaded(Ok(segments)),
            next,
        ),
        next@ is MergeSegments,
        !has_overlap(segments@),
    ensures
        next@->sources.len() == lower(
            lower(
                at_least_two(due_at(compactor, source)),
                at_least_two(compactor.source_window_segments),
            ),
            segments@.len() as int,
        ),
        are_oldest_first(segments@, next@->sources),
        forall|i: int, k: int|
            #![trigger segments@[i], next@->sources[k]]
            0 <= i < segments@.len() && 0 <= k < next@->sources.len() && !next@->sources.contains(
                i as usize,
            ) ==> is_older(segments@, next@->sources[k] as int, i),
{
    let all = segments@;
    if all.len() >= 2 {
        let (order, selection) = lemma_decided(compactor, source, segments, next);
        let sorted = arranged(all, order);
        let sources = next@->sources;
        let keys = storage_keys(all);
        let limit = window_limit(compactor.source_window_segments);
        lemma_same_overlap(all, order);
        assert(is_overlap_window(sorted, limit, None) == is_overlap_window(sorted, 2, None));
        assert(all.len() <= usize::MAX) by {
            assert(segments.len() == segments@.len());
        }
        let indexes = selection->Some_0;
        assert forall|k: int| 0 <= k < indexes.len() implies #[trigger] indexes[k] == k by {}
        assert forall|k: int| 0 <= k < sources.len() implies #[trigger] sources[k] == order[k] by {
            assert(indexes[k] == k);
        }
        assert forall|k: int, l: int|
            #![trigger sources[k], sources[l]]
            0 <= k < l < sources.len() implies is_older(
            all,
            sources[k] as int,
            sources[l] as int,
        ) by {
            lemma_order_is_age(all, order, k, l);
        }
        assert forall|i: int, k: int|
            #![trigger segments@[i], sources[k]]
            0 <= i < all.len() && 0 <= k < sources.len() && !sources.contains(
                i as usize,
            ) implies is_older(all, sources[k] as int, i) by {
            lemma_order_covers(keys, order, i);
            let q = choose|q: int| 0 <= q < order.len() && #[trigger] order[q] == i;
            if q < sources.len() {
                assert(sources[q] == i as usize);
            }
            lemma_order_is_age(all, order, k, q);
        }
    }
}

/// Where segments share a time, a pass merges a group of them, oldest first: the oldest segment
/// that shares a time with another one, and whatever can be reached from it over segments that
/// share a time. At least two of the group are merged, and no more than one pass may merge: then
/// the oldest ones.
pub proof fn law_overlap_merge_takes_the_oldest_group(
    compactor: Compactor,
    source: CompactionLevel,
    segments: Vec<LoadedSegment>,
    next: CompactionStep,
)
    requires
        source != CompactionLevel::L2,
        have_ordinary_chunks(segments@),
        compactor.is_next_step(
            CompactionStep::LoadSegments { source },
            CompactionReply::SegmentsLoaded(Ok(segments)),
            next,
        ),
        has_overlap(segments@),
    ensures
        next@ is MergeSegments,
        2 <= next@->sources.len() <= at_least_two(compactor.source_window_segments),
        are_oldest_first(segments@, next@->sources),
        is_crossed(segments@, next@->sources[0] as int),
        forall|i: int|
            0 <= i < segments@.len() && #[trigger] is_crossed(segments@, i) ==> i
                == next@->sources[0] || is_older(segments@, next@->sources[0] as int, i),
        forall|k: int|
            0 <= k < next@->sources.len() ==> is_reached(
                segments@,
                next@->sources[0] as int,
                #[trigger] next@->sources[k] as int,
            ),
        forall|i: int|
            0 <= i < segments@.len() && #[trigger] is_reached(
                segments@,
                next@->sources[0] as int,
                i,
            ) && !next@->sources.contains(i as usize) ==> {
                &&& next@->sources.len() == at_least_two(compactor.source_window_segments)
                &&& is_older(segments@, next@->sources.last() as int, i)
            },
{
    broadcast use vstd::seq_lib::group_filter_ensures;

    let all = segments@;
    let crossed = choose|i: int| 0 <= i < all.len() && #[trigger] is_crossed(all, i);
    assert(all.len() >= 2);
    assert(all.len() <= usize::MAX) by {
        assert(segments.len() == segments@.len());
    }
    let (order, selection) = lemma_decided(compactor, source, segments, next);
    let sorted = arranged(all, order);
    let keys = storage_keys(all);
    let limit = window_limit(compactor.source_window_segments);
    lemma_same_overlap(all, order);
    assert(is_overlap_window(sorted, limit, None) == is_overlap_window(sorted, 2, None));
    let indexes = selection->Some_0;
    law_overlap_window_shape(sorted, limit, indexes);
    lemma_window_in_range(sorted, limit, indexes);
    let sources = next@->sources;
    let oldest = choose|oldest: int| #[trigger]
        is_oldest_overlap(sorted, oldest) && indexes == at_most(component(sorted, oldest), limit);
    let positions = Seq::new(sorted.len(), |k: int| k as usize);
    let inside = |k: usize| connected(sorted, oldest, k as int);
    let whole = component(sorted, oldest);
    assert(whole == positions.filter(inside));
    lemma_filter_ascends(positions, inside);
    lemma_connected_self(sorted, oldest);
    assert(inside(positions[oldest]));
    assert(whole.contains(positions[oldest]));
    let first = whole[0] as int;
    assert(first == oldest) by {
        assert(inside(whole[0]));
        lemma_filtered_from(positions, inside, 0);
        let at = whole.index_of(positions[oldest]);
        if first != oldest {
            assert(whole[0] < whole[at]);
            lemma_connected_symmetric(sorted, oldest, first);
            law_overlap_is_company(sorted, first);
            assert(connected(sorted, first, oldest));
            assert(overlaps_another(sorted, first));
        }
    }
    assert forall|k: int| 0 <= k < sources.len() implies #[trigger] sources[k]
        == order[indexes[k] as int] && indexes[k] == whole[k] && indexes[k] < order.len() by {}
    assert(sources[0] == order[oldest]);
    assert forall|k: int, l: int|
        #![trigger sources[k], sources[l]]
        0 <= k < l < sources.len() implies is_older(all, sources[k] as int, sources[l] as int) by {
        assert(indexes[k] < indexes[l]);
        lemma_order_is_age(all, order, indexes[k] as int, indexes[l] as int);
    }
    assert forall|i: int| 0 <= i < all.len() && #[trigger] is_crossed(all, i) implies i
        == sources[0] || is_older(all, sources[0] as int, i) by {
        lemma_order_covers(keys, order, i);
        let q = choose|q: int| 0 <= q < order.len() && #[trigger] order[q] == i;
        assert(overlaps_another(sorted, q));
        lemma_order_is_age(all, order, oldest, q);
    }
    assert forall|k: int| 0 <= k < sources.len() implies is_reached(
        all,
        sources[0] as int,
        #[trigger] sources[k] as int,
    ) by {
        assert(inside(whole[k]));
        lemma_same_ways(all, order, oldest, indexes[k] as int);
    }
    assert forall|i: int|
        0 <= i < all.len() && #[trigger] is_reached(all, sources[0] as int, i)
            && !sources.contains(i as usize) implies sources.len() == at_least_two(
        compactor.source_window_segments,
    ) && is_older(all, sources.last() as int, i) by {
        lemma_order_covers(keys, order, i);
        let q = choose|q: int| 0 <= q < order.len() && #[trigger] order[q] == i;
        lemma_same_ways(all, order, oldest, q);
        assert(inside(positions[q]));
        assert(whole.contains(positions[q]));
        let at = whole.index_of(positions[q]);
        if at < indexes.len() {
            assert(sources[at] == i as usize);
        }
        let last = indexes.len() - 1;
        assert(whole[last] < whole[at]);
        lemma_order_is_age(all, order, indexes[last] as int, q);
    }
}

/// A window holds the segments at the selected positions, one for one.
pub proof fn law_window_holds_the_selected_segments(
    segments: Seq<LoadedSegment>,
    indexes: Seq<usize>,
    k: int,
)
    requires
        0 <= k < indexes.len(),
    ensures
        picked(segments, indexes).len() == indexes.len(),
        picked(segments, indexes)[k] == segments[indexes[k] as int],
{
}

} // verus!
