//! Merging small segments of the final level.
use crate::compactor::planning::{CompactionLevel, level_to_u8, SegmentReading};
use crate::compactor::{no_stats, CompactionRunStats, Compactor};
use crate::error::TsinkError;
use crate::segment::SegmentManifest;
use crate::sorting::{
    arranged, lemma_same_rows, row_le, rows_ascend, sort_rows, SortRow,
};
use vstd::prelude::*;

verus! {

/// A final-level segment as seen by [`Compactor::compact_final_level_once`].
#[derive(Debug)]
pub struct FinalLevelSegment {
    pub root: String,
    pub manifest: SegmentManifest,
}

/// The number of the final level.
pub open spec fn final_level() -> u8 {
    2
}

/// The segment is small enough to be merged: it holds data, and less than half of what
/// fits into one output segment.
pub open spec fn is_small(segment: FinalLevelSegment, point_budget: usize) -> bool {
    segment.manifest.min_ts is Some && segment.manifest.max_ts is Some
        && segment.manifest.point_count < point_budget / 2
}

/// The window-aligned span that holds the segment's newest point.
pub open spec fn span_of(segment: FinalLevelSegment, window: i64) -> int {
    segment.manifest.max_ts->Some_0 as int / (if window < 1 {
        1int
    } else {
        window as int
    })
}

/// The small segment at `i` lies in the span.
pub open spec fn small_in_span(
    segments: Seq<FinalLevelSegment>,
    window: i64,
    point_budget: usize,
    span: int,
    i: int,
) -> bool {
    0 <= i < segments.len() && is_small(segments[i], point_budget) && span_of(segments[i], window)
        == span
}

/// The span holds at least two small segments.
pub open spec fn is_crowded(
    segments: Seq<FinalLevelSegment>,
    window: i64,
    point_budget: usize,
    span: int,
) -> bool {
    exists|i: int, j: int|
        #![trigger small_in_span(segments, window, point_budget, span, i), small_in_span(segments, window, point_budget, span, j)]
        i != j && small_in_span(segments, window, point_budget, span, i) && small_in_span(
            segments,
            window,
            point_budget,
            span,
            j,
        )
}

/// Position `i` comes before position `j`: older data first, then the lower id.
pub open spec fn merges_before(segments: Seq<FinalLevelSegment>, i: int, j: int) -> bool {
    let a = segments[i].manifest;
    let b = segments[j].manifest;
    if a.min_ts->Some_0 != b.min_ts->Some_0 {
        a.min_ts->Some_0 < b.min_ts->Some_0
    } else if a.segment_id != b.segment_id {
        a.segment_id < b.segment_id
    } else {
        i < j
    }
}

/// `list` holds the small segments of the span, oldest data first.
pub open spec fn is_span_list(
    segments: Seq<FinalLevelSegment>,
    window: i64,
    point_budget: usize,
    span: int,
    list: Seq<usize>,
) -> bool {
    &&& forall|k: int|
        0 <= k < list.len() ==> small_in_span(
            segments,
            window,
            point_budget,
            span,
            #[trigger] list[k] as int,
        )
    &&& forall|i: int|
        #[trigger] small_in_span(segments, window, point_budget, span, i) ==> list.contains(
            i as usize,
        )
    &&& forall|k: int, l: int|
        #![trigger list[k], list[l]]
        0 <= k < l < list.len() ==> merges_before(segments, list[k] as int, list[l] as int)
}

/// The points of the listed segments together.
pub open spec fn points_of(segments: Seq<FinalLevelSegment>, list: Seq<usize>) -> nat
    decreases list.len(),
{
    if list.len() == 0 {
        0
    } else {
        points_of(segments, list.drop_last()) + segments[list.last() as int].manifest.point_count
            as nat
    }
}

/// A group of `taken` sources is full.
pub open spec fn is_full(
    segments: Seq<FinalLevelSegment>,
    list: Seq<usize>,
    point_budget: usize,
    max_sources: usize,
    taken: int,
) -> bool {
    points_of(segments, list.take(taken)) >= point_budget || taken >= max_sources && taken >= 2
}

/// The group takes sources from the front of `list` until it is full or none is left.
pub open spec fn is_group_of(
    segments: Seq<FinalLevelSegment>,
    list: Seq<usize>,
    point_budget: usize,
    max_sources: usize,
    group: Seq<usize>,
) -> bool {
    &&& 1 <= group.len() <= list.len()
    &&& group == list.take(group.len() as int)
    &&& group.len() == list.len() || is_full(
        segments,
        list,
        point_budget,
        max_sources,
        group.len() as int,
    )
    &&& forall|k: int|
        1 <= k < group.len() ==> !#[trigger] is_full(
            segments,
            list,
            point_budget,
            max_sources,
            k,
        )
}

/// The next merge: none where no span is crowded; else the front of the earliest
/// crowded span.
pub open spec fn is_final_level_merge(
    segments: Seq<FinalLevelSegment>,
    window: i64,
    point_budget: usize,
    max_sources: usize,
    merge: Option<Seq<usize>>,
) -> bool {
    match merge {
        None => forall|span: int| !#[trigger] is_crowded(segments, window, point_budget, span),
        Some(group) => exists|span: int, list: Seq<usize>|
            {
                &&& is_crowded(segments, window, point_budget, span)
                &&& forall|other: int| #[trigger]
                    is_crowded(segments, window, point_budget, other) ==> span <= other
                &&& #[trigger] is_span_list(segments, window, point_budget, span, list)
                &&& is_group_of(segments, list, point_budget, max_sources, group)
            },
    }
}

/// The row of a small segment.
spec fn span_row(segments: Seq<FinalLevelSegment>, window: i64, i: int) -> SortRow {
    (
        span_of(segments[i], window) as i128,
        segments[i].manifest.min_ts->Some_0 as i128,
        segments[i].manifest.segment_id as i128,
        i as usize,
    )
}

/// The rows are those of the small segments among the first `upto`.
spec fn rows_are_small(
    rows: Seq<SortRow>,
    segments: Seq<FinalLevelSegment>,
    window: i64,
    point_budget: usize,
    upto: int,
) -> bool {
    &&& forall|r: int|
        0 <= r < rows.len() ==> (#[trigger] rows[r]).3 < upto && is_small(
            segments[rows[r].3 as int],
            point_budget,
        ) && rows[r] == span_row(segments, window, rows[r].3 as int)
    &&& forall|i: int|
        #![trigger segments[i]]
        0 <= i < upto && is_small(segments[i], point_budget) ==> rows.contains(
            span_row(segments, window, i),
        )
}

fn small_rows(segments: &Vec<FinalLevelSegment>, window: i64, point_budget: usize) -> (rows: Vec<
    SortRow,
>)
    ensures
        rows_are_small(rows@, segments@, window, point_budget, segments@.len() as int),
        rows_ascend(rows@),
        rows@.no_duplicates(),
        forall|i: int|
            #![trigger segments@[i]]
            0 <= i < segments@.len() && segments@[i].manifest.max_ts is Some ==> i64::MIN
                <= span_of(segments@[i], window) <= i64::MAX,
{
    let divisor: i64 = if window < 1 {
        1
    } else {
        window
    };
    let small_limit: usize = point_budget / 2;
    let mut rows: Vec<SortRow> = Vec::new();
    let mut index: usize = 0;
    while index < segments.len()
        invariant
            index <= segments@.len(),
            divisor == if window < 1 {
                1
            } else {
                window
            },
            divisor >= 1,
            small_limit == point_budget / 2,
            rows_are_small(rows@, segments@, window, point_budget, index as int),
            rows@.no_duplicates(),
            forall|i: int|
                #![trigger segments@[i]]
                0 <= i < index && segments@[i].manifest.max_ts is Some ==> i64::MIN <= span_of(
                    segments@[i],
                    window,
                ) <= i64::MAX,
        decreases segments@.len() - index,
    {
        let manifest = segments[index].manifest;
        let ghost before = rows@;
        if let Some(max_ts) = manifest.max_ts {
            proof {
                lemma_span_fits(max_ts, divisor);
            }
            if let Some(min_ts) = manifest.min_ts {
                if manifest.point_count < small_limit {
                    let span: i64 = match max_ts.checked_div_euclid(divisor) {
                        Some(span) => span,
                        None => 0,
                    };
                    let row: SortRow = (
                        span as i128,
                        min_ts as i128,
                        manifest.segment_id as i128,
                        index,
                    );
                    rows.push(row);
                    proof {
                        assert(row == span_row(segments@, window, index as int));
                        assert(rows@[rows@.len() - 1] == row);
                        assert forall|i: int|
                            #![trigger segments@[i]]
                            0 <= i < index + 1 && is_small(
                                segments@[i],
                                point_budget,
                            ) implies rows@.contains(span_row(segments@, window, i)) by {
                            if i < index {
                                let wanted = span_row(segments@, window, i);
                                let r = choose|r: int|
                                    0 <= r < before.len() && before[r] == wanted;
                                assert(rows@[r] == wanted);
                            }
                        }
                        assert forall|a: int, b: int|
                            0 <= a < rows@.len() && 0 <= b < rows@.len() && a
                                != b implies rows@[a] != rows@[b] by {
                            if a < before.len() && b < before.len() {
                                assert(before[a] != before[b]);
                            } else if a < before.len() {
                                assert(before[a].3 < index);
                            } else {
                                assert(before[b].3 < index);
                            }
                        }
                    }
                }
            }
        }
        proof {
            if !is_small(segments@[index as int], point_budget) {
                assert(rows@ == before);
            }
        }
        index = index + 1;
    }
    let ghost unsorted = rows@;
    sort_rows(&mut rows);
    proof {
        lemma_same_rows(rows@, unsorted);
        unsorted.lemma_multiset_has_no_duplicates();
        rows@.lemma_multiset_has_no_duplicates_conv();
        assert forall|r: int| 0 <= r < rows@.len() implies (#[trigger] rows@[r]).3 < segments@.len()
            && is_small(segments@[rows@[r].3 as int], point_budget) && rows@[r] == span_row(
            segments@,
            window,
            rows@[r].3 as int,
        ) by {
            assert(rows@.contains(rows@[r]));
            assert(unsorted.contains(rows@[r]));
        }
    }
    rows
}

proof fn lemma_span_fits(max_ts: i64, divisor: i64)
    requires
        divisor >= 1,
    ensures
        i64::MIN <= max_ts as int / divisor as int <= i64::MAX,
{
    let q = max_ts as int / divisor as int;
    let r = max_ts as int % divisor as int;
    let m = max_ts as int;
    let d = divisor as int;
    assert(m == d * q + r && 0 <= r < d) by {
        vstd::arithmetic::div_mod::lemma_fundamental_div_mod(m, d);
        vstd::arithmetic::div_mod::lemma_mod_bound(m, d);
    }
    assert(i64::MIN <= q) by (nonlinear_arith)
        requires
            m == d * q + r,
            0 <= r < d,
            d >= 1,
            i64::MIN <= m,
    ;
    assert(q <= i64::MAX) by (nonlinear_arith)
        requires
            m == d * q + r,
            0 <= r < d,
            d >= 1,
            m <= i64::MAX,
    ;
}

/// No two neighbours among the first `upto` rows share a span.
spec fn spans_differ(rows: Seq<SortRow>, upto: int) -> bool {
    forall|q: int, p: int|
        #![trigger rows[q], rows[p]]
        0 <= q && p == q + 1 && p < upto ==> rows[q].0 != rows[p].0
}

/// Two rows of the same span have two neighbours of that span between them.
proof fn lemma_crowded_rows(
    rows: Seq<SortRow>,
    segments: Seq<FinalLevelSegment>,
    window: i64,
    point_budget: usize,
    span: int,
) -> (at: int)
    requires
        segments.len() <= usize::MAX,
        rows_are_small(rows, segments, window, point_budget, segments.len() as int),
        rows_ascend(rows),
        rows.no_duplicates(),
        forall|i: int|
            #![trigger segments[i]]
            0 <= i < segments.len() && segments[i].manifest.max_ts is Some ==> i64::MIN <= span_of(
                segments[i],
                window,
            ) <= i64::MAX,
        is_crowded(segments, window, point_budget, span),
    ensures
        0 <= at < rows.len() - 1,
        rows[at].0 == span,
        rows[at + 1].0 == span,
{
    let (i, j) = choose|i: int, j: int|
        #![trigger small_in_span(segments, window, point_budget, span, i), small_in_span(segments, window, point_budget, span, j)]
        i != j && small_in_span(segments, window, point_budget, span, i) && small_in_span(
            segments,
            window,
            point_budget,
            span,
            j,
        );
    assert(is_small(segments[i], point_budget) && is_small(segments[j], point_budget));
    let a = choose|a: int| 0 <= a < rows.len() && rows[a] == span_row(segments, window, i);
    let b = choose|b: int| 0 <= b < rows.len() && rows[b] == span_row(segments, window, j);
    let low = if a < b {
        a
    } else {
        b
    };
    let high = if a < b {
        b
    } else {
        a
    };
    assert(rows[a].3 != rows[b].3);
    assert(row_le(rows[low], rows[low + 1]));
    assert(row_le(rows[low + 1], rows[high]));
    low
}

proof fn lemma_points_grow(segments: Seq<FinalLevelSegment>, list: Seq<usize>, taken: int)
    requires
        0 <= taken < list.len(),
    ensures
        points_of(segments, list.take(taken + 1)) == points_of(segments, list.take(taken))
            + segments[list[taken] as int].manifest.point_count,
{
    assert(list.take(taken + 1).drop_last() =~= list.take(taken));
    assert(list.take(taken + 1).last() == list[taken]);
}

/// The positions of the small segments that make up the next merge, or `None` when
/// every span holds at most one of them.
///
/// The earliest span with two or more small segments is taken, oldest data first, until
/// the group reaches the budget or the number of sources.
pub fn select_final_level_merge(
    segments: &Vec<FinalLevelSegment>,
    window: i64,
    point_budget: usize,
    max_sources: usize,
) -> (merge: Option<Vec<usize>>)
    ensures
        is_final_level_merge(
            segments@,
            window,
            point_budget,
            max_sources,
            crate::compactor::planning::listed(merge),
        ),
        merge matches Some(group) ==> forall|k: int|
            0 <= k < group@.len() ==> (#[trigger] group@[k]) < segments@.len(),
{
    let segment_count = segments.len();
    let rows = small_rows(segments, window, point_budget);
    let row_count = rows.len();
    if row_count == 0 {
        proof {
            assert forall|span: int| !#[trigger] is_crowded(
                segments@,
                window,
                point_budget,
                span,
            ) by {
                if is_crowded(segments@, window, point_budget, span) {
                    let at = lemma_crowded_rows(rows@, segments@, window, point_budget, span);
                }
            }
        }
        return None;
    }
    let mut start: usize = 0;
    while start + 1 < row_count && rows[start].0 != rows[start + 1].0
        invariant
            row_count == rows@.len(),
            start < row_count,
            spans_differ(rows@, start + 1),
        decreases rows@.len() - start,
    {
        proof {
            assert forall|q: int, p: int|
                #![trigger rows@[q], rows@[p]]
                0 <= q && p == q + 1 && p < start + 2 implies rows@[q].0 != rows@[p].0 by {
                if p == start + 1 {
                    assert(rows@[q].0 == rows@[start as int].0);
                }
            }
        }
        start = start + 1;
    }
    if start + 1 == row_count {
        proof {
            assert forall|span: int| !#[trigger] is_crowded(
                segments@,
                window,
                point_budget,
                span,
            ) by {
                if is_crowded(segments@, window, point_budget, span) {
                    let at = lemma_crowded_rows(rows@, segments@, window, point_budget, span);
                    assert(rows@[at].0 == rows@[at + 1].0);
                }
            }
        }
        return None;
    }
    let span = rows[start].0;
    let mut end: usize = start + 1;
    let ghost mut list: Seq<usize> = seq![rows@[start as int].3];
    while end < rows.len() && rows[end].0 == span
        invariant
            start < end <= rows@.len(),
            list.len() == end - start,
            forall|k: int| 0 <= k < list.len() ==> #[trigger] list[k] == rows@[start + k].3,
            forall|q: int| start <= q < end ==> (#[trigger] rows@[q]).0 == span,
        decreases rows@.len() - end,
    {
        proof {
            list = list.push(rows@[end as int].3);
        }
        end = end + 1;
    }
    proof {
        assert(rows@[start as int + 1].0 == span);
        assert(end >= start + 2);
        assert forall|k: int| 0 <= k < list.len() implies small_in_span(
            segments@,
            window,
            point_budget,
            span as int,
            #[trigger] list[k] as int,
        ) by {
            assert(rows@[start + k].0 == span);
        }
        assert(small_in_span(segments@, window, point_budget, span as int, list[0] as int));
        assert(small_in_span(segments@, window, point_budget, span as int, list[1] as int));
        assert(list[0] != list[1]) by {
            assert(rows@[start as int] != rows@[start + 1]);
        }
        assert(is_crowded(segments@, window, point_budget, span as int));
        assert forall|other: int| #[trigger]
            is_crowded(segments@, window, point_budget, other) implies span <= other by {
            let at = lemma_crowded_rows(rows@, segments@, window, point_budget, other);
            if at < start {
                assert(rows@[at].0 != rows@[at + 1].0);
            }
            assert(row_le(rows@[start as int], rows@[at]));
        }
        assert forall|i: int| #[trigger]
            small_in_span(segments@, window, point_budget, span as int, i) implies list.contains(
            i as usize,
        ) by {
            assert(is_small(segments@[i], point_budget));
            let r = choose|r: int|
                0 <= r < rows@.len() && rows@[r] == span_row(segments@, window, i);
            if r < start {
                assert(row_le(rows@[r], rows@[start - 1]));
                assert(row_le(rows@[start - 1], rows@[start as int]));
                assert(rows@[start - 1].0 != rows@[start as int].0);
            } else if r >= end {
                assert(row_le(rows@[end as int], rows@[r]));
                assert(row_le(rows@[end - 1], rows@[end as int]));
                assert(rows@[end - 1].0 == span);
            } else {
                assert(list[r - start] == i);
            }
        }
        assert forall|k: int, l: int|
            #![trigger list[k], list[l]]
            0 <= k < l < list.len() implies merges_before(
            segments@,
            list[k] as int,
            list[l] as int,
        ) by {
            assert(row_le(rows@[start + k], rows@[start + l]));
            assert(rows@[start + k].0 == span && rows@[start + l].0 == span);
            assert(rows@[start + k] != rows@[start + l]);
        }
        assert(is_span_list(segments@, window, point_budget, span as int, list));
    }
    let mut group: Vec<usize> = Vec::new();
    let mut points: usize = 0;
    let mut next: usize = start;
    let mut full = false;
    proof {
        assert(list.take(0) =~= Seq::<usize>::empty());
    }
    while next < end && !full
        invariant
            start <= next <= end <= rows@.len(),
            start + 2 <= end,
            list.len() == end - start,
            segment_count == segments@.len(),
            forall|k: int| 0 <= k < list.len() ==> #[trigger] list[k] == rows@[start + k].3,
            forall|k: int| 0 <= k < list.len() ==> (#[trigger] list[k]) < segments@.len(),
            group@ == list.take(next - start),
            points == if points_of(segments@, list.take(next - start)) <= usize::MAX {
                points_of(segments@, list.take(next - start)) as int
            } else {
                usize::MAX as int
            },
            next > start ==> full == is_full(
                segments@,
                list,
                point_budget,
                max_sources,
                next - start,
            ),
            next == start ==> !full,
            forall|k: int|
                1 <= k < next - start ==> !#[trigger] is_full(
                    segments@,
                    list,
                    point_budget,
                    max_sources,
                    k,
                ),
        decreases end - next,
    {
        let index = rows[next].3;
        assert(index == list[next - start]);
        group.push(index);
        proof {
            lemma_points_grow(segments@, list, next - start);
            assert(group@ =~= list.take(next - start + 1));
        }
        points = points.saturating_add(segments[index].manifest.point_count);
        full = points >= point_budget || (group.len() >= max_sources && group.len() >= 2);
        next = next + 1;
    }
    proof {
        assert(is_group_of(segments@, list, point_budget, max_sources, group@));
    }
    Some(group)
}

/// What a chosen group is: at least two different segments of one span, all of them
/// small, and no more points than one output segment fewer than it has sources can
/// hold. So merging a group of `n` sources writes at most `n - 1` segments.
pub proof fn law_group_writes_fewer_segments(
    segments: Seq<FinalLevelSegment>,
    window: i64,
    point_budget: usize,
    max_sources: usize,
    group: Seq<usize>,
)
    requires
        segments.len() <= usize::MAX,
        is_final_level_merge(segments, window, point_budget, max_sources, Some(group)),
    ensures
        group.len() >= 2,
        group.no_duplicates(),
        group.len() <= max_sources || group.len() == 2,
        forall|k: int|
            0 <= k < group.len() ==> is_small(
                segments[(#[trigger] group[k]) as int],
                point_budget,
            ) && span_of(segments[group[k] as int], window) == span_of(
                segments[group[0] as int],
                window,
            ),
        points_of(segments, group) <= (group.len() - 1) * point_budget,
{
    let (span, list) = choose|span: int, list: Seq<usize>|
        {
            &&& is_crowded(segments, window, point_budget, span)
            &&& forall|other: int| #[trigger]
                is_crowded(segments, window, point_budget, other) ==> span <= other
            &&& #[trigger] is_span_list(segments, window, point_budget, span, list)
            &&& is_group_of(segments, list, point_budget, max_sources, group)
        };
    let n = group.len() as int;
    let (i, j) = choose|i: int, j: int|
        #![trigger small_in_span(segments, window, point_budget, span, i), small_in_span(segments, window, point_budget, span, j)]
        i != j && small_in_span(segments, window, point_budget, span, i) && small_in_span(
            segments,
            window,
            point_budget,
            span,
            j,
        );
    assert(list.contains(i as usize) && list.contains(j as usize));
    let a = choose|a: int| 0 <= a < list.len() && list[a] == i as usize;
    let b = choose|b: int| 0 <= b < list.len() && list[b] == j as usize;
    assert(list.len() >= 2);
    assert forall|k: int| 0 <= k < list.len() implies is_small(
        segments[(#[trigger] list[k]) as int],
        point_budget,
    ) && span_of(segments[list[k] as int], window) == span by {
        assert(small_in_span(segments, window, point_budget, span, list[k] as int));
    }
    assert(list.take(0) =~= Seq::<usize>::empty());
    lemma_points_grow(segments, list, 0);
    assert(!is_full(segments, list, point_budget, max_sources, 1));
    assert(n >= 2);
    assert(group.no_duplicates()) by {
        assert forall|k: int, l: int|
            0 <= k < group.len() && 0 <= l < group.len() && k != l implies group[k] != group[l] by {
            if k < l {
                assert(merges_before(segments, list[k] as int, list[l] as int));
            } else {
                assert(merges_before(segments, list[l] as int, list[k] as int));
            }
        }
    }
    if n > 2 {
        assert(!is_full(segments, list, point_budget, max_sources, n - 1));
    }
    lemma_points_grow(segments, list, n - 1);
    assert(points_of(segments, list.take(n - 1)) < point_budget) by {
        assert(!is_full(segments, list, point_budget, max_sources, n - 1));
    }
    let half = (point_budget / 2) as int;
    assert(segments[list[n - 1] as int].manifest.point_count < half);
    assert(points_of(segments, group) < point_budget + half);
    if n == 2 {
        assert(segments[list[0] as int].manifest.point_count < half);
        assert(points_of(segments, group) <= point_budget);
    } else {
        assert((n - 1) * point_budget >= 2 * point_budget) by (nonlinear_arith)
            requires
                n >= 3,
        ;
    }
    assert((2 - 1) * point_budget == point_budget);
    assert forall|k: int| 0 <= k < group.len() implies is_small(
        segments[(#[trigger] group[k]) as int],
        point_budget,
    ) && span_of(segments[group[k] as int], window) == span_of(
        segments[group[0] as int],
        window,
    ) by {
        assert(group[k] == list[k]);
        assert(group[0] == list[0]);
    }
}

/// The directory holds a final-level segment.
pub open spec fn is_final_reading(reading: SegmentReading) -> bool {
    reading.manifest matches Ok(manifest) && manifest.level == final_level()
}

/// A segment as the scan reports it: its root and its manifest.
pub open spec fn segment_view(segment: FinalLevelSegment) -> (Seq<char>, SegmentManifest) {
    (segment.root@, segment.manifest)
}

/// The final-level segments among the readings.
pub open spec fn final_segments(readings: Seq<SegmentReading>) -> Seq<
    (Seq<char>, SegmentManifest),
> {
    readings.filter(|reading: SegmentReading| is_final_reading(reading)).map_values(
        |reading: SegmentReading| (reading.root@, reading.manifest->Ok_0),
    )
}

/// The highest segment id among readings that all succeeded.
pub open spec fn is_highest_id(readings: Seq<SegmentReading>, highest: Option<u64>) -> bool {
    match highest {
        None => readings.len() == 0,
        Some(id) => {
            &&& exists|i: int|
                0 <= i < readings.len() && (#[trigger] readings[i]).manifest->Ok_0.segment_id == id
            &&& forall|i: int|
                0 <= i < readings.len() ==> (#[trigger] readings[i]).manifest->Ok_0.segment_id
                    <= id
        },
    }
}

/// How a scan ends: with the first reading that failed, else with the final-level
/// segments and the highest id at any level.
pub open spec fn is_scan(
    readings: Seq<SegmentReading>,
    outcome: Result<(Vec<FinalLevelSegment>, Option<u64>), TsinkError>,
) -> bool {
    match outcome {
        Ok((segments, highest)) => {
            &&& forall|i: int|
                0 <= i < readings.len() ==> (#[trigger] readings[i]).manifest is Ok
            &&& segments@.map_values(|segment: FinalLevelSegment| segment_view(segment))
                == final_segments(readings)
            &&& is_highest_id(readings, highest)
        },
        Err(error) => exists|i: int|
            {
                &&& 0 <= i < readings.len()
                &&& (#[trigger] readings[i]).manifest is Err
                &&& readings[i].manifest->Err_0@ == error@
                &&& forall|k: int|
                    0 <= k < i ==> (#[trigger] readings[k]).manifest is Ok
            },
    }
}

/// A merge that has been carried out: which segments it took, what it did, and the
/// segments it wrote.
#[derive(Debug)]
pub struct FinalLevelMerge {
    pub group: Vec<usize>,
    pub stats: CompactionRunStats,
    pub outputs: Vec<FinalLevelSegment>,
}

/// The positions that are not in `group`, in order.
pub open spec fn positions_outside(len: nat, group: Seq<usize>) -> Seq<usize> {
    Seq::new(len, |k: int| k as usize).filter(|k: usize| !group.contains(k))
}

/// The segments after a merge: those outside the group, then what the merge wrote.
pub open spec fn after_merge(
    segments: Seq<FinalLevelSegment>,
    group: Seq<usize>,
    outputs: Seq<FinalLevelSegment>,
) -> Seq<FinalLevelSegment> {
    arranged(segments, positions_outside(segments.len(), group)) + outputs
}

fn contains_position(group: &Vec<usize>, position: usize) -> (found: bool)
    ensures
        found == group@.contains(position),
{
    let mut at: usize = 0;
    while at < group.len()
        invariant
            at <= group@.len(),
            forall|k: int| 0 <= k < at ==> group@[k] != position,
        decreases group@.len() - at,
    {
        if group[at] == position {
            return true;
        }
        at = at + 1;
    }
    false
}

/// The items outside the group, in order.
fn keep_outside<T>(items: Vec<T>, group: &Vec<usize>) -> (kept: Vec<T>)
    ensures
        kept@ == arranged(items@, positions_outside(items@.len(), group@)),
{
    let ghost given = items@;
    let count = items.len();
    let mut items = items;
    let mut stack: Vec<T> = Vec::new();
    while items.len() > 0
        invariant
            items@.len() + stack@.len() == given.len(),
            items@ == given.take(items@.len() as int),
            forall|i: int|
                0 <= i < stack@.len() ==> #[trigger] stack@[i] == given[given.len() - 1 - i],
        decreases items@.len(),
    {
        let ghost before = items@;
        if let Some(item) = items.pop() {
            stack.push(item);
        }
        proof {
            assert(items@ =~= given.take(items@.len() as int));
        }
    }
    let ghost all = Seq::new(given.len(), |k: int| k as usize);
    let ghost outside = |k: usize| !group@.contains(k);
    let mut kept: Vec<T> = Vec::new();
    let mut index: usize = 0;
    proof {
        reveal(Seq::filter);
        assert(all.take(0) =~= Seq::<usize>::empty());
        assert(kept@ =~= arranged(given, all.take(0).filter(outside)));
    }
    while index < count
        invariant
            index <= count,
            count == given.len(),
            stack@.len() == count - index,
            forall|i: int|
                0 <= i < stack@.len() ==> #[trigger] stack@[i] == given[given.len() - 1 - i],
            all == Seq::new(given.len(), |k: int| k as usize),
            outside == (|k: usize| !group@.contains(k)),
            kept@ == arranged(given, all.take(index as int).filter(outside)),
        decreases count - index,
    {
        proof {
            reveal(Seq::filter);
            assert(all.take(index + 1).drop_last() =~= all.take(index as int));
            assert(all.take(index + 1).last() == index);
        }
        let ghost top = stack@.last();
        if let Some(item) = stack.pop() {
            assert(item == given[index as int]);
            if !contains_position(group, index) {
                kept.push(item);
                proof {
                    assert(kept@ =~= arranged(
                        given,
                        all.take(index + 1).filter(outside),
                    ));
                }
            }
        }
        index = index + 1;
    }
    proof {
        assert(all.take(count as int) =~= all);
    }
    kept
}

impl Compactor {
    /// Points that fit into one output segment.
    pub open spec fn point_budget(&self) -> int {
        let product = self.point_cap * self.output_segment_chunk_multiplier;
        let capped = if product <= usize::MAX {
            product
        } else {
            usize::MAX as int
        };
        if capped < self.point_cap {
            self.point_cap as int
        } else {
            capped
        }
    }

    /// Points that fit into one output segment.
    pub fn output_segment_point_budget(&self) -> (budget: usize)
        ensures
            budget == self.point_budget(),
    {
        let capped: usize = match self.point_cap.checked_mul(
            self.output_segment_chunk_multiplier,
        ) {
            Some(product) => product,
            None => usize::MAX,
        };
        if capped < self.point_cap {
            self.point_cap
        } else {
            capped
        }
    }

    /// Lists the final-level segments and the highest segment id at any level, from one
    /// reading of each segment manifest.
    pub fn scan_final_level_segments(&self, readings: Vec<SegmentReading>) -> (outcome: Result<
        (Vec<FinalLevelSegment>, Option<u64>),
        TsinkError,
    >)
        ensures
            is_scan(readings@, outcome),
    {
        let ghost all = readings@;
        let ghost wanted = |reading: SegmentReading| is_final_reading(reading);
        let ghost pair = |reading: SegmentReading| (reading.root@, reading.manifest->Ok_0);
        let ghost viewed = |segment: FinalLevelSegment| segment_view(segment);
        let level = level_to_u8(CompactionLevel::L2);
        let count = readings.len();
        let mut queue = readings;
        let mut stack: Vec<SegmentReading> = Vec::new();
        while queue.len() > 0
            invariant
                queue@.len() + stack@.len() == all.len(),
                queue@ == all.take(queue@.len() as int),
                forall|i: int|
                    0 <= i < stack@.len() ==> #[trigger] stack@[i] == all[all.len() - 1 - i],
            decreases queue@.len(),
        {
            if let Some(reading) = queue.pop() {
                stack.push(reading);
            }
            proof {
                assert(queue@ =~= all.take(queue@.len() as int));
            }
        }
        let mut segments: Vec<FinalLevelSegment> = Vec::new();
        let mut highest: Option<u64> = None;
        let mut at: usize = 0;
        proof {
            reveal(Seq::filter);
            assert(all.take(0) =~= Seq::<SegmentReading>::empty());
            assert(segments@.map_values(viewed) =~= final_segments(all.take(0)));
        }
        while at < count
            invariant
                at <= count,
                count == all.len(),
                all == readings@,
                level == final_level(),
                stack@.len() == count - at,
                forall|i: int|
                    0 <= i < stack@.len() ==> #[trigger] stack@[i] == all[all.len() - 1 - i],
                viewed == (|segment: FinalLevelSegment| segment_view(segment)),
                wanted == (|reading: SegmentReading| is_final_reading(reading)),
                pair == (|reading: SegmentReading| (reading.root@, reading.manifest->Ok_0)),
                forall|i: int| 0 <= i < at ==> (#[trigger] all[i]).manifest is Ok,
                segments@.map_values(viewed) == all.take(at as int).filter(wanted).map_values(
                    pair,
                ),
                is_highest_id(all.take(at as int), highest),
            decreases count - at,
        {
            proof {
                reveal(Seq::filter);
                assert(all.take(at + 1).drop_last() =~= all.take(at as int));
                assert(all.take(at + 1).last() == all[at as int]);
            }
            let ghost before = segments@;
            let ghost previous = highest;
            if let Some(reading) = stack.pop() {
                assert(reading == all[at as int]);
                let SegmentReading { root, level_dir, manifest } = reading;
                match manifest {
                    Err(error) => {
                        return Err(error);
                    },
                    Ok(manifest) => {
                        highest = match highest {
                            None => Some(manifest.segment_id),
                            Some(id) => if id < manifest.segment_id {
                                Some(manifest.segment_id)
                            } else {
                                Some(id)
                            },
                        };
                        if manifest.level == level {
                            segments.push(FinalLevelSegment { root, manifest });
                            proof {
                                assert(segments@.map_values(viewed) =~= before.map_values(
                                    viewed,
                                ).push((root@, manifest)));
                                assert(all.take(at + 1).filter(wanted).map_values(pair)
                                    =~= all.take(at as int).filter(wanted).map_values(pair).push(
                                    (root@, manifest),
                                ));
                            }
                        }
                        proof {
                            let longer = all.take(at + 1);
                            let shorter = all.take(at as int);
                            assert(longer[at as int] == all[at as int]);
                            assert forall|i: int| 0 <= i < longer.len() implies (
                            #[trigger] longer[i]).manifest->Ok_0.segment_id <= highest->Some_0 by {
                                if i < at {
                                    assert(shorter[i] == longer[i]);
                                }
                            }
                            if previous is Some && highest == previous {
                                let i = choose|i: int|
                                    0 <= i < shorter.len() && (
                                    #[trigger] shorter[i]).manifest->Ok_0.segment_id
                                        == previous->Some_0;
                                assert(longer[i] == shorter[i]);
                            }
                        }
                    },
                }
            }
            at = at + 1;
        }
        proof {
            assert(all.take(count as int) =~= all);
        }
        Ok((segments, highest))
    }

    /// The next group of small segments to merge.
    pub fn next_final_level_merge(
        &self,
        segments: &Vec<FinalLevelSegment>,
        window: i64,
    ) -> (merge: Option<Vec<usize>>)
        ensures
            is_final_level_merge(
                segments@,
                window,
                self.point_budget() as usize,
                self.source_window_segments,
                crate::compactor::planning::listed(merge),
            ),
            merge matches Some(group) ==> forall|k: int|
                0 <= k < group@.len() ==> (#[trigger] group@[k]) < segments@.len(),
    {
        select_final_level_merge(
            segments,
            window,
            self.output_segment_point_budget(),
            self.source_window_segments,
        )
    }

    /// Merges one group of small final-level (L2) segments, which regular compaction never
    /// touches, and updates `segments` to match. Without a group to merge nothing changes.
    ///
    /// Segments are grouped by the `window`-aligned span (in timestamp units) that holds
    /// their newest point, so merged data still expires together. A segment is small below
    /// half of the output segment point budget; each group takes the small segments of the
    /// earliest window holding at least two of them, oldest data first, until it reaches the
    /// budget or the source window size. A group of `n` sources therefore writes at most
    /// `n - 1` segments, and calling this until it reports no compaction terminates.
    pub fn compact_final_level_once(
        &self,
        segments: &mut Vec<FinalLevelSegment>,
        merge: Option<FinalLevelMerge>,
    ) -> (stats: CompactionRunStats)
        ensures
            match merge {
                None => final(segments)@ == old(segments)@ && stats == no_stats(),
                Some(merge) => {
                    &&& final(segments)@ == after_merge(
                        old(segments)@,
                        merge.group@,
                        merge.outputs@,
                    )
                    &&& stats == (CompactionRunStats {
                        source_level: Some(final_level()),
                        target_level: Some(final_level()),
                        ..merge.stats
                    })
                },
            },
    {
        match merge {
            None => CompactionRunStats::default(),
            Some(merge) => {
                let mut taken: Vec<FinalLevelSegment> = Vec::new();
                core::mem::swap(&mut taken, segments);
                let mut kept = keep_outside(taken, &merge.group);
                let mut outputs = merge.outputs;
                kept.append(&mut outputs);
                core::mem::swap(&mut kept, segments);
                let level = level_to_u8(CompactionLevel::L2);
                CompactionRunStats {
                    source_level: Some(level),
                    target_level: Some(level),
                    ..merge.stats
                }
            },
        }
    }
}

/// A filter and its opposite together keep everything.
proof fn lemma_filter_splits<T>(items: Seq<T>, keep: spec_fn(T) -> bool)
    ensures
        items.filter(keep).len() + items.filter(|item: T| !keep(item)).len() == items.len(),
    decreases items.len(),
{
    reveal(Seq::filter);
    if items.len() > 0 {
        lemma_filter_splits(items.drop_last(), keep);
    }
}

/// Of a list without repetitions, at most as many items satisfy a condition as there
/// are different items that could.
proof fn lemma_members_within(group: Seq<usize>, len: nat)
    requires
        len <= usize::MAX,
        group.no_duplicates(),
        forall|k: int| 0 <= k < group.len() ==> (#[trigger] group[k]) < len,
    ensures
        Seq::new(len, |k: int| k as usize).filter(|k: usize| group.contains(k)).len()
            == group.len(),
{
    let all = Seq::new(len, |k: int| k as usize);
    let inside = |k: usize| group.contains(k);
    let kept = all.filter(inside);
    assert(all.no_duplicates());
    lemma_filter_distinct(all, inside);
    assert forall|p: usize| kept.contains(p) <==> group.contains(p) by {
        if kept.contains(p) {
            let k = choose|k: int| 0 <= k < kept.len() && kept[k] == p;
            broadcast use vstd::seq_lib::group_filter_ensures;

            assert(inside(kept[k]));
        }
        if group.contains(p) {
            let k = choose|k: int| 0 <= k < group.len() && group[k] == p;
            assert(all[p as int] == p);
            assert(inside(all[p as int]));
            broadcast use vstd::seq_lib::group_filter_ensures;

            assert(kept.contains(all[p as int]));
        }
    }
    kept.unique_seq_to_set();
    group.unique_seq_to_set();
    assert(kept.to_set() =~= group.to_set());
}

proof fn lemma_filter_distinct<T>(items: Seq<T>, keep: spec_fn(T) -> bool)
    requires
        items.no_duplicates(),
    ensures
        items.filter(keep).no_duplicates(),
    decreases items.len(),
{
    reveal(Seq::filter);
    if items.len() > 0 {
        let front = items.drop_last();
        lemma_filter_distinct(front, keep);
        if keep(items.last()) {
            let kept = front.filter(keep);
            assert(!kept.contains(items.last())) by {
                if kept.contains(items.last()) {
                    let k = choose|k: int| 0 <= k < kept.len() && kept[k] == items.last();
                    crate::compactor::overlap::lemma_filtered_from(front, keep, k);
                    let at = choose|at: int| 0 <= at < front.len() && front[at] == items.last();
                    assert(items[at] == items[items.len() - 1]);
                }
            }
        }
    }
}

/// The segment is one of those outside the group.
pub open spec fn lies_outside(
    segments: Seq<FinalLevelSegment>,
    group: Seq<usize>,
    segment: FinalLevelSegment,
) -> bool {
    exists|i: int|
        0 <= i < segments.len() && !group.contains(i as usize) && #[trigger] segments[i] == segment
}

/// A merge replaces exactly its sources: the list loses one entry per source and gains
/// one per output. Every other segment stays, everything that stays was there outside the
/// group, and the outputs follow.
pub proof fn law_merge_replaces_its_sources(
    segments: Seq<FinalLevelSegment>,
    group: Seq<usize>,
    outputs: Seq<FinalLevelSegment>,
)
    requires
        segments.len() <= usize::MAX,
        group.no_duplicates(),
        forall|k: int| 0 <= k < group.len() ==> (#[trigger] group[k]) < segments.len(),
    ensures
        after_merge(segments, group, outputs).len() == segments.len() - group.len()
            + outputs.len(),
        forall|i: int|
            0 <= i < segments.len() && !group.contains(i as usize) ==> after_merge(
                segments,
                group,
                outputs,
            ).contains(#[trigger] segments[i]),
        forall|k: int|
            0 <= k < segments.len() - group.len() ==> lies_outside(
                segments,
                group,
                #[trigger] after_merge(segments, group, outputs)[k],
            ),
        after_merge(segments, group, outputs).skip(segments.len() - group.len()) == outputs,
{
    let all = Seq::new(segments.len(), |k: int| k as usize);
    let inside = |k: usize| group.contains(k);
    let outside = |k: usize| !group.contains(k);
    let kept = positions_outside(segments.len(), group);
    let after = after_merge(segments, group, outputs);
    lemma_members_within(group, segments.len());
    lemma_filter_splits(all, inside);
    assert((|k: usize| !inside(k)) =~= outside);
    assert(kept == all.filter(outside));
    assert forall|i: int|
        0 <= i < segments.len() && !group.contains(i as usize) implies after.contains(
        #[trigger] segments[i],
    ) by {
        assert(all[i] == i as usize && outside(all[i]));
        assert(kept.contains(all[i])) by {
            broadcast use vstd::seq_lib::group_filter_ensures;

        }
        let k = kept.index_of(all[i]);
        assert(after[k] == segments[i]);
    }
    assert forall|k: int| 0 <= k < segments.len() - group.len() implies lies_outside(
        segments,
        group,
        #[trigger] after[k],
    ) by {
        crate::compactor::overlap::lemma_filtered_from(all, outside, k);
        let i = choose|i: int| 0 <= i < all.len() && all[i] == kept[k];
        assert(outside(kept[k]));
        assert(segments[i] == after[k]);
    }
    assert(after.skip(segments.len() - group.len()) =~= outputs);
}

/// Merging terminates: as long as a merge writes no more segments than its points need,
/// every merge leaves fewer segments than it found.
pub proof fn law_merging_terminates(
    segments: Seq<FinalLevelSegment>,
    window: i64,
    point_budget: usize,
    max_sources: usize,
    group: Seq<usize>,
    outputs: Seq<FinalLevelSegment>,
)
    requires
        segments.len() <= usize::MAX,
        is_final_level_merge(segments, window, point_budget, max_sources, Some(group)),
        (outputs.len() - 1) * point_budget < points_of(segments, group) || outputs.len() == 0,
    ensures
        after_merge(segments, group, outputs).len() < segments.len(),
{
    law_group_writes_fewer_segments(segments, window, point_budget, max_sources, group);
    let (span, list) = choose|span: int, list: Seq<usize>|
        {
            &&& is_crowded(segments, window, point_budget, span)
            &&& forall|other: int| #[trigger]
                is_crowded(segments, window, point_budget, other) ==> span <= other
            &&& #[trigger] is_span_list(segments, window, point_budget, span, list)
            &&& is_group_of(segments, list, point_budget, max_sources, group)
        };
    assert forall|k: int| 0 <= k < group.len() implies (#[trigger] group[k]) < segments.len() by {
        assert(small_in_span(segments, window, point_budget, span, list[k] as int));
    }
    law_merge_replaces_its_sources(segments, group, outputs);
    let n = group.len() as int;
    let m = outputs.len() as int;
    if m > 0 {
        assert(m - 1 < n - 1) by (nonlinear_arith)
            requires
                (m - 1) * point_budget < (n - 1) * point_budget,
                point_budget >= 0,
        ;
    }
}

proof fn lemma_one_span_list(
    segments: Seq<FinalLevelSegment>,
    a: Seq<usize>,
    b: Seq<usize>,
)
    requires
        forall|x: usize| #[trigger] a.contains(x) <==> b.contains(x),
        forall|k: int, l: int|
            #![trigger a[k], a[l]]
            0 <= k < l < a.len() ==> merges_before(segments, a[k] as int, a[l] as int),
        forall|k: int, l: int|
            #![trigger b[k], b[l]]
            0 <= k < l < b.len() ==> merges_before(segments, b[k] as int, b[l] as int),
    ensures
        a == b,
    decreases a.len(),
{
    if a.len() == 0 {
        if b.len() > 0 {
            assert(b.contains(b[0]));
            assert(a.contains(b[0]));
        }
        assert(a =~= b);
    } else if b.len() == 0 {
        assert(a.contains(a[0]));
        assert(b.contains(a[0]));
    } else {
        let x = a.last();
        let y = b.last();
        assert(a[a.len() - 1] == x && b[b.len() - 1] == y);
        assert(a.contains(x) && b.contains(y));
        assert(b.contains(x));
        assert(a.contains(y));
        let i = b.index_of(x);
        let j = a.index_of(y);
        assert(b[i] == x && a[j] == y);
        assert(x == y);
        let p = a.drop_last();
        let q = b.drop_last();
        assert forall|z: usize| #[trigger] p.contains(z) <==> q.contains(z) by {
            if p.contains(z) {
                let k = p.index_of(z);
                assert(a[k] == z);
                assert(a.contains(z));
                assert(b.contains(z));
                let m = b.index_of(z);
                assert(b[m] == z);
                assert(merges_before(segments, a[k] as int, a[a.len() - 1] as int));
                assert(q[m] == z);
            }
            if q.contains(z) {
                let k = q.index_of(z);
                assert(b[k] == z);
                assert(b.contains(z));
                assert(a.contains(z));
                let m = a.index_of(z);
                assert(a[m] == z);
                assert(merges_before(segments, b[k] as int, b[b.len() - 1] as int));
                assert(p[m] == z);
            }
        }
        lemma_one_span_list(segments, p, q);
        assert(a =~= p.push(x));
        assert(b =~= q.push(y));
    }
}

/// The next merge is pinned down: there is one answer.
pub proof fn law_final_level_merge_is_unique(
    segments: Seq<FinalLevelSegment>,
    window: i64,
    point_budget: usize,
    max_sources: usize,
    a: Option<Seq<usize>>,
    b: Option<Seq<usize>>,
)
    requires
        segments.len() <= usize::MAX,
        is_final_level_merge(segments, window, point_budget, max_sources, a),
        is_final_level_merge(segments, window, point_budget, max_sources, b),
    ensures
        a == b,
{
    if a is Some && b is Some {
        let (s, x) = choose|span: int, list: Seq<usize>|
            {
                &&& is_crowded(segments, window, point_budget, span)
                &&& forall|other: int| #[trigger]
                    is_crowded(segments, window, point_budget, other) ==> span <= other
                &&& #[trigger] is_span_list(segments, window, point_budget, span, list)
                &&& is_group_of(segments, list, point_budget, max_sources, a->Some_0)
            };
        let (t, y) = choose|span: int, list: Seq<usize>|
            {
                &&& is_crowded(segments, window, point_budget, span)
                &&& forall|other: int| #[trigger]
                    is_crowded(segments, window, point_budget, other) ==> span <= other
                &&& #[trigger] is_span_list(segments, window, point_budget, span, list)
                &&& is_group_of(segments, list, point_budget, max_sources, b->Some_0)
            };
        assert(s == t);
        assert forall|z: usize| #[trigger] x.contains(z) <==> y.contains(z) by {
            if x.contains(z) {
                assert(x[x.index_of(z)] == z);
                assert(small_in_span(segments, window, point_budget, s, z as int));
            }
            if y.contains(z) {
                assert(y[y.index_of(z)] == z);
                assert(small_in_span(segments, window, point_budget, s, z as int));
            }
        }
        lemma_one_span_list(segments, x, y);
        let m = a->Some_0.len() as int;
        let n = b->Some_0.len() as int;
        if m < n {
            assert(is_full(segments, x, point_budget, max_sources, m));
        } else if n < m {
            assert(is_full(segments, x, point_budget, max_sources, n));
        }
    }
}

} // verus!
