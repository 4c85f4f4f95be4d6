//! Segments that hold overlapping chunks of the same series.
use crate::compactor::groups::SegmentGroups;
use crate::segment::{LoadedSegment, SeriesChunks};
use crate::sorting::{lemma_same_rows, row_le, rows_ascend, sort_rows, SortRow};
use vstd::prelude::*;

verus! {

/// The segment holds a non-empty chunk of the series between these timestamps.
pub open spec fn holds(segment: LoadedSegment, series_id: u64, range: (i64, i64)) -> bool {
    exists|s: int, c: int|
        #![trigger segment.chunks_by_series@[s].chunks@[c]]
        0 <= s < segment.chunks_by_series@.len() && 0 <= c
            < segment.chunks_by_series@[s].chunks@.len() && segment.chunks_by_series@[s].series_id
            == series_id && segment.chunks_by_series@[s].chunks@[c].point_count > 0
            && segment.chunks_by_series@[s].chunks@[c].min_ts == range.0
            && segment.chunks_by_series@[s].chunks@[c].max_ts == range.1
}

/// Range `a` comes first in chunk order.
pub open spec fn starts_first(a: (i64, i64), b: (i64, i64)) -> bool {
    a.0 < b.0 || a.0 == b.0 && a.1 <= b.1
}

/// The range that starts later starts no later than the other one ends.
pub open spec fn ranges_meet(a: (i64, i64), b: (i64, i64)) -> bool {
    if starts_first(a, b) {
        b.0 <= a.1
    } else {
        a.0 <= b.1
    }
}

/// Two segments share a series whose chunks meet in time.
pub open spec fn linked(segments: Seq<LoadedSegment>, i: int, j: int) -> bool {
    exists|series_id: u64, a: (i64, i64), b: (i64, i64)|
        #![trigger holds(segments[i], series_id, a), holds(segments[j], series_id, b)]
        holds(segments[i], series_id, a) && holds(segments[j], series_id, b) && ranges_meet(a, b)
}

/// A path through the segments along which neighbours are linked.
pub open spec fn is_chain(segments: Seq<LoadedSegment>, path: Seq<int>) -> bool {
    &&& path.len() > 0
    &&& forall|k: int| 0 <= k < path.len() ==> 0 <= #[trigger] path[k] < segments.len()
    &&& forall|k: int, l: int|
        #![trigger path[k], path[l]]
        0 <= k && l == k + 1 && l < path.len() ==> linked(segments, path[k], path[l])
}

/// Some chain leads from one segment to the other.
pub open spec fn connected(segments: Seq<LoadedSegment>, i: int, j: int) -> bool {
    exists|path: Seq<int>| #[trigger]
        is_chain(segments, path) && path.first() == i && path.last() == j
}

/// The segment is linked to some other segment.
pub open spec fn overlaps_another(segments: Seq<LoadedSegment>, i: int) -> bool {
    exists|j: int| 0 <= j < segments.len() && j != i && #[trigger] linked(segments, i, j)
}

/// The first segment in storage order that overlaps another one.
pub open spec fn is_oldest_overlap(segments: Seq<LoadedSegment>, i: int) -> bool {
    &&& 0 <= i < segments.len()
    &&& overlaps_another(segments, i)
    &&& forall|k: int| 0 <= k < i ==> !#[trigger] overlaps_another(segments, k)
}

/// The positions connected to `start`, in storage order.
pub open spec fn component(segments: Seq<LoadedSegment>, start: int) -> Seq<usize> {
    Seq::new(segments.len(), |k: int| k as usize).filter(
        |k: usize| connected(segments, start, k as int),
    )
}

/// The first `limit` items of `items`.
pub open spec fn at_most<T>(items: Seq<T>, limit: usize) -> Seq<T> {
    if items.len() <= limit {
        items
    } else {
        items.take(limit as int)
    }
}

/// What a window of overlapping segments is: there is none when no segment overlaps
/// another; else it is the start of the group of the oldest one that does.
pub open spec fn is_overlap_window(
    segments: Seq<LoadedSegment>,
    max_segments: usize,
    window: Option<Seq<usize>>,
) -> bool {
    match window {
        None => forall|i: int| 0 <= i < segments.len() ==> !#[trigger] overlaps_another(
            segments,
            i,
        ),
        Some(indexes) => exists|oldest: int| #[trigger]
            is_oldest_overlap(segments, oldest) && indexes == at_most(
                component(segments, oldest),
                max_segments,
            ),
    }
}

/// Two chunk ranges of ordinary shape meet exactly when they overlap.
pub proof fn law_meeting_is_overlapping(a: (i64, i64), b: (i64, i64))
    requires
        a.0 <= a.1,
        b.0 <= b.1,
    ensures
        ranges_meet(a, b) <==> a.0 <= b.1 && b.0 <= a.1,
{
}

pub proof fn lemma_linked_symmetric(segments: Seq<LoadedSegment>, i: int, j: int)
    requires
        linked(segments, i, j),
    ensures
        linked(segments, j, i),
{
    let (series_id, a, b) = choose|series_id: u64, a: (i64, i64), b: (i64, i64)|
        #![trigger holds(segments[i], series_id, a), holds(segments[j], series_id, b)]
        holds(segments[i], series_id, a) && holds(segments[j], series_id, b) && ranges_meet(a, b);
    assert(ranges_meet(b, a));
    assert(holds(segments[j], series_id, b) && holds(segments[i], series_id, a));
}

pub proof fn lemma_connected_self(segments: Seq<LoadedSegment>, i: int)
    requires
        0 <= i < segments.len(),
    ensures
        connected(segments, i, i),
{
    assert(is_chain(segments, seq![i]));
    assert(seq![i].first() == i && seq![i].last() == i);
}

proof fn lemma_connected_link(segments: Seq<LoadedSegment>, i: int, j: int)
    requires
        0 <= i < segments.len(),
        0 <= j < segments.len(),
        linked(segments, i, j),
    ensures
        connected(segments, i, j),
{
    let path = seq![i, j];
    assert(is_chain(segments, path));
    assert(path.first() == i && path.last() == j);
}

pub proof fn lemma_connected_symmetric(segments: Seq<LoadedSegment>, i: int, j: int)
    requires
        connected(segments, i, j),
    ensures
        connected(segments, j, i),
{
    let path = choose|path: Seq<int>| #[trigger]
        is_chain(segments, path) && path.first() == i && path.last() == j;
    let back = path.reverse();
    assert forall|k: int| 0 <= k < back.len() implies 0 <= #[trigger] back[k] < segments.len() by {
        assert(back[k] == path[path.len() - 1 - k]);
    }
    assert forall|k: int, l: int|
        #![trigger back[k], back[l]]
        0 <= k && l == k + 1 && l < back.len() implies linked(segments, back[k], back[l]) by {
        let p = path.len() - 1 - l;
        assert(back[k] == path[p + 1] && back[l] == path[p]);
        assert(linked(segments, path[p], path[p + 1]));
        lemma_linked_symmetric(segments, path[p], path[p + 1]);
    }
    assert(is_chain(segments, back));
    assert(back.first() == j && back.last() == i);
}

proof fn lemma_connected_transitive(segments: Seq<LoadedSegment>, i: int, j: int, k: int)
    requires
        connected(segments, i, j),
        connected(segments, j, k),
    ensures
        connected(segments, i, k),
{
    let first = choose|path: Seq<int>| #[trigger]
        is_chain(segments, path) && path.first() == i && path.last() == j;
    let second = choose|path: Seq<int>| #[trigger]
        is_chain(segments, path) && path.first() == j && path.last() == k;
    let path = first + second.drop_first();
    assert forall|m: int| 0 <= m < path.len() implies 0 <= #[trigger] path[m] < segments.len() by {
        if m < first.len() {
            assert(path[m] == first[m]);
        } else {
            assert(path[m] == second[m - first.len() + 1]);
        }
    }
    assert forall|m: int, l: int|
        #![trigger path[m], path[l]]
        0 <= m && l == m + 1 && l < path.len() implies linked(segments, path[m], path[l]) by {
        if l < first.len() {
            assert(path[m] == first[m] && path[l] == first[l]);
        } else {
            let q = l - first.len() + 1;
            assert(path[l] == second[q]);
            assert(path[m] == second[q - 1]) by {
                if m == first.len() - 1 {
                    assert(first.last() == second[0]);
                } else {
                    assert(path[m] == second[m - first.len() + 1]);
                }
            }
            assert(linked(segments, second[q - 1], second[q]));
        }
    }
    assert(is_chain(segments, path));
    assert(path.last() == k) by {
        if second.len() == 1 {
            assert(path =~= first);
        } else {
            assert(path.last() == second.last());
        }
    }
    assert(path.first() == i);
}

/// The row says that its segment holds a chunk of its series in its range.
spec fn is_chunk_row(segment: LoadedSegment, row: SortRow) -> bool {
    &&& 0 <= row.0 <= u64::MAX
    &&& i64::MIN <= row.1 <= i64::MAX
    &&& i64::MIN <= row.2 <= i64::MAX
    &&& holds(segment, row.0 as u64, (row.1 as i64, row.2 as i64))
}

/// The row of one chunk.
spec fn chunk_row(segment: LoadedSegment, s: int, c: int, index: usize) -> SortRow {
    (
        segment.chunks_by_series@[s].series_id as i128,
        segment.chunks_by_series@[s].chunks@[c].min_ts as i128,
        segment.chunks_by_series@[s].chunks@[c].max_ts as i128,
        index,
    )
}

/// The rows hold the chunks of the first `upto` series of the segment.
spec fn rows_cover(
    rows: Seq<SortRow>,
    segment: LoadedSegment,
    index: usize,
    upto: int,
) -> bool {
    forall|s: int, c: int|
        #![trigger segment.chunks_by_series@[s].chunks@[c]]
        0 <= s < upto && 0 <= c < segment.chunks_by_series@[s].chunks@.len()
            && segment.chunks_by_series@[s].chunks@[c].point_count > 0 ==> rows.contains(
            chunk_row(segment, s, c, index),
        )
}

fn push_series_rows(
    rows: &mut Vec<SortRow>,
    segment: &LoadedSegment,
    s: usize,
    index: usize,
)
    requires
        s < segment.chunks_by_series@.len(),
    ensures
        final(rows)@.len() >= old(rows)@.len(),
        final(rows)@.take(old(rows)@.len() as int) == old(rows)@,
        forall|r: int|
            #![trigger final(rows)@[r]]
            old(rows)@.len() <= r < final(rows)@.len() ==> is_chunk_row(*segment, final(rows)@[r])
                && final(rows)@[r].3 == index,
        forall|c: int|
            #![trigger segment.chunks_by_series@[s as int].chunks@[c]]
            0 <= c < segment.chunks_by_series@[s as int].chunks@.len()
                && segment.chunks_by_series@[s as int].chunks@[c].point_count > 0 ==> final(rows)@.contains(chunk_row(*segment, s as int, c, index)),
{
    let series: &SeriesChunks = &segment.chunks_by_series[s];
    let ghost before = rows@;
    let mut c: usize = 0;
    proof {
        assert(rows@.take(before.len() as int) =~= before);
    }
    while c < series.chunks.len()
        invariant
            s < segment.chunks_by_series@.len(),
            series == segment.chunks_by_series@[s as int],
            c <= series.chunks@.len(),
            rows@.len() >= before.len(),
            rows@.take(before.len() as int) == before,
            forall|r: int|
                #![trigger rows@[r]]
                before.len() <= r < rows@.len() ==> is_chunk_row(*segment, rows@[r]) && rows@[r].3
                    == index,
            forall|d: int|
                #![trigger segment.chunks_by_series@[s as int].chunks@[d]]
                0 <= d < c && segment.chunks_by_series@[s as int].chunks@[d].point_count > 0
                    ==> rows@.contains(chunk_row(*segment, s as int, d, index)),
        decreases series.chunks@.len() - c,
    {
        let header = series.chunks[c];
        if header.point_count > 0 {
            let ghost previous = rows@;
            let row: SortRow = (
                series.series_id as i128,
                header.min_ts as i128,
                header.max_ts as i128,
                index,
            );
            rows.push(row);
            proof {
                assert(rows@.take(before.len() as int) =~= before);
                assert(segment.chunks_by_series@[s as int].chunks@[c as int] == header);
                assert(is_chunk_row(*segment, row));
                assert(rows@[rows@.len() - 1] == row);
                assert forall|d: int|
                    #![trigger segment.chunks_by_series@[s as int].chunks@[d]]
                    0 <= d < c + 1 && segment.chunks_by_series@[s as int].chunks@[d].point_count
                        > 0 implies rows@.contains(chunk_row(*segment, s as int, d, index)) by {
                    let wanted = chunk_row(*segment, s as int, d, index);
                    if d < c {
                        let r = choose|r: int| 0 <= r < previous.len() && previous[r] == wanted;
                        assert(rows@[r] == wanted);
                    } else {
                        assert(rows@[rows@.len() - 1] == wanted);
                    }
                }
            }
        }
        c = c + 1;
    }
}

proof fn lemma_contains_kept(before: Seq<SortRow>, after: Seq<SortRow>, row: SortRow)
    requires
        after.len() >= before.len(),
        after.take(before.len() as int) == before,
        before.contains(row),
    ensures
        after.contains(row),
{
    let r = choose|r: int| 0 <= r < before.len() && before[r] == row;
    assert(after.take(before.len() as int)[r] == after[r]);
}

fn push_segment_rows(rows: &mut Vec<SortRow>, segment: &LoadedSegment, index: usize)
    ensures
        final(rows)@.len() >= old(rows)@.len(),
        final(rows)@.take(old(rows)@.len() as int) == old(rows)@,
        forall|r: int|
            #![trigger final(rows)@[r]]
            old(rows)@.len() <= r < final(rows)@.len() ==> is_chunk_row(*segment, final(rows)@[r])
                && final(rows)@[r].3 == index,
        rows_cover(final(rows)@, *segment, index, segment.chunks_by_series@.len() as int),
{
    let ghost before = rows@;
    let mut s: usize = 0;
    proof {
        assert(rows@.take(before.len() as int) =~= before);
    }
    while s < segment.chunks_by_series.len()
        invariant
            s <= segment.chunks_by_series@.len(),
            rows@.len() >= before.len(),
            rows@.take(before.len() as int) == before,
            forall|r: int|
                #![trigger rows@[r]]
                before.len() <= r < rows@.len() ==> is_chunk_row(*segment, rows@[r]) && rows@[r].3
                    == index,
            rows_cover(rows@, *segment, index, s as int),
        decreases segment.chunks_by_series@.len() - s,
    {
        let ghost previous = rows@;
        push_series_rows(rows, segment, s, index);
        proof {
            assert(rows@.take(before.len() as int) =~= before) by {
                assert(previous.take(before.len() as int) =~= rows@.take(
                    previous.len() as int,
                ).take(before.len() as int));
                assert(rows@.take(previous.len() as int).take(before.len() as int) =~= rows@.take(
                    before.len() as int,
                ));
            }
            assert forall|r: int|
                #![trigger rows@[r]]
                before.len() <= r < rows@.len() implies is_chunk_row(*segment, rows@[r])
                && rows@[r].3 == index by {
                if r < previous.len() {
                    assert(rows@.take(previous.len() as int)[r] == rows@[r]);
                    assert(previous[r] == rows@[r]);
                }
            }
            assert forall|t: int, c: int|
                #![trigger segment.chunks_by_series@[t].chunks@[c]]
                0 <= t < s + 1 && 0 <= c < segment.chunks_by_series@[t].chunks@.len()
                    && segment.chunks_by_series@[t].chunks@[c].point_count
                    > 0 implies rows@.contains(chunk_row(*segment, t, c, index)) by {
                if t < s {
                    lemma_contains_kept(previous, rows@, chunk_row(*segment, t, c, index));
                }
            }
        }
        s = s + 1;
    }
}

/// The rows are the non-empty chunks of the first `upto` segments.
spec fn rows_describe(rows: Seq<SortRow>, segments: Seq<LoadedSegment>, upto: int) -> bool {
    &&& forall|r: int|
        #![trigger rows[r]]
        0 <= r < rows.len() ==> rows[r].3 < upto && is_chunk_row(segments[rows[r].3 as int], rows[r])
    &&& forall|i: int|
        #![trigger segments[i]]
        0 <= i < upto ==> rows_cover(
            rows,
            segments[i],
            i as usize,
            segments[i].chunks_by_series@.len() as int,
        )
}

fn chunk_rows(segments: &[LoadedSegment]) -> (rows: Vec<SortRow>)
    ensures
        rows_describe(rows@, segments@, segments@.len() as int),
        rows_ascend(rows@),
{
    let mut rows: Vec<SortRow> = Vec::new();
    let mut index: usize = 0;
    while index < segments.len()
        invariant
            index <= segments@.len(),
            rows_describe(rows@, segments@, index as int),
        decreases segments@.len() - index,
    {
        let ghost previous = rows@;
        push_segment_rows(&mut rows, &segments[index], index);
        proof {
            assert forall|r: int|
                #![trigger rows@[r]]
                0 <= r < rows@.len() implies rows@[r].3 < index + 1 && is_chunk_row(
                segments@[rows@[r].3 as int],
                rows@[r],
            ) by {
                if r < previous.len() {
                    assert(rows@.take(previous.len() as int)[r] == rows@[r]);
                    assert(previous[r] == rows@[r]);
                }
            }
            assert forall|i: int|
                #![trigger segments@[i]]
                0 <= i < index + 1 implies rows_cover(
                rows@,
                segments@[i],
                i as usize,
                segments@[i].chunks_by_series@.len() as int,
            ) by {
                if i < index {
                    assert forall|t: int, c: int|
                        #![trigger segments@[i].chunks_by_series@[t].chunks@[c]]
                        0 <= t < segments@[i].chunks_by_series@.len() && 0 <= c
                            < segments@[i].chunks_by_series@[t].chunks@.len()
                            && segments@[i].chunks_by_series@[t].chunks@[c].point_count
                            > 0 implies rows@.contains(
                        chunk_row(segments@[i], t, c, i as usize),
                    ) by {
                        lemma_contains_kept(
                            previous,
                            rows@,
                            chunk_row(segments@[i], t, c, i as usize),
                        );
                    }
                }
            }
        }
        index = index + 1;
    }
    let ghost unsorted = rows@;
    sort_rows(&mut rows);
    proof {
        lemma_same_rows(rows@, unsorted);
        assert forall|r: int|
            #![trigger rows@[r]]
            0 <= r < rows@.len() implies rows@[r].3 < segments@.len() && is_chunk_row(
            segments@[rows@[r].3 as int],
            rows@[r],
        ) by {
            assert(rows@.contains(rows@[r]));
            assert(unsorted.contains(rows@[r]));
        }
    }
    rows
}

/// Every pair of rows before `upto` that meets in time is grouped together.
spec fn grouped_upto(rows: Seq<SortRow>, groups: SegmentGroups, upto: int) -> bool {
    forall|q: int, p: int|
        #![trigger rows[q], rows[p]]
        0 <= q < p < upto && rows[q].0 == rows[p].0 && rows[p].1 <= rows[q].2 ==> groups.root_of(
            rows[q].3 as int,
        ) == groups.root_of(rows[p].3 as int)
}

/// Only connected segments are grouped together.
spec fn groups_sound(segments: Seq<LoadedSegment>, groups: SegmentGroups) -> bool {
    forall|i: int, j: int|
        #![trigger groups.root_of(i), groups.root_of(j)]
        0 <= i < segments.len() && 0 <= j < segments.len() && groups.root_of(i) == groups.root_of(
            j,
        ) ==> connected(segments, i, j)
}

/// Two sorted rows of one series that meet link their segments.
proof fn lemma_rows_link(segments: Seq<LoadedSegment>, first: SortRow, second: SortRow)
    requires
        first.3 < segments.len(),
        second.3 < segments.len(),
        is_chunk_row(segments[first.3 as int], first),
        is_chunk_row(segments[second.3 as int], second),
        row_le(first, second),
        first.0 == second.0,
        second.1 <= first.2,
    ensures
        linked(segments, first.3 as int, second.3 as int),
{
    let a = (first.1 as i64, first.2 as i64);
    let b = (second.1 as i64, second.2 as i64);
    assert(starts_first(a, b));
    assert(holds(segments[first.3 as int], first.0 as u64, a));
    assert(holds(segments[second.3 as int], first.0 as u64, b));
}

/// Joining the groups of two connected segments keeps groups sound.
proof fn lemma_join_sound(
    segments: Seq<LoadedSegment>,
    before: SegmentGroups,
    after: SegmentGroups,
    left: int,
    right: int,
)
    requires
        groups_sound(segments, before),
        0 <= left < segments.len(),
        0 <= right < segments.len(),
        connected(segments, left, right),
        forall|i: int, j: int|
            #![trigger after.root_of(i), after.root_of(j)]
            0 <= i < segments.len() && 0 <= j < segments.len() && after.root_of(i)
                == after.root_of(j) ==> {
                ||| before.root_of(i) == before.root_of(j)
                ||| before.root_of(i) == before.root_of(left) && before.root_of(j)
                    == before.root_of(right)
                ||| before.root_of(i) == before.root_of(right) && before.root_of(j)
                    == before.root_of(left)
            },
    ensures
        groups_sound(segments, after),
{
    lemma_connected_symmetric(segments, left, right);
    assert forall|i: int, j: int|
        #![trigger after.root_of(i), after.root_of(j)]
        0 <= i < segments.len() && 0 <= j < segments.len() && after.root_of(i) == after.root_of(
            j,
        ) implies connected(segments, i, j) by {
        if before.root_of(i) == before.root_of(j) {
        } else if before.root_of(i) == before.root_of(left) && before.root_of(j)
            == before.root_of(right) {
            lemma_connected_transitive(segments, i, left, right);
            assert(connected(segments, right, j));
            lemma_connected_transitive(segments, i, right, j);
        } else {
            lemma_connected_transitive(segments, i, right, left);
            assert(connected(segments, left, j));
            lemma_connected_transitive(segments, i, left, j);
        }
    }
}

/// Groups the segments by overlap: one sweep over the sorted chunk rows, joining each
/// row that starts within the running cluster of its series.
fn group_overlaps(segments: &[LoadedSegment], rows: &Vec<SortRow>) -> (groups: SegmentGroups)
    requires
        rows_describe(rows@, segments@, segments@.len() as int),
        rows_ascend(rows@),
    ensures
        groups.wf(),
        groups.count() == segments@.len(),
        grouped_upto(rows@, groups, rows@.len() as int),
        groups_sound(segments@, groups),
{
    let mut groups = SegmentGroups::new(segments.len());
    proof {
        assert forall|i: int, j: int|
            #![trigger groups.root_of(i), groups.root_of(j)]
            0 <= i < segments@.len() && 0 <= j < segments@.len() && groups.root_of(i)
                == groups.root_of(j) implies connected(segments@, i, j) by {
            lemma_connected_self(segments@, i);
        }
    }
    // The running cluster: its first row and the latest end it has reached.
    let mut cluster: Option<(usize, i128)> = None;
    let ghost mut furthest: int = 0;
    let mut at: usize = 0;
    while at < rows.len()
        invariant
            at <= rows@.len(),
            rows_describe(rows@, segments@, segments@.len() as int),
            rows_ascend(rows@),
            groups.wf(),
            groups.count() == segments@.len(),
            grouped_upto(rows@, groups, at as int),
            groups_sound(segments@, groups),
            at > 0 ==> cluster is Some,
            cluster matches Some(running) ==> {
                &&& running.0 < at
                &&& running.0 <= furthest < at
                &&& rows@[furthest].2 == running.1
                &&& forall|q: int|
                    #![trigger rows@[q]]
                    running.0 <= q < at ==> rows@[q].0 == rows@[running.0 as int].0 && rows@[q].2
                        <= running.1 && groups.root_of(rows@[q].3 as int) == groups.root_of(
                        rows@[running.0 as int].3 as int,
                    )
                &&& forall|q: int|
                    #![trigger rows@[q]]
                    0 <= q < running.0 && rows@[q].0 == rows@[running.0 as int].0 ==> rows@[q].2
                        < rows@[running.0 as int].1
            },
        decreases rows@.len() - at,
    {
        let row = rows[at];
        let ghost before = groups;
        let mut joined = false;
        if let Some((first, latest)) = cluster {
            let head = rows[first];
            if head.0 == row.0 && row.1 <= latest {
                groups.join(head.3, row.3);
                let reached = if latest < row.2 {
                    row.2
                } else {
                    latest
                };
                cluster = Some((first, reached));
                joined = true;
                proof {
                    let link = rows@[furthest];
                    assert(row_le(link, row));
                    lemma_rows_link(segments@, link, row);
                    lemma_connected_link(segments@, link.3 as int, row.3 as int);
                    assert(before.root_of(link.3 as int) == before.root_of(head.3 as int));
                    assert(connected(segments@, head.3 as int, link.3 as int));
                    lemma_connected_transitive(
                        segments@,
                        head.3 as int,
                        link.3 as int,
                        row.3 as int,
                    );
                    lemma_join_sound(segments@, before, groups, head.3 as int, row.3 as int);
                    if latest < row.2 {
                        furthest = at as int;
                    }
                    assert forall|q: int|
                        #![trigger rows@[q]]
                        first <= q < at + 1 implies rows@[q].0 == rows@[first as int].0
                        && rows@[q].2 <= reached && groups.root_of(rows@[q].3 as int)
                        == groups.root_of(rows@[first as int].3 as int) by {
                        if q < at {
                            assert(before.root_of(rows@[q].3 as int) == before.root_of(
                                head.3 as int,
                            ));
                        }
                    }
                    assert forall|q: int, p: int|
                        #![trigger rows@[q], rows@[p]]
                        0 <= q < p < at + 1 && rows@[q].0 == rows@[p].0 && rows@[p].1
                            <= rows@[q].2 implies groups.root_of(rows@[q].3 as int)
                        == groups.root_of(rows@[p].3 as int) by {
                        if p < at {
                            assert(before.root_of(rows@[q].3 as int) == before.root_of(
                                rows@[p].3 as int,
                            ));
                        } else if q < first {
                            assert(row_le(rows@[first as int], rows@[at as int]));
                        }
                    }
                }
            }
        }
        if !joined {
            proof {
                assert forall|q: int|
                    #![trigger rows@[q]]
                    0 <= q < at && rows@[q].0 == row.0 implies rows@[q].2 < row.1 by {
                    let running = cluster->Some_0;
                    let head = rows@[running.0 as int];
                    assert(row_le(rows@[q], head) || q >= running.0);
                    assert(row_le(head, row));
                    if q < running.0 {
                        assert(row_le(rows@[q], head));
                        assert(head.0 == row.0);
                    }
                }
                furthest = at as int;
            }
            cluster = Some((at, row.2));
        }
        at = at + 1;
    }
    groups
}

/// All linked segments are in the same group.
proof fn lemma_linked_grouped(
    segments: Seq<LoadedSegment>,
    rows: Seq<SortRow>,
    groups: SegmentGroups,
    i: int,
    j: int,
)
    requires
        rows_describe(rows, segments, segments.len() as int),
        rows_ascend(rows),
        grouped_upto(rows, groups, rows.len() as int),
        segments.len() <= usize::MAX,
        0 <= i < segments.len(),
        0 <= j < segments.len(),
        linked(segments, i, j),
    ensures
        groups.root_of(i) == groups.root_of(j),
{
    let (series_id, a, b) = choose|series_id: u64, a: (i64, i64), b: (i64, i64)|
        #![trigger holds(segments[i], series_id, a), holds(segments[j], series_id, b)]
        holds(segments[i], series_id, a) && holds(segments[j], series_id, b) && ranges_meet(a, b);
    let p = lemma_row_of(segments, rows, i, series_id, a);
    let q = lemma_row_of(segments, rows, j, series_id, b);
    if p < q {
        assert(row_le(rows[p], rows[q]));
        assert(rows[q].1 <= rows[p].2);
    } else if q < p {
        assert(row_le(rows[q], rows[p]));
        assert(rows[p].1 <= rows[q].2);
    }
}

proof fn lemma_row_of(
    segments: Seq<LoadedSegment>,
    rows: Seq<SortRow>,
    i: int,
    series_id: u64,
    range: (i64, i64),
) -> (r: int)
    requires
        rows_describe(rows, segments, segments.len() as int),
        segments.len() <= usize::MAX,
        0 <= i < segments.len(),
        holds(segments[i], series_id, range),
    ensures
        0 <= r < rows.len(),
        rows[r] == (series_id as i128, range.0 as i128, range.1 as i128, i as usize),
{
    let segment = segments[i];
    let (s, c) = choose|s: int, c: int|
        #![trigger segment.chunks_by_series@[s].chunks@[c]]
        0 <= s < segment.chunks_by_series@.len() && 0 <= c
            < segment.chunks_by_series@[s].chunks@.len() && segment.chunks_by_series@[s].series_id
            == series_id && segment.chunks_by_series@[s].chunks@[c].point_count > 0
            && segment.chunks_by_series@[s].chunks@[c].min_ts == range.0
            && segment.chunks_by_series@[s].chunks@[c].max_ts == range.1;
    let row = chunk_row(segment, s, c, i as usize);
    assert(rows_cover(rows, segments[i], i as usize, segment.chunks_by_series@.len() as int));
    assert(rows.contains(row));
    choose|r: int| 0 <= r < rows.len() && rows[r] == row
}

/// Groups are exactly the connected segments.
proof fn lemma_groups_exact(
    segments: Seq<LoadedSegment>,
    rows: Seq<SortRow>,
    groups: SegmentGroups,
    i: int,
    j: int,
)
    requires
        rows_describe(rows, segments, segments.len() as int),
        rows_ascend(rows),
        grouped_upto(rows, groups, rows.len() as int),
        groups_sound(segments, groups),
        segments.len() <= usize::MAX,
        0 <= i < segments.len(),
        0 <= j < segments.len(),
    ensures
        groups.root_of(i) == groups.root_of(j) <==> connected(segments, i, j),
{
    if connected(segments, i, j) {
        let path = choose|path: Seq<int>| #[trigger]
            is_chain(segments, path) && path.first() == i && path.last() == j;
        lemma_chain_grouped(segments, rows, groups, path, path.len() - 1);
    }
}

proof fn lemma_chain_grouped(
    segments: Seq<LoadedSegment>,
    rows: Seq<SortRow>,
    groups: SegmentGroups,
    path: Seq<int>,
    at: int,
)
    requires
        rows_describe(rows, segments, segments.len() as int),
        rows_ascend(rows),
        grouped_upto(rows, groups, rows.len() as int),
        segments.len() <= usize::MAX,
        is_chain(segments, path),
        0 <= at < path.len(),
    ensures
        groups.root_of(path[at]) == groups.root_of(path[0]),
    decreases at,
{
    if at > 0 {
        lemma_chain_grouped(segments, rows, groups, path, at - 1);
        assert(linked(segments, path[at - 1], path[at]));
        lemma_linked_grouped(segments, rows, groups, path[at - 1], path[at]);
    }
}

/// A segment overlaps another one exactly when it is connected to another one.
pub proof fn law_overlap_is_company(segments: Seq<LoadedSegment>, i: int)
    requires
        0 <= i < segments.len(),
    ensures
        overlaps_another(segments, i) <==> exists|j: int|
            0 <= j < segments.len() && j != i && #[trigger] connected(segments, i, j),
{
    if overlaps_another(segments, i) {
        let j = choose|j: int|
            0 <= j < segments.len() && j != i && #[trigger] linked(segments, i, j);
        lemma_connected_link(segments, i, j);
    }
    if exists|j: int| 0 <= j < segments.len() && j != i && #[trigger] connected(segments, i, j) {
        let j = choose|j: int|
            0 <= j < segments.len() && j != i && #[trigger] connected(segments, i, j);
        let path = choose|path: Seq<int>| #[trigger]
            is_chain(segments, path) && path.first() == i && path.last() == j;
        lemma_chain_leaves(segments, path, path.len() - 1);
    }
}

proof fn lemma_chain_leaves(segments: Seq<LoadedSegment>, path: Seq<int>, at: int)
    requires
        is_chain(segments, path),
        0 <= at < path.len(),
        path[at] != path[0],
    ensures
        overlaps_another(segments, path[0]),
    decreases at,
{
    if path[at - 1] == path[0] {
        assert(linked(segments, path[at - 1], path[at]));
    } else {
        lemma_chain_leaves(segments, path, at - 1);
    }
}

/// The window of overlapping segments, if any.
///
/// Segments that share a series whose chunks overlap in time form groups; the window
/// is the group that holds the oldest such segment, limited to `max_segments` members
/// in storage order.
pub fn overlapping_series_window_indexes(
    segments: &[LoadedSegment],
    max_segments: usize,
) -> (window: Option<Vec<usize>>)
    ensures
        is_overlap_window(
            segments@,
            max_segments,
            match window {
                Some(indexes) => Some(indexes@),
                None => None,
            },
        ),
{
    let rows = chunk_rows(segments);
    let groups = group_overlaps(segments, &rows);
    let len = segments.len();
    let mut oldest: usize = 0;
    while oldest < len && groups.size_of(oldest) < 2
        invariant
            oldest <= len,
            len == segments@.len(),
            groups.wf(),
            groups.count() == len,
            rows_describe(rows@, segments@, segments@.len() as int),
            rows_ascend(rows@),
            grouped_upto(rows@, groups, rows@.len() as int),
            groups_sound(segments@, groups),
            forall|k: int| 0 <= k < oldest ==> !#[trigger] overlaps_another(segments@, k),
        decreases len - oldest,
    {
        proof {
            let members = groups.members(oldest as int);
            if overlaps_another(segments@, oldest as int) {
                let j = choose|j: int|
                    0 <= j < segments@.len() && j != oldest && #[trigger] linked(
                        segments@,
                        oldest as int,
                        j,
                    );
                lemma_linked_grouped(segments@, rows@, groups, oldest as int, j);
                assert(members.contains(oldest as int) && members.contains(j));
                assert(members.remove(j).contains(oldest as int));
                assert(members.remove(j).len() > 0);
            }
        }
        oldest = oldest + 1;
    }
    if oldest == len {
        return None;
    }
    proof {
        let members = groups.members(oldest as int);
        assert(members.contains(oldest as int));
        assert(members.remove(oldest as int).len() > 0);
        let j = members.remove(oldest as int).choose();
        assert(members.remove(oldest as int).contains(j));
        assert(members.contains(j) && j != oldest);
        assert(connected(segments@, oldest as int, j));
        law_overlap_is_company(segments@, oldest as int);
        assert(is_oldest_overlap(segments@, oldest as int));
    }
    let root = groups.root(oldest);
    let ghost all = Seq::new(segments@.len(), |k: int| k as usize);
    let ghost inside = |k: usize| connected(segments@, oldest as int, k as int);
    let mut indexes: Vec<usize> = Vec::new();
    let mut index: usize = 0;
    proof {
        assert(all.take(0) =~= Seq::<usize>::empty());
        assert(all.take(0).filter(inside) =~= Seq::<usize>::empty()) by {
            reveal(Seq::filter);
        }
    }
    while index < len
        invariant
            index <= len,
            len == segments@.len(),
            oldest < len,
            groups.wf(),
            groups.count() == len,
            root == groups.root_of(oldest as int),
            rows_describe(rows@, segments@, segments@.len() as int),
            rows_ascend(rows@),
            grouped_upto(rows@, groups, rows@.len() as int),
            groups_sound(segments@, groups),
            all == Seq::new(segments@.len(), |k: int| k as usize),
            inside == (|k: usize| connected(segments@, oldest as int, k as int)),
            indexes@ == all.take(index as int).filter(inside),
        decreases len - index,
    {
        proof {
            reveal(Seq::filter);
            assert(all.take(index + 1).drop_last() =~= all.take(index as int));
            assert(all.take(index + 1).last() == index);
            lemma_groups_exact(segments@, rows@, groups, oldest as int, index as int);
        }
        if groups.root(index) == root {
            indexes.push(index);
        }
        index = index + 1;
    }
    proof {
        assert(all.take(len as int) =~= all);
        assert(indexes@ == component(segments@, oldest as int));
    }
    indexes.truncate(max_segments);
    proof {
        assert(indexes@ =~= at_most(component(segments@, oldest as int), max_segments));
    }
    Some(indexes)
}

/// What a filter keeps was there before.
pub proof fn lemma_filtered_from<T>(items: Seq<T>, keep: spec_fn(T) -> bool, k: int)
    requires
        0 <= k < items.filter(keep).len(),
    ensures
        items.contains(items.filter(keep)[k]),
    decreases items.len(),
{
    reveal(Seq::filter);
    let kept = items.filter(keep);
    let front = items.drop_last();
    if keep(items.last()) && k == kept.len() - 1 {
        assert(items[items.len() - 1] == kept[k]);
    } else {
        lemma_filtered_from(front, keep, k);
        let at = choose|at: int| 0 <= at < front.len() && front[at] == front.filter(keep)[k];
        assert(items[at] == kept[k]);
    }
}

/// A window of overlapping segments lists positions that exist.
pub proof fn lemma_window_in_range(
    segments: Seq<LoadedSegment>,
    max_segments: usize,
    indexes: Seq<usize>,
)
    requires
        segments.len() <= usize::MAX,
        is_overlap_window(segments, max_segments, Some(indexes)),
    ensures
        forall|k: int| 0 <= k < indexes.len() ==> (#[trigger] indexes[k]) < segments.len(),
{
    let oldest = choose|oldest: int| #[trigger]
        is_oldest_overlap(segments, oldest) && indexes == at_most(
            component(segments, oldest),
            max_segments,
        );
    let all = Seq::new(segments.len(), |k: int| k as usize);
    let inside = |k: usize| connected(segments, oldest, k as int);
    assert forall|k: int| 0 <= k < indexes.len() implies (#[trigger] indexes[k])
        < segments.len() by {
        lemma_filtered_from(all, inside, k);
    }
}

/// Segments that share no series do not overlap, whatever their time ranges.
pub proof fn law_unshared_series_do_not_overlap(segments: Seq<LoadedSegment>, i: int, j: int)
    requires
        forall|series_id: u64, a: (i64, i64), b: (i64, i64)|
            !(#[trigger] holds(segments[i], series_id, a) && #[trigger] holds(
                segments[j],
                series_id,
                b,
            )),
    ensures
        !linked(segments, i, j),
{
}

/// `list` ascends without repetition.
pub open spec fn ascends(list: Seq<usize>) -> bool {
    forall|k: int, l: int|
        #![trigger list[k], list[l]]
        0 <= k < l < list.len() ==> list[k] < list[l]
}

pub proof fn lemma_filter_ascends(list: Seq<usize>, keep: spec_fn(usize) -> bool)
    requires
        ascends(list),
    ensures
        ascends(list.filter(keep)),
    decreases list.len(),
{
    reveal(Seq::filter);
    if list.len() > 0 {
        let front = list.drop_last();
        lemma_filter_ascends(front, keep);
        let kept = front.filter(keep);
        assert forall|k: int| 0 <= k < kept.len() implies (#[trigger] kept[k]) < list.last() by {
            lemma_filtered_from(front, keep, k);
            let at = choose|at: int| 0 <= at < front.len() && front[at] == kept[k];
            assert(list[at] < list[list.len() - 1]);
        }
    }
}

/// A window of overlapping segments holds at least two and at most `max_segments`
/// segments, in storage order, and all of them belong together.
pub proof fn law_overlap_window_shape(
    segments: Seq<LoadedSegment>,
    max_segments: usize,
    indexes: Seq<usize>,
)
    requires
        segments.len() <= usize::MAX,
        max_segments >= 2,
        is_overlap_window(segments, max_segments, Some(indexes)),
    ensures
        2 <= indexes.len() <= max_segments,
        ascends(indexes),
        forall|k: int, l: int|
            #![trigger indexes[k], indexes[l]]
            0 <= k < indexes.len() && 0 <= l < indexes.len() ==> connected(
                segments,
                indexes[k] as int,
                indexes[l] as int,
            ),
{
    broadcast use vstd::seq_lib::group_filter_ensures;

    let oldest = choose|oldest: int| #[trigger]
        is_oldest_overlap(segments, oldest) && indexes == at_most(
            component(segments, oldest),
            max_segments,
        );
    let all = Seq::new(segments.len(), |k: int| k as usize);
    let inside = |k: usize| connected(segments, oldest, k as int);
    let whole = component(segments, oldest);
    lemma_filter_ascends(all, inside);
    law_overlap_is_company(segments, oldest);
    let j = choose|j: int|
        0 <= j < segments.len() && j != oldest && #[trigger] connected(segments, oldest, j);
    lemma_connected_self(segments, oldest);
    assert(inside(all[oldest]) && inside(all[j]));
    assert(whole.contains(all[oldest]) && whole.contains(all[j]));
    let a = choose|a: int| 0 <= a < whole.len() && whole[a] == oldest as usize;
    let b = choose|b: int| 0 <= b < whole.len() && whole[b] == j as usize;
    assert(whole.len() >= 2);
    assert forall|k: int, l: int|
        #![trigger indexes[k], indexes[l]]
        0 <= k < indexes.len() && 0 <= l < indexes.len() implies connected(
        segments,
        indexes[k] as int,
        indexes[l] as int,
    ) by {
        assert(inside(whole[k]) && inside(whole[l]));
        lemma_connected_symmetric(segments, oldest, whole[k] as int);
        lemma_connected_transitive(segments, whole[k] as int, oldest, whole[l] as int);
    }
}

/// The window of overlapping segments is pinned down: there is one answer.
pub proof fn law_overlap_window_is_unique(
    segments: Seq<LoadedSegment>,
    max_segments: usize,
    a: Option<Seq<usize>>,
    b: Option<Seq<usize>>,
)
    requires
        is_overlap_window(segments, max_segments, a),
        is_overlap_window(segments, max_segments, b),
    ensures
        a == b,
{
    if a is Some {
        let x = choose|oldest: int| #[trigger]
            is_oldest_overlap(segments, oldest) && a->Some_0 == at_most(
                component(segments, oldest),
                max_segments,
            );
        assert(overlaps_another(segments, x));
        if b is Some {
            let y = choose|oldest: int| #[trigger]
                is_oldest_overlap(segments, oldest) && b->Some_0 == at_most(
                    component(segments, oldest),
                    max_segments,
                );
            assert(overlaps_another(segments, y));
        }
    } else if b is Some {
        let y = choose|oldest: int| #[trigger]
            is_oldest_overlap(segments, oldest) && b->Some_0 == at_most(
                component(segments, oldest),
                max_segments,
            );
        assert(overlaps_another(segments, y));
    }
}

} // verus!
