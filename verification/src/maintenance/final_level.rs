//! Offline merging of small final-level segments.
use crate::compactor::final_level::{
    after_merge, final_level, is_final_level_merge, is_scan, FinalLevelMerge, FinalLevelSegment,
};
use crate::compactor::planning::SegmentReading;
use crate::compactor::{no_stats, CompactionRunStats, Compactor};
use crate::error::{ErrorView, TsinkError};
use crate::segment::SegmentLaneFamily;
use vstd::prelude::*;
use vstd::string::StringExecFns;

verus! {

/// A request to merge the small final-level segments of a store.
#[derive(Debug)]
pub struct FinalLevelRequest {
    /// Where the store lies. A store without a data path holds nothing to merge.
    pub data_path: Option<String>,
    /// Where the store keeps remote segments, if it does. Such a store is refused.
    pub object_store_path: Option<String>,
    /// The span, in timestamp units, within which segments are merged.
    pub window: i64,
}

/// What is wrong with a request, if anything.
pub open spec fn request_error(request: FinalLevelRequest) -> Option<ErrorView> {
    if request.data_path is None {
        Some(ErrorView::InvalidConfiguration("final-level compaction needs a data path"@))
    } else if request.object_store_path is Some {
        Some(
            ErrorView::InvalidConfiguration(
                "final-level compaction does not cover an object store"@,
            ),
        )
    } else if request.window <= 0 {
        Some(ErrorView::InvalidConfiguration("final-level compaction window must be positive"@))
    } else {
        None
    }
}

/// Where an offline run stands; each step names the work that is due next.
#[derive(Debug)]
pub enum OfflineStep {
    /// Lock the data path for the whole run.
    AcquireLock,
    /// Complete unfinished replacements in the lane and read every segment manifest.
    ScanLane { lane: SegmentLaneFamily },
    /// Merge these segments of the lane.
    MergeGroup { lane: SegmentLaneFamily, group: Vec<usize> },
    /// The run is over.
    Done { outcome: Result<CompactionRunStats, TsinkError> },
}

/// What merging a group gave: statistics, and the segments it wrote.
#[derive(Debug)]
pub struct MergeReport {
    pub stats: CompactionRunStats,
    pub outputs: Vec<FinalLevelSegment>,
}

/// What the work named by a step gave.
#[derive(Debug)]
pub enum OfflineReply {
    Locked(Result<(), TsinkError>),
    Scanned(Result<Vec<SegmentReading>, TsinkError>),
    Merged(Result<MergeReport, TsinkError>),
}

/// An offline run over both lanes of a store.
#[derive(Debug)]
pub struct OfflineCompaction {
    pub compactor: Compactor,
    pub window: i64,
    pub numeric: Vec<FinalLevelSegment>,
    pub blob: Vec<FinalLevelSegment>,
    pub max_segment_id: Option<u64>,
    pub total: CompactionRunStats,
    pub step: OfflineStep,
}

/// A step as mathematics.
pub enum OfflineStepView {
    AcquireLock,
    ScanLane { lane: SegmentLaneFamily },
    MergeGroup { lane: SegmentLaneFamily, group: Seq<usize> },
    Done { outcome: Result<CompactionRunStats, ErrorView> },
}

impl View for OfflineStep {
    type V = OfflineStepView;

    open spec fn view(&self) -> OfflineStepView {
        match self {
            OfflineStep::AcquireLock => OfflineStepView::AcquireLock,
            OfflineStep::ScanLane { lane } => OfflineStepView::ScanLane { lane: *lane },
            OfflineStep::MergeGroup { lane, group } => OfflineStepView::MergeGroup {
                lane: *lane,
                group: group@,
            },
            OfflineStep::Done { outcome } => OfflineStepView::Done {
                outcome: match outcome {
                    Ok(stats) => Ok(*stats),
                    Err(error) => Err(error@),
                },
            },
        }
    }
}

/// A failed run.
pub open spec fn offline_failed(error: ErrorView) -> OfflineStepView {
    OfflineStepView::Done { outcome: Err(error) }
}

/// The higher of two optional ids.
pub open spec fn higher_id(a: Option<u64>, b: Option<u64>) -> Option<u64> {
    match (a, b) {
        (None, _) => b,
        (_, None) => a,
        (Some(x), Some(y)) => if x < y {
            b
        } else {
            a
        },
    }
}

/// The highest id, with those of some segments taken in.
pub open spec fn highest_with(
    highest: Option<u64>,
    segments: Seq<FinalLevelSegment>,
) -> Option<u64>
    decreases segments.len(),
{
    if segments.len() == 0 {
        highest
    } else {
        higher_id(
            highest_with(highest, segments.drop_last()),
            Some(segments.last().manifest.segment_id),
        )
    }
}

/// The higher of two optional ids.
fn take_higher(a: Option<u64>, b: Option<u64>) -> (higher: Option<u64>)
    ensures
        higher == higher_id(a, b),
{
    match (a, b) {
        (None, b) => b,
        (Some(id), None) => Some(id),
        (Some(id), Some(other)) => if id < other {
            Some(other)
        } else {
            Some(id)
        },
    }
}

/// Adding the statistics to the total does not leave the range of the counters.
pub open spec fn totals_fit(total: CompactionRunStats, stats: CompactionRunStats) -> bool {
    &&& total.source_segments + stats.source_segments <= usize::MAX
    &&& total.output_segments + stats.output_segments <= usize::MAX
    &&& total.source_chunks + stats.source_chunks <= usize::MAX
    &&& total.output_chunks + stats.output_chunks <= usize::MAX
    &&& total.source_points + stats.source_points <= usize::MAX
    &&& total.output_points + stats.output_points <= usize::MAX
}

/// The total after a merge.
pub open spec fn added(total: CompactionRunStats, stats: CompactionRunStats) -> CompactionRunStats {
    CompactionRunStats {
        compacted: true,
        source_level: stats.source_level,
        target_level: stats.target_level,
        source_segments: (total.source_segments + stats.source_segments) as usize,
        output_segments: (total.output_segments + stats.output_segments) as usize,
        source_chunks: (total.source_chunks + stats.source_chunks) as usize,
        output_chunks: (total.output_chunks + stats.output_chunks) as usize,
        source_points: (total.source_points + stats.source_points) as usize,
        output_points: (total.output_points + stats.output_points) as usize,
    }
}

/// Whether adding the statistics to the total stays in range.
pub fn check_totals_fit(total: &CompactionRunStats, stats: &CompactionRunStats) -> (fit: bool)
    ensures
        fit == totals_fit(*total, *stats),
{
    total.source_segments.checked_add(stats.source_segments).is_some()
        && total.output_segments.checked_add(stats.output_segments).is_some()
        && total.source_chunks.checked_add(stats.source_chunks).is_some()
        && total.output_chunks.checked_add(stats.output_chunks).is_some()
        && total.source_points.checked_add(stats.source_points).is_some()
        && total.output_points.checked_add(stats.output_points).is_some()
}

fn add_stats(total: &CompactionRunStats, stats: &CompactionRunStats) -> (sum: CompactionRunStats)
    requires
        totals_fit(*total, *stats),
    ensures
        sum == added(*total, *stats),
        sum.source_segments == total.source_segments + stats.source_segments,
        sum.output_segments == total.output_segments + stats.output_segments,
        sum.source_chunks == total.source_chunks + stats.source_chunks,
        sum.output_chunks == total.output_chunks + stats.output_chunks,
        sum.source_points == total.source_points + stats.source_points,
        sum.output_points == total.output_points + stats.output_points,
{
    CompactionRunStats {
        compacted: true,
        source_level: stats.source_level,
        target_level: stats.target_level,
        source_segments: total.source_segments + stats.source_segments,
        output_segments: total.output_segments + stats.output_segments,
        source_chunks: total.source_chunks + stats.source_chunks,
        output_chunks: total.output_chunks + stats.output_chunks,
        source_points: total.source_points + stats.source_points,
        output_points: total.output_points + stats.output_points,
    }
}

/// Starts merging the small final-level segments of a store that no process has open.
///
/// Regular compaction never merges final-level (L2) segments, so a store fed a steady
/// trickle of writes accumulates many small ones until retention removes them. This
/// merges them per `window`-aligned span of their newest point, in timestamp units,
/// holding the data path lock for the whole run.
pub fn compact_final_level_offline(
    compactor: Compactor,
    request: &FinalLevelRequest,
) -> (run: Result<OfflineCompaction, TsinkError>)
    ensures
        match run {
            Ok(run) => {
                &&& request_error(*request) is None
                &&& run.compactor == compactor
                &&& run.window == request.window
                &&& run.numeric@.len() == 0
                &&& run.blob@.len() == 0
                &&& run.max_segment_id is None
                &&& run.total == no_stats()
                &&& run.step@ == OfflineStepView::AcquireLock
            },
            Err(error) => request_error(*request) == Some(error@),
        },
{
    if request.data_path.is_none() {
        return Err(
            TsinkError::InvalidConfiguration(
                String::from_str("final-level compaction needs a data path"),
            ),
        );
    }
    if request.object_store_path.is_some() {
        return Err(
            TsinkError::InvalidConfiguration(
                String::from_str("final-level compaction does not cover an object store"),
            ),
        );
    }
    if request.window <= 0 {
        return Err(
            TsinkError::InvalidConfiguration(
                String::from_str("final-level compaction window must be positive"),
            ),
        );
    }
    Ok(
        OfflineCompaction {
            compactor,
            window: request.window,
            numeric: Vec::new(),
            blob: Vec::new(),
            max_segment_id: None,
            total: CompactionRunStats::default(),
            step: OfflineStep::AcquireLock,
        },
    )
}

impl OfflineCompaction {
    /// The segments of a lane.
    pub open spec fn lane(&self, lane: SegmentLaneFamily) -> Seq<FinalLevelSegment> {
        match lane {
            SegmentLaneFamily::Numeric => self.numeric@,
            SegmentLaneFamily::Blob => self.blob@,
        }
    }

    /// Compactor and window are those of `other`.
    pub open spec fn same_settings(&self, other: OfflineCompaction) -> bool {
        self.compactor == other.compactor && self.window == other.window
    }

    /// What the next merge in a lane is.
    pub open spec fn is_lane_merge(
        &self,
        lane: SegmentLaneFamily,
        merge: Option<Seq<usize>>,
    ) -> bool {
        is_final_level_merge(
            self.lane(lane),
            self.window,
            self.compactor.point_budget() as usize,
            self.compactor.source_window_segments,
            merge,
        )
    }

    /// The step is the next merge, looking from `lane` on: the numeric lane comes first,
    /// and the run is over when neither lane has a merge left.
    pub open spec fn looks_from(&self, lane: SegmentLaneFamily) -> bool {
        match self.step@ {
            OfflineStepView::MergeGroup { lane: at, group } => {
                &&& self.is_lane_merge(at, Some(group))
                &&& lane == SegmentLaneFamily::Blob ==> at == SegmentLaneFamily::Blob
                &&& lane == SegmentLaneFamily::Numeric && at == SegmentLaneFamily::Blob
                    ==> self.is_lane_merge(SegmentLaneFamily::Numeric, None)
            },
            OfflineStepView::Done { outcome } => {
                &&& outcome == Ok::<CompactionRunStats, ErrorView>(self.total)
                &&& self.is_lane_merge(SegmentLaneFamily::Blob, None)
                &&& lane == SegmentLaneFamily::Numeric ==> self.is_lane_merge(
                    SegmentLaneFamily::Numeric,
                    None,
                )
            },
            _ => false,
        }
    }

    /// The group waiting to be merged lists segments that exist.
    pub open spec fn wf(&self) -> bool {
        self.step matches OfflineStep::MergeGroup { lane, group } ==> forall|k: int|
            0 <= k < group@.len() ==> (#[trigger] group@[k]) < self.lane(lane).len()
    }

    /// The reply is one to the step, and its counters can be added.
    pub open spec fn accepts(&self, reply: OfflineReply) -> bool {
        match self.step {
            OfflineStep::AcquireLock => reply is Locked,
            OfflineStep::ScanLane { .. } => reply is Scanned,
            OfflineStep::MergeGroup { .. } => match reply {
                OfflineReply::Merged(Ok(report)) => report.stats.compacted ==> totals_fit(
                    self.total,
                    report.stats,
                ),
                OfflineReply::Merged(Err(_)) => true,
                _ => false,
            },
            OfflineStep::Done { .. } => false,
        }
    }

    /// How a run goes on after a reply.
    pub open spec fn is_successor(&self, reply: OfflineReply, next: OfflineCompaction) -> bool {
        &&& next.same_settings(*self)
        &&& match (self.step@, reply) {
            (OfflineStepView::AcquireLock, OfflineReply::Locked(result)) => {
                &&& next.numeric@ == self.numeric@
                &&& next.blob@ == self.blob@
                &&& next.max_segment_id == self.max_segment_id
                &&& next.total == self.total
                &&& next.step@ == match result {
                    Ok(_) => OfflineStepView::ScanLane { lane: SegmentLaneFamily::Numeric },
                    Err(error) => offline_failed(error@),
                }
            },
            (OfflineStepView::ScanLane { lane }, OfflineReply::Scanned(result)) => {
                &&& next.total == self.total
                &&& match result {
                    Err(error) => {
                        &&& next.numeric@ == self.numeric@
                        &&& next.blob@ == self.blob@
                        &&& next.max_segment_id == self.max_segment_id
                        &&& next.step@ == offline_failed(error@)
                    },
                    Ok(readings) => exists|scan: Result<
                        (Vec<FinalLevelSegment>, Option<u64>),
                        TsinkError,
                    >|
                        {
                            &&& #[trigger] is_scan(readings@, scan)
                            &&& self.is_scanned(lane, scan, next)
                        },
                }
            },
            (OfflineStepView::MergeGroup { lane, group }, OfflineReply::Merged(result)) => {
                match result {
                    Err(error) => {
                        &&& next.max_segment_id == self.max_segment_id
                        &&& next.numeric@ == self.numeric@
                        &&& next.blob@ == self.blob@
                        &&& next.total == self.total
                        &&& next.step@ == offline_failed(error@)
                    },
                    Ok(report) => self.is_merged(lane, group, report, next),
                }
            },
            _ => false,
        }
    }

    /// How a run goes on after the scan of a lane.
    pub open spec fn is_scanned(
        &self,
        lane: SegmentLaneFamily,
        scan: Result<(Vec<FinalLevelSegment>, Option<u64>), TsinkError>,
        next: OfflineCompaction,
    ) -> bool {
        match scan {
            Err(error) => {
                &&& next.numeric@ == self.numeric@
                &&& next.blob@ == self.blob@
                &&& next.max_segment_id == self.max_segment_id
                &&& next.step@ == offline_failed(error@)
            },
            Ok((segments, highest)) => {
                &&& next.lane(lane) == segments@
                &&& next.max_segment_id == higher_id(self.max_segment_id, highest)
                &&& match lane {
                    SegmentLaneFamily::Numeric => {
                        &&& next.blob@ == self.blob@
                        &&& next.step@ == (OfflineStepView::ScanLane {
                            lane: SegmentLaneFamily::Blob,
                        })
                    },
                    SegmentLaneFamily::Blob => {
                        &&& next.numeric@ == self.numeric@
                        &&& next.looks_from(SegmentLaneFamily::Numeric)
                    },
                }
            },
        }
    }

    /// How a run goes on after a merge: the lane's segments are updated, and the ids of what
    /// was written are taken; a merge that
    /// compacted is counted and the lane is looked at again, one that did not ends the
    /// lane.
    pub open spec fn is_merged(
        &self,
        lane: SegmentLaneFamily,
        group: Seq<usize>,
        report: MergeReport,
        next: OfflineCompaction,
    ) -> bool {
        let stats = CompactionRunStats {
            source_level: Some(final_level()),
            target_level: Some(final_level()),
            ..report.stats
        };
        &&& next.lane(lane) == after_merge(self.lane(lane), group, report.outputs@)
        &&& next.max_segment_id == highest_with(self.max_segment_id, report.outputs@)
        &&& lane == SegmentLaneFamily::Numeric ==> next.blob@ == self.blob@
        &&& lane == SegmentLaneFamily::Blob ==> next.numeric@ == self.numeric@
        &&& if stats.compacted {
            &&& next.total == added(self.total, stats)
            &&& next.looks_from(lane)
        } else {
            &&& next.total == self.total
            &&& match lane {
                SegmentLaneFamily::Numeric => next.looks_from(SegmentLaneFamily::Blob),
                SegmentLaneFamily::Blob => next.step@ == (OfflineStepView::Done {
                    outcome: Ok(next.total),
                }),
            }
        }
    }

    /// The id given to the first segment that the next merge writes.
    pub fn first_output_id(&self) -> (id: u64)
        ensures
            id == match self.max_segment_id {
                None => 1,
                Some(max) => if max < u64::MAX {
                    max + 1
                } else {
                    u64::MAX as int
                },
            },
    {
        match self.max_segment_id {
            None => 1,
            Some(max) => max.saturating_add(1),
        }
    }

    fn look_in(&mut self, lane: SegmentLaneFamily) -> (found: bool)
        ensures
            final(self).same_settings(*old(self)),
            final(self).numeric@ == old(self).numeric@,
            final(self).blob@ == old(self).blob@,
            final(self).max_segment_id == old(self).max_segment_id,
            final(self).total == old(self).total,
            if found {
                &&& final(self).step@ matches OfflineStepView::MergeGroup { lane: at, group }
                &&& at == lane
                &&& final(self).is_lane_merge(lane, Some(group))
                &&& final(self).wf()
            } else {
                final(self).is_lane_merge(lane, None)
            },
    {
        let merge = match lane {
            SegmentLaneFamily::Numeric => self.compactor.next_final_level_merge(
                &self.numeric,
                self.window,
            ),
            SegmentLaneFamily::Blob => self.compactor.next_final_level_merge(
                &self.blob,
                self.window,
            ),
        };
        match merge {
            Some(group) => {
                self.step = OfflineStep::MergeGroup { lane, group };
                true
            },
            None => false,
        }
    }

    fn look_from(&mut self, lane: SegmentLaneFamily)
        ensures
            final(self).same_settings(*old(self)),
            final(self).numeric@ == old(self).numeric@,
            final(self).blob@ == old(self).blob@,
            final(self).max_segment_id == old(self).max_segment_id,
            final(self).total == old(self).total,
            final(self).looks_from(lane),
            final(self).wf(),
    {
        if let SegmentLaneFamily::Numeric = lane {
            if self.look_in(SegmentLaneFamily::Numeric) {
                return ;
            }
        }
        if !self.look_in(SegmentLaneFamily::Blob) {
            self.step = OfflineStep::Done { outcome: Ok(self.total) };
        }
    }

    fn take_scan(&mut self, lane: SegmentLaneFamily, readings: Vec<SegmentReading>)
        ensures
            final(self).wf(),
            final(self).same_settings(*old(self)),
            final(self).total == old(self).total,
            exists|scan: Result<(Vec<FinalLevelSegment>, Option<u64>), TsinkError>|
                {
                    &&& #[trigger] is_scan(readings@, scan)
                    &&& old(self).is_scanned(lane, scan, *final(self))
                },
    {
        let scan = self.compactor.scan_final_level_segments(readings);
        let ghost scanned = scan;
        assert(is_scan(readings@, scanned));
        match scan {
            Err(error) => {
                self.step = OfflineStep::Done { outcome: Err(error) };
            },
            Ok((segments, highest)) => {
                self.max_segment_id = take_higher(self.max_segment_id, highest);
                match lane {
                    SegmentLaneFamily::Numeric => {
                        self.numeric = segments;
                        self.step = OfflineStep::ScanLane { lane: SegmentLaneFamily::Blob };
                    },
                    SegmentLaneFamily::Blob => {
                        self.blob = segments;
                        self.look_from(SegmentLaneFamily::Numeric);
                    },
                }
            },
        }
    }

    fn take_merge(&mut self, lane: SegmentLaneFamily, group: Vec<usize>, report: MergeReport)
        requires
            report.stats.compacted ==> totals_fit(old(self).total, report.stats),
        ensures
            final(self).wf(),
            final(self).same_settings(*old(self)),
            old(self).is_merged(lane, group@, report, *final(self)),
    {
        let ghost known = self.max_segment_id;
        let mut at: usize = 0;
        while at < report.outputs.len()
            invariant
                at <= report.outputs@.len(),
                self.max_segment_id == highest_with(known, report.outputs@.take(at as int)),
                self.compactor == old(self).compactor,
                self.window == old(self).window,
                self.numeric == old(self).numeric,
                self.blob == old(self).blob,
                self.total == old(self).total,
            decreases report.outputs@.len() - at,
        {
            proof {
                assert(report.outputs@.take(at + 1).drop_last() =~= report.outputs@.take(
                    at as int,
                ));
            }
            let id = report.outputs[at].manifest.segment_id;
            self.max_segment_id = take_higher(self.max_segment_id, Some(id));
            at = at + 1;
        }
        proof {
            assert(report.outputs@.take(at as int) =~= report.outputs@);
        }
        let merge = Some(
            FinalLevelMerge { group, stats: report.stats, outputs: report.outputs },
        );
        let compactor = self.compactor;
        let stats = match lane {
            SegmentLaneFamily::Numeric => compactor.compact_final_level_once(
                &mut self.numeric,
                merge,
            ),
            SegmentLaneFamily::Blob => compactor.compact_final_level_once(&mut self.blob, merge),
        };
        if stats.compacted {
            self.total = add_stats(&self.total, &stats);
            self.look_from(lane);
        } else {
            match lane {
                SegmentLaneFamily::Numeric => {
                    self.look_from(SegmentLaneFamily::Blob);
                },
                SegmentLaneFamily::Blob => {
                    self.step = OfflineStep::Done { outcome: Ok(self.total) };
                },
            }
        }
    }

    /// Takes the run one step on.
    pub fn resume(&mut self, reply: OfflineReply)
        requires
            old(self).wf(),
            old(self).accepts(reply),
        ensures
            final(self).wf(),
            old(self).is_successor(reply, *final(self)),
    {
        let mut step = OfflineStep::AcquireLock;
        core::mem::swap(&mut step, &mut self.step);
        match (step, reply) {
            (OfflineStep::AcquireLock, OfflineReply::Locked(result)) => {
                self.step = match result {
                    Ok(_) => OfflineStep::ScanLane { lane: SegmentLaneFamily::Numeric },
                    Err(error) => OfflineStep::Done { outcome: Err(error) },
                };
            },
            (OfflineStep::ScanLane { lane }, OfflineReply::Scanned(result)) => {
                match result {
                    Ok(readings) => {
                        self.take_scan(lane, readings);
                    },
                    Err(error) => {
                        self.step = OfflineStep::Done { outcome: Err(error) };
                    },
                }
            },
            (OfflineStep::MergeGroup { lane, group }, OfflineReply::Merged(result)) => {
                match result {
                    Ok(report) => {
                        self.take_merge(lane, group, report);
                    },
                    Err(error) => {
                        self.step = OfflineStep::Done { outcome: Err(error) };
                    },
                }
            },
            _ => {
                assert(false);
            },
        }
    }
}

/// The lanes that a run has left behind have no merge left.
pub open spec fn is_settled(run: OfflineCompaction) -> bool {
    match run.step@ {
        OfflineStepView::MergeGroup { lane, .. } => lane == SegmentLaneFamily::Blob
            ==> run.is_lane_merge(SegmentLaneFamily::Numeric, None),
        OfflineStepView::Done { outcome: Ok(_) } => {
            &&& run.is_lane_merge(SegmentLaneFamily::Numeric, None)
            &&& run.is_lane_merge(SegmentLaneFamily::Blob, None)
        },
        _ => true,
    }
}

/// The reply reports a merge that merged nothing.
pub open spec fn is_idle_merge(reply: OfflineReply) -> bool {
    reply matches OfflineReply::Merged(Ok(report)) && !report.stats.compacted
}

/// A run that ends well has left no two small segments in one span of a lane, unless a
/// merge merged nothing.
pub proof fn law_finished_run_leaves_nothing_to_merge(
    run: OfflineCompaction,
    reply: OfflineReply,
    next: OfflineCompaction,
)
    requires
        is_settled(run),
        run.is_successor(reply, next),
        !is_idle_merge(reply),
    ensures
        is_settled(next),
{
    match (run.step@, reply) {
        (OfflineStepView::MergeGroup { lane, group }, OfflineReply::Merged(Ok(report))) => {
            assert(next.looks_from(lane));
            if lane == SegmentLaneFamily::Blob {
                assert(next.lane(SegmentLaneFamily::Numeric) == run.lane(
                    SegmentLaneFamily::Numeric,
                ));
            }
        },
        _ => {},
    }
}

/// Nothing is read or merged before the data path is locked: a run leaves its first
/// step only with the lock held, or fails with the error of locking.
pub proof fn law_lock_comes_first(
    run: OfflineCompaction,
    reply: OfflineReply,
    next: OfflineCompaction,
)
    requires
        run.step@ == OfflineStepView::AcquireLock,
        run.is_successor(reply, next),
    ensures
        match reply {
            OfflineReply::Locked(Ok(_)) => next.step@ is ScanLane,
            OfflineReply::Locked(Err(error)) => next.step@ == offline_failed(error@),
            _ => false,
        },
{
}

} // verus!
