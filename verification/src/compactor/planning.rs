//! Which segments of a level one compaction pass merges.
use crate::compactor::overlap::{
    ascends, is_overlap_window, law_overlap_window_is_unique, law_overlap_window_shape,
    lemma_window_in_range, overlapping_series_window_indexes, overlaps_another,
};
use crate::compactor::{no_stats, CompactionOutcome, CompactionRunStats, Compactor};
use crate::error::{ErrorView, TsinkError};
use crate::segment::{LoadedSegment, SegmentManifest};
use crate::sorting::{arrange, arranged, is_order, lemma_order_unique, order_by};
use crate::text::{copied, decimal, push_decimal, with_numbers};
use vstd::prelude::*;
use vstd::string::StringExecFns;

verus! {

/// A level of the segment hierarchy. New segments enter at `L0`.
#[derive(Debug, Clone, Copy, PartialEq, Eq, Structural)]
pub enum CompactionLevel {
    L0,
    L1,
    L2,
}

/// The number of a level.
pub open spec fn level_number(level: CompactionLevel) -> u8 {
    match level {
        CompactionLevel::L0 => 0,
        CompactionLevel::L1 => 1,
        CompactionLevel::L2 => 2,
    }
}

/// The number of a level.
pub fn level_to_u8(level: CompactionLevel) -> (number: u8)
    ensures
        number == level_number(level),
{
    match level {
        CompactionLevel::L0 => 0,
        CompactionLevel::L1 => 1,
        CompactionLevel::L2 => 2,
    }
}

/// One segment directory as found on disk: where it is, the name of the directory it
/// lies in, and what reading its manifest gave.
#[derive(Debug)]
pub struct SegmentReading {
    pub root: String,
    pub level_dir: Option<String>,
    pub manifest: Result<SegmentManifest, TsinkError>,
}

/// The name of a level's directory.
pub open spec fn level_dir_name(level: u8) -> Seq<char> {
    "L"@ + decimal(level as nat)
}

/// The directory is that of the given level.
pub open spec fn is_level_dir(level_dir: Option<String>, level: u8) -> bool {
    level_dir matches Some(name) && name@ == level_dir_name(level)
}

/// The segment directory lies under the given level.
pub open spec fn stored_under(reading: SegmentReading, level: u8) -> bool {
    is_level_dir(reading.level_dir, level)
}

/// Whether a directory is that of the given level. Only what lies in it concerns the level.
pub fn names_level(level_dir: &Option<String>, level: u8) -> (named: bool)
    ensures
        named == is_level_dir(*level_dir, level),
{
    let mut expected = String::from_str("L");
    push_decimal(&mut expected, level as u64);
    match level_dir {
        Some(name) => *name == expected,
        None => false,
    }
}

/// What is wrong with a directory that lies under the given level, if anything. A
/// directory whose manifest is gone is passed over.
pub open spec fn reading_error(reading: SegmentReading, level: u8) -> Option<ErrorView> {
    if !stored_under(reading, level) {
        None
    } else {
        match reading.manifest {
            Ok(manifest) => if manifest.level != level {
                Some(
                    ErrorView::SegmentValidation {
                        root: reading.root@,
                        details: "segment directory level mismatch: stored under L"@ + decimal(
                            level as nat,
                        ) + ", manifest says L"@ + decimal(manifest.level as nat),
                    },
                )
            } else {
                None
            },
            Err(error) => match error@ {
                ErrorView::NotFound(_) => None,
                ErrorView::DataCorruption(details) => Some(
                    ErrorView::SegmentValidation { root: reading.root@, details },
                ),
                other => Some(other),
            },
        }
    }
}

/// The directory counts as a segment of the level.
pub open spec fn counts(reading: SegmentReading, level: u8) -> bool {
    stored_under(reading, level) && reading.manifest is Ok
}

/// How a counting of the level's segments ends: with the error of the first directory
/// that has one, else with the number of segments.
pub open spec fn is_level_count(
    readings: Seq<SegmentReading>,
    level: u8,
    outcome: Result<usize, TsinkError>,
) -> bool {
    match outcome {
        Ok(count) => {
            &&& forall|i: int|
                0 <= i < readings.len() ==> reading_error(#[trigger] readings[i], level) is None
            &&& count == readings.filter(|reading: SegmentReading| counts(reading, level)).len()
        },
        Err(error) => exists|i: int|
            {
                &&& 0 <= i < readings.len()
                &&& reading_error(#[trigger] readings[i], level) == Some(error@)
                &&& forall|k: int|
                    0 <= k < i ==> reading_error(#[trigger] readings[k], level) is None
            },
    }
}

fn check_reading(reading: &SegmentReading, level: u8) -> (error: Option<TsinkError>)
    requires
        stored_under(*reading, level),
    ensures
        match error {
            Some(error) => reading_error(*reading, level) == Some(error@),
            None => reading_error(*reading, level) is None,
        },
{
    match &reading.manifest {
        Ok(manifest) => if manifest.level != level {
            Some(
                TsinkError::SegmentValidation {
                    root: copied(&reading.root),
                    details: with_numbers(
                        "segment directory level mismatch: stored under L",
                        level as u64,
                        ", manifest says L",
                        manifest.level as u64,
                    ),
                },
            )
        } else {
            None
        },
        Err(TsinkError::NotFound(_)) => None,
        Err(TsinkError::DataCorruption(details)) => Some(
            TsinkError::SegmentValidation { root: copied(&reading.root), details: copied(details) },
        ),
        Err(error) => Some(error.duplicate()),
    }
}

/// Counts the segments stored under a level, and refuses a directory whose manifest
/// cannot be trusted.
pub fn count_level_segments_for_compaction(
    readings: &Vec<SegmentReading>,
    level: u8,
) -> (outcome: Result<usize, TsinkError>)
    ensures
        is_level_count(readings@, level, outcome),
{
    let ghost wanted = |reading: SegmentReading| counts(reading, level);
    let mut count: usize = 0;
    let mut at: usize = 0;
    proof {
        assert(readings@.take(0) =~= Seq::<SegmentReading>::empty());
        reveal(Seq::filter);
    }
    while at < readings.len()
        invariant
            at <= readings@.len(),
            wanted == (|reading: SegmentReading| counts(reading, level)),
            count == readings@.take(at as int).filter(wanted).len(),
            count <= at,
            forall|i: int|
                0 <= i < at ==> reading_error(#[trigger] readings@[i], level) is None,
        decreases readings@.len() - at,
    {
        proof {
            reveal(Seq::filter);
            assert(readings@.take(at + 1).drop_last() =~= readings@.take(at as int));
            assert(readings@.take(at + 1).last() == readings@[at as int]);
        }
        let reading = &readings[at];
        if names_level(&reading.level_dir, level) {
            if let Some(error) = check_reading(reading, level) {
                return Err(error);
            }
            if let Ok(_) = &reading.manifest {
                count = count + 1;
            }
        }
        at = at + 1;
    }
    proof {
        assert(readings@.take(readings@.len() as int) =~= readings@);
    }
    Ok(count)
}

/// The limit that a window never goes below.
pub open spec fn window_limit(max_segments: usize) -> usize {
    if max_segments < 2 {
        2
    } else {
        max_segments
    }
}

/// How many segments a window takes that only their number asked for.
pub open spec fn counted_window_len(count_trigger: usize, max_segments: usize, len: nat) -> int {
    let wanted = if count_trigger < 2 {
        2
    } else {
        count_trigger as int
    };
    let limited = if wanted < window_limit(max_segments) {
        wanted
    } else {
        window_limit(max_segments) as int
    };
    if limited < len {
        limited
    } else {
        len as int
    }
}

/// Which positions a compaction pass takes: the window of overlapping segments where
/// there is one; else the oldest segments, once there are enough of them.
pub open spec fn is_selection(
    segments: Seq<LoadedSegment>,
    count_trigger: usize,
    max_segments: usize,
    selection: Option<Seq<usize>>,
) -> bool {
    if is_overlap_window(segments, window_limit(max_segments), None) {
        if segments.len() < count_trigger {
            selection is None
        } else {
            selection == Some(
                Seq::new(
                    counted_window_len(count_trigger, max_segments, segments.len()) as nat,
                    |k: int| k as usize,
                ),
            )
        }
    } else {
        selection is Some && is_overlap_window(
            segments,
            window_limit(max_segments),
            selection,
        )
    }
}

/// The segments at the given positions.
pub open spec fn picked(segments: Seq<LoadedSegment>, indexes: Seq<usize>) -> Seq<LoadedSegment> {
    Seq::new(indexes.len(), |k: int| segments[indexes[k] as int])
}

/// The contents of an optional list.
pub open spec fn listed<T>(items: Option<Vec<T>>) -> Option<Seq<T>> {
    match items {
        Some(items) => Some(items@),
        None => None,
    }
}

/// Picks the positions of one compaction pass, or `None` when the level does not need
/// compacting yet.
pub fn select_window_indexes(
    segments: &[LoadedSegment],
    count_trigger: usize,
    max_segments: usize,
) -> (selection: Option<Vec<usize>>)
    ensures
        is_selection(segments@, count_trigger, max_segments, listed(selection)),
        selection matches Some(indexes) ==> forall|k: int|
            0 <= k < indexes@.len() ==> (#[trigger] indexes@[k]) < segments@.len(),
{
    let len = segments.len();
    let max_segments = if max_segments < 2 {
        2
    } else {
        max_segments
    };
    if let Some(indexes) = overlapping_series_window_indexes(segments, max_segments) {
        proof {
            lemma_window_in_range(segments@, max_segments, indexes@);
        }
        return Some(indexes);
    }
    if len < count_trigger {
        return None;
    }
    let wanted = if count_trigger < 2 {
        2
    } else {
        count_trigger
    };
    let limited = if wanted < max_segments {
        wanted
    } else {
        max_segments
    };
    let window_len = if limited < len {
        limited
    } else {
        len
    };
    let mut indexes: Vec<usize> = Vec::new();
    let mut index: usize = 0;
    while index < window_len
        invariant
            index <= window_len <= segments@.len(),
            indexes@ == Seq::new(index as nat, |k: int| k as usize),
        decreases window_len - index,
    {
        indexes.push(index);
        index = index + 1;
        proof {
            assert(indexes@ =~= Seq::new(index as nat, |k: int| k as usize));
        }
    }
    Some(indexes)
}

/// Picks the source segments for one compaction pass, or `None` when the level does not
/// need compacting yet.
///
/// Segments whose chunks of the same series overlap in time are merged first, regardless
/// of the count trigger, so a series' persisted chunks go back to being disjoint. Overlap
/// is judged per series: two segments whose overall time ranges intersect only because
/// they hold different series do not count, since reads never have to reconcile their
/// chunks.
pub fn select_compaction_window<'a>(
    segments: &'a [LoadedSegment],
    count_trigger: usize,
    max_segments: usize,
) -> (window: Option<Vec<&'a LoadedSegment>>)
    ensures
        exists|selection: Option<Seq<usize>>|
            {
                &&& #[trigger] is_selection(segments@, count_trigger, max_segments, selection)
                &&& match (window, selection) {
                    (Some(window), Some(indexes)) => window@.unref() == picked(segments@, indexes),
                    (None, None) => true,
                    _ => false,
                }
            },
        window matches Some(window) ==> forall|k: int|
            0 <= k < window@.len() ==> exists|i: int|
                0 <= i < segments@.len() && *#[trigger] window@[k] == #[trigger] segments@[i],
{
    let selection = select_window_indexes(segments, count_trigger, max_segments);
    let ghost chosen = listed(selection);
    assert(is_selection(segments@, count_trigger, max_segments, chosen));
    match selection {
        Some(indexes) => {
            let mut window: Vec<&'a LoadedSegment> = Vec::new();
            let mut at: usize = 0;
            while at < indexes.len()
                invariant
                    at <= indexes@.len(),
                    forall|k: int|
                        0 <= k < indexes@.len() ==> (#[trigger] indexes@[k]) < segments@.len(),
                    window@.len() == at,
                    forall|k: int|
                        0 <= k < at ==> #[trigger] window@[k] == &segments@[indexes@[k] as int],
                decreases indexes@.len() - at,
            {
                window.push(&segments[indexes[at]]);
                at = at + 1;
            }
            proof {
                assert(window@.unref() =~= picked(segments@, indexes@));
                assert forall|k: int| 0 <= k < window@.len() implies exists|i: int|
                    0 <= i < segments@.len() && *#[trigger] window@[k] == #[trigger] segments@[i] by {
                    assert(*window@[k] == segments@[indexes@[k] as int]);
                }
            }
            Some(window)
        },
        None => None,
    }
}

/// A merge that a pass decided on.
#[derive(Debug)]
pub struct LevelMerge {
    pub source_level: u8,
    pub target_level: u8,
    /// Positions, in the list of loaded segments, of those to merge, oldest first.
    pub sources: Vec<usize>,
}

/// The positions that a decision merges, if it merges any.
pub open spec fn merge_sources(merge: Option<LevelMerge>) -> Option<Seq<usize>> {
    match merge {
        Some(merge) => Some(merge.sources@),
        None => None,
    }
}

/// The keys that put segments into storage order.
pub open spec fn storage_keys(segments: Seq<LoadedSegment>) -> Seq<(i128, i128, i128)> {
    Seq::new(
        segments.len(),
        |k: int| (segments[k].manifest.segment_id as i128, 0i128, 0i128),
    )
}

/// What a pass over one level decides, given the segments loaded from it: in storage
/// order it selects a window, and a window of fewer than two segments is no merge.
pub open spec fn is_level_decision(
    segments: Seq<LoadedSegment>,
    count_trigger: usize,
    max_segments: usize,
    sources: Option<Seq<usize>>,
) -> bool {
    if segments.len() < 2 {
        sources is None
    } else {
        exists|order: Seq<usize>, selection: Option<Seq<usize>>|
            {
                &&& #[trigger] is_order(storage_keys(segments), order)
                &&& #[trigger] is_selection(
                    arranged(segments, order),
                    count_trigger,
                    max_segments,
                    selection,
                )
                &&& sources == (match selection {
                    Some(indexes) if indexes.len() >= 2 => Some(arranged(order, indexes)),
                    _ => None,
                })
            }
    }
}

/// The step that follows when nothing at a level was merged.
pub open spec fn after_level(source: CompactionLevel) -> StepView {
    match source {
        CompactionLevel::L0 => StepView::CountSegments { source: CompactionLevel::L1 },
        _ => StepView::Done { outcome: Ok((no_stats(), Seq::empty())) },
    }
}

/// The level that a level's segments are merged into.
pub open spec fn level_above(source: CompactionLevel) -> CompactionLevel {
    match source {
        CompactionLevel::L0 => CompactionLevel::L1,
        _ => CompactionLevel::L2,
    }
}

/// Where a compaction pass stands; each step names the work that is due next.
#[derive(Debug)]
pub enum CompactionStep {
    /// Complete the replacements that an earlier merge left unfinished.
    FinalizeReplacements,
    /// Read the tombstones.
    LoadTombstones,
    /// List the segment directories and read their manifests.
    CountSegments { source: CompactionLevel },
    /// Read the segments of the level.
    LoadSegments { source: CompactionLevel },
    /// Merge the chosen segments.
    MergeSegments { merge: LevelMerge },
    /// The pass is over.
    Done { outcome: Result<CompactionOutcome, TsinkError> },
}

/// What the work named by a step gave.
#[derive(Debug)]
pub enum CompactionReply {
    Finalized(Result<(), TsinkError>),
    TombstonesLoaded(Result<(), TsinkError>),
    SegmentsListed(Result<Vec<SegmentReading>, TsinkError>),
    SegmentsLoaded(Result<Vec<LoadedSegment>, TsinkError>),
    Merged(Result<CompactionOutcome, TsinkError>),
}

/// A step as mathematics.
pub enum StepView {
    FinalizeReplacements,
    LoadTombstones,
    CountSegments { source: CompactionLevel },
    LoadSegments { source: CompactionLevel },
    MergeSegments { source_level: u8, target_level: u8, sources: Seq<usize> },
    Done { outcome: Result<(CompactionRunStats, Seq<String>), ErrorView> },
}

impl View for CompactionStep {
    type V = StepView;

    open spec fn view(&self) -> StepView {
        match self {
            CompactionStep::FinalizeReplacements => StepView::FinalizeReplacements,
            CompactionStep::LoadTombstones => StepView::LoadTombstones,
            CompactionStep::CountSegments { source } => StepView::CountSegments { source: *source },
            CompactionStep::LoadSegments { source } => StepView::LoadSegments { source: *source },
            CompactionStep::MergeSegments { merge } => StepView::MergeSegments {
                source_level: merge.source_level,
                target_level: merge.target_level,
                sources: merge.sources@,
            },
            CompactionStep::Done { outcome } => StepView::Done {
                outcome: match outcome {
                    Ok(outcome) => Ok((outcome.stats, outcome.output_roots@)),
                    Err(error) => Err(error@),
                },
            },
        }
    }
}

/// A failed pass.
pub open spec fn failed(error: ErrorView) -> StepView {
    StepView::Done { outcome: Err(error) }
}

/// The reply is one to the step.
pub open spec fn answers(step: CompactionStep, reply: CompactionReply) -> bool {
    match step {
        CompactionStep::FinalizeReplacements => reply is Finalized,
        CompactionStep::LoadTombstones => reply is TombstonesLoaded,
        CompactionStep::CountSegments { source } => reply is SegmentsListed && source
            != CompactionLevel::L2,
        CompactionStep::LoadSegments { source } => reply is SegmentsLoaded && source
            != CompactionLevel::L2,
        CompactionStep::MergeSegments { .. } => reply is Merged,
        CompactionStep::Done { .. } => false,
    }
}

impl Compactor {
    /// The number of segments at which a pass over the level is due.
    pub open spec fn trigger(&self, source: CompactionLevel) -> usize {
        match source {
            CompactionLevel::L0 => self.l0_trigger,
            _ => self.l1_trigger,
        }
    }

    /// How a pass goes on: the levels are tried in turn, the first merge ends the pass,
    /// and so does the first failure.
    pub open spec fn is_next_step(
        &self,
        step: CompactionStep,
        reply: CompactionReply,
        next: CompactionStep,
    ) -> bool {
        match (step, reply) {
            (
                CompactionStep::FinalizeReplacements,
                CompactionReply::Finalized(result),
            ) => match result {
                Ok(_) => next@ == StepView::LoadTombstones,
                Err(error) => next@ == failed(error@),
            },
            (
                CompactionStep::LoadTombstones,
                CompactionReply::TombstonesLoaded(result),
            ) => match result {
                Ok(_) => next@ == (StepView::CountSegments { source: CompactionLevel::L0 }),
                Err(error) => next@ == failed(error@),
            },
            (
                CompactionStep::CountSegments { source },
                CompactionReply::SegmentsListed(result),
            ) => match result {
                Ok(readings) => exists|count: Result<usize, TsinkError>|
                    {
                        &&& #[trigger] is_level_count(readings@, level_number(source), count)
                        &&& match count {
                            Ok(count) => if count < 2 {
                                next@ == after_level(source)
                            } else {
                                next@ == (StepView::LoadSegments { source })
                            },
                            Err(error) => next@ == failed(error@),
                        }
                    },
                Err(error) => next@ == failed(error@),
            },
            (
                CompactionStep::LoadSegments { source },
                CompactionReply::SegmentsLoaded(result),
            ) => match result {
                Ok(segments) => exists|sources: Option<Seq<usize>>|
                    {
                        &&& #[trigger] is_level_decision(
                            segments@,
                            self.trigger(source),
                            self.source_window_segments,
                            sources,
                        )
                        &&& match sources {
                            Some(sources) => next@ == (StepView::MergeSegments {
                                source_level: level_number(source),
                                target_level: level_number(level_above(source)),
                                sources,
                            }),
                            None => next@ == after_level(source),
                        }
                    },
                Err(error) => next@ == failed(error@),
            },
            (
                CompactionStep::MergeSegments { merge },
                CompactionReply::Merged(result),
            ) => match result {
                Ok(outcome) => next@ == (StepView::Done {
                    outcome: Ok(
                        (
                            CompactionRunStats {
                                compacted: true,
                                source_level: Some(merge.source_level),
                                target_level: Some(merge.target_level),
                                ..outcome.stats
                            },
                            outcome.output_roots@,
                        ),
                    ),
                }),
                Err(error) => next@ == failed(error@),
            },
            _ => false,
        }
    }

    /// Decides on a merge of the segments loaded from one level.
    pub fn try_compact_level(
        &self,
        source: CompactionLevel,
        target: CompactionLevel,
        count_trigger: usize,
        segments: Vec<LoadedSegment>,
    ) -> (merge: Option<LevelMerge>)
        ensures
            is_level_decision(
                segments@,
                count_trigger,
                self.source_window_segments,
                merge_sources(merge),
            ),
            merge matches Some(merge) ==> merge.source_level == level_number(source)
                && merge.target_level == level_number(target),
    {
        if segments.len() < 2 {
            return None;
        }
        let ghost loaded = segments@;
        let mut keys: Vec<(i128, i128, i128)> = Vec::new();
        let mut at: usize = 0;
        while at < segments.len()
            invariant
                at <= segments@.len(),
                keys@.len() == at,
                forall|k: int|
                    0 <= k < at ==> #[trigger] keys@[k] == storage_keys(segments@)[k],
            decreases segments@.len() - at,
        {
            keys.push((segments[at].manifest.segment_id as i128, 0, 0));
            at = at + 1;
        }
        proof {
            assert(keys@ =~= storage_keys(loaded));
        }
        let order = order_by(&keys);
        let sorted = arrange(segments, &keys);
        proof {
            let used = choose|used: Seq<usize>| #[trigger]
                is_order(keys@, used) && sorted@ == arranged(loaded, used);
            lemma_order_unique(keys@, used, order@);
        }
        let selection = select_window_indexes(
            sorted.as_slice(),
            count_trigger,
            self.source_window_segments,
        );
        let ghost chosen = listed(selection);
        assert(is_order(storage_keys(loaded), order@));
        assert(is_selection(
            arranged(loaded, order@),
            count_trigger,
            self.source_window_segments,
            chosen,
        ));
        match selection {
            Some(indexes) => {
                if indexes.len() < 2 {
                    return None;
                }
                let mut sources: Vec<usize> = Vec::new();
                let mut next: usize = 0;
                while next < indexes.len()
                    invariant
                        next <= indexes@.len(),
                        forall|k: int|
                            0 <= k < indexes@.len() ==> (#[trigger] indexes@[k]) < order@.len(),
                        sources@.len() == next,
                        forall|k: int|
                            0 <= k < next ==> #[trigger] sources@[k]
                                == order@[indexes@[k] as int],
                    decreases indexes@.len() - next,
                {
                    sources.push(order[indexes[next]]);
                    next = next + 1;
                }
                proof {
                    assert(sources@ =~= arranged(order@, indexes@));
                }
                Some(
                    LevelMerge {
                        source_level: level_to_u8(source),
                        target_level: level_to_u8(target),
                        sources,
                    },
                )
            },
            None => None,
        }
    }

    /// The first step of a pass.
    pub fn begin_compaction(&self) -> (step: CompactionStep)
        ensures
            step@ == StepView::FinalizeReplacements,
    {
        CompactionStep::FinalizeReplacements
    }

    /// Takes a compaction pass one step on.
    ///
    /// A pass first completes what an earlier one left unfinished, then looks for a merge
    /// from level 0 into level 1, and where there is none, for one from level 1 into
    /// level 2.
    pub fn compact_once_with_changes(
        &self,
        step: CompactionStep,
        reply: CompactionReply,
    ) -> (next: CompactionStep)
        requires
            answers(step, reply),
        ensures
            self.is_next_step(step, reply, next),
            next matches CompactionStep::MergeSegments { merge } ==> merge.target_level
                == merge.source_level + 1,
    {
        match (step, reply) {
            (
                CompactionStep::FinalizeReplacements,
                CompactionReply::Finalized(result),
            ) => match result {
                Ok(_) => CompactionStep::LoadTombstones,
                Err(error) => CompactionStep::Done { outcome: Err(error) },
            },
            (
                CompactionStep::LoadTombstones,
                CompactionReply::TombstonesLoaded(result),
            ) => match result {
                Ok(_) => CompactionStep::CountSegments { source: CompactionLevel::L0 },
                Err(error) => CompactionStep::Done { outcome: Err(error) },
            },
            (
                CompactionStep::CountSegments { source },
                CompactionReply::SegmentsListed(result),
            ) => match result {
                Ok(readings) => {
                    let count = count_level_segments_for_compaction(
                        &readings,
                        level_to_u8(source),
                    );
                    let ghost counted = count;
                    assert(is_level_count(readings@, level_number(source), counted));
                    match count {
                        Ok(count) => if count < 2 {
                            next_level(source)
                        } else {
                            CompactionStep::LoadSegments { source }
                        },
                        Err(error) => CompactionStep::Done { outcome: Err(error) },
                    }
                },
                Err(error) => CompactionStep::Done { outcome: Err(error) },
            },
            (
                CompactionStep::LoadSegments { source },
                CompactionReply::SegmentsLoaded(result),
            ) => match result {
                Ok(segments) => {
                    let ghost loaded = segments@;
                    let (target, count_trigger) = match source {
                        CompactionLevel::L0 => (CompactionLevel::L1, self.l0_trigger),
                        _ => (CompactionLevel::L2, self.l1_trigger),
                    };
                    let merge = self.try_compact_level(source, target, count_trigger, segments);
                    let ghost sources = merge_sources(merge);
                    assert(is_level_decision(
                        loaded,
                        self.trigger(source),
                        self.source_window_segments,
                        sources,
                    ));
                    match merge {
                        Some(merge) => CompactionStep::MergeSegments { merge },
                        None => next_level(source),
                    }
                },
                Err(error) => CompactionStep::Done { outcome: Err(error) },
            },
            (
                CompactionStep::MergeSegments { merge },
                CompactionReply::Merged(result),
            ) => match result {
                Ok(outcome) => CompactionStep::Done {
                    outcome: Ok(
                        CompactionOutcome {
                            stats: CompactionRunStats {
                                compacted: true,
                                source_level: Some(merge.source_level),
                                target_level: Some(merge.target_level),
                                ..outcome.stats
                            },
                            output_roots: outcome.output_roots,
                        },
                    ),
                },
                Err(error) => CompactionStep::Done { outcome: Err(error) },
            },
            _ => {
                assert(false);
                CompactionStep::FinalizeReplacements
            },
        }
    }
}

fn next_level(source: CompactionLevel) -> (step: CompactionStep)
    ensures
        step@ == after_level(source),
{
    match source {
        CompactionLevel::L0 => CompactionStep::CountSegments { source: CompactionLevel::L1 },
        _ => {
            let output_roots: Vec<String> = Vec::new();
            assert(output_roots@ =~= Seq::empty());
            CompactionStep::Done {
                outcome: Ok(
                    CompactionOutcome { stats: CompactionRunStats::default(), output_roots },
                ),
            }
        },
    }
}

/// A pass over two or more segments that selects any selects at least two of them, at
/// most as many as one pass may merge, in storage order.
pub proof fn law_selection_shape(
    segments: Seq<LoadedSegment>,
    count_trigger: usize,
    max_segments: usize,
    indexes: Seq<usize>,
)
    requires
        2 <= segments.len() <= usize::MAX,
        is_selection(segments, count_trigger, max_segments, Some(indexes)),
    ensures
        2 <= indexes.len() <= window_limit(max_segments),
        ascends(indexes),
        forall|k: int| 0 <= k < indexes.len() ==> (#[trigger] indexes[k]) < segments.len(),
{
    if !is_overlap_window(segments, window_limit(max_segments), None) {
        law_overlap_window_shape(segments, window_limit(max_segments), indexes);
        lemma_window_in_range(segments, window_limit(max_segments), indexes);
    }
}

/// Overlap within a series is merged regardless of the count trigger: where a segment
/// overlaps another one, a pass always selects a window.
pub proof fn law_overlap_overrides_the_trigger(
    segments: Seq<LoadedSegment>,
    count_trigger: usize,
    max_segments: usize,
    selection: Option<Seq<usize>>,
    i: int,
)
    requires
        0 <= i < segments.len(),
        overlaps_another(segments, i),
        is_selection(segments, count_trigger, max_segments, selection),
    ensures
        selection is Some,
        is_overlap_window(segments, window_limit(max_segments), selection),
{
}

/// What a pass selects is pinned down: there is one answer.
pub proof fn law_selection_is_unique(
    segments: Seq<LoadedSegment>,
    count_trigger: usize,
    max_segments: usize,
    a: Option<Seq<usize>>,
    b: Option<Seq<usize>>,
)
    requires
        is_selection(segments, count_trigger, max_segments, a),
        is_selection(segments, count_trigger, max_segments, b),
    ensures
        a == b,
{
    if !is_overlap_window(segments, window_limit(max_segments), None) {
        law_overlap_window_is_unique(segments, window_limit(max_segments), a, b);
    }
}

} // verus!
