//! What holds of every compaction pass, in the numbers and segments themselves.
use crate::compactor::planning::{
    after_level, answers, counts, failed, is_level_count, level_number, reading_error,
    stored_under, CompactionLevel, CompactionReply, CompactionStep, SegmentReading, StepView,
};
use crate::compactor::{CompactionRunStats, Compactor};
use crate::error::{ErrorView, TsinkError};
use crate::text::decimal;
use vstd::prelude::*;

verus! {

/// A merge goes one level up: segments of level 0 are merged into level 1, and segments of
/// level 1 into level 2. Only loading the segments of a level leads to a merge.
pub proof fn law_merges_go_one_level_up(
    compactor: Compactor,
    step: CompactionStep,
    reply: CompactionReply,
    next: CompactionStep,
)
    requires
        answers(step, reply),
        compactor.is_next_step(step, reply, next),
        next@ is MergeSegments,
    ensures
        next@->source_level + 1 == next@->target_level,
        match step {
            CompactionStep::LoadSegments { source: CompactionLevel::L0 } => {
                next@->source_level == 0 && next@->target_level == 1
            },
            CompactionStep::LoadSegments { source: CompactionLevel::L1 } => {
                next@->source_level == 1 && next@->target_level == 2
            },
            _ => false,
        },
{
}

/// The failure that a reply reports, if it reports one.
pub open spec fn failure_in(reply: CompactionReply) -> Option<TsinkError> {
    match reply {
        CompactionReply::Finalized(Err(error)) => Some(error),
        CompactionReply::TombstonesLoaded(Err(error)) => Some(error),
        CompactionReply::SegmentsListed(Err(error)) => Some(error),
        CompactionReply::SegmentsLoaded(Err(error)) => Some(error),
        CompactionReply::Merged(Err(error)) => Some(error),
        _ => None,
    }
}

/// A pass whose work fails ends with that very failure.
pub proof fn law_failed_work_ends_the_pass(
    compactor: Compactor,
    step: CompactionStep,
    reply: CompactionReply,
    next: CompactionStep,
)
    requires
        answers(step, reply),
        compactor.is_next_step(step, reply, next),
        failure_in(reply) is Some,
    ensures
        next@ == (StepView::Done {
            outcome: Err::<(CompactionRunStats, Seq<String>), ErrorView>(failure_in(reply)->Some_0@),
        }),
{
}

/// The step looks at that level.
pub open spec fn looks_at(step: CompactionStep, level: CompactionLevel) -> bool {
    match step {
        CompactionStep::CountSegments { source } => source == level,
        CompactionStep::LoadSegments { source } => source == level,
        _ => false,
    }
}

/// What comes before a step. Unfinished replacements are completed before the tombstones are
/// read, those before level 0 is looked at, and level 0 before level 1; the segments of a level
/// are loaded only after they were counted. A pass that ends well either merged nothing, after
/// it looked at level 1, and then counts nothing and wrote nothing; or it ends with what its
/// one merge gave, under the levels of that merge.
pub proof fn law_levels_are_tried_in_turn(
    compactor: Compactor,
    step: CompactionStep,
    reply: CompactionReply,
    next: CompactionStep,
)
    requires
        answers(step, reply),
        compactor.is_next_step(step, reply, next),
    ensures
        match next@ {
            StepView::FinalizeReplacements => false,
            StepView::LoadTombstones => step is FinalizeReplacements,
            StepView::CountSegments { source } => match source {
                CompactionLevel::L0 => step is LoadTombstones,
                CompactionLevel::L1 => looks_at(step, CompactionLevel::L0),
                CompactionLevel::L2 => false,
            },
            StepView::LoadSegments { source } => step == (CompactionStep::CountSegments { source }),
            StepView::MergeSegments { .. } => step is LoadSegments,
            StepView::Done { outcome: Err(_) } => true,
            StepView::Done { outcome: Ok((stats, roots)) } => if stats.compacted {
                step matches CompactionStep::MergeSegments { merge }
                    && reply matches CompactionReply::Merged(Ok(merged)) && {
                    &&& stats.source_level == Some(merge.source_level)
                    &&& stats.target_level == Some(merge.target_level)
                    &&& stats.source_segments == merged.stats.source_segments
                    &&& stats.output_segments == merged.stats.output_segments
                    &&& stats.source_chunks == merged.stats.source_chunks
                    &&& stats.output_chunks == merged.stats.output_chunks
                    &&& stats.source_points == merged.stats.source_points
                    &&& stats.output_points == merged.stats.output_points
                    &&& roots == merged.output_roots@
                }
            } else {
                &&& looks_at(step, CompactionLevel::L1)
                &&& stats.source_level is None
                &&& stats.target_level is None
                &&& stats.source_segments == 0
                &&& stats.output_segments == 0
                &&& stats.source_chunks == 0
                &&& stats.output_chunks == 0
                &&& stats.source_points == 0
                &&& stats.output_points == 0
                &&& roots.len() == 0
            },
        },
        failure_in(reply) is None ==> (step is FinalizeReplacements ==> next@ is LoadTombstones)
            && (step is LoadTombstones ==> next@ is CountSegments) && (step is MergeSegments
            ==> next@ matches StepView::Done { outcome: Ok(_) }),
{
}

/// A filter keeps something exactly where something is wanted.
proof fn lemma_some_kept<T>(items: Seq<T>, keep: spec_fn(T) -> bool)
    ensures
        items.filter(keep).len() > 0 <==> exists|i: int|
            0 <= i < items.len() && keep(#[trigger] items[i]),
    decreases items.len(),
{
    reveal(Seq::filter);
    if items.len() > 0 {
        let front = items.drop_last();
        lemma_some_kept(front, keep);
        if front.filter(keep).len() > 0 {
            let i = choose|i: int| 0 <= i < front.len() && keep(#[trigger] front[i]);
            assert(keep(items[i]));
        }
        if exists|i: int| 0 <= i < items.len() && keep(#[trigger] items[i]) {
            let i = choose|i: int| 0 <= i < items.len() && keep(#[trigger] items[i]);
            if i < front.len() {
                assert(keep(front[i]));
            }
        }
        if keep(items.last()) {
            assert(keep(items[items.len() - 1]));
        }
    }
}

/// A filter keeps two items exactly where two are wanted.
proof fn lemma_two_kept<T>(items: Seq<T>, keep: spec_fn(T) -> bool)
    ensures
        items.filter(keep).len() >= 2 <==> exists|i: int, j: int|
            0 <= i < j < items.len() && keep(#[trigger] items[i]) && keep(#[trigger] items[j]),
    decreases items.len(),
{
    reveal(Seq::filter);
    if items.len() > 0 {
        let front = items.drop_last();
        let last = items.len() - 1;
        lemma_two_kept(front, keep);
        lemma_some_kept(front, keep);
        if front.filter(keep).len() >= 2 {
            let (i, j) = choose|i: int, j: int|
                0 <= i < j < front.len() && keep(#[trigger] front[i]) && keep(#[trigger] front[j]);
            assert(keep(items[i]) && keep(items[j]));
        }
        if front.filter(keep).len() > 0 && keep(items.last()) {
            let i = choose|i: int| 0 <= i < front.len() && keep(#[trigger] front[i]);
            assert(keep(items[i]) && keep(items[last]));
        }
        if exists|i: int, j: int|
            0 <= i < j < items.len() && keep(#[trigger] items[i]) && keep(#[trigger] items[j]) {
            let (i, j) = choose|i: int, j: int|
                0 <= i < j < items.len() && keep(#[trigger] items[i]) && keep(#[trigger] items[j]);
            assert(keep(front[i]));
            if j < front.len() {
                assert(keep(front[j]));
            }
        }
    }
}

/// The directory lies in that of the level.
pub open spec fn lies_in(reading: SegmentReading, level: CompactionLevel) -> bool {
    reading.level_dir matches Some(name) && name@ == (match level {
        CompactionLevel::L0 => "L0"@,
        CompactionLevel::L1 => "L1"@,
        CompactionLevel::L2 => "L2"@,
    })
}

/// The manifest of the directory says that level.
pub open spec fn says_level(reading: SegmentReading, level: CompactionLevel) -> bool {
    reading.manifest matches Ok(manifest) && (match level {
        CompactionLevel::L0 => manifest.level == 0,
        CompactionLevel::L1 => manifest.level == 1,
        CompactionLevel::L2 => manifest.level == 2,
    })
}

/// The directory has lost its manifest.
pub open spec fn has_lost_manifest(reading: SegmentReading) -> bool {
    reading.manifest matches Err(error) && error@ is NotFound
}

/// The directory lies in that of the level, but its manifest says another one or cannot be
/// read. One that has lost its manifest is passed over.
pub open spec fn is_misplaced(reading: SegmentReading, level: CompactionLevel) -> bool {
    lies_in(reading, level) && !says_level(reading, level) && !has_lost_manifest(reading)
}

proof fn lemma_level_directories(reading: SegmentReading, level: CompactionLevel)
    ensures
        lies_in(reading, level) == stored_under(reading, level_number(level)),
{
    reveal_strlit("L");
    reveal_strlit("L0");
    reveal_strlit("L1");
    reveal_strlit("L2");
    assert("L0"@ =~= "L"@ + decimal(0));
    assert("L1"@ =~= "L"@ + decimal(1));
    assert("L2"@ =~= "L"@ + decimal(2));
}

/// The segments of a level are loaded exactly where its directory holds two or more, and none
/// of them is misplaced. With fewer of them the pass goes on to level 1, or after level 1
/// merges nothing.
pub proof fn law_two_segments_make_a_level_worth_loading(
    compactor: Compactor,
    source: CompactionLevel,
    readings: Vec<SegmentReading>,
    next: CompactionStep,
)
    requires
        source != CompactionLevel::L2,
        compactor.is_next_step(
            CompactionStep::CountSegments { source },
            CompactionReply::SegmentsListed(Ok(readings)),
            next,
        ),
    ensures
        ({
            let misplaced = exists|i: int|
                0 <= i < readings@.len() && is_misplaced(#[trigger] readings@[i], source);
            let two = exists|i: int, j: int|
                0 <= i < j < readings@.len() && {
                    &&& lies_in(#[trigger] readings@[i], source)
                    &&& says_level(readings@[i], source)
                    &&& lies_in(#[trigger] readings@[j], source)
                    &&& says_level(readings@[j], source)
                };
            &&& misplaced <==> next@ is Done && next@->outcome is Err
            &&& next@ == (StepView::LoadSegments { source }) <==> two && !misplaced
            &&& !two && !misplaced ==> match source {
                CompactionLevel::L0 => next@ == (StepView::CountSegments {
                    source: CompactionLevel::L1,
                }),
                _ => next@ matches StepView::Done { outcome: Ok(_) },
            }
        }),
{
    let level = level_number(source);
    let wanted = |reading: SegmentReading| counts(reading, level);
    let count = choose|count: Result<usize, TsinkError>|
        {
            &&& #[trigger] is_level_count(readings@, level, count)
            &&& match count {
                Ok(count) => if count < 2 {
                    next@ == after_level(source)
                } else {
                    next@ == (StepView::LoadSegments { source })
                },
                Err(error) => next@ == failed(error@),
            }
        };
    assert forall|i: int| 0 <= i < readings@.len() implies is_misplaced(
        #[trigger] readings@[i],
        source,
    ) == (reading_error(readings@[i], level) is Some) && lies_in(readings@[i], source)
        == stored_under(readings@[i], level) by {
        lemma_level_directories(readings@[i], source);
    }
    lemma_two_kept(readings@, wanted);
    assert(readings@.filter(wanted) == readings@.filter(
        |reading: SegmentReading| counts(reading, level),
    ));
    match count {
        Ok(_) => {
            assert forall|i: int| 0 <= i < readings@.len() implies !is_misplaced(
                #[trigger] readings@[i],
                source,
            ) by {
                assert(reading_error(readings@[i], level) is None);
            }
            assert forall|i: int| 0 <= i < readings@.len() implies wanted(#[trigger] readings@[i])
                == (lies_in(readings@[i], source) && says_level(readings@[i], source)) by {
                assert(!is_misplaced(readings@[i], source));
                assert(reading_error(readings@[i], level) is None);
            }
        },
        Err(_) => {},
    }
}

/// The first misplaced directory is what a pass fails on: with a report under the root of the
/// directory where its manifest says another level or is corrupt, and else with what reading
/// it failed with.
pub proof fn law_first_misplaced_segment_fails_the_pass(
    compactor: Compactor,
    source: CompactionLevel,
    readings: Vec<SegmentReading>,
    next: CompactionStep,
    at: int,
)
    requires
        source != CompactionLevel::L2,
        compactor.is_next_step(
            CompactionStep::CountSegments { source },
            CompactionReply::SegmentsListed(Ok(readings)),
            next,
        ),
        0 <= at < readings@.len(),
        is_misplaced(readings@[at], source),
        forall|i: int| 0 <= i < at ==> !is_misplaced(#[trigger] readings@[i], source),
    ensures
        ({
            let error = next@->outcome->Err_0;
            &&& next@ is Done && next@->outcome is Err
            &&& match readings@[at].manifest {
                Ok(manifest) => error == (ErrorView::SegmentValidation {
                    root: readings@[at].root@,
                    details: "segment directory level mismatch: stored under L"@ + decimal(
                        if source == CompactionLevel::L0 {
                            0
                        } else {
                            1
                        },
                    ) + ", manifest says L"@ + decimal(manifest.level as nat),
                }),
                Err(found) => match found@ {
                    ErrorView::DataCorruption(text) => error == (ErrorView::SegmentValidation {
                        root: readings@[at].root@,
                        details: text,
                    }),
                    other => error == other,
                },
            }
        }),
{
    let level = level_number(source);
    let count = choose|count: Result<usize, TsinkError>|
        {
            &&& #[trigger] is_level_count(readings@, level, count)
            &&& match count {
                Ok(count) => if count < 2 {
                    next@ == after_level(source)
                } else {
                    next@ == (StepView::LoadSegments { source })
                },
                Err(error) => next@ == failed(error@),
            }
        };
    assert forall|i: int| 0 <= i < readings@.len() implies is_misplaced(
        #[trigger] readings@[i],
        source,
    ) == (reading_error(readings@[i], level) is Some) by {
        lemma_level_directories(readings@[i], source);
    }
    assert(reading_error(readings@[at], level) is Some);
    let error = count->Err_0;
    let i = choose|i: int|
        {
            &&& 0 <= i < readings@.len()
            &&& reading_error(#[trigger] readings@[i], level) == Some(error@)
            &&& forall|k: int| 0 <= k < i ==> reading_error(#[trigger] readings@[k], level) is None
        };
    assert(is_misplaced(readings@[i], source));
    assert(i == at) by {
        if i < at {
            assert(!is_misplaced(readings@[i], source));
        }
        if at < i {
            assert(reading_error(readings@[at], level) is None);
        }
    }
}

} // verus!
