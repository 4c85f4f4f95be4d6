//! The models that contracts speak of hold all that the values do.
use crate::compactor::final_level::{segment_view, FinalLevelSegment};
use crate::compactor::planning::{listed, merge_sources, CompactionStep, LevelMerge, StepView};
use crate::error::{ErrorView, TsinkError};
use crate::maintenance::final_level::{OfflineStep, OfflineStepView};
use crate::registry_catalog::cache::{catalog_outcome, outcome_view};
use crate::registry_catalog::persist::{
    reading_view, PersistReply, PersistReplyView, PersistStep, PersistStepView,
};
use crate::registry_catalog::{
    list_view, manifest_view, sources_view, PersistedRegistryCatalogFile,
    PersistedRegistryCatalogSource, SegmentManifestFingerprint,
};
use crate::rollups::pass::{
    buckets_view, error_view, existing_view, held_view, matched_view, planned_view, reads_view,
    runs_view, texts_view, unit_view, DataPoint, MatchedSources, PlannedRead, PlannedRollupSource,
    PolicyRun,
};
use crate::rollups::pipeline::{persisting_view, ClosingStep};
use crate::rollups::sources::{source_series_view, DecodedSeries, RollupSourceSeries};
use crate::rollups::state::{
    staged_view, text_view, RollupPolicyRunState, RollupStateStoreContext, StagedMaterialization,
};
use crate::series::{labels_view, series_view, Label, PersistedSeries, SeriesKey};
use vstd::prelude::*;

verus! {

/// The model of an error is the same case with the same contents.
pub proof fn law_errors_are_modelled_whole(error: TsinkError)
    ensures
        match error {
            TsinkError::DataCorruption(text) => error@ == ErrorView::DataCorruption(text@),
            TsinkError::InvalidConfiguration(text) => error@ == ErrorView::InvalidConfiguration(
                text@,
            ),
            TsinkError::WriteTimeout { timeout_ms, workers } => error@ == (ErrorView::WriteTimeout {
                timeout_ms,
                workers,
            }),
            TsinkError::SegmentValidation { root, details } => error@ == (
            ErrorView::SegmentValidation { root: root@, details: details@ }),
            TsinkError::NotFound(text) => error@ == ErrorView::NotFound(text@),
            TsinkError::Storage(text) => error@ == ErrorView::Storage(text@),
        },
{
}

/// The model of a series has its id, its metric, and every label in order.
pub proof fn law_series_are_modelled_whole(
    label: Label,
    key: SeriesKey,
    one: PersistedSeries,
    labels: Seq<Label>,
    list: Seq<PersistedSeries>,
)
    ensures
        label@.name == label.name@,
        label@.value == label.value@,
        key@.metric == key.metric@,
        key@.labels.len() == key.labels@.len(),
        forall|i: int|
            0 <= i < key.labels@.len() ==> #[trigger] key@.labels[i] == key.labels@[i]@,
        one@.id == one.series_id,
        one@.key == one.key@,
        labels_view(labels).len() == labels.len(),
        forall|i: int| 0 <= i < labels.len() ==> #[trigger] labels_view(labels)[i] == labels[i]@,
        series_view(list).len() == list.len(),
        forall|i: int| 0 <= i < list.len() ==> #[trigger] series_view(list)[i] == list[i]@,
{
}

/// The model of a catalog, and of what it is read from, has every field and every entry.
pub proof fn law_catalogs_are_modelled_whole(
    source: PersistedRegistryCatalogSource,
    sources: Seq<PersistedRegistryCatalogSource>,
    catalog: PersistedRegistryCatalogFile,
    manifest: Result<SegmentManifestFingerprint, TsinkError>,
    list: Result<Vec<PersistedSeries>, TsinkError>,
    reading: Option<Result<PersistedRegistryCatalogFile, TsinkError>>,
    outcome: Result<(), TsinkError>,
    given: Result<PersistedRegistryCatalogFile, TsinkError>,
)
    ensures
        source@.lane == source.lane,
        source@.root == source.root@,
        sources_view(sources).len() == sources.len(),
        forall|i: int|
            0 <= i < sources.len() ==> #[trigger] sources_view(sources)[i] == sources[i]@,
        catalog@.version == catalog.version,
        catalog@.segments == catalog.segments@,
        catalog@.series_fingerprint == catalog.series_fingerprint,
        match manifest {
            Ok(read) => manifest_view(manifest) == Ok::<_, ErrorView>(read),
            Err(error) => manifest_view(manifest) == Err::<SegmentManifestFingerprint, _>(error@),
        },
        match list {
            Ok(read) => list_view(list) is Ok && list_view(list)->Ok_0 == series_view(read@),
            Err(error) => list_view(list) is Err && list_view(list)->Err_0 == error@,
        },
        match reading {
            None => reading_view(reading) is None,
            Some(Ok(read)) => reading_view(reading) == Some(Ok::<_, ErrorView>(read@)),
            Some(Err(error)) => reading_view(reading) is Some && reading_view(
                reading,
            )->Some_0 is Err && reading_view(reading)->Some_0->Err_0 == error@,
        },
        match outcome {
            Ok(_) => outcome_view(outcome) is Ok,
            Err(error) => outcome_view(outcome) == Err::<(), ErrorView>(error@),
        },
        match given {
            Ok(read) => catalog_outcome(given) == Ok::<_, ErrorView>(read@),
            Err(error) => catalog_outcome(given) is Err && catalog_outcome(given)->Err_0 == error@,
        },
{
}

/// The model of a step of persisting, and of what came of it, is the same case with the same
/// contents.
pub proof fn law_persisting_is_modelled_whole(step: PersistStep, reply: PersistReply)
    ensures
        match step {
            PersistStep::ReadManifests { positions } => step@ == (PersistStepView::ReadManifests {
                positions: positions@,
            }),
            PersistStep::ReadCatalog => step@ == PersistStepView::ReadCatalog,
            PersistStep::ReadSeries { positions } => step@ == (PersistStepView::ReadSeries {
                positions: positions@,
            }),
            PersistStep::LookForFile { catalog } => step@ == (PersistStepView::LookForFile {
                catalog: catalog@,
            }),
            PersistStep::WriteFile { catalog } => step@ == (PersistStepView::WriteFile {
                catalog: catalog@,
            }),
            PersistStep::Done { outcome: Ok(_) } => step@ is Done && step@->outcome is Ok,
            PersistStep::Done { outcome: Err(error) } => step@ is Done && step@->outcome == Err::<
                (),
                ErrorView,
            >(error@),
        },
        match reply {
            PersistReply::ManifestsRead(files) => reply@ == PersistReplyView::ManifestsRead(files@),
            PersistReply::SeriesRead(files) => reply@ == PersistReplyView::SeriesRead(files@),
            PersistReply::CatalogRead(Ok(Some(catalog))) => reply@ == PersistReplyView::CatalogRead(
                Ok(Some(catalog@)),
            ),
            PersistReply::CatalogRead(Ok(None)) => reply@ == PersistReplyView::CatalogRead(
                Ok(None),
            ),
            PersistReply::CatalogRead(Err(error)) => reply@ == PersistReplyView::CatalogRead(
                Err(error@),
            ),
            PersistReply::Looked(Ok(there)) => reply@ == PersistReplyView::Looked(Ok(there)),
            PersistReply::Looked(Err(error)) => reply@ == PersistReplyView::Looked(Err(error@)),
            PersistReply::Written(Ok(_)) => reply@ matches PersistReplyView::Written(Ok(_)),
            PersistReply::Written(Err(error)) => reply@ == PersistReplyView::Written(Err(error@)),
        },
{
}

/// The model of a step of compaction is the same case with the same contents.
pub proof fn law_compaction_is_modelled_whole(
    step: CompactionStep,
    offline: OfflineStep,
    merge: LevelMerge,
    segment: FinalLevelSegment,
    positions: Vec<usize>,
)
    ensures
        match step {
            CompactionStep::FinalizeReplacements => step@ == StepView::FinalizeReplacements,
            CompactionStep::LoadTombstones => step@ == StepView::LoadTombstones,
            CompactionStep::CountSegments { source } => step@ == (StepView::CountSegments {
                source,
            }),
            CompactionStep::LoadSegments { source } => step@ == (StepView::LoadSegments { source }),
            CompactionStep::MergeSegments { merge } => step@ == (StepView::MergeSegments {
                source_level: merge.source_level,
                target_level: merge.target_level,
                sources: merge.sources@,
            }),
            CompactionStep::Done { outcome: Ok(outcome) } => step@ is Done && step@->outcome is Ok
                && step@->outcome->Ok_0.0 == outcome.stats && step@->outcome->Ok_0.1
                == outcome.output_roots@,
            CompactionStep::Done { outcome: Err(error) } => step@ is Done && step@->outcome is Err
                && step@->outcome->Err_0 == error@,
        },
        match offline {
            OfflineStep::AcquireLock => offline@ == OfflineStepView::AcquireLock,
            OfflineStep::ScanLane { lane } => offline@ == (OfflineStepView::ScanLane { lane }),
            OfflineStep::MergeGroup { lane, group } => offline@ == (OfflineStepView::MergeGroup {
                lane,
                group: group@,
            }),
            OfflineStep::Done { outcome: Ok(stats) } => offline@ is Done && offline@->outcome is Ok
                && offline@->outcome->Ok_0 == stats,
            OfflineStep::Done { outcome: Err(error) } => offline@ is Done
                && offline@->outcome is Err && offline@->outcome->Err_0 == error@,
        },
        segment_view(segment).0 == segment.root@,
        segment_view(segment).1 == segment.manifest,
        listed(Some(positions)) == Some(positions@),
        listed::<usize>(None) is None,
        merge_sources(Some(merge)) == Some(merge.sources@),
        merge_sources(None) is None,
{
}

/// The model of a source has its id, its key, and every label in order.
pub proof fn law_sources_are_modelled_whole(
    source: RollupSourceSeries,
    decoded: DecodedSeries,
    sources: Seq<RollupSourceSeries>,
)
    ensures
        source@.series_id == source.series_id,
        source@.source_key == source.source_key@,
        source@.labels.len() == source.labels@.len(),
        forall|i: int|
            0 <= i < source.labels@.len() ==> #[trigger] source@.labels[i] == source.labels@[i]@,
        decoded@.matches_policy == decoded.matches_policy,
        decoded@.source_key == decoded.source_key@,
        decoded@.labels.len() == decoded.labels@.len(),
        forall|i: int|
            0 <= i < decoded.labels@.len() ==> #[trigger] decoded@.labels[i] == decoded.labels@[i]@,
        source_series_view(sources).len() == sources.len(),
        forall|i: int|
            0 <= i < sources.len() ==> #[trigger] source_series_view(sources)[i] == sources[i]@,
{
}

/// The model of what a pass is given is the same case with the same contents, in order.
pub proof fn law_events_are_modelled_whole<P>(
    matched: Result<MatchedSources, TsinkError>,
    buckets: Result<Vec<DataPoint<P>>, TsinkError>,
    existing: Result<Vec<i64>, TsinkError>,
    outcome: Result<(), TsinkError>,
    persisted: Option<Result<(), TsinkError>>,
    error: Option<TsinkError>,
    closing: ClosingStep,
)
    ensures
        match matched {
            Ok(found) => matched_view(matched) is Ok && matched_view(matched)->Ok_0.sources
                == source_series_view(found.sources@) && matched_view(matched)->Ok_0.stable_end
                == found.stable_end,
            Err(failure) => matched_view(matched) is Err && matched_view(matched)->Err_0
                == failure@,
        },
        match buckets {
            Ok(points) => buckets_view(buckets) == Ok::<_, ErrorView>(points@),
            Err(failure) => buckets_view(buckets) is Err && buckets_view(buckets)->Err_0
                == failure@,
        },
        match existing {
            Ok(timestamps) => existing_view(existing) == Ok::<_, ErrorView>(timestamps@),
            Err(failure) => existing_view(existing) is Err && existing_view(existing)->Err_0
                == failure@,
        },
        match outcome {
            Ok(_) => unit_view(outcome) is Ok,
            Err(failure) => unit_view(outcome) == Err::<(), ErrorView>(failure@),
        },
        match persisted {
            Some(Ok(_)) => persisting_view(persisted) is Ok,
            Some(Err(failure)) => persisting_view(persisted) == Err::<(), ErrorView>(failure@),
            None => persisting_view(persisted) is Ok,
        },
        match error {
            Some(failure) => error_view(error) == Some(failure@),
            None => error_view(error) is None,
        },
        match closing {
            ClosingStep::PersistState { first_error } => closing.first_error() == error_view(
                first_error,
            ),
            ClosingStep::Conclude { first_error } => closing.first_error() == error_view(
                first_error,
            ),
        },
{
}

/// The model of what a pass holds has every field and every item, in order.
pub proof fn law_passes_are_modelled_whole<P>(
    read: PlannedRead,
    reads: Seq<PlannedRead>,
    item: PlannedRollupSource<P>,
    items: Seq<PlannedRollupSource<P>>,
    run: PolicyRun,
    runs: Seq<PolicyRun>,
    texts: Seq<String>,
    text: Option<String>,
)
    ensures
        read@.source == read.source@,
        read@.checkpoint == read.checkpoint,
        read@.target_end == read.target_end,
        reads_view(reads).len() == reads.len(),
        forall|i: int| 0 <= i < reads.len() ==> #[trigger] reads_view(reads)[i] == reads[i]@,
        item@.policy == item.policy,
        item@.source == item.source@,
        item@.pending == item.pending,
        item@.points == item.points@,
        planned_view(items).len() == items.len(),
        forall|i: int| 0 <= i < items.len() ==> #[trigger] planned_view(items)[i] == items[i]@,
        held_view(Some(item)) == Some(item@),
        held_view::<P>(None) is None,
        run@.started_nanos == run.started_nanos,
        run@.started_at_ms == run.started_at_ms,
        run@.finished_nanos == run.finished_nanos,
        run@.report == run.report,
        run@.source_keys == texts_view(run.source_keys@),
        run@.error == text_view(run.error),
        runs_view(runs).len() == runs.len(),
        forall|i: int| 0 <= i < runs.len() ==> #[trigger] runs_view(runs)[i] == runs[i]@,
        texts_view(texts).len() == texts.len(),
        forall|i: int| 0 <= i < texts.len() ==> #[trigger] texts_view(texts)[i] == texts[i]@,
        match text {
            Some(known) => text_view(text) == Some(known@),
            None => text_view(text) is None,
        },
{
}

/// The model of the rollup state has every checkpoint, generation, pending materialization and
/// run state, under the keys they are kept under.
pub proof fn law_rollup_state_is_modelled_whole(
    store: RollupStateStoreContext,
    state: RollupPolicyRunState,
    one: StagedMaterialization,
    staged: Seq<StagedMaterialization>,
    policy_id: Seq<char>,
)
    ensures
        store@.checkpoints.contains_key(policy_id) <==> store.checkpoints@.contains_key(policy_id),
        store.checkpoints@.contains_key(policy_id) ==> store@.checkpoints[policy_id]
            == store.checkpoints@[policy_id]@,
        store@.generations == store.generations@,
        store@.pending.contains_key(policy_id) <==> store.pending_materializations@.contains_key(
            policy_id,
        ),
        store.pending_materializations@.contains_key(policy_id) ==> store@.pending[policy_id]
            == store.pending_materializations@[policy_id]@,
        store@.stats.contains_key(policy_id) <==> store.policy_stats@.contains_key(policy_id),
        store.policy_stats@.contains_key(policy_id) ==> store@.stats[policy_id]
            == store.policy_stats@[policy_id]@,
        state@.matched_series == state.matched_series,
        state@.materialized_series == state.materialized_series,
        state@.materialized_through == state.materialized_through,
        state@.last_run_started_at_ms == state.last_run_started_at_ms,
        state@.last_run_completed_at_ms == state.last_run_completed_at_ms,
        state@.last_run_duration_nanos == state.last_run_duration_nanos,
        state@.last_error == text_view(state.last_error),
        one@.policy_id == one.policy_id@,
        one@.source_key == one.source_key@,
        one@.pending == one.pending,
        staged_view(staged).len() == staged.len(),
        forall|i: int| 0 <= i < staged.len() ==> #[trigger] staged_view(staged)[i] == staged[i]@,
{
}

} // verus!
