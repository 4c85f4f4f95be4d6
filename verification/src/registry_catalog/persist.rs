//! When the catalog file is read, trusted and written.
use crate::error::{ErrorView, TsinkError};
use crate::registry_catalog::cache::{
    adopted, cataloged, manifests_to_read, outcome_view, series_to_read, synced, CacheView,
    RegistryCatalogCache,
};
use crate::registry_catalog::fingerprint::PersistedRegistrySeriesFingerprint;
use crate::registry_catalog::from_files::{build_catalog_entries, entries_of, sorted_entries};
use crate::registry_catalog::{
    same_entries, sources_view, CatalogView, FilesView, PersistedRegistryCatalogFile,
    PersistedRegistryCatalogSource, SegmentFiles, SourceView,
};
use vstd::prelude::*;

verus! {

/// The name of the catalog file, which lies beside the registry snapshot.
pub const REGISTRY_CATALOG_FILE_NAME: &'static str = "series_index.catalog.json";

/// A catalog that describes the segments of a store.
#[derive(Debug)]
pub struct ValidatedRegistryCatalog {
    pub series_fingerprint: Option<PersistedRegistrySeriesFingerprint>,
}

/// What validating a catalog file gives. `on_disk` is `None` where there is no file, and
/// an error where it cannot be read or understood.
pub open spec fn validation(
    sources: Seq<SourceView>,
    files: FilesView,
    on_disk: Option<Result<CatalogView, ErrorView>>,
) -> Result<Option<Option<PersistedRegistrySeriesFingerprint>>, ErrorView> {
    match on_disk {
        None => Ok(None),
        Some(reading) => match entries_of(sources, files) {
            Err(error) => Err(error),
            Ok(entries) => match reading {
                Err(error) => Err(error),
                Ok(catalog) => if catalog.segments == sorted_entries(entries) {
                    Ok(Some(catalog.series_fingerprint))
                } else {
                    Ok(None)
                },
            },
        },
    }
}

/// The outcome of reading a catalog file, as mathematics.
pub open spec fn reading_view(
    reading: Option<Result<PersistedRegistryCatalogFile, TsinkError>>,
) -> Option<Result<CatalogView, ErrorView>> {
    match reading {
        None => None,
        Some(Ok(catalog)) => Some(Ok(catalog@)),
        Some(Err(error)) => Some(Err(error@)),
    }
}

/// Whether the catalog on disk describes the sources.
pub fn validate_registry_catalog(
    sources: &[PersistedRegistryCatalogSource],
    files: &SegmentFiles,
    on_disk: Option<Result<PersistedRegistryCatalogFile, TsinkError>>,
) -> (outcome: Result<Option<ValidatedRegistryCatalog>, TsinkError>)
    ensures
        match validation(sources_view(sources@), files@, reading_view(on_disk)) {
            Err(error) => outcome is Err && outcome->Err_0@ == error,
            Ok(None) => outcome is Ok && outcome->Ok_0 is None,
            Ok(Some(fingerprint)) => outcome is Ok && outcome->Ok_0 == Some(
                ValidatedRegistryCatalog { series_fingerprint: fingerprint },
            ),
        },
{
    let reading = match on_disk {
        Some(reading) => reading,
        None => {
            return Ok(None);
        },
    };
    let expected = match build_catalog_entries(sources, files) {
        Ok(expected) => expected,
        Err(error) => {
            return Err(error);
        },
    };
    match reading {
        Ok(actual) => {
            if same_entries(&actual.segments, &expected) {
                Ok(
                    Some(
                        ValidatedRegistryCatalog { series_fingerprint: actual.series_fingerprint },
                    ),
                )
            } else {
                Ok(None)
            }
        },
        Err(error) => Err(error),
    }
}

/// The cache after it looked at the catalog file. A cache that knows what is on disk does
/// not look.
pub open spec fn opened(
    cache: CacheView,
    sources: Seq<SourceView>,
    files: FilesView,
    on_disk: Option<CatalogView>,
) -> (CacheView, Result<(), ErrorView>) {
    if cache.persisted is Some {
        (cache, Ok(()))
    } else {
        let (known, outcome) = synced(cache, sources, files);
        match outcome {
            Err(error) => (known, Err(error)),
            Ok(()) => match on_disk {
                Some(catalog) => (adopted(known, sources, catalog), Ok(())),
                None => (known, Ok(())),
            },
        }
    }
}

/// The cache after its catalog was asked for, and the catalog that should be on disk with
/// whether it has to be written: unless the cache knows that very catalog to be on disk and
/// the file is still there.
pub open spec fn write_plan(
    cache: CacheView,
    sources: Seq<SourceView>,
    files: FilesView,
    present: Result<bool, ErrorView>,
) -> (CacheView, Result<(CatalogView, bool), ErrorView>) {
    let (after, outcome) = cataloged(cache, sources, files);
    match outcome {
        Err(error) => (after, Err(error)),
        Ok(catalog) => if after.persisted == Some(catalog) {
            match present {
                Ok(there) => (after, Ok((catalog, !there))),
                Err(error) => (after, Err(error)),
            }
        } else {
            (after, Ok((catalog, true)))
        },
    }
}

/// Where persisting a catalog stands; each step names the work that is due next.
#[derive(Debug)]
pub enum PersistStep {
    /// Read the manifests of the sources at these positions.
    ReadManifests { positions: Vec<usize> },
    /// Read the catalog file. One that cannot be understood counts as none.
    ReadCatalog,
    /// Read the series lists of the sources at these positions.
    ReadSeries { positions: Vec<usize> },
    /// Find out whether the catalog file is there.
    LookForFile { catalog: PersistedRegistryCatalogFile },
    /// Write the catalog file.
    WriteFile { catalog: PersistedRegistryCatalogFile },
    /// The catalog is persisted, or could not be.
    Done { outcome: Result<(), TsinkError> },
}

/// What the work named by a step gave.
pub enum PersistReply {
    ManifestsRead(SegmentFiles),
    CatalogRead(Result<Option<PersistedRegistryCatalogFile>, TsinkError>),
    SeriesRead(SegmentFiles),
    Looked(Result<bool, TsinkError>),
    Written(Result<(), TsinkError>),
}

/// A step as mathematics.
pub enum PersistStepView {
    ReadManifests { positions: Seq<usize> },
    ReadCatalog,
    ReadSeries { positions: Seq<usize> },
    LookForFile { catalog: CatalogView },
    WriteFile { catalog: CatalogView },
    Done { outcome: Result<(), ErrorView> },
}

/// What the work named by a step gave, as mathematics.
pub enum PersistReplyView {
    ManifestsRead(FilesView),
    CatalogRead(Result<Option<CatalogView>, ErrorView>),
    SeriesRead(FilesView),
    Looked(Result<bool, ErrorView>),
    Written(Result<(), ErrorView>),
}

impl View for PersistStep {
    type V = PersistStepView;

    open spec fn view(&self) -> PersistStepView {
        match self {
            PersistStep::ReadManifests { positions } => PersistStepView::ReadManifests {
                positions: positions@,
            },
            PersistStep::ReadCatalog => PersistStepView::ReadCatalog,
            PersistStep::ReadSeries { positions } => PersistStepView::ReadSeries {
                positions: positions@,
            },
            PersistStep::LookForFile { catalog } => PersistStepView::LookForFile {
                catalog: catalog@,
            },
            PersistStep::WriteFile { catalog } => PersistStepView::WriteFile { catalog: catalog@ },
            PersistStep::Done { outcome } => PersistStepView::Done {
                outcome: outcome_view(*outcome),
            },
        }
    }
}

impl View for PersistReply {
    type V = PersistReplyView;

    open spec fn view(&self) -> PersistReplyView {
        match self {
            PersistReply::ManifestsRead(files) => PersistReplyView::ManifestsRead(files@),
            PersistReply::CatalogRead(reading) => PersistReplyView::CatalogRead(
                match reading {
                    Ok(Some(catalog)) => Ok(Some(catalog@)),
                    Ok(None) => Ok(None),
                    Err(error) => Err(error@),
                },
            ),
            PersistReply::SeriesRead(files) => PersistReplyView::SeriesRead(files@),
            PersistReply::Looked(present) => PersistReplyView::Looked(
                match present {
                    Ok(there) => Ok(*there),
                    Err(error) => Err(error@),
                },
            ),
            PersistReply::Written(outcome) => PersistReplyView::Written(outcome_view(*outcome)),
        }
    }
}

/// Persisting failed.
pub open spec fn persist_failed(error: ErrorView) -> PersistStepView {
    PersistStepView::Done { outcome: Err(error) }
}

/// The step that reads what the catalog still needs.
pub open spec fn series_step(cache: CacheView, sources: Seq<SourceView>) -> PersistStepView {
    PersistStepView::ReadSeries { positions: series_to_read(cache, sources) }
}

/// The cache after a catalog is known to be on disk, and the end.
pub open spec fn persisted_as(
    cache: CacheView,
    catalog: CatalogView,
) -> (CacheView, PersistStepView) {
    (
        CacheView { persisted: Some(catalog), ..cache },
        PersistStepView::Done { outcome: Ok(()) },
    )
}

/// The reply is one to the step.
pub open spec fn is_reply_to(step: PersistStepView, reply: PersistReplyView) -> bool {
    match step {
        PersistStepView::ReadManifests { .. } => reply is ManifestsRead,
        PersistStepView::ReadCatalog => reply is CatalogRead,
        PersistStepView::ReadSeries { .. } => reply is SeriesRead,
        PersistStepView::LookForFile { .. } => reply is Looked,
        PersistStepView::WriteFile { .. } => reply is Written,
        PersistStepView::Done { .. } => false,
    }
}

/// The cache and the next step after a reply. The sources are brought in line first; a cache
/// that does not know what is on disk looks at the file before any series list is read; the
/// file is written unless the cache knows that very catalog to be there, and it is; and only
/// a catalog that is on disk is noted.
pub open spec fn after_reply(
    cache: CacheView,
    sources: Seq<SourceView>,
    step: PersistStepView,
    reply: PersistReplyView,
) -> (CacheView, PersistStepView) {
    match (step, reply) {
        (PersistStepView::ReadManifests { .. }, PersistReplyView::ManifestsRead(files)) => {
            let (known, outcome) = synced(cache, sources, files);
            match outcome {
                Err(error) => (known, persist_failed(error)),
                Ok(()) => if known.persisted is Some {
                    (known, series_step(known, sources))
                } else {
                    (known, PersistStepView::ReadCatalog)
                },
            }
        },
        (PersistStepView::ReadCatalog, PersistReplyView::CatalogRead(reading)) => match reading {
            Err(error) => (cache, persist_failed(error)),
            Ok(Some(catalog)) => {
                let open = adopted(cache, sources, catalog);
                (open, series_step(open, sources))
            },
            Ok(None) => (cache, series_step(cache, sources)),
        },
        (PersistStepView::ReadSeries { .. }, PersistReplyView::SeriesRead(files)) => {
            let (after, outcome) = cataloged(cache, sources, files);
            match outcome {
                Err(error) => (after, persist_failed(error)),
                Ok(catalog) => if after.persisted == Some(catalog) {
                    (after, PersistStepView::LookForFile { catalog })
                } else {
                    (after, PersistStepView::WriteFile { catalog })
                },
            }
        },
        (PersistStepView::LookForFile { catalog }, PersistReplyView::Looked(present)) => {
            match present {
                Err(error) => (cache, persist_failed(error)),
                Ok(true) => persisted_as(cache, catalog),
                Ok(false) => (cache, PersistStepView::WriteFile { catalog }),
            }
        },
        (PersistStepView::WriteFile { catalog }, PersistReplyView::Written(outcome)) => {
            match outcome {
                Err(error) => (cache, persist_failed(error)),
                Ok(()) => persisted_as(cache, catalog),
            }
        },
        _ => (cache, step),
    }
}

/// The first step of persisting the catalog of some sources.
pub fn begin_persisting(
    sources: &[PersistedRegistryCatalogSource],
    cache: &RegistryCatalogCache,
) -> (step: PersistStep)
    ensures
        step@ == (PersistStepView::ReadManifests {
            positions: manifests_to_read(cache@, sources_view(sources@)),
        }),
{
    PersistStep::ReadManifests { positions: cache.unread_manifests(sources) }
}

/// Takes persisting the catalog of some sources one step on. The catalog file is written
/// unless the copy on disk already describes the sources.
pub fn persist_registry_catalog(
    sources: &[PersistedRegistryCatalogSource],
    cache: &mut RegistryCatalogCache,
    step: PersistStep,
    reply: PersistReply,
) -> (next: PersistStep)
    requires
        old(cache).wf(),
        is_reply_to(step@, reply@),
    ensures
        final(cache).wf(),
        (final(cache)@, next@) == after_reply(
            old(cache)@,
            sources_view(sources@),
            step@,
            reply@,
        ),
{
    match (step, reply) {
        (PersistStep::ReadManifests { .. }, PersistReply::ManifestsRead(files)) => {
            match cache.sync_segments(sources, &files) {
                Err(error) => PersistStep::Done { outcome: Err(error) },
                Ok(()) => {
                    if cache.knows_catalog_on_disk() {
                        PersistStep::ReadSeries { positions: cache.unread_series(sources) }
                    } else {
                        PersistStep::ReadCatalog
                    }
                },
            }
        },
        (PersistStep::ReadCatalog, PersistReply::CatalogRead(reading)) => match reading {
            Err(error) => PersistStep::Done { outcome: Err(error) },
            Ok(on_disk) => {
                match on_disk {
                    Some(catalog) => {
                        cache.adopt(sources, catalog);
                    },
                    None => {},
                }
                PersistStep::ReadSeries { positions: cache.unread_series(sources) }
            },
        },
        (PersistStep::ReadSeries { .. }, PersistReply::SeriesRead(files)) => {
            match cache.catalog(sources, &files) {
                Err(error) => PersistStep::Done { outcome: Err(error) },
                Ok(catalog) => {
                    if cache.last_written_was(&catalog) {
                        PersistStep::LookForFile { catalog }
                    } else {
                        PersistStep::WriteFile { catalog }
                    }
                },
            }
        },
        (PersistStep::LookForFile { catalog }, PersistReply::Looked(present)) => match present {
            Err(error) => PersistStep::Done { outcome: Err(error) },
            Ok(there) => {
                if there {
                    cache.note_persisted(catalog);
                    PersistStep::Done { outcome: Ok(()) }
                } else {
                    PersistStep::WriteFile { catalog }
                }
            },
        },
        (PersistStep::WriteFile { catalog }, PersistReply::Written(outcome)) => match outcome {
            Err(error) => PersistStep::Done { outcome: Err(error) },
            Ok(()) => {
                cache.note_persisted(catalog);
                PersistStep::Done { outcome: Ok(()) }
            },
        },
        (step, _) => {
            assert(false);
            step
        },
    }
}

} // verus!
