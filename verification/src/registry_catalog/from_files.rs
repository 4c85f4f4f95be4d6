//! Catalogs built from the files of segments alone.
use crate::error::{ErrorView, TsinkError};
use crate::registry_catalog::fingerprint::{fingerprint_of, PersistedRegistrySeriesFingerprint};
use crate::registry_catalog::merging::{add_all, stage_all, staging, together};
use crate::registry_catalog::series_table::{listing, SeriesTable};
use crate::registry_catalog::{
    sources_view, CatalogView, FilesView, PersistedRegistryCatalogEntry,
    PersistedRegistryCatalogFile, PersistedRegistryCatalogSource, SegmentFiles,
    SegmentManifestFingerprint, SourceView, REGISTRY_CATALOG_VERSION,
};
use crate::segment::SegmentLaneFamily;
use crate::series::KeyView;
use crate::sorting::{arrange, arranged, is_order, lemma_order_exists, lemma_order_unique};
use vstd::prelude::*;

verus! {

/// The entry for a segment with that manifest.
pub open spec fn entry_with(
    lane: SegmentLaneFamily,
    fingerprint: SegmentManifestFingerprint,
) -> PersistedRegistryCatalogEntry {
    PersistedRegistryCatalogEntry {
        lane,
        level: fingerprint.manifest.level,
        segment_id: fingerprint.manifest.segment_id,
        chunk_count: fingerprint.manifest.chunk_count,
        point_count: fingerprint.manifest.point_count,
        series_count: fingerprint.manifest.series_count,
        min_ts: fingerprint.manifest.min_ts,
        max_ts: fingerprint.manifest.max_ts,
        wal_highwater_segment: fingerprint.manifest.wal_highwater.segment,
        wal_highwater_frame: fingerprint.manifest.wal_highwater.frame,
        chunks_len: fingerprint.chunks.file_len,
        chunks_hash64: fingerprint.chunks.hash64,
        chunk_index_len: fingerprint.chunk_index.file_len,
        chunk_index_hash64: fingerprint.chunk_index.hash64,
        series_len: fingerprint.series.file_len,
        series_hash64: fingerprint.series.hash64,
        postings_len: fingerprint.postings.file_len,
        postings_hash64: fingerprint.postings.hash64,
    }
}

/// The entry for a source, or why its manifest cannot be read.
pub open spec fn entry_of(
    source: SourceView,
    files: FilesView,
) -> Result<PersistedRegistryCatalogEntry, ErrorView> {
    match files.manifest(source.root) {
        Ok(fingerprint) => Ok(entry_with(source.lane, fingerprint)),
        Err(error) => Err(error),
    }
}

/// The entries for sources in their order, or the first failure.
pub open spec fn entries_of(
    sources: Seq<SourceView>,
    files: FilesView,
) -> Result<Seq<PersistedRegistryCatalogEntry>, ErrorView>
    decreases sources.len(),
{
    if sources.len() == 0 {
        Ok(Seq::empty())
    } else {
        match entries_of(sources.drop_last(), files) {
            Ok(entries) => match entry_of(sources.last(), files) {
                Ok(entry) => Ok(entries.push(entry)),
                Err(error) => Err(error),
            },
            Err(error) => Err(error),
        }
    }
}

/// Numeric segments come before blob segments.
pub open spec fn lane_rank(lane: SegmentLaneFamily) -> i128 {
    match lane {
        SegmentLaneFamily::Numeric => 0,
        SegmentLaneFamily::Blob => 1,
    }
}

/// Entries are sorted by lane, level and segment id.
pub open spec fn entry_key(entry: PersistedRegistryCatalogEntry) -> (i128, i128, i128) {
    (lane_rank(entry.lane), entry.level as i128, entry.segment_id as i128)
}

/// The sort keys of entries.
pub open spec fn entry_keys(
    entries: Seq<PersistedRegistryCatalogEntry>,
) -> Seq<(i128, i128, i128)> {
    entries.map_values(|entry: PersistedRegistryCatalogEntry| entry_key(entry))
}

/// The entries sorted by lane, level and segment id; equal ones keep their order.
pub open spec fn sorted_entries(
    entries: Seq<PersistedRegistryCatalogEntry>,
) -> Seq<PersistedRegistryCatalogEntry> {
    arranged(entries, choose|order: Seq<usize>| is_order(entry_keys(entries), order))
}

/// Sorting entries only moves them: there is an order of their positions, by lane, level
/// and segment id, in which they are listed.
pub proof fn law_entries_are_only_moved(entries: Seq<PersistedRegistryCatalogEntry>)
    requires
        entries.len() <= usize::MAX,
    ensures
        sorted_entries(entries).len() == entries.len(),
        exists|order: Seq<usize>| #[trigger]
            is_order(entry_keys(entries), order) && sorted_entries(entries) == arranged(
                entries,
                order,
            ),
{
    lemma_order_exists(entry_keys(entries));
}

/// Sorts entries by lane, level and segment id.
pub fn sort_entries(
    entries: Vec<PersistedRegistryCatalogEntry>,
) -> (sorted: Vec<PersistedRegistryCatalogEntry>)
    ensures
        sorted@ == sorted_entries(entries@),
        sorted@.len() == entries@.len(),
{
    let mut keys: Vec<(i128, i128, i128)> = Vec::new();
    let mut at: usize = 0;
    while at < entries.len()
        invariant
            at <= entries@.len(),
            keys@ == entry_keys(entries@).take(at as int),
        decreases entries@.len() - at,
    {
        let lane: i128 = match entries[at].lane {
            SegmentLaneFamily::Numeric => 0,
            SegmentLaneFamily::Blob => 1,
        };
        keys.push((lane, entries[at].level as i128, entries[at].segment_id as i128));
        at = at + 1;
        proof {
            assert(keys@ =~= entry_keys(entries@).take(at as int));
        }
    }
    let ghost before = entries@;
    proof {
        assert(entry_keys(before).take(at as int) =~= entry_keys(before));
    }
    let sorted = arrange(entries, &keys);
    proof {
        let order = choose|order: Seq<usize>| #[trigger]
            is_order(entry_keys(before), order) && sorted@ == arranged(before, order);
        let chosen = choose|order: Seq<usize>| is_order(entry_keys(before), order);
        lemma_order_unique(entry_keys(before), order, chosen);
    }
    sorted
}

/// The entry for a source.
pub fn build_catalog_entry(
    source: &PersistedRegistryCatalogSource,
    files: &SegmentFiles,
) -> (outcome: Result<PersistedRegistryCatalogEntry, TsinkError>)
    ensures
        match entry_of(source@, files@) {
            Ok(entry) => outcome == Ok::<PersistedRegistryCatalogEntry, TsinkError>(entry),
            Err(error) => outcome is Err && outcome->Err_0@ == error,
        },
{
    match files.manifest(&source.root) {
        Ok(fingerprint) => Ok(
            PersistedRegistryCatalogEntry {
                lane: source.lane,
                level: fingerprint.manifest.level,
                segment_id: fingerprint.manifest.segment_id,
                chunk_count: fingerprint.manifest.chunk_count,
                point_count: fingerprint.manifest.point_count,
                series_count: fingerprint.manifest.series_count,
                min_ts: fingerprint.manifest.min_ts,
                max_ts: fingerprint.manifest.max_ts,
                wal_highwater_segment: fingerprint.manifest.wal_highwater.segment,
                wal_highwater_frame: fingerprint.manifest.wal_highwater.frame,
                chunks_len: fingerprint.chunks.file_len,
                chunks_hash64: fingerprint.chunks.hash64,
                chunk_index_len: fingerprint.chunk_index.file_len,
                chunk_index_hash64: fingerprint.chunk_index.hash64,
                series_len: fingerprint.series.file_len,
                series_hash64: fingerprint.series.hash64,
                postings_len: fingerprint.postings.file_len,
                postings_hash64: fingerprint.postings.hash64,
            },
        ),
        Err(error) => Err(error),
    }
}

/// A failure among the first sources is the failure of all.
proof fn lemma_entries_stay_wrong(sources: Seq<SourceView>, files: FilesView, n: int)
    requires
        0 <= n <= sources.len(),
        entries_of(sources.take(n), files) is Err,
    ensures
        entries_of(sources, files) == entries_of(sources.take(n), files),
    decreases sources.len() - n,
{
    if n == sources.len() {
        assert(sources.take(n) =~= sources);
    } else {
        assert(sources.take(n + 1).drop_last() =~= sources.take(n));
        lemma_entries_stay_wrong(sources, files, n + 1);
    }
}

/// The entries for sources, sorted.
pub fn build_catalog_entries(
    sources: &[PersistedRegistryCatalogSource],
    files: &SegmentFiles,
) -> (outcome: Result<Vec<PersistedRegistryCatalogEntry>, TsinkError>)
    ensures
        match entries_of(sources_view(sources@), files@) {
            Ok(entries) => outcome is Ok && outcome->Ok_0@ == sorted_entries(entries),
            Err(error) => outcome is Err && outcome->Err_0@ == error,
        },
{
    let ghost views = sources_view(sources@);
    let mut entries: Vec<PersistedRegistryCatalogEntry> = Vec::new();
    let mut at: usize = 0;
    while at < sources.len()
        invariant
            at <= sources@.len(),
            views == sources_view(sources@),
            entries_of(views.take(at as int), files@) == Ok::<
                Seq<PersistedRegistryCatalogEntry>,
                ErrorView,
            >(entries@),
        decreases sources@.len() - at,
    {
        proof {
            assert(views.take(at + 1).drop_last() =~= views.take(at as int));
            assert(views.take(at + 1).last() == sources@[at as int]@);
        }
        match build_catalog_entry(&sources[at], files) {
            Ok(entry) => {
                entries.push(entry);
            },
            Err(error) => {
                proof {
                    lemma_entries_stay_wrong(views, files@, at + 1);
                }
                return Err(error);
            },
        }
        at = at + 1;
    }
    proof {
        assert(views.take(at as int) =~= views);
    }
    Ok(sort_entries(entries))
}

/// The series of all sources together, or the first failure or conflict.
pub open spec fn merge_sources(
    sources: Seq<SourceView>,
    files: FilesView,
) -> Result<Map<u64, KeyView>, ErrorView>
    decreases sources.len(),
{
    if sources.len() == 0 {
        Ok(Map::empty())
    } else {
        match merge_sources(sources.drop_last(), files) {
            Ok(keys) => match files.list(sources.last().root) {
                Ok(list) => add_all(keys, list),
                Err(error) => Err(error),
            },
            Err(error) => Err(error),
        }
    }
}

proof fn lemma_merge_stays_wrong(sources: Seq<SourceView>, files: FilesView, n: int)
    requires
        0 <= n <= sources.len(),
        merge_sources(sources.take(n), files) is Err,
    ensures
        merge_sources(sources, files) == merge_sources(sources.take(n), files),
    decreases sources.len() - n,
{
    if n == sources.len() {
        assert(sources.take(n) =~= sources);
    } else {
        assert(sources.take(n + 1).drop_last() =~= sources.take(n));
        lemma_merge_stays_wrong(sources, files, n + 1);
    }
}

/// The fingerprint of the series of all sources.
pub fn build_series_fingerprint_from_sources(
    sources: &[PersistedRegistryCatalogSource],
    files: &SegmentFiles,
) -> (outcome: Result<PersistedRegistrySeriesFingerprint, TsinkError>)
    ensures
        match merge_sources(sources_view(sources@), files@) {
            Ok(keys) => outcome == Ok::<PersistedRegistrySeriesFingerprint, TsinkError>(
                fingerprint_of(listing(keys)),
            ),
            Err(error) => outcome is Err && outcome->Err_0@ == error,
        },
{
    let ghost views = sources_view(sources@);
    let nothing = SeriesTable::new();
    let mut staged = SeriesTable::new();
    let mut at: usize = 0;
    proof {
        assert(together(&nothing, &staged) =~= Map::<u64, KeyView>::empty());
    }
    while at < sources.len()
        invariant
            at <= sources@.len(),
            views == sources_view(sources@),
            nothing.keys() == Map::<u64, KeyView>::empty(),
            staging(&nothing, &staged),
            merge_sources(views.take(at as int), files@) == Ok::<Map<u64, KeyView>, ErrorView>(
                together(&nothing, &staged),
            ),
        decreases sources@.len() - at,
    {
        proof {
            assert(views.take(at + 1).drop_last() =~= views.take(at as int));
            assert(views.take(at + 1).last() == sources@[at as int]@);
        }
        let list = match files.list(&sources[at].root) {
            Ok(list) => list,
            Err(error) => {
                proof {
                    lemma_merge_stays_wrong(views, files@, at + 1);
                }
                return Err(error);
            },
        };
        match stage_all(&nothing, &mut staged, list) {
            Ok(_) => {},
            Err(error) => {
                proof {
                    lemma_merge_stays_wrong(views, files@, at + 1);
                }
                return Err(error);
            },
        }
        at = at + 1;
    }
    proof {
        assert(views.take(at as int) =~= views);
        assert(together(&nothing, &staged) =~= staged.keys());
    }
    Ok(staged.fingerprint())
}

/// The catalog for sources, from their files alone.
pub open spec fn catalog_of(
    sources: Seq<SourceView>,
    files: FilesView,
) -> Result<CatalogView, ErrorView> {
    match entries_of(sources, files) {
        Ok(entries) => match merge_sources(sources, files) {
            Ok(keys) => Ok(
                CatalogView {
                    version: REGISTRY_CATALOG_VERSION,
                    segments: sorted_entries(entries),
                    series_fingerprint: Some(fingerprint_of(listing(keys))),
                },
            ),
            Err(error) => Err(error),
        },
        Err(error) => Err(error),
    }
}

/// Builds the catalog for sources from their files alone.
pub fn build_catalog(
    sources: &[PersistedRegistryCatalogSource],
    files: &SegmentFiles,
) -> (outcome: Result<PersistedRegistryCatalogFile, TsinkError>)
    ensures
        match catalog_of(sources_view(sources@), files@) {
            Ok(catalog) => outcome is Ok && outcome->Ok_0@ == catalog,
            Err(error) => outcome is Err && outcome->Err_0@ == error,
        },
{
    let segments = match build_catalog_entries(sources, files) {
        Ok(segments) => segments,
        Err(error) => {
            return Err(error);
        },
    };
    let fingerprint = match build_series_fingerprint_from_sources(sources, files) {
        Ok(fingerprint) => fingerprint,
        Err(error) => {
            return Err(error);
        },
    };
    Ok(
        PersistedRegistryCatalogFile {
            version: REGISTRY_CATALOG_VERSION,
            segments,
            series_fingerprint: Some(fingerprint),
        },
    )
}

} // verus!
