//! The catalog that describes which segments a persisted registry was written for.
pub mod cache;
pub mod cache_laws;
pub mod entry_laws;
pub mod fingerprint;
pub mod from_files;
pub mod laws;
pub mod merging;
pub mod persist;
pub mod series_table;
pub mod snapshot;

use crate::error::{ErrorView, TsinkError};
use crate::registry_catalog::fingerprint::PersistedRegistrySeriesFingerprint;
use crate::segment::{SegmentLaneFamily, SegmentManifest};
use crate::series::{series_view, PersistedSeries, SeriesView};
use crate::text::copied;
use crate::text_map::TextMap;
use vstd::prelude::*;

verus! {

/// The version of catalogs that this library writes.
pub const REGISTRY_CATALOG_VERSION: u32 = 2;

/// A segment that the catalog is to describe.
///
/// The root is a text. Two roots are the same segment when their texts are equal, so whoever
/// lists segments writes equal paths alike.
#[derive(Debug)]
pub struct PersistedRegistryCatalogSource {
    pub lane: SegmentLaneFamily,
    pub root: String,
}

/// A source as mathematics.
pub struct SourceView {
    pub lane: SegmentLaneFamily,
    pub root: Seq<char>,
}

impl View for PersistedRegistryCatalogSource {
    type V = SourceView;

    open spec fn view(&self) -> SourceView {
        SourceView { lane: self.lane, root: self.root@ }
    }
}

impl Clone for PersistedRegistryCatalogSource {
    fn clone(&self) -> (copy: Self)
        ensures
            copy@ == self@,
    {
        PersistedRegistryCatalogSource { lane: self.lane, root: copied(&self.root) }
    }
}

/// Sources as mathematics.
pub open spec fn sources_view(sources: Seq<PersistedRegistryCatalogSource>) -> Seq<SourceView> {
    sources.map_values(|source: PersistedRegistryCatalogSource| source@)
}

/// Length and hash of one file of a segment.
#[derive(Debug, Clone, Copy, PartialEq, Eq, Structural)]
pub struct SegmentFileFingerprint {
    pub file_len: u64,
    pub hash64: u64,
}

/// A segment's manifest, with length and hash of the files it lists.
#[derive(Debug, Clone, Copy, PartialEq, Eq, Structural)]
pub struct SegmentManifestFingerprint {
    pub manifest: SegmentManifest,
    pub chunks: SegmentFileFingerprint,
    pub chunk_index: SegmentFileFingerprint,
    pub series: SegmentFileFingerprint,
    pub postings: SegmentFileFingerprint,
}

/// What the catalog says of one segment.
#[derive(Debug, Clone, Copy, PartialEq, Eq, Structural)]
pub struct PersistedRegistryCatalogEntry {
    pub lane: SegmentLaneFamily,
    pub level: u8,
    pub segment_id: u64,
    pub chunk_count: usize,
    pub point_count: usize,
    pub series_count: usize,
    pub min_ts: Option<i64>,
    pub max_ts: Option<i64>,
    pub wal_highwater_segment: u64,
    pub wal_highwater_frame: u64,
    pub chunks_len: u64,
    pub chunks_hash64: u64,
    pub chunk_index_len: u64,
    pub chunk_index_hash64: u64,
    pub series_len: u64,
    pub series_hash64: u64,
    pub postings_len: u64,
    pub postings_hash64: u64,
}

/// The contents of a catalog file.
#[derive(Debug, PartialEq, Eq)]
pub struct PersistedRegistryCatalogFile {
    pub version: u32,
    pub segments: Vec<PersistedRegistryCatalogEntry>,
    pub series_fingerprint: Option<PersistedRegistrySeriesFingerprint>,
}

/// A catalog as mathematics.
#[verifier::ext_equal]
pub struct CatalogView {
    pub version: u32,
    pub segments: Seq<PersistedRegistryCatalogEntry>,
    pub series_fingerprint: Option<PersistedRegistrySeriesFingerprint>,
}

impl View for PersistedRegistryCatalogFile {
    type V = CatalogView;

    open spec fn view(&self) -> CatalogView {
        CatalogView {
            version: self.version,
            segments: self.segments@,
            series_fingerprint: self.series_fingerprint,
        }
    }
}

impl Clone for PersistedRegistryCatalogFile {
    fn clone(&self) -> (copy: Self)
        ensures
            copy@ == self@,
    {
        let mut segments: Vec<PersistedRegistryCatalogEntry> = Vec::new();
        let mut at: usize = 0;
        while at < self.segments.len()
            invariant
                at <= self.segments@.len(),
                segments@ == self.segments@.take(at as int),
            decreases self.segments@.len() - at,
        {
            segments.push(self.segments[at]);
            at = at + 1;
            proof {
                assert(segments@ =~= self.segments@.take(at as int));
            }
        }
        proof {
            assert(segments@ =~= self.segments@);
        }
        PersistedRegistryCatalogFile {
            version: self.version,
            segments,
            series_fingerprint: self.series_fingerprint,
        }
    }
}

/// Whether two lists of entries are the same.
pub fn same_entries(
    left: &Vec<PersistedRegistryCatalogEntry>,
    right: &Vec<PersistedRegistryCatalogEntry>,
) -> (same: bool)
    ensures
        same == (left@ == right@),
{
    if left.len() != right.len() {
        return false;
    }
    let mut at: usize = 0;
    while at < left.len()
        invariant
            at <= left@.len(),
            left@.len() == right@.len(),
            forall|i: int| 0 <= i < at ==> left@[i] == right@[i],
        decreases left@.len() - at,
    {
        if left[at] != right[at] {
            return false;
        }
        at = at + 1;
    }
    proof {
        assert(left@ =~= right@);
    }
    true
}

impl PersistedRegistryCatalogFile {
    /// Whether two catalogs are the same.
    pub fn same(&self, other: &Self) -> (same: bool)
        ensures
            same == (self@ == other@),
    {
        self.version == other.version && self.series_fingerprint == other.series_fingerprint
            && same_entries(&self.segments, &other.segments)
    }
}

/// What reading the files of segments gave, by segment root.
///
/// A root of which nothing was read stands for a segment that is not there.
pub struct SegmentFiles {
    manifests: TextMap<Result<SegmentManifestFingerprint, TsinkError>>,
    series: TextMap<Result<Vec<PersistedSeries>, TsinkError>>,
}

/// The outcome of reading a manifest, as mathematics.
pub open spec fn manifest_view(
    reading: Result<SegmentManifestFingerprint, TsinkError>,
) -> Result<SegmentManifestFingerprint, ErrorView> {
    match reading {
        Ok(fingerprint) => Ok(fingerprint),
        Err(error) => Err(error@),
    }
}

/// The outcome of reading a series list, as mathematics.
pub open spec fn list_view(
    reading: Result<Vec<PersistedSeries>, TsinkError>,
) -> Result<Seq<SeriesView>, ErrorView> {
    match reading {
        Ok(list) => Ok(series_view(list@)),
        Err(error) => Err(error@),
    }
}

/// What reading gave, as mathematics.
#[verifier::ext_equal]
pub struct FilesView {
    pub manifests: Map<Seq<char>, Result<SegmentManifestFingerprint, ErrorView>>,
    pub lists: Map<Seq<char>, Result<Seq<SeriesView>, ErrorView>>,
}

impl FilesView {
    /// The manifest of a segment.
    pub open spec fn manifest(self, root: Seq<char>) -> Result<
        SegmentManifestFingerprint,
        ErrorView,
    > {
        if self.manifests.contains_key(root) {
            self.manifests[root]
        } else {
            Err(ErrorView::NotFound(root))
        }
    }

    /// The series list of a segment.
    pub open spec fn list(self, root: Seq<char>) -> Result<Seq<SeriesView>, ErrorView> {
        if self.lists.contains_key(root) {
            self.lists[root]
        } else {
            Err(ErrorView::NotFound(root))
        }
    }
}

impl View for SegmentFiles {
    type V = FilesView;

    closed spec fn view(&self) -> FilesView {
        FilesView {
            manifests: self.manifests@.map_values(
                |reading: Result<SegmentManifestFingerprint, TsinkError>| manifest_view(reading),
            ),
            lists: self.series@.map_values(
                |reading: Result<Vec<PersistedSeries>, TsinkError>| list_view(reading),
            ),
        }
    }
}

impl SegmentFiles {
    /// Nothing was read yet.
    pub fn new() -> (files: Self)
        ensures
            files@.manifests == Map::<
                Seq<char>,
                Result<SegmentManifestFingerprint, ErrorView>,
            >::empty(),
            files@.lists == Map::<Seq<char>, Result<Seq<SeriesView>, ErrorView>>::empty(),
    {
        let files = SegmentFiles { manifests: TextMap::new(), series: TextMap::new() };
        proof {
            assert(files@.manifests =~= Map::empty());
            assert(files@.lists =~= Map::empty());
        }
        files
    }

    /// Notes what reading a manifest gave.
    pub fn put_manifest(
        &mut self,
        root: String,
        reading: Result<SegmentManifestFingerprint, TsinkError>,
    )
        ensures
            final(self)@.manifests == old(self)@.manifests.insert(root@, manifest_view(reading)),
            final(self)@.lists == old(self)@.lists,
    {
        let ghost view = manifest_view(reading);
        let ghost name = root@;
        self.manifests.insert(root, reading);
        proof {
            assert(self@.manifests =~= old(self)@.manifests.insert(name, view));
        }
    }

    /// Notes what reading a series list gave.
    pub fn put_series(&mut self, root: String, reading: Result<Vec<PersistedSeries>, TsinkError>)
        ensures
            final(self)@.manifests == old(self)@.manifests,
            final(self)@.lists == old(self)@.lists.insert(root@, list_view(reading)),
    {
        let ghost view = list_view(reading);
        let ghost name = root@;
        self.series.insert(root, reading);
        proof {
            assert(self@.lists =~= old(self)@.lists.insert(name, view));
        }
    }

    /// The manifest of a segment.
    pub fn manifest(&self, root: &String) -> (reading: Result<
        SegmentManifestFingerprint,
        TsinkError,
    >)
        ensures
            manifest_view(reading) == self@.manifest(root@),
    {
        match self.manifests.get(root.as_str()) {
            Some(Ok(fingerprint)) => Ok(*fingerprint),
            Some(Err(error)) => Err(error.duplicate()),
            None => Err(TsinkError::NotFound(copied(root))),
        }
    }

    /// The series list of a segment.
    pub fn list(&self, root: &String) -> (reading: Result<&Vec<PersistedSeries>, TsinkError>)
        ensures
            match reading {
                Ok(list) => self@.list(root@) == Ok::<Seq<SeriesView>, ErrorView>(
                    series_view(list@),
                ),
                Err(error) => self@.list(root@) == Err::<Seq<SeriesView>, ErrorView>(error@),
            },
    {
        match self.series.get(root.as_str()) {
            Some(Ok(list)) => Ok(list),
            Some(Err(error)) => Err(error.duplicate()),
            None => Err(TsinkError::NotFound(copied(root))),
        }
    }
}

} // verus!
