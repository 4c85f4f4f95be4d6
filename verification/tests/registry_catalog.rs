use tsink::error::TsinkError;
use tsink::registry_catalog::cache::RegistryCatalogCache;
use tsink::registry_catalog::fingerprint::{
    fingerprint_series, key_hash, PersistedRegistrySeriesFingerprint,
};
use tsink::registry_catalog::from_files::{
    build_catalog, build_catalog_entries, build_catalog_entry,
    build_series_fingerprint_from_sources,
};
use tsink::registry_catalog::persist::{
    begin_persisting, persist_registry_catalog, validate_registry_catalog, PersistReply,
    PersistStep, REGISTRY_CATALOG_FILE_NAME,
};
use tsink::registry_catalog::snapshot::{
    fingerprint_registry_series, indexed_segment_series_ids, inventory_sources,
    validate_registry_snapshot, IndexedSegment, SegmentInventory, SegmentInventoryEntry,
    SeriesRegistry,
};
use tsink::registry_catalog::{
    PersistedRegistryCatalogFile, PersistedRegistryCatalogSource, SegmentFileFingerprint,
    SegmentFiles, SegmentManifestFingerprint,
};
use tsink::segment::{SegmentLaneFamily, SegmentManifest, WalHighWatermark};
use tsink::series::{Label, PersistedSeries, SeriesKey};

/// Metrics and hosts in the order of their ids, which start at 1.
#[derive(Default)]
struct Registry {
    series: Vec<(String, String)>,
}

fn series_id(registry: &mut Registry, metric: &str, host: &str) -> u64 {
    let key = (metric.to_string(), host.to_string());
    let at = match registry.series.iter().position(|known| *known == key) {
        Some(at) => at,
        None => {
            registry.series.push(key);
            registry.series.len() - 1
        }
    };
    at as u64 + 1
}

fn key(metric: &str, host: &str) -> SeriesKey {
    SeriesKey {
        metric: metric.to_string(),
        labels: vec![Label::new("host", host)],
    }
}

struct SegmentOnDisk {
    root: String,
    fingerprint: Option<SegmentManifestFingerprint>,
    series: Option<Vec<(u64, String, String)>>,
}

/// What lies on the disk: segments, and the catalog file beside the registry snapshot.
#[derive(Default)]
struct Disk {
    segments: Vec<SegmentOnDisk>,
    catalog: Option<CatalogOnDisk>,
    catalog_reads: usize,
    catalog_writes: usize,
}

#[derive(Debug, PartialEq)]
enum CatalogOnDisk {
    Catalog(PersistedRegistryCatalogFile),
    Other(Vec<u8>),
}

fn write_segment(
    disk: &mut Disk,
    lane: &str,
    registry: &Registry,
    segment_id: u64,
    series_ids: &[u64],
) -> PersistedRegistryCatalogSource {
    let root = format!("{lane}/segments/L0/seg-{segment_id:016x}");
    let ts = segment_id as i64;
    let file = |kind: u64| SegmentFileFingerprint {
        file_len: 100 * segment_id + kind,
        hash64: 7_000 * segment_id + kind,
    };
    disk.segments.push(SegmentOnDisk {
        root: root.clone(),
        fingerprint: Some(SegmentManifestFingerprint {
            manifest: SegmentManifest {
                segment_id,
                level: 0,
                chunk_count: series_ids.len(),
                point_count: series_ids.len(),
                series_count: series_ids.len(),
                min_ts: Some(ts),
                max_ts: Some(ts),
                wal_highwater: WalHighWatermark { segment: 0, frame: 0 },
            },
            chunks: file(1),
            chunk_index: file(2),
            series: file(3),
            postings: file(4),
        }),
        series: Some(
            series_ids
                .iter()
                .map(|id| {
                    let (metric, host) = registry.series[*id as usize - 1].clone();
                    (*id, metric, host)
                })
                .collect(),
        ),
    });
    PersistedRegistryCatalogSource {
        lane: SegmentLaneFamily::Numeric,
        root,
    }
}

fn make_unreadable(disk: &mut Disk, source: &PersistedRegistryCatalogSource) {
    let segment = disk
        .segments
        .iter_mut()
        .find(|segment| segment.root == source.root)
        .unwrap();
    segment.fingerprint = None;
    segment.series = None;
}

fn missing(root: &str, file: &str) -> TsinkError {
    TsinkError::NotFound(format!("{root}/{file}"))
}

fn persisted_series(list: &[(u64, String, String)]) -> Vec<PersistedSeries> {
    list.iter()
        .map(|(id, metric, host)| PersistedSeries {
            series_id: *id,
            key: key(metric, host),
        })
        .collect()
}

impl Disk {
    fn read_manifest(&self, root: &str) -> Result<SegmentManifestFingerprint, TsinkError> {
        self.segments
            .iter()
            .find(|segment| segment.root == root)
            .and_then(|segment| segment.fingerprint)
            .ok_or_else(|| missing(root, "manifest.bin"))
    }

    fn read_series(&self, root: &str) -> Result<Vec<PersistedSeries>, TsinkError> {
        self.segments
            .iter()
            .find(|segment| segment.root == root)
            .and_then(|segment| segment.series.as_ref())
            .map(|list| persisted_series(list))
            .ok_or_else(|| missing(root, "series.bin"))
    }

    fn files(&self) -> SegmentFiles {
        let mut files = SegmentFiles::new();
        for segment in &self.segments {
            files.put_manifest(segment.root.clone(), self.read_manifest(&segment.root));
            files.put_series(segment.root.clone(), self.read_series(&segment.root));
        }
        files
    }

    fn read_catalog_file(&self) -> Option<PersistedRegistryCatalogFile> {
        match &self.catalog {
            Some(CatalogOnDisk::Catalog(catalog)) => Some(catalog.clone()),
            _ => None,
        }
    }

    /// Reads only what the cache asks for.
    fn persist(
        &mut self,
        sources: &[PersistedRegistryCatalogSource],
        cache: &mut RegistryCatalogCache,
    ) -> Result<(), TsinkError> {
        let mut step = begin_persisting(sources, cache);
        loop {
            let reply = match &step {
                PersistStep::Done { .. } => break,
                PersistStep::ReadManifests { positions } => {
                    let mut files = SegmentFiles::new();
                    for at in positions {
                        let root = &sources[*at].root;
                        files.put_manifest(root.clone(), self.read_manifest(root));
                    }
                    PersistReply::ManifestsRead(files)
                }
                PersistStep::ReadCatalog => {
                    self.catalog_reads += 1;
                    PersistReply::CatalogRead(Ok(self.read_catalog_file()))
                }
                PersistStep::ReadSeries { positions } => {
                    let mut files = SegmentFiles::new();
                    for at in positions {
                        let root = &sources[*at].root;
                        files.put_series(root.clone(), self.read_series(root));
                    }
                    PersistReply::SeriesRead(files)
                }
                PersistStep::LookForFile { .. } => {
                    PersistReply::Looked(Ok(self.catalog.is_some()))
                }
                PersistStep::WriteFile { catalog } => {
                    self.catalog = Some(CatalogOnDisk::Catalog(catalog.clone()));
                    self.catalog_writes += 1;
                    PersistReply::Written(Ok(()))
                }
            };
            step = persist_registry_catalog(sources, cache, step, reply);
        }
        match step {
            PersistStep::Done { outcome } => outcome,
            _ => unreachable!(),
        }
    }
}

#[test]
fn cached_catalog_matches_a_catalog_built_from_disk_as_segments_come_and_go() {
    let mut disk = Disk::default();
    let lane = "lane";
    let mut registry = Registry::default();
    let a = series_id(&mut registry, "cpu", "a");
    let b = series_id(&mut registry, "cpu", "b");
    let c = series_id(&mut registry, "mem", "a");

    let s1 = write_segment(&mut disk, lane, &registry, 1, &[a, b]);
    let s2 = write_segment(&mut disk, lane, &registry, 2, &[b, c]);
    let s3 = write_segment(&mut disk, lane, &registry, 3, &[c]);

    let mut cache = RegistryCatalogCache::default();
    let all = vec![s1.clone(), s2.clone(), s3.clone()];
    let files = disk.files();
    assert_eq!(
        cache.catalog(&all, &files).unwrap(),
        build_catalog(&all, &files).unwrap()
    );

    let without_first = vec![s2.clone(), s3.clone()];
    assert_eq!(
        cache.catalog(&without_first, &files).unwrap(),
        build_catalog(&without_first, &files).unwrap()
    );
    assert_ne!(
        cache
            .catalog(&without_first, &files)
            .unwrap()
            .series_fingerprint,
        build_catalog(&all, &files).unwrap().series_fingerprint,
        "series only the removed segment held must leave the fingerprint"
    );

    let s4 = write_segment(&mut disk, lane, &registry, 4, &[a]);
    let readded = vec![s4, s3, s2];
    let files = disk.files();
    assert_eq!(
        cache.catalog(&readded, &files).unwrap(),
        build_catalog(&readded, &files).unwrap()
    );
}

#[test]
fn segments_already_in_the_catalog_are_not_read_again() {
    let mut disk = Disk::default();
    let lane = "lane";
    let mut registry = Registry::default();
    let a = series_id(&mut registry, "cpu", "a");
    let b = series_id(&mut registry, "cpu", "b");

    let s1 = write_segment(&mut disk, lane, &registry, 1, &[a]);
    let s2 = write_segment(&mut disk, lane, &registry, 2, &[a, b]);
    let mut cache = RegistryCatalogCache::default();
    disk.persist(&[s1.clone(), s2.clone()], &mut cache).unwrap();
    let expected_first_entries = build_catalog(&[s1.clone(), s2.clone()], &disk.files())
        .unwrap()
        .segments;

    make_unreadable(&mut disk, &s1);
    make_unreadable(&mut disk, &s2);
    let s3 = write_segment(&mut disk, lane, &registry, 3, &[b]);
    disk.persist(&[s1, s2, s3.clone()], &mut cache).unwrap();

    let on_disk = disk.read_catalog_file().expect("catalog written");
    assert_eq!(on_disk.segments.len(), 3);
    assert_eq!(on_disk.segments[..2], expected_first_entries[..]);
    assert_eq!(
        on_disk.segments[2],
        build_catalog(&[s3], &disk.files()).unwrap().segments[0]
    );
}

#[test]
fn order_and_repetition_of_sources_do_not_change_the_fingerprint() {
    let mut disk = Disk::default();
    let mut registry = Registry::default();
    let a = series_id(&mut registry, "cpu", "a");
    let b = series_id(&mut registry, "cpu", "b");
    let c = series_id(&mut registry, "mem", "a");
    let s1 = write_segment(&mut disk, "lane", &registry, 1, &[a, b]);
    let s2 = write_segment(&mut disk, "lane", &registry, 2, &[b, c]);
    let files = disk.files();
    let once = build_series_fingerprint_from_sources(&[s1.clone(), s2.clone()], &files).unwrap();
    let again = build_series_fingerprint_from_sources(
        &[s2.clone(), s1.clone(), s2.clone(), s1.clone()],
        &files,
    );
    assert_eq!(once.series_count, 3);
    assert_eq!(again.unwrap(), once);

    disk.segments[1].series = Some(vec![(a, "disk".to_string(), "a".to_string())]);
    let files = disk.files();
    assert!(build_series_fingerprint_from_sources(&[s1.clone(), s2.clone()], &files).is_err());
    assert!(build_series_fingerprint_from_sources(&[s2, s1], &files).is_err());
}

#[test]
fn removing_a_segment_forgets_only_what_no_other_one_holds() {
    let mut disk = Disk::default();
    let mut registry = Registry::default();
    let a = series_id(&mut registry, "cpu", "a");
    let b = series_id(&mut registry, "cpu", "b");
    let s1 = write_segment(&mut disk, "lane", &registry, 1, &[a]);
    let s2 = write_segment(&mut disk, "lane", &registry, 2, &[a, b]);
    let files = disk.files();
    let mut cache = RegistryCatalogCache::new();
    let alone = cache.catalog(&[s1.clone()], &files).unwrap();
    let both = cache.catalog(&[s1.clone(), s2], &files).unwrap();
    assert_eq!(both.series_fingerprint.unwrap().series_count, 2);
    let after = cache.catalog(&[s1.clone()], &files).unwrap();
    assert_eq!(after, alone);
    assert_eq!(after.series_fingerprint.unwrap().series_count, 1);
    cache.remove_segment("lane/no-such-segment");
    assert_eq!(cache.unread_manifests(&[s1.clone()]).len(), 0);
    cache.remove_segment(&s1.root);
    assert_eq!(cache.unread_manifests(&[s1]).len(), 1);
}

#[test]
fn the_catalog_file_has_its_name() {
    assert_eq!(REGISTRY_CATALOG_FILE_NAME, "series_index.catalog.json");
}

#[test]
fn an_unchanged_catalog_is_not_rewritten_but_a_missing_one_is() {
    let mut disk = Disk::default();
    let mut registry = Registry::default();
    let a = series_id(&mut registry, "cpu", "a");
    let sources = vec![write_segment(&mut disk, "lane", &registry, 1, &[a])];

    let mut cache = RegistryCatalogCache::new();
    disk.persist(&sources, &mut cache).unwrap();
    disk.catalog = Some(CatalogOnDisk::Other(b"left alone".to_vec()));
    disk.persist(&sources, &mut cache).unwrap();
    assert_eq!(
        disk.catalog,
        Some(CatalogOnDisk::Other(b"left alone".to_vec()))
    );

    disk.catalog = None;
    disk.persist(&sources, &mut cache).unwrap();
    assert_eq!(
        disk.read_catalog_file(),
        Some(build_catalog(&sources, &disk.files()).unwrap())
    );
}

#[test]
fn a_fresh_cache_adopts_a_matching_catalog_on_disk_without_reading_series_files() {
    let mut disk = Disk::default();
    let mut registry = Registry::default();
    let a = series_id(&mut registry, "cpu", "a");
    let sources = vec![write_segment(&mut disk, "lane", &registry, 1, &[a])];

    disk.persist(&sources, &mut Default::default())
        .unwrap();
    let written = disk.read_catalog_file();
    disk.segments[0].series = None;

    disk.persist(&sources, &mut Default::default())
        .unwrap();
    assert_eq!(disk.read_catalog_file(), written);
    assert_eq!(disk.catalog_writes, 1);
}

#[test]
fn a_fresh_cache_replaces_a_stale_or_corrupt_catalog_on_disk() {
    let mut disk = Disk::default();
    let mut registry = Registry::default();
    let a = series_id(&mut registry, "cpu", "a");
    let b = series_id(&mut registry, "cpu", "b");
    let s1 = write_segment(&mut disk, "lane", &registry, 1, &[a]);
    let s2 = write_segment(&mut disk, "lane", &registry, 2, &[b]);
    let both = vec![s1.clone(), s2];

    disk.persist(&[s1], &mut Default::default())
        .unwrap();
    disk.persist(&both, &mut Default::default())
        .unwrap();
    assert_eq!(
        disk.read_catalog_file(),
        Some(build_catalog(&both, &disk.files()).unwrap())
    );

    disk.catalog = Some(CatalogOnDisk::Other(b"{ not json".to_vec()));
    disk.persist(&both, &mut Default::default())
        .unwrap();
    assert_eq!(
        disk.read_catalog_file(),
        Some(build_catalog(&both, &disk.files()).unwrap())
    );
}

#[test]
fn conflicting_series_metadata_is_rejected_without_corrupting_the_cache() {
    let mut disk = Disk::default();
    let lane = "lane";

    let mut registry = Registry::default();
    let cpu = series_id(&mut registry, "cpu", "a");
    let s1 = write_segment(&mut disk, lane, &registry, 1, &[cpu]);

    let mut other_key_same_id = Registry::default();
    let mem = series_id(&mut other_key_same_id, "mem", "a");
    assert_eq!(mem, cpu);
    let s2 = write_segment(&mut disk, lane, &other_key_same_id, 2, &[mem]);

    let mut same_key_other_id = Registry::default();
    series_id(&mut same_key_other_id, "disk", "a");
    let cpu_again = series_id(&mut same_key_other_id, "cpu", "a");
    assert_ne!(cpu_again, cpu);
    let s3 = write_segment(&mut disk, lane, &same_key_other_id, 3, &[cpu_again]);

    let files = disk.files();
    let mut cache = RegistryCatalogCache::default();
    let err = cache.catalog(&[s1.clone(), s2], &files).unwrap_err();
    assert!(
        matches!(&err, TsinkError::DataCorruption(message) if message.contains("conflicts across persisted segment metadata")),
        "{err:?}"
    );
    let err = cache.catalog(&[s1.clone(), s3], &files).unwrap_err();
    assert!(
        matches!(&err, TsinkError::DataCorruption(message) if message.contains("already bound")),
        "{err:?}"
    );
    assert_eq!(
        cache.catalog(std::slice::from_ref(&s1), &files).unwrap(),
        build_catalog(&[s1], &files).unwrap()
    );
}

#[test]
fn conflicts_name_the_ids_involved() {
    let mut disk = Disk::default();
    let mut registry = Registry::default();
    let cpu = series_id(&mut registry, "cpu", "a");
    let s1 = write_segment(&mut disk, "lane", &registry, 1, &[cpu]);
    let mut other = Registry::default();
    for host in ["x", "y", "z"] {
        series_id(&mut other, "disk", host);
    }
    let again = series_id(&mut other, "cpu", "a");
    let s2 = write_segment(&mut disk, "lane", &other, 2, &[1]);
    let s3 = write_segment(&mut disk, "lane", &other, 3, &[again]);
    let files = disk.files();
    assert_eq!(
        build_series_fingerprint_from_sources(&[s1.clone(), s2], &files)
            .unwrap_err()
            .message(),
        "series id 1 conflicts across persisted segment metadata"
    );
    assert_eq!(
        build_series_fingerprint_from_sources(&[s1, s3], &files)
            .unwrap_err()
            .message(),
        "series key already bound to id 1, persisted segment metadata tried to bind 4"
    );
}

#[test]
fn a_failed_load_keeps_what_was_loaded_before() {
    let mut disk = Disk::default();
    let mut registry = Registry::default();
    let a = series_id(&mut registry, "cpu", "a");
    let b = series_id(&mut registry, "cpu", "b");
    let s1 = write_segment(&mut disk, "lane", &registry, 1, &[a]);
    let s2 = write_segment(&mut disk, "lane", &registry, 2, &[b]);
    disk.segments[1].series = None;
    let mut cache = RegistryCatalogCache::new();
    let both = vec![s1.clone(), s2];
    assert!(matches!(
        cache.catalog(&both, &disk.files()),
        Err(TsinkError::NotFound(_))
    ));
    make_unreadable(&mut disk, &s1);
    assert_eq!(cache.unread_manifests(&both), Vec::<usize>::new());
    assert_eq!(cache.unread_series(&both), vec![1]);
    let mut files = SegmentFiles::new();
    files.put_series(
        both[1].root.clone(),
        Ok(persisted_series(&[(b, "cpu".to_string(), "b".to_string())])),
    );
    assert!(cache.catalog(&both, &files).is_ok());
    assert_eq!(cache.unread_series(&both), Vec::<usize>::new());
}

#[test]
fn entries_are_sorted_by_lane_level_and_segment_id() {
    let mut disk = Disk::default();
    let mut registry = Registry::default();
    let a = series_id(&mut registry, "cpu", "a");
    let mut sources = Vec::new();
    for id in [5u64, 2, 9, 1] {
        sources.push(write_segment(&mut disk, "lane", &registry, id, &[a]));
    }
    sources[1].lane = SegmentLaneFamily::Blob;
    if let Some(fingerprint) = disk.segments[0].fingerprint.as_mut() {
        fingerprint.manifest.level = 2;
    }
    let entries = build_catalog_entries(&sources, &disk.files()).unwrap();
    let order: Vec<(SegmentLaneFamily, u8, u64)> = entries
        .iter()
        .map(|entry| (entry.lane, entry.level, entry.segment_id))
        .collect();
    assert_eq!(
        order,
        vec![
            (SegmentLaneFamily::Numeric, 0, 1),
            (SegmentLaneFamily::Numeric, 0, 9),
            (SegmentLaneFamily::Numeric, 2, 5),
            (SegmentLaneFamily::Blob, 0, 2),
        ]
    );
    let entry = build_catalog_entry(&sources[2], &disk.files()).unwrap();
    assert_eq!(entry.chunks_len, 901);
    assert_eq!(entry.chunk_index_hash64, 63_002);
    assert_eq!(entry.series_len, 903);
    assert_eq!(entry.postings_hash64, 63_004);
}

#[test]
fn a_catalog_on_disk_is_validated_against_the_sources() {
    let mut disk = Disk::default();
    let mut registry = Registry::default();
    let a = series_id(&mut registry, "cpu", "a");
    let s1 = write_segment(&mut disk, "lane", &registry, 1, &[a]);
    let s2 = write_segment(&mut disk, "lane", &registry, 2, &[a]);
    let files = disk.files();
    let sources = vec![s1.clone()];
    let catalog = build_catalog(&sources, &files).unwrap();
    assert!(validate_registry_catalog(&sources, &files, None)
        .unwrap()
        .is_none());
    let valid = validate_registry_catalog(&sources, &files, Some(Ok(catalog.clone())))
        .unwrap()
        .unwrap();
    assert_eq!(valid.series_fingerprint, catalog.series_fingerprint);
    assert!(
        validate_registry_catalog(&[s1, s2], &files, Some(Ok(catalog)))
            .unwrap()
            .is_none()
    );
    let broken = Err(TsinkError::Storage("expected value".to_string()));
    assert_eq!(
        validate_registry_catalog(&sources, &files, Some(broken))
            .unwrap_err()
            .message(),
        "expected value"
    );
}

#[test]
fn a_catalog_of_another_version_or_without_fingerprint_is_not_adopted() {
    let mut disk = Disk::default();
    let mut registry = Registry::default();
    let a = series_id(&mut registry, "cpu", "a");
    let sources = vec![write_segment(&mut disk, "lane", &registry, 1, &[a])];
    let right = build_catalog(&sources, &disk.files()).unwrap();
    let mut old = right.clone();
    old.version = 1;
    let mut bare = right.clone();
    bare.series_fingerprint = None;
    for wrong in [old, bare] {
        disk.catalog = Some(CatalogOnDisk::Catalog(wrong));
        disk.persist(&sources, &mut Default::default())
            .unwrap();
        assert_eq!(disk.read_catalog_file(), Some(right.clone()));
    }
    assert_eq!(disk.catalog_writes, 2);
}

#[test]
fn persisting_ends_with_the_first_failure_and_notes_only_what_was_written() {
    let mut disk = Disk::default();
    let mut registry = Registry::default();
    let a = series_id(&mut registry, "cpu", "a");
    let sources = vec![write_segment(&mut disk, "lane", &registry, 1, &[a])];
    let denied = || TsinkError::Storage("denied".to_string());
    let failed = |step: PersistStep| match step {
        PersistStep::Done { outcome } => outcome.unwrap_err().message(),
        _ => panic!("the failure should have ended it"),
    };
    let mut cache = RegistryCatalogCache::new();

    let step = begin_persisting(&sources, &cache);
    let reply = PersistReply::ManifestsRead(disk.files());
    let step = persist_registry_catalog(&sources, &mut cache, step, reply);
    assert!(matches!(step, PersistStep::ReadCatalog));
    let reply = PersistReply::CatalogRead(Err(denied()));
    let step = persist_registry_catalog(&sources, &mut cache, step, reply);
    assert_eq!(failed(step), "denied");

    let reply = PersistReply::CatalogRead(Ok(None));
    let step = persist_registry_catalog(&sources, &mut cache, PersistStep::ReadCatalog, reply);
    let reply = PersistReply::SeriesRead(disk.files());
    let step = persist_registry_catalog(&sources, &mut cache, step, reply);
    assert!(matches!(step, PersistStep::WriteFile { .. }));
    let reply = PersistReply::Written(Err(denied()));
    let step = persist_registry_catalog(&sources, &mut cache, step, reply);
    assert_eq!(failed(step), "denied");
    assert!(!cache.knows_catalog_on_disk());

    disk.persist(&sources, &mut cache).unwrap();
    disk.persist(&sources, &mut cache).unwrap();
    assert_eq!(disk.catalog_reads, 1);
    assert_eq!(disk.catalog_writes, 1);
    let step = PersistStep::LookForFile {
        catalog: disk.read_catalog_file().unwrap(),
    };
    let reply = PersistReply::Looked(Err(denied()));
    let step = persist_registry_catalog(&sources, &mut cache, step, reply);
    assert_eq!(failed(step), "denied");
}

#[test]
fn fingerprints_depend_on_every_part_of_a_series() {
    let base = || vec![(1u64, key("cpu", "a")), (2, key("cpu", "b"))];
    let fingerprint = |list: Vec<(u64, SeriesKey)>| {
        fingerprint_series(
            &list
                .into_iter()
                .map(|(series_id, key)| PersistedSeries { series_id, key })
                .collect(),
        )
    };
    let expected = fingerprint(base());
    assert_eq!(expected.series_count, 2);
    assert_eq!(fingerprint(base()), expected);
    let mut other_id = base();
    other_id[1].0 = 3;
    let mut other_metric = base();
    other_metric[0].1.metric.push('u');
    let mut other_label = base();
    other_label[0].1.labels[0].value.push('a');
    let mut more_labels = base();
    more_labels[0].1.labels.push(Label::new("", ""));
    for changed in [other_id, other_metric, other_label, more_labels] {
        assert_ne!(fingerprint(changed), expected);
    }
}

#[test]
fn an_empty_series_list_has_the_hash_of_no_bytes() {
    assert_eq!(
        fingerprint_series(&Vec::new()),
        PersistedRegistrySeriesFingerprint {
            series_count: 0,
            series_hash64: 0xef46_db37_51d8_e999,
        }
    );
}

#[test]
fn a_fingerprint_hashes_ids_and_length_prefixed_texts() {
    let mut bytes = Vec::new();
    bytes.extend_from_slice(&7u64.to_le_bytes());
    bytes.extend_from_slice(&3u64.to_le_bytes());
    bytes.extend_from_slice(b"cpu");
    bytes.extend_from_slice(&1u64.to_le_bytes());
    bytes.extend_from_slice(&4u64.to_le_bytes());
    bytes.extend_from_slice(b"host");
    bytes.extend_from_slice(&1u64.to_le_bytes());
    bytes.extend_from_slice(b"a");
    let series = vec![PersistedSeries {
        series_id: 7,
        key: key("cpu", "a"),
    }];
    assert_eq!(
        fingerprint_series(&series).series_hash64,
        xxhash_rust::xxh64::xxh64(&bytes, 0)
    );
    assert_eq!(
        key_hash(&key("cpu", "a")),
        xxhash_rust::xxh64::xxh64(&bytes[8..], 0)
    );
}

#[test]
fn chunk_indexes_give_ascending_ids() {
    let segments = vec![
        IndexedSegment {
            chunk_series_ids: vec![9, 2, 9],
        },
        IndexedSegment {
            chunk_series_ids: vec![5, 2],
        },
    ];
    assert_eq!(indexed_segment_series_ids(&segments), vec![2, 5, 9]);
}

#[test]
fn a_registry_snapshot_is_held_against_the_segments() {
    let mut registry = SeriesRegistry::new();
    registry.insert(2, key("cpu", "a"));
    registry.insert(5, key("cpu", "b"));
    registry.insert(8, key("mem", "a"));
    let segments = vec![IndexedSegment {
        chunk_series_ids: vec![5, 2],
    }];
    let expected = fingerprint_series(&persisted_series(&[
        (2, "cpu".to_string(), "a".to_string()),
        (5, "cpu".to_string(), "b".to_string()),
    ]));
    assert_eq!(
        fingerprint_registry_series(&registry, &[2, 5]).unwrap(),
        expected
    );
    assert!(validate_registry_snapshot(&registry, &segments, &expected).is_ok());

    registry.insert(5, key("cpu", "c"));
    assert_eq!(
        validate_registry_snapshot(&registry, &segments, &expected)
            .unwrap_err()
            .message(),
        "persisted registry snapshot conflicts with persisted segment series metadata"
    );
    let missing = vec![IndexedSegment {
        chunk_series_ids: vec![5, 3, 4],
    }];
    assert_eq!(
        validate_registry_snapshot(&registry, &missing, &expected)
            .unwrap_err()
            .message(),
        "persisted registry snapshot is missing series id 3 required by persisted segments"
    );
}

#[test]
fn an_inventory_lists_the_catalog_sources_in_order() {
    let inventory = SegmentInventory {
        entries: vec![
            SegmentInventoryEntry {
                lane: SegmentLaneFamily::Blob,
                root: "b".to_string(),
            },
            SegmentInventoryEntry {
                lane: SegmentLaneFamily::Numeric,
                root: "a".to_string(),
            },
        ],
    };
    let sources = inventory_sources(&inventory);
    assert_eq!(sources.len(), 2);
    assert_eq!(sources[0].root, "b");
    assert_eq!(sources[0].lane, SegmentLaneFamily::Blob);
    assert_eq!(sources[1].root, "a");
}

#[test]
fn large_ids_keep_their_segments_apart() {
    let mut disk = Disk::default();
    let registry = Registry::default();
    let s1 = write_segment(&mut disk, "lane", &registry, 1, &[]);
    let s2 = write_segment(&mut disk, "lane", &registry, 2, &[]);
    let big = u64::MAX;
    disk.segments[0].series = Some(vec![
        (big, "cpu".to_string(), "a".to_string()),
        (1 << 40, "cpu".to_string(), "b".to_string()),
    ]);
    disk.segments[1].series = Some(vec![(big, "cpu".to_string(), "a".to_string())]);
    let files = disk.files();
    let mut cache = RegistryCatalogCache::new();
    let both = vec![s1, s2.clone()];
    assert_eq!(
        cache.catalog(&both, &files).unwrap(),
        build_catalog(&both, &files).unwrap()
    );
    let one = vec![s2];
    assert_eq!(
        cache.catalog(&one, &files).unwrap(),
        build_catalog(&one, &files).unwrap()
    );
}
