use tsink::compactor::final_level::{select_final_level_merge, FinalLevelMerge, FinalLevelSegment};
use tsink::compactor::planning::SegmentReading;
use tsink::compactor::{CompactionRunStats, Compactor};
use tsink::error::TsinkError;
use tsink::maintenance::final_level::{
    check_totals_fit, compact_final_level_offline, FinalLevelRequest, MergeReport, OfflineReply,
    OfflineStep,
};
use tsink::segment::{SegmentLaneFamily, SegmentManifest, WalHighWatermark};
use tsink::series::Label;

struct StoredSegment {
    root: String,
    manifest: SegmentManifest,
    metric: String,
    labels: Vec<(String, String)>,
    points: Vec<(i64, f64)>,
}

#[derive(Default)]
struct Store {
    numeric: Vec<StoredSegment>,
    open: bool,
}

fn manifest(segment_id: u64, level: u8, points: &[(i64, f64)]) -> SegmentManifest {
    SegmentManifest {
        segment_id,
        level,
        chunk_count: 1,
        point_count: points.len(),
        series_count: 1,
        min_ts: points.iter().map(|point| point.0).min(),
        max_ts: points.iter().map(|point| point.0).max(),
        wal_highwater: WalHighWatermark { segment: 0, frame: 0 },
    }
}

impl Store {
    fn write_segment(
        &mut self,
        level: u8,
        segment_id: u64,
        metric: &str,
        labels: &[Label],
        points: Vec<(i64, f64)>,
    ) -> FinalLevelSegment {
        let manifest = manifest(segment_id, level, &points);
        let root = format!("lane_numeric/segments/L{level}/seg-{segment_id:016x}");
        self.numeric.push(StoredSegment {
            root: root.clone(),
            manifest,
            metric: metric.to_string(),
            labels: labels
                .iter()
                .map(|label| (label.name.clone(), label.value.clone()))
                .collect(),
            points,
        });
        FinalLevelSegment { root, manifest }
    }

    fn select(&self, metric: &str, labels: &[Label], start: i64, end: i64) -> Vec<(i64, f64)> {
        let mut points: Vec<(i64, f64)> = self
            .numeric
            .iter()
            .filter(|segment| {
                segment.metric == metric
                    && segment.labels.len() == labels.len()
                    && segment
                        .labels
                        .iter()
                        .zip(labels)
                        .all(|(left, right)| left.0 == right.name && left.1 == right.value)
            })
            .flat_map(|segment| segment.points.iter().copied())
            .filter(|point| point.0 >= start && point.0 < end)
            .collect();
        points.sort_by_key(|point| point.0);
        points
    }

    fn readings(&self, lane: SegmentLaneFamily) -> Vec<SegmentReading> {
        match lane {
            SegmentLaneFamily::Numeric => self
                .numeric
                .iter()
                .map(|segment| SegmentReading {
                    root: segment.root.clone(),
                    level_dir: Some(format!("L{}", segment.manifest.level)),
                    manifest: Ok(segment.manifest),
                })
                .collect(),
            SegmentLaneFamily::Blob => Vec::new(),
        }
    }

    fn merge(&mut self, sources: &[String], output_id: u64) -> MergeReport {
        let mut points = Vec::new();
        let mut source_points = 0;
        let mut metric = String::new();
        let mut labels = Vec::new();
        for root in sources {
            let at = self
                .numeric
                .iter()
                .position(|segment| segment.root == *root)
                .unwrap();
            let segment = self.numeric.remove(at);
            source_points += segment.points.len();
            metric = segment.metric;
            labels = segment.labels;
            points.extend(segment.points);
        }
        points.sort_by(|left, right| left.0.cmp(&right.0));
        let labels: Vec<Label> = labels
            .iter()
            .map(|(name, value)| Label::new(name, value))
            .collect();
        let output_points = points.len();
        let output = self.write_segment(2, output_id, &metric, &labels, points);
        MergeReport {
            stats: CompactionRunStats {
                compacted: true,
                source_level: None,
                target_level: None,
                source_segments: sources.len(),
                output_segments: 1,
                source_chunks: sources.len(),
                output_chunks: 1,
                source_points,
                output_points,
            },
            outputs: vec![output],
        }
    }

    fn compact_final_level(
        &mut self,
        data_path: Option<&str>,
        object_store_path: Option<String>,
        window: i64,
    ) -> Result<CompactionRunStats, TsinkError> {
        let request = FinalLevelRequest {
            data_path: data_path.map(|path| path.to_string()),
            object_store_path,
            window,
        };
        let mut run = compact_final_level_offline(compactor(8), &request)?;
        loop {
            let reply = match &run.step {
                OfflineStep::AcquireLock => OfflineReply::Locked(if self.open {
                    Err(TsinkError::Storage("data path is already locked".to_string()))
                } else {
                    Ok(())
                }),
                OfflineStep::ScanLane { lane } => OfflineReply::Scanned(Ok(self.readings(*lane))),
                OfflineStep::MergeGroup { lane, group } => {
                    let segments = match lane {
                        SegmentLaneFamily::Numeric => &run.numeric,
                        SegmentLaneFamily::Blob => &run.blob,
                    };
                    let roots: Vec<String> = group
                        .iter()
                        .map(|index| segments[*index].root.clone())
                        .collect();
                    let report = self.merge(&roots, run.first_output_id());
                    assert!(check_totals_fit(&run.total, &report.stats));
                    OfflineReply::Merged(Ok(report))
                }
                OfflineStep::Done { .. } => break,
            };
            run.resume(reply);
        }
        match run.step {
            OfflineStep::Done { outcome } => outcome,
            _ => unreachable!(),
        }
    }
}

fn compactor(point_cap: usize) -> Compactor {
    Compactor {
        point_cap,
        l0_trigger: 4,
        l1_trigger: 4,
        source_window_segments: 8,
        output_segment_chunk_multiplier: 64,
    }
}

#[test]
fn offline_final_level_compaction_merges_small_segments_and_keeps_the_store_readable() {
    let labels = vec![Label::new("host", "a")];
    let mut store = Store::default();

    let mut expected = Vec::new();
    for segment_id in 1..=6u64 {
        let ts = segment_id as i64 * 10;
        store.write_segment(2, segment_id, "cpu", &labels, vec![(ts, ts as f64)]);
        expected.push((ts, ts as f64));
    }

    let stats = store
        .compact_final_level(Some("data"), None, 3_600)
        .unwrap();
    assert!(stats.compacted);
    assert_eq!(stats.source_segments, 6);
    assert_eq!(stats.output_segments, 1);
    assert_eq!(stats.output_points, 6);
    assert_eq!(
        store
            .numeric
            .iter()
            .filter(|segment| segment.manifest.level == 2)
            .count(),
        1
    );
    assert_eq!(store.numeric[0].manifest.segment_id, 7);

    store.open = true;
    assert_eq!(store.select("cpu", &labels, 0, 100), expected);

    let err = store
        .compact_final_level(Some("data"), None, 3_600)
        .unwrap_err();
    let err = err.message();
    assert!(err.contains("already locked"), "{err}");
}

#[test]
fn offline_final_level_compaction_rejects_stores_it_cannot_handle() {
    let mut store = Store::default();
    assert!(store.compact_final_level(None, None, 3_600).is_err());
    assert!(store.compact_final_level(Some("data"), None, 0).is_err());
    assert!(store
        .compact_final_level(Some("data"), Some(format!("data/{}", "objects")), 3_600)
        .is_err());
}

#[test]
fn a_second_offline_run_finds_nothing_to_merge() {
    let labels = vec![Label::new("host", "a")];
    let mut store = Store::default();
    for segment_id in 1..=3u64 {
        store.write_segment(2, segment_id, "cpu", &labels, vec![(segment_id as i64, 1.0)]);
    }
    store.write_segment(1, 9, "cpu", &labels, vec![(4, 1.0)]);
    let first = store.compact_final_level(Some("data"), None, 10).unwrap();
    assert_eq!(first.source_segments, 3);
    assert_eq!(first.source_level, Some(2));
    assert_eq!(first.target_level, Some(2));
    assert!(store
        .numeric
        .iter()
        .any(|segment| segment.manifest.segment_id == 10));
    let second = store.compact_final_level(Some("data"), None, 10).unwrap();
    assert_eq!(second, CompactionRunStats::default());
}

#[test]
fn segments_of_different_windows_are_merged_apart() {
    let labels = vec![Label::new("host", "a")];
    let mut store = Store::default();
    for (segment_id, ts) in [(1u64, -1i64), (2, -10), (3, 0), (4, 9), (5, 10)] {
        store.write_segment(2, segment_id, "cpu", &labels, vec![(ts, 0.0)]);
    }
    let stats = store.compact_final_level(Some("data"), None, 10).unwrap();
    assert_eq!(stats.source_segments, 4);
    assert_eq!(stats.output_segments, 2);
    assert_eq!(store.numeric.len(), 3);
    let ids: Vec<u64> = store
        .numeric
        .iter()
        .map(|segment| segment.manifest.segment_id)
        .collect();
    assert_eq!(ids, vec![5, 6, 7]);
}

fn segment(segment_id: u64, min_ts: i64, max_ts: i64, point_count: usize) -> FinalLevelSegment {
    FinalLevelSegment {
        root: format!("seg-{segment_id}"),
        manifest: SegmentManifest {
            segment_id,
            level: 2,
            chunk_count: 1,
            point_count,
            series_count: 1,
            min_ts: Some(min_ts),
            max_ts: Some(max_ts),
            wal_highwater: WalHighWatermark { segment: 0, frame: 0 },
        },
    }
}

#[test]
fn a_merge_takes_the_oldest_small_segments_of_the_earliest_window() {
    let segments = vec![
        segment(4, 25, 28, 1),
        segment(3, 12, 14, 3),
        segment(2, 11, 19, 4),
        segment(1, 11, 13, 50),
        segment(5, 10, 12, 2),
        segment(6, 1, 2, 1),
    ];
    assert_eq!(select_final_level_merge(&segments, 10, 20, 8), Some(vec![4, 2, 1]));
    assert_eq!(select_final_level_merge(&segments, 10, 8, 8), Some(vec![4, 1]));
    assert_eq!(select_final_level_merge(&segments, 10, 20, 1), Some(vec![4, 2]));
    assert_eq!(select_final_level_merge(&segments, 10, 6, 8), None);
    assert_eq!(select_final_level_merge(&segments, 10, 2, 8), None);
    assert_eq!(select_final_level_merge(&segments, 0, 20, 8), None);
}

#[test]
fn segments_without_data_are_never_merged() {
    let mut empty = segment(1, 0, 0, 0);
    empty.manifest.min_ts = None;
    let mut half = segment(2, 0, 0, 0);
    half.manifest.max_ts = None;
    let segments = vec![empty, half, segment(3, 0, 0, 1)];
    assert_eq!(select_final_level_merge(&segments, 10, 20, 8), None);
}

#[test]
fn a_merge_replaces_its_sources_by_its_outputs() {
    let mut segments = vec![segment(1, 0, 1, 1), segment(2, 2, 3, 1), segment(3, 4, 5, 1)];
    let merge = FinalLevelMerge {
        group: vec![2, 0],
        stats: CompactionRunStats {
            compacted: true,
            ..CompactionRunStats::default()
        },
        outputs: vec![segment(7, 0, 5, 2)],
    };
    let stats = compactor(8).compact_final_level_once(&mut segments, Some(merge));
    let ids: Vec<u64> = segments
        .iter()
        .map(|segment| segment.manifest.segment_id)
        .collect();
    assert_eq!(ids, vec![2, 7]);
    assert_eq!(stats.source_level, Some(2));
    assert!(!compactor(8)
        .compact_final_level_once(&mut segments, None)
        .compacted);
}

#[test]
fn the_point_budget_does_not_overflow() {
    assert_eq!(compactor(8).output_segment_point_budget(), 512);
    assert_eq!(compactor(usize::MAX).output_segment_point_budget(), usize::MAX);
    let mut none = compactor(8);
    none.output_segment_chunk_multiplier = 0;
    assert_eq!(none.output_segment_point_budget(), 8);
}

#[test]
fn an_offline_run_ends_with_the_first_failure() {
    let request = FinalLevelRequest {
        data_path: Some("data".to_string()),
        object_store_path: None,
        window: 5,
    };
    let mut run = compact_final_level_offline(compactor(8), &request).unwrap();
    run.resume(OfflineReply::Locked(Ok(())));
    run.resume(OfflineReply::Scanned(Ok(vec![SegmentReading {
        root: "broken".to_string(),
        level_dir: Some("L2".to_string()),
        manifest: Err(TsinkError::DataCorruption("bad manifest".to_string())),
    }])));
    match run.step {
        OfflineStep::Done { outcome: Err(TsinkError::DataCorruption(text)) } => {
            assert_eq!(text, "bad manifest")
        }
        other => panic!("{other:?}"),
    }
}

#[test]
fn a_merge_that_merges_nothing_counts_nothing_in_any_run() {
    let request = FinalLevelRequest {
        data_path: Some("data".to_string()),
        object_store_path: None,
        window: 100,
    };
    for order in [[1u64, 2], [2, 1]] {
        let mut run = compact_final_level_offline(compactor(8), &request).unwrap();
        run.resume(OfflineReply::Locked(Ok(())));
        let found = order.iter().map(|id| SegmentReading {
            root: format!("seg-{id}"),
            level_dir: Some("L2".to_string()),
            manifest: Ok(manifest(*id, 2, &[(*id as i64, 0.0)])),
        });
        run.resume(OfflineReply::Scanned(Ok(found.collect())));
        run.resume(OfflineReply::Scanned(Ok(Vec::new())));
        let roots: Vec<&str> = match &run.step {
            OfflineStep::MergeGroup { group, .. } => group
                .iter()
                .map(|at| run.numeric[*at].root.as_str())
                .collect(),
            _ => panic!("a merge was due"),
        };
        assert_eq!(roots, vec!["seg-1", "seg-2"]);
        run.resume(OfflineReply::Merged(Ok(MergeReport {
            stats: CompactionRunStats::default(),
            outputs: Vec::new(),
        })));
        match &run.step {
            OfflineStep::Done { outcome: Ok(total) } => {
                assert_eq!(*total, CompactionRunStats::default())
            }
            _ => panic!("the run should have ended"),
        }
    }
}
