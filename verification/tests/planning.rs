use tsink::compactor::groups::SegmentGroups;
use tsink::compactor::overlap::overlapping_series_window_indexes;
use tsink::compactor::planning::{
    count_level_segments_for_compaction, level_to_u8, select_compaction_window, CompactionLevel,
    CompactionReply, CompactionStep, SegmentReading,
};
use tsink::compactor::{CompactionOutcome, CompactionRunStats, Compactor};
use tsink::error::TsinkError;
use tsink::segment::{ChunkHeader, LoadedSegment, SegmentManifest, SeriesChunks, WalHighWatermark};

fn manifest(segment_id: u64, level: u8) -> SegmentManifest {
    SegmentManifest {
        segment_id,
        level,
        chunk_count: 1,
        point_count: 1,
        series_count: 1,
        min_ts: None,
        max_ts: None,
        wal_highwater: WalHighWatermark { segment: 0, frame: 0 },
    }
}

fn segment(segment_id: u64, chunks: &[(u64, i64, i64)]) -> LoadedSegment {
    LoadedSegment {
        root: format!("seg-{segment_id}"),
        manifest: manifest(segment_id, 0),
        chunks_by_series: chunks
            .iter()
            .map(|(series_id, min_ts, max_ts)| SeriesChunks {
                series_id: *series_id,
                chunks: vec![ChunkHeader {
                    point_count: 1,
                    min_ts: *min_ts,
                    max_ts: *max_ts,
                }],
            })
            .collect(),
    }
}

fn reading(root: &str, dir: &str, manifest: Result<SegmentManifest, TsinkError>) -> SegmentReading {
    SegmentReading {
        root: root.to_string(),
        level_dir: Some(dir.to_string()),
        manifest,
    }
}

fn compactor() -> Compactor {
    Compactor {
        point_cap: 8,
        l0_trigger: 3,
        l1_trigger: 4,
        source_window_segments: 4,
        output_segment_chunk_multiplier: 64,
    }
}

fn ids(window: Option<Vec<&LoadedSegment>>) -> Option<Vec<u64>> {
    window.map(|window| {
        window
            .iter()
            .map(|segment| segment.manifest.segment_id)
            .collect()
    })
}

#[test]
fn overlapping_chunks_of_one_series_are_found() {
    let segments = vec![
        segment(1, &[(7, 0, 5)]),
        segment(2, &[(7, 6, 20)]),
        segment(3, &[(7, 20, 30)]),
        segment(4, &[(7, 31, 40)]),
    ];
    assert_eq!(
        overlapping_series_window_indexes(&segments, 8),
        Some(vec![1, 2])
    );
}

#[test]
fn overlaps_chain_through_other_series_and_segments() {
    let segments = vec![
        segment(1, &[(1, 0, 10)]),
        segment(2, &[(9, 0, 1)]),
        segment(3, &[(1, 5, 6), (2, 100, 110)]),
        segment(4, &[(2, 105, 106)]),
    ];
    assert_eq!(
        overlapping_series_window_indexes(&segments, 8),
        Some(vec![0, 2, 3])
    );
    assert_eq!(
        overlapping_series_window_indexes(&segments, 2),
        Some(vec![0, 2])
    );
}

#[test]
fn different_series_never_overlap() {
    let segments = vec![segment(1, &[(1, 0, 100)]), segment(2, &[(2, 0, 100)])];
    assert_eq!(overlapping_series_window_indexes(&segments, 8), None);
}

#[test]
fn chunks_without_points_do_not_count() {
    let mut segments = vec![segment(1, &[(1, 0, 100)]), segment(2, &[(1, 0, 100)])];
    segments[1].chunks_by_series[0].chunks[0].point_count = 0;
    assert_eq!(overlapping_series_window_indexes(&segments, 8), None);
}

#[test]
fn the_oldest_overlap_is_taken_first() {
    let segments = vec![
        segment(1, &[(1, 0, 1)]),
        segment(2, &[(2, 0, 9), (3, 0, 1)]),
        segment(3, &[(4, 0, 9)]),
        segment(4, &[(4, 5, 9)]),
        segment(5, &[(2, 9, 12)]),
    ];
    assert_eq!(
        overlapping_series_window_indexes(&segments, 8),
        Some(vec![1, 4])
    );
}

#[test]
fn a_window_is_selected_by_overlap_or_by_count() {
    let apart = vec![
        segment(1, &[(1, 0, 1)]),
        segment(2, &[(1, 2, 3)]),
        segment(3, &[(1, 4, 5)]),
    ];
    assert_eq!(ids(select_compaction_window(&apart, 4, 8)), None);
    assert_eq!(ids(select_compaction_window(&apart, 3, 8)), Some(vec![1, 2, 3]));
    assert_eq!(ids(select_compaction_window(&apart, 3, 2)), Some(vec![1, 2]));
    assert_eq!(ids(select_compaction_window(&apart, 1, 8)), Some(vec![1, 2]));
    assert_eq!(ids(select_compaction_window(&apart[..1], 0, 8)), Some(vec![1]));
    let meeting = vec![segment(1, &[(1, 0, 4)]), segment(2, &[(1, 4, 5)])];
    assert_eq!(ids(select_compaction_window(&meeting, 100, 0)), Some(vec![1, 2]));
}

#[test]
fn groups_join_and_count_their_members() {
    let mut groups = SegmentGroups::new(5);
    assert_eq!(groups.size_of(3), 1);
    groups.join(0, 1);
    groups.join(3, 4);
    groups.join(4, 1);
    groups.join(0, 3);
    assert_eq!(groups.size_of(0), 4);
    assert_eq!(groups.size_of(2), 1);
    assert_eq!(groups.root(0), groups.root(4));
    assert_ne!(groups.root(0), groups.root(2));
}

#[test]
fn segments_are_counted_under_their_level() {
    let readings = vec![
        reading("a", "L0", Ok(manifest(1, 0))),
        reading("b", "L1", Ok(manifest(2, 1))),
        reading("c", "L0", Err(TsinkError::NotFound("manifest".to_string()))),
        reading("d", "L0", Ok(manifest(3, 0))),
        SegmentReading {
            root: "e".to_string(),
            level_dir: None,
            manifest: Ok(manifest(4, 0)),
        },
    ];
    assert_eq!(count_level_segments_for_compaction(&readings, 0).unwrap(), 2);
    assert_eq!(count_level_segments_for_compaction(&readings, 1).unwrap(), 1);
    assert_eq!(count_level_segments_for_compaction(&readings, 2).unwrap(), 0);
}

#[test]
fn a_segment_under_the_wrong_level_is_an_error() {
    let misplaced = vec![reading("a", "L1", Ok(manifest(1, 2)))];
    let error = count_level_segments_for_compaction(&misplaced, 1).unwrap_err();
    assert!(matches!(&error, TsinkError::SegmentValidation { root, .. } if root == "a"));
    assert!(error
        .message()
        .contains("segment directory level mismatch: stored under L1, manifest says L2"));
    let corrupt = vec![reading(
        "b",
        "L1",
        Err(TsinkError::DataCorruption("bad checksum".to_string())),
    )];
    let error = count_level_segments_for_compaction(&corrupt, 1).unwrap_err();
    assert!(
        matches!(&error, TsinkError::SegmentValidation { root, details } if root == "b" && details.contains("bad checksum"))
    );
    let other = vec![reading("c", "L1", Err(TsinkError::Storage("io".to_string())))];
    assert!(matches!(
        count_level_segments_for_compaction(&other, 1),
        Err(TsinkError::Storage(text)) if text == "io"
    ));
}

#[test]
fn levels_have_numbers() {
    assert_eq!(level_to_u8(CompactionLevel::L0), 0);
    assert_eq!(level_to_u8(CompactionLevel::L1), 1);
    assert_eq!(level_to_u8(CompactionLevel::L2), 2);
}

#[test]
fn a_level_is_merged_in_storage_order() {
    let loaded = vec![
        segment(9, &[(1, 8, 9)]),
        segment(2, &[(1, 0, 1)]),
        segment(5, &[(1, 4, 5)]),
    ];
    let merge = compactor()
        .try_compact_level(CompactionLevel::L0, CompactionLevel::L1, 3, loaded)
        .unwrap();
    assert_eq!(merge.sources, vec![1, 2, 0]);
    assert_eq!(merge.source_level, 0);
    assert_eq!(merge.target_level, 1);
    assert!(compactor()
        .try_compact_level(
            CompactionLevel::L0,
            CompactionLevel::L1,
            1,
            vec![segment(1, &[])]
        )
        .is_none());
}

#[test]
fn a_pass_tries_level_zero_then_level_one() {
    let compactor = compactor();
    let mut step = compactor.begin_compaction();
    let mut seen = Vec::new();
    loop {
        let reply = match &step {
            CompactionStep::FinalizeReplacements => CompactionReply::Finalized(Ok(())),
            CompactionStep::LoadTombstones => CompactionReply::TombstonesLoaded(Ok(())),
            CompactionStep::CountSegments { source } => {
                seen.push(level_to_u8(*source));
                let level = level_to_u8(*source);
                let dir = format!("L{level}");
                CompactionReply::SegmentsListed(Ok((1..=2)
                    .map(|id| reading("r", &dir, Ok(manifest(id, level))))
                    .collect()))
            }
            CompactionStep::LoadSegments { source } => {
                CompactionReply::SegmentsLoaded(Ok(match source {
                    CompactionLevel::L0 => {
                        vec![segment(1, &[(1, 0, 1)]), segment(2, &[(1, 2, 3)])]
                    }
                    _ => vec![segment(4, &[(1, 0, 5)]), segment(3, &[(1, 2, 3)])],
                }))
            }
            CompactionStep::MergeSegments { merge } => {
                assert_eq!(merge.sources, vec![1, 0]);
                CompactionReply::Merged(Ok(CompactionOutcome {
                    stats: CompactionRunStats {
                        source_segments: 2,
                        output_segments: 1,
                        ..CompactionRunStats::default()
                    },
                    output_roots: vec!["out".to_string()],
                }))
            }
            CompactionStep::Done { .. } => break,
        };
        step = compactor.compact_once_with_changes(step, reply);
    }
    assert_eq!(seen, vec![0, 1]);
    match step {
        CompactionStep::Done { outcome: Ok(outcome) } => {
            assert!(outcome.stats.compacted);
            assert_eq!(outcome.stats.source_level, Some(1));
            assert_eq!(outcome.stats.target_level, Some(2));
            assert_eq!(outcome.output_roots, vec!["out".to_string()]);
        }
        other => panic!("{other:?}"),
    }
}

#[test]
fn a_failed_step_ends_the_pass() {
    let compactor = compactor();
    let step = compactor.begin_compaction();
    let failed = CompactionReply::Finalized(Err(TsinkError::Storage("disk".to_string())));
    let step = compactor.compact_once_with_changes(step, failed);
    assert!(matches!(
        step,
        CompactionStep::Done { outcome: Err(TsinkError::Storage(text)) } if text == "disk"
    ));
}
