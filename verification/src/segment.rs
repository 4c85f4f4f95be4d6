//! What the store knows of a persisted segment.
use vstd::prelude::*;

verus! {

/// The two lanes of a store: numeric values, and everything else.
#[derive(Debug, Clone, Copy, PartialEq, Eq, Structural)]
pub enum SegmentLaneFamily {
    Numeric,
    Blob,
}

/// How far the write-ahead log is covered by a segment.
#[derive(Debug, Clone, Copy, PartialEq, Eq, Structural)]
pub struct WalHighWatermark {
    pub segment: u64,
    pub frame: u64,
}

/// The manifest of a segment.
#[derive(Debug, Clone, Copy, PartialEq, Eq, Structural)]
pub struct SegmentManifest {
    pub segment_id: u64,
    pub level: u8,
    pub chunk_count: usize,
    pub point_count: usize,
    pub series_count: usize,
    pub min_ts: Option<i64>,
    pub max_ts: Option<i64>,
    pub wal_highwater: WalHighWatermark,
}

/// The header of a chunk: how many points it holds, and between which timestamps.
#[derive(Debug, Clone, Copy, PartialEq, Eq, Structural)]
pub struct ChunkHeader {
    pub point_count: usize,
    pub min_ts: i64,
    pub max_ts: i64,
}

/// The chunks that a segment holds of one series.
#[derive(Debug)]
pub struct SeriesChunks {
    pub series_id: u64,
    pub chunks: Vec<ChunkHeader>,
}

/// A segment read into memory, as far as planning looks at it.
#[derive(Debug)]
pub struct LoadedSegment {
    pub root: String,
    pub manifest: SegmentManifest,
    pub chunks_by_series: Vec<SeriesChunks>,
}

} // verus!
