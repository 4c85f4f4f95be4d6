//! Segment compaction: which segments are merged, and when.
pub mod final_level;
pub mod final_level_laws;
pub mod groups;
pub mod laws;
pub mod overlap;
pub mod planning;
pub mod window_laws;

use vstd::prelude::*;

verus! {

/// What one compaction did.
#[derive(Debug, Clone, Copy, PartialEq, Eq, Structural)]
pub struct CompactionRunStats {
    pub compacted: bool,
    pub source_level: Option<u8>,
    pub target_level: Option<u8>,
    pub source_segments: usize,
    pub output_segments: usize,
    pub source_chunks: usize,
    pub output_chunks: usize,
    pub source_points: usize,
    pub output_points: usize,
}

/// Statistics of a compaction that did nothing.
pub open spec fn no_stats() -> CompactionRunStats {
    CompactionRunStats {
        compacted: false,
        source_level: None,
        target_level: None,
        source_segments: 0,
        output_segments: 0,
        source_chunks: 0,
        output_chunks: 0,
        source_points: 0,
        output_points: 0,
    }
}

impl Default for CompactionRunStats {
    fn default() -> (stats: Self)
        ensures
            stats == no_stats(),
    {
        CompactionRunStats {
            compacted: false,
            source_level: None,
            target_level: None,
            source_segments: 0,
            output_segments: 0,
            source_chunks: 0,
            output_chunks: 0,
            source_points: 0,
            output_points: 0,
        }
    }
}

/// What a merge of segments left behind.
#[derive(Debug)]
pub struct CompactionOutcome {
    pub stats: CompactionRunStats,
    pub output_roots: Vec<String>,
}

/// How a lane of segments is compacted.
#[derive(Debug, Clone, Copy)]
pub struct Compactor {
    /// Points that one chunk holds at most.
    pub point_cap: usize,
    /// Segments at which a level-0 pass is due.
    pub l0_trigger: usize,
    /// Segments at which a level-1 pass is due.
    pub l1_trigger: usize,
    /// Segments that one pass merges at most.
    pub source_window_segments: usize,
    /// Full chunks that fit into one output segment.
    pub output_segment_chunk_multiplier: usize,
}

} // verus!
