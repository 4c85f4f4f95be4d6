# Maintenance core of a time-series store

The parts of an embedded time-series store that keep persisted data in shape, as a
library whose behaviour is stated in contracts and proved by Verus.

- `compactor`: which segments a compaction pass merges. Segments that hold overlapping
  chunks of the same series go first; small final-level segments are merged per time window.
- `maintenance`: merging final-level segments of a store that no process has open.
- `registry_catalog`: the catalog that tells whether a persisted series registry still
  belongs to the segments on disk, and the cache that keeps it current.
- `rollups`: one worker pass that materializes rollup buckets: sources, staging,
  checkpoints, and the policies that late rows invalidate.
- `concurrency`: a counting semaphore on top of `parking_lot`.
- `sorting`, `text`, `text_map`, `series`, `segment`, `error`: what the rest stands on.

Apart from the semaphore, which waits, nothing in `src/` touches files, clocks or threads.
What alternates with them is written as a state machine that names the work due next and
takes its outcome. `app/` does that work: it reads and writes the catalog file, drives the
machines over a storage engine, and holds the reader-preferring lock. Proof functions named
`law_..` state what holds of the library as a whole.
