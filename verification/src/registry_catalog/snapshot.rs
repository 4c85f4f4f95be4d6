//! Holding a registry snapshot against the segments it was written for.
use crate::error::{ErrorView, TsinkError};
use crate::registry_catalog::fingerprint::{
    fingerprint_of, PersistedRegistrySeriesFingerprint, SeriesHasher,
};
use crate::registry_catalog::series_table::{is_listing, lemma_one_listing, listing};
use crate::registry_catalog::{sources_view, PersistedRegistryCatalogSource, SourceView};
use crate::segment::SegmentLaneFamily;
use crate::series::{KeyView, SeriesKey, SeriesView};
use crate::text::{copied, decimal, with_number};
use std::collections::{BTreeMap, BTreeSet};
use vstd::prelude::*;
use vstd::std_specs::cmp::OrdSpec;
use vstd::std_specs::iter::IteratorSpec;
use vstd::string::StringExecFns;

verus! {

/// A segment of a store's inventory.
#[derive(Debug)]
pub struct SegmentInventoryEntry {
    pub lane: SegmentLaneFamily,
    pub root: String,
}

/// The segments of a store.
#[derive(Debug)]
pub struct SegmentInventory {
    pub entries: Vec<SegmentInventoryEntry>,
}

/// The catalog sources of an inventory: its segments, in order.
pub fn inventory_sources(inventory: &SegmentInventory) -> (sources: Vec<
    PersistedRegistryCatalogSource,
>)
    ensures
        sources_view(sources@) == inventory.entries@.map_values(
            |entry: SegmentInventoryEntry| SourceView { lane: entry.lane, root: entry.root@ },
        ),
{
    let mut sources: Vec<PersistedRegistryCatalogSource> = Vec::new();
    let mut at: usize = 0;
    while at < inventory.entries.len()
        invariant
            at <= inventory.entries@.len(),
            sources@.len() == at,
            forall|i: int|
                0 <= i < at ==> (#[trigger] sources@[i])@ == (SourceView {
                    lane: inventory.entries@[i].lane,
                    root: inventory.entries@[i].root@,
                }),
        decreases inventory.entries@.len() - at,
    {
        let entry = &inventory.entries[at];
        sources.push(
            PersistedRegistryCatalogSource { lane: entry.lane, root: copied(&entry.root) },
        );
        at = at + 1;
    }
    proof {
        assert(sources_view(sources@) =~= inventory.entries@.map_values(
            |entry: SegmentInventoryEntry| SourceView { lane: entry.lane, root: entry.root@ },
        ));
    }
    sources
}

/// A segment with the series of each entry of its chunk index.
#[derive(Debug)]
pub struct IndexedSegment {
    pub chunk_series_ids: Vec<u64>,
}

/// Some chunk index lists the series.
pub open spec fn is_indexed(segments: Seq<IndexedSegment>, id: u64) -> bool {
    exists|i: int|
        0 <= i < segments.len() && (#[trigger] segments[i]).chunk_series_ids@.contains(id)
}

/// `ids` are the series in the chunk indexes, each once, in ascending order.
pub open spec fn are_indexed_ids(segments: Seq<IndexedSegment>, ids: Seq<u64>) -> bool {
    &&& forall|id: u64| #[trigger] ids.contains(id) <==> is_indexed(segments, id)
    &&& forall|i: int, j: int|
        #![trigger ids[i], ids[j]]
        0 <= i < j < ids.len() ==> ids[i] < ids[j]
}

proof fn lemma_ascending(ids: Seq<&u64>)
    requires
        vstd::std_specs::btree::increasing_seq(ids),
    ensures
        forall|i: int, j: int|
            #![trigger ids.unref()[i], ids.unref()[j]]
            0 <= i < j < ids.len() ==> ids.unref()[i] < ids.unref()[j],
{
    broadcast use vstd::std_specs::btree::group_btree_axioms;
    broadcast use vstd::laws_cmp::group_laws_cmp;

    assert(vstd::laws_cmp::obeys_cmp::<&u64>());
    assert forall|i: int, j: int|
        #![trigger ids.unref()[i], ids.unref()[j]]
        0 <= i < j < ids.len() implies ids.unref()[i] < ids.unref()[j] by {
        assert(OrdSpec::cmp_spec(&ids[i], &ids[j]) is Less);
    }
}

/// The series in the chunk indexes, each once, in ascending order.
pub fn indexed_segment_series_ids(indexed_segments: &[IndexedSegment]) -> (ids: Vec<u64>)
    ensures
        are_indexed_ids(indexed_segments@, ids@),
{
    broadcast use vstd::std_specs::btree::group_btree_axioms;

    let mut found: BTreeSet<u64> = BTreeSet::new();
    let mut at: usize = 0;
    while at < indexed_segments.len()
        invariant
            at <= indexed_segments@.len(),
            forall|id: u64| #[trigger]
                found@.contains(id) <==> is_indexed(indexed_segments@.take(at as int), id),
        decreases indexed_segments@.len() - at,
    {
        let ghost before = found@;
        let series: &Vec<u64> = &indexed_segments[at].chunk_series_ids;
        let mut next: usize = 0;
        while next < series.len()
            invariant
                next <= series@.len(),
                forall|id: u64| #[trigger]
                    found@.contains(id) <==> (before.contains(id) || series@.take(
                        next as int,
                    ).contains(id)),
            decreases series@.len() - next,
        {
            found.insert(series[next]);
            proof {
                let grown = series@.take(next + 1);
                assert forall|id: u64| #[trigger] grown.contains(id) <==> (series@.take(
                    next as int,
                ).contains(id) || id == series@[next as int]) by {
                    if series@.take(next as int).contains(id) {
                        assert(grown[series@.take(next as int).index_of(id)] == id);
                    }
                    assert(grown[next as int] == series@[next as int]);
                    if grown.contains(id) && id != series@[next as int] {
                        assert(series@.take(next as int)[grown.index_of(id)] == id);
                    }
                }
            }
            next = next + 1;
        }
        proof {
            assert(series@.take(next as int) =~= series@);
            let shorter = indexed_segments@.take(at as int);
            let longer = indexed_segments@.take(at + 1);
            assert forall|id: u64| #[trigger] found@.contains(id) <==> is_indexed(longer, id) by {
                if is_indexed(shorter, id) {
                    let i = choose|i: int|
                        0 <= i < shorter.len() && (#[trigger] shorter[i]).chunk_series_ids@.contains(
                            id,
                        );
                    assert(longer[i].chunk_series_ids@.contains(id));
                }
                assert(longer[at as int].chunk_series_ids@ == series@);
                if is_indexed(longer, id) && !series@.contains(id) {
                    let i = choose|i: int|
                        0 <= i < longer.len() && (#[trigger] longer[i]).chunk_series_ids@.contains(
                            id,
                        );
                    assert(shorter[i].chunk_series_ids@.contains(id));
                }
            }
        }
        at = at + 1;
    }
    proof {
        assert(indexed_segments@.take(at as int) =~= indexed_segments@);
    }
    let mut ids: Vec<u64> = Vec::new();
    let iter = found.iter();
    let ghost all = iter.remaining();
    for id in it: iter
        invariant
            it.seq() == all,
            ids@ == all.unref().take(it.index() as int),
    {
        ids.push(*id);
        proof {
            assert(ids@ =~= all.unref().take(it.index() + 1));
        }
    }
    proof {
        assert(all.unref().take(all.len() as int) =~= all.unref());
        lemma_ascending(all);
        assert forall|id: u64| #[trigger] ids@.contains(id) <==> is_indexed(
            indexed_segments@,
            id,
        ) by {
            assert(all.unref().to_set().contains(id) <==> found@.contains(id));
        }
    }
    ids
}

/// The series of a registry, by id.
pub struct SeriesRegistry {
    keys: BTreeMap<u64, SeriesKey>,
}

impl View for SeriesRegistry {
    type V = Map<u64, KeyView>;

    closed spec fn view(&self) -> Map<u64, KeyView> {
        self.keys@.map_values(|key: SeriesKey| key@)
    }
}

impl SeriesRegistry {
    /// A registry without series.
    pub fn new() -> (registry: Self)
        ensures
            registry@ == Map::<u64, KeyView>::empty(),
    {
        let registry = SeriesRegistry { keys: BTreeMap::new() };
        proof {
            assert(registry@ =~= Map::<u64, KeyView>::empty());
        }
        registry
    }

    /// Registers a series.
    pub fn insert(&mut self, series_id: u64, key: SeriesKey)
        ensures
            final(self)@ == old(self)@.insert(series_id, key@),
    {
        broadcast use vstd::std_specs::btree::group_btree_axioms;

        let ghost view = key@;
        self.keys.insert(series_id, key);
        proof {
            assert(self@ =~= old(self)@.insert(series_id, view));
        }
    }

    /// The key of a series.
    pub fn decode_series_key(&self, series_id: u64) -> (key: Option<&SeriesKey>)
        ensures
            match key {
                Some(key) => self@.contains_key(series_id) && self@[series_id] == key@,
                None => !self@.contains_key(series_id),
            },
    {
        broadcast use vstd::std_specs::btree::group_btree_axioms;

        self.keys.get(&series_id)
    }
}

/// The error for a series that the registry lacks.
pub open spec fn missing_series(id: u64) -> ErrorView {
    ErrorView::DataCorruption(
        "persisted registry snapshot is missing series id "@ + decimal(id as nat)
            + " required by persisted segments"@,
    )
}

/// The error for a registry whose series are not those of the segments.
pub open spec fn snapshot_conflict() -> ErrorView {
    ErrorView::DataCorruption(
        "persisted registry snapshot conflicts with persisted segment series metadata"@,
    )
}

/// The series with these ids.
pub open spec fn series_with_ids(registry: Map<u64, KeyView>, ids: Seq<u64>) -> Seq<SeriesView> {
    ids.map_values(|id: u64| SeriesView { id, key: registry[id] })
}

/// `at` is the first position whose id the registry lacks.
pub open spec fn is_first_missing(registry: Map<u64, KeyView>, ids: Seq<u64>, at: int) -> bool {
    &&& 0 <= at < ids.len()
    &&& !registry.contains_key(ids[at])
    &&& forall|i: int| 0 <= i < at ==> registry.contains_key(#[trigger] ids[i])
}

/// The registry has all of the ids.
pub open spec fn has_all(registry: Map<u64, KeyView>, ids: Seq<u64>) -> bool {
    forall|i: int| 0 <= i < ids.len() ==> registry.contains_key(#[trigger] ids[i])
}

/// The fingerprint of the series with these ids, or the first one that is missing.
pub fn fingerprint_registry_series(registry: &SeriesRegistry, series_ids: &[u64]) -> (outcome:
    Result<PersistedRegistrySeriesFingerprint, TsinkError>)
    ensures
        has_all(registry@, series_ids@) ==> outcome == Ok::<
            PersistedRegistrySeriesFingerprint,
            TsinkError,
        >(fingerprint_of(series_with_ids(registry@, series_ids@))),
        !has_all(registry@, series_ids@) ==> outcome is Err && exists|at: int| #[trigger]
            is_first_missing(registry@, series_ids@, at) && outcome->Err_0@ == missing_series(
                series_ids@[at],
            ),
{
    let ghost wanted = series_with_ids(registry@, series_ids@);
    let mut hasher = SeriesHasher::new();
    let mut at: usize = 0;
    while at < series_ids.len()
        invariant
            at <= series_ids@.len(),
            wanted == series_with_ids(registry@, series_ids@),
            forall|i: int| 0 <= i < at ==> registry@.contains_key(#[trigger] series_ids@[i]),
            hasher.added() == wanted.take(at as int),
        decreases series_ids@.len() - at,
    {
        let series_id: u64 = series_ids[at];
        let key = match registry.decode_series_key(series_id) {
            Some(key) => key,
            None => {
                proof {
                    assert(is_first_missing(registry@, series_ids@, at as int));
                }
                return Err(
                    TsinkError::DataCorruption(
                        with_number(
                            "persisted registry snapshot is missing series id ",
                            series_id,
                            " required by persisted segments",
                        ),
                    ),
                );
            },
        };
        hasher = hasher.add(series_id, key);
        at = at + 1;
        proof {
            assert(hasher.added() =~= wanted.take(at as int));
        }
    }
    proof {
        assert(wanted.take(at as int) =~= wanted);
    }
    Ok(hasher.finish())
}

/// What validating a snapshot gives for the ids that the segments hold.
pub open spec fn snapshot_outcome(
    registry: Map<u64, KeyView>,
    ids: Seq<u64>,
    expected: PersistedRegistrySeriesFingerprint,
    outcome: Result<(), TsinkError>,
) -> bool {
    if !has_all(registry, ids) {
        outcome is Err && exists|at: int| #[trigger]
            is_first_missing(registry, ids, at) && outcome->Err_0@ == missing_series(ids[at])
    } else if fingerprint_of(series_with_ids(registry, ids)) == expected {
        outcome is Ok
    } else {
        outcome is Err && outcome->Err_0@ == snapshot_conflict()
    }
}

/// Whether the registry holds, for the series of the segments, what the catalog's
/// fingerprint was made of.
pub fn validate_registry_snapshot(
    registry: &SeriesRegistry,
    indexed_segments: &[IndexedSegment],
    expected: &PersistedRegistrySeriesFingerprint,
) -> (outcome: Result<(), TsinkError>)
    ensures
        exists|ids: Seq<u64>| #[trigger]
            are_indexed_ids(indexed_segments@, ids) && snapshot_outcome(
                registry@,
                ids,
                *expected,
                outcome,
            ),
{
    let ids = indexed_segment_series_ids(indexed_segments);
    let actual = match fingerprint_registry_series(registry, ids.as_slice()) {
        Ok(actual) => actual,
        Err(error) => {
            let outcome = Err(error);
            proof {
                assert(snapshot_outcome(registry@, ids@, *expected, outcome));
            }
            return outcome;
        },
    };
    if actual == *expected {
        let outcome = Ok(());
        proof {
            assert(snapshot_outcome(registry@, ids@, *expected, outcome));
        }
        return outcome;
    }
    let outcome = Err(
        TsinkError::DataCorruption(
            String::from_str(
                "persisted registry snapshot conflicts with persisted segment series metadata",
            ),
        ),
    );
    proof {
        assert(snapshot_outcome(registry@, ids@, *expected, outcome));
    }
    outcome
}

/// The ids of the segments are pinned down: there is one ascending list of them.
pub proof fn law_indexed_ids_are_unique(
    segments: Seq<IndexedSegment>,
    a: Seq<u64>,
    b: Seq<u64>,
)
    requires
        are_indexed_ids(segments, a),
        are_indexed_ids(segments, b),
    ensures
        a == b,
{
    lemma_same_ascending(a, b);
}

/// A registry that has the series the segments hold, under the keys that their series lists
/// give, is accepted against the fingerprint that a catalog has of those lists.
pub proof fn law_matching_snapshot_is_accepted(
    registry: Map<u64, KeyView>,
    segments: Seq<IndexedSegment>,
    ids: Seq<u64>,
    keys: Map<u64, KeyView>,
)
    requires
        are_indexed_ids(segments, ids),
        forall|id: u64| #[trigger] keys.contains_key(id) <==> is_indexed(segments, id),
        forall|id: u64| #[trigger]
            keys.contains_key(id) ==> registry.contains_key(id) && registry[id] == keys[id],
    ensures
        has_all(registry, ids),
        fingerprint_of(series_with_ids(registry, ids)) == fingerprint_of(listing(keys)),
{
    let list = series_with_ids(registry, ids);
    assert forall|i: int| 0 <= i < ids.len() implies keys.contains_key(#[trigger] ids[i]) by {
        assert(ids.contains(ids[i]));
        assert(is_indexed(segments, ids[i]));
    }
    assert(has_all(registry, ids)) by {
        assert forall|i: int| 0 <= i < ids.len() implies registry.contains_key(
            #[trigger] ids[i],
        ) by {
            assert(keys.contains_key(ids[i]));
        }
    }
    assert(is_listing(keys, list)) by {
        assert forall|i: int, j: int|
            #![trigger list[i], list[j]]
            0 <= i < j < list.len() implies list[i].id < list[j].id by {
            assert(ids[i] < ids[j]);
        }
        assert forall|i: int| 0 <= i < list.len() implies keys.contains_key(
            (#[trigger] list[i]).id,
        ) && keys[list[i].id] == list[i].key by {
            assert(keys.contains_key(ids[i]));
        }
        assert forall|id: u64| #[trigger] keys.contains_key(id) implies exists|i: int|
            0 <= i < list.len() && (#[trigger] list[i]).id == id by {
            assert(ids.contains(id));
            assert(list[ids.index_of(id)].id == id);
        }
    }
    lemma_one_listing(keys, list, listing(keys));
}

proof fn lemma_same_ascending(a: Seq<u64>, b: Seq<u64>)
    requires
        forall|id: u64| #[trigger] a.contains(id) <==> b.contains(id),
        forall|i: int, j: int|
            #![trigger a[i], a[j]]
            0 <= i < j < a.len() ==> a[i] < a[j],
        forall|i: int, j: int|
            #![trigger b[i], b[j]]
            0 <= i < j < b.len() ==> b[i] < b[j],
    ensures
        a == b,
    decreases a.len(),
{
    if a.len() == 0 {
        if b.len() > 0 {
            assert(b.contains(b[0]));
            assert(a.contains(b[0]));
        }
        assert(a =~= b);
    } else if b.len() == 0 {
        assert(a.contains(a[0]));
        assert(b.contains(a[0]));
    } else {
        let x = a.last();
        let y = b.last();
        assert(a[a.len() - 1] == x && b[b.len() - 1] == y);
        assert(a.contains(x) && b.contains(y));
        assert(b.contains(x) && a.contains(y));
        let i = b.index_of(x);
        let j = a.index_of(y);
        assert(b[i] == x && a[j] == y);
        assert(x == y);
        let p = a.drop_last();
        let q = b.drop_last();
        assert forall|id: u64| #[trigger] p.contains(id) <==> q.contains(id) by {
            if p.contains(id) {
                let k = p.index_of(id);
                assert(a[k] == id);
                assert(a.contains(id));
                assert(b.contains(id));
                let m = b.index_of(id);
                assert(b[m] == id);
                assert(q[m] == id);
            }
            if q.contains(id) {
                let k = q.index_of(id);
                assert(b[k] == id);
                assert(b.contains(id));
                assert(a.contains(id));
                let m = a.index_of(id);
                assert(a[m] == id);
                assert(p[m] == id);
            }
        }
        lemma_same_ascending(p, q);
        assert(a =~= p.push(x));
        assert(b =~= q.push(y));
    }
}

/// The list holds the series that some chunk index lists, each once, in ascending order of ids,
/// under the keys that the registry has for them.
pub open spec fn is_snapshot_list(
    registry: Map<u64, KeyView>,
    segments: Seq<IndexedSegment>,
    list: Seq<SeriesView>,
) -> bool {
    &&& forall|i: int, j: int|
        #![trigger list[i], list[j]]
        0 <= i < j < list.len() ==> list[i].id < list[j].id
    &&& forall|i: int|
        0 <= i < list.len() ==> is_indexed(segments, (#[trigger] list[i]).id)
            && registry.contains_key(list[i].id) && registry[list[i].id] == list[i].key
    &&& forall|id: u64|
        #[trigger] is_indexed(segments, id) ==> exists|i: int|
            0 <= i < list.len() && (#[trigger] list[i]).id == id
}

/// A snapshot is accepted exactly where the registry has every series that some chunk index
/// lists, and the fingerprint of those is the expected one. A missing series is reported by its
/// id, the lowest one first; otherwise the conflict is.
pub proof fn law_accepted_snapshot_has_every_indexed_series(
    registry: Map<u64, KeyView>,
    segments: Seq<IndexedSegment>,
    ids: Seq<u64>,
    expected: PersistedRegistrySeriesFingerprint,
    outcome: Result<(), TsinkError>,
    list: Seq<SeriesView>,
)
    requires
        are_indexed_ids(segments, ids),
        snapshot_outcome(registry, ids, expected, outcome),
    ensures
        outcome is Ok ==> forall|s: int, k: int|
            #![trigger segments[s].chunk_series_ids@[k]]
            0 <= s < segments.len() && 0 <= k < segments[s].chunk_series_ids@.len()
                ==> registry.contains_key(segments[s].chunk_series_ids@[k]),
        is_snapshot_list(registry, segments, list) ==> (outcome is Ok <==> fingerprint_of(list)
            == expected),
        is_snapshot_list(registry, segments, list) && outcome is Err ==> outcome->Err_0@
            == ErrorView::DataCorruption(
            "persisted registry snapshot conflicts with persisted segment series metadata"@,
        ),
        (exists|id: u64| #[trigger] is_indexed(segments, id) && !registry.contains_key(id))
            ==> outcome is Err && exists|id: u64|
            {
                &&& #[trigger] is_indexed(segments, id)
                &&& !registry.contains_key(id)
                &&& outcome->Err_0@ == ErrorView::DataCorruption(
                    "persisted registry snapshot is missing series id "@ + decimal(id as nat)
                        + " required by persisted segments"@,
                )
                &&& forall|other: u64|
                    #[trigger] is_indexed(segments, other) && !registry.contains_key(other) ==> id
                        <= other
            },
{
    if outcome is Ok {
        assert forall|s: int, k: int|
            #![trigger segments[s].chunk_series_ids@[k]]
            0 <= s < segments.len() && 0 <= k
                < segments[s].chunk_series_ids@.len() implies registry.contains_key(
            segments[s].chunk_series_ids@[k],
        ) by {
            let id = segments[s].chunk_series_ids@[k];
            assert(segments[s].chunk_series_ids@.contains(id));
            assert(is_indexed(segments, id));
            assert(ids.contains(id));
            assert(registry.contains_key(ids[ids.index_of(id)]));
        }
    }
    if is_snapshot_list(registry, segments, list) {
        assert(has_all(registry, ids)) by {
            assert forall|i: int| 0 <= i < ids.len() implies registry.contains_key(
                #[trigger] ids[i],
            ) by {
                assert(ids.contains(ids[i]));
                assert(is_indexed(segments, ids[i]));
                let k = choose|k: int| 0 <= k < list.len() && (#[trigger] list[k]).id == ids[i];
            }
        }
        let listed = list.map_values(|series: SeriesView| series.id);
        assert forall|id: u64| #[trigger] listed.contains(id) <==> ids.contains(id) by {
            if listed.contains(id) {
                let k = listed.index_of(id);
                assert(listed[k] == list[k].id);
                assert(is_indexed(segments, id));
            }
            if ids.contains(id) {
                assert(is_indexed(segments, id));
                let k = choose|k: int| 0 <= k < list.len() && (#[trigger] list[k]).id == id;
                assert(listed[k] == id);
            }
        }
        assert forall|i: int, j: int|
            #![trigger listed[i], listed[j]]
            0 <= i < j < listed.len() implies listed[i] < listed[j] by {
            assert(list[i].id < list[j].id);
        }
        lemma_same_ascending(listed, ids);
        assert(series_with_ids(registry, ids) =~= list) by {
            assert forall|k: int| 0 <= k < list.len() implies #[trigger] series_with_ids(
                registry,
                ids,
            )[k] == list[k] by {
                assert(listed[k] == ids[k]);
            }
        }
    }
    if exists|id: u64| #[trigger] is_indexed(segments, id) && !registry.contains_key(id) {
        let id = choose|id: u64| #[trigger] is_indexed(segments, id) && !registry.contains_key(id);
        assert(ids.contains(id));
        assert(!registry.contains_key(ids[ids.index_of(id)]));
        let at = choose|at: int| #[trigger]
            is_first_missing(registry, ids, at) && outcome->Err_0@ == missing_series(ids[at]);
        let first = ids[at];
        assert(ids.contains(first));
        assert(is_indexed(segments, first));
        assert forall|other: u64|
            #[trigger] is_indexed(segments, other) && !registry.contains_key(other) implies first
            <= other by {
            assert(ids.contains(other));
            let k = ids.index_of(other);
            if k < at {
                assert(registry.contains_key(ids[k]));
            }
        }
    }
}

} // verus!
