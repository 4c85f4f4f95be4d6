//! What the catalog is built from, kept in memory.
use crate::error::{ErrorView, TsinkError};
use crate::registry_catalog::fingerprint::{fingerprint_of, PersistedRegistrySeriesFingerprint};
use crate::registry_catalog::from_files::{
    build_catalog_entry, entry_of, sort_entries, sorted_entries,
};
use crate::registry_catalog::merging::{
    add_all, ids_of, lemma_added, stage_all, staging, together,
};
use crate::registry_catalog::series_table::{is_bound, keys_differ, listing, SeriesTable};
use crate::registry_catalog::{
    same_entries, sources_view, CatalogView, FilesView, PersistedRegistryCatalogEntry,
    PersistedRegistryCatalogFile, PersistedRegistryCatalogSource, SegmentFiles, SourceView,
    REGISTRY_CATALOG_VERSION,
};
use crate::series::{series_view, KeyView, PersistedSeries};
use crate::text::{copied, same_text};
use crate::text_map::TextMap;
use roaring::RoaringTreemap;
use vstd::prelude::*;

verus! {

/// The compressed set of `u64` of `roaring`.
#[verifier::external_type_specification]
#[verifier::external_body]
pub struct ExRoaringTreemap(RoaringTreemap);

/// The ids in a compressed set.
pub uninterp spec fn treemap_ids(treemap: RoaringTreemap) -> Set<u64>;

/// `RoaringTreemap::new`: the empty set.
#[verifier::external_body]
fn new_treemap() -> (treemap: RoaringTreemap)
    ensures
        treemap_ids(treemap) == Set::<u64>::empty(),
{
    RoaringTreemap::new()
}

/// `RoaringTreemap::insert`: adds an id, and tells whether it was not there before.
#[verifier::external_body]
fn insert_id(treemap: &mut RoaringTreemap, id: u64) -> (added: bool)
    ensures
        treemap_ids(*final(treemap)) == treemap_ids(*old(treemap)).insert(id),
        added == !treemap_ids(*old(treemap)).contains(id),
{
    treemap.insert(id)
}

/// `RoaringTreemap::iter`: every id of the set once, in ascending order.
#[verifier::external_body]
fn list_ids(treemap: &RoaringTreemap) -> (ids: Vec<u64>)
    ensures
        ids@.to_set() == treemap_ids(*treemap),
        forall|i: int, j: int|
            #![trigger ids@[i], ids@[j]]
            0 <= i < j < ids@.len() ==> ids@[i] < ids@[j],
{
    treemap.iter().collect()
}

/// The ids in a series list, compressed.
fn collect_ids(list: &Vec<PersistedSeries>) -> (treemap: RoaringTreemap)
    ensures
        treemap_ids(treemap) == ids_of(series_view(list@)),
{
    let ghost views = series_view(list@);
    let mut treemap = new_treemap();
    let mut at: usize = 0;
    proof {
        assert(treemap_ids(treemap) =~= ids_of(views.take(0)));
    }
    while at < list.len()
        invariant
            at <= list@.len(),
            views == series_view(list@),
            treemap_ids(treemap) == ids_of(views.take(at as int)),
        decreases list@.len() - at,
    {
        insert_id(&mut treemap, list[at].series_id);
        proof {
            let before = views.take(at as int);
            let after = views.take(at + 1);
            let id = list@[at as int].series_id;
            assert(after[at as int].id == id);
            assert forall|x: u64| ids_of(after).contains(x) == ids_of(before).insert(id).contains(
                x,
            ) by {
                if ids_of(before).contains(x) {
                    let i = choose|i: int| 0 <= i < before.len() && (#[trigger] before[i]).id == x;
                    assert(after[i].id == x);
                }
                if ids_of(after).contains(x) && x != id {
                    let i = choose|i: int| 0 <= i < after.len() && (#[trigger] after[i]).id == x;
                    assert(before[i].id == x);
                }
            }
            assert(ids_of(after) =~= ids_of(before).insert(id));
        }
        at = at + 1;
    }
    proof {
        assert(views.take(at as int) =~= views);
    }
    treemap
}

/// What is kept of a segment: its entry and, once loaded, the ids of its series.
pub struct CachedCatalogSegment {
    entry: PersistedRegistryCatalogEntry,
    series_ids: Option<RoaringTreemap>,
}

/// What is kept of a segment, as mathematics.
#[verifier::ext_equal]
pub struct SegmentView {
    pub entry: PersistedRegistryCatalogEntry,
    pub ids: Option<Set<u64>>,
}

/// What the registry catalog is built from, kept in memory.
///
/// A published segment root never changes contents. So a segment's manifest is read once,
/// when its root first appears among the catalog sources, and its series list once, the
/// first time the set of segments changes while it is visible; the series fingerprint is
/// only recomputed when that set changes. After a restart the catalog on disk is adopted
/// as long as it still describes the visible segments. The catalog last known to be on
/// disk is kept too, so an unchanged catalog is neither read back nor rewritten.
pub struct RegistryCatalogCache {
    segments: TextMap<CachedCatalogSegment>,
    series: SeriesTable,
    series_fingerprint: Option<PersistedRegistrySeriesFingerprint>,
    persisted: Option<PersistedRegistryCatalogFile>,
}

/// The cache as mathematics.
#[verifier::ext_equal]
pub struct CacheView {
    pub segments: Map<Seq<char>, SegmentView>,
    pub keys: Map<u64, KeyView>,
    pub fingerprint: Option<PersistedRegistrySeriesFingerprint>,
    pub persisted: Option<CatalogView>,
}

/// The segment at `root` is loaded and holds the series.
pub open spec fn holds(segments: Map<Seq<char>, SegmentView>, root: Seq<char>, id: u64) -> bool {
    segments.contains_key(root) && segments[root].ids is Some
        && segments[root].ids->Some_0.contains(id)
}

/// Some loaded segment holds the series.
pub open spec fn is_held(segments: Map<Seq<char>, SegmentView>, id: u64) -> bool {
    exists|root: Seq<char>| holds(segments, root, id)
}

/// The loaded segments that hold the series.
pub open spec fn holders(segments: Map<Seq<char>, SegmentView>, id: u64) -> Set<Seq<char>> {
    Set::new(|root: Seq<char>| holds(segments, root, id))
}

/// The series that a loaded segment still holds.
pub open spec fn held_keys(
    keys: Map<u64, KeyView>,
    segments: Map<Seq<char>, SegmentView>,
) -> Map<u64, KeyView> {
    keys.restrict(Set::new(|id: u64| is_held(segments, id)))
}

/// The cache without a segment, and without the series that only it held.
pub open spec fn without_segment(cache: CacheView, root: Seq<char>) -> CacheView {
    if cache.segments.contains_key(root) {
        let segments = cache.segments.remove(root);
        CacheView {
            segments,
            keys: held_keys(cache.keys, segments),
            fingerprint: None,
            persisted: cache.persisted,
        }
    } else {
        cache
    }
}

/// The cache knows exactly the series that its loaded segments hold, each key once.
pub open spec fn is_sound(cache: CacheView) -> bool {
    &&& keys_differ(cache.keys)
    &&& forall|id: u64| #[trigger] cache.keys.contains_key(id) <==> is_held(cache.segments, id)
}

/// A cached segment, as mathematics.
pub closed spec fn segment_view(segment: CachedCatalogSegment) -> SegmentView {
    SegmentView {
        entry: segment.entry,
        ids: match segment.series_ids {
            Some(treemap) => Some(treemap_ids(treemap)),
            None => None,
        },
    }
}

/// Every series of `few` is in `many`, under the same key.
pub open spec fn is_within(few: Map<u64, KeyView>, many: Map<u64, KeyView>) -> bool {
    forall|id: u64| #[trigger]
        few.contains_key(id) ==> many.contains_key(id) && many[id] == few[id]
}

/// How often a series is counted: by its holders, and once more while `extra` holds.
spec fn is_counted(
    table: &SeriesTable,
    segments: Map<Seq<char>, SegmentView>,
    extra: Set<u64>,
) -> bool {
    forall|id: u64| #[trigger]
        table.counts().contains_key(id) ==> table.counts()[id] == holders(segments, id).len() + (
        if extra.contains(id) {
            1int
        } else {
            0int
        })
}

/// The cache after loading the series of a segment, and what came of it. A segment that is
/// not listed or already loaded is left alone; a failure or a conflict changes nothing.
pub open spec fn with_series(
    cache: CacheView,
    root: Seq<char>,
    files: FilesView,
) -> (CacheView, Result<(), ErrorView>) {
    if !cache.segments.contains_key(root) || cache.segments[root].ids is Some {
        (cache, Ok(()))
    } else {
        match files.list(root) {
            Err(error) => (cache, Err(error)),
            Ok(list) => match add_all(cache.keys, list) {
                Err(error) => (cache, Err(error)),
                Ok(keys) => (
                    CacheView {
                        segments: cache.segments.insert(
                            root,
                            SegmentView {
                                entry: cache.segments[root].entry,
                                ids: Some(ids_of(list)),
                            },
                        ),
                        keys,
                        ..cache
                    },
                    Ok(()),
                ),
            },
        }
    }
}

/// An outcome as mathematics.
pub open spec fn outcome_view(outcome: Result<(), TsinkError>) -> Result<(), ErrorView> {
    match outcome {
        Ok(()) => Ok(()),
        Err(error) => Err(error@),
    }
}

/// Some source has that root.
pub open spec fn is_listed(sources: Seq<SourceView>, root: Seq<char>) -> bool {
    exists|i: int| 0 <= i < sources.len() && (#[trigger] sources[i]).root == root
}

/// The cache without the segments at some roots, and without the series that only they held.
pub open spec fn without_segments(cache: CacheView, gone: Set<Seq<char>>) -> CacheView {
    if cache.segments.dom().disjoint(gone) {
        cache
    } else {
        let segments = cache.segments.remove_keys(gone);
        CacheView {
            segments,
            keys: held_keys(cache.keys, segments),
            fingerprint: None,
            persisted: cache.persisted,
        }
    }
}

/// The roots that no source has.
pub open spec fn unlisted(sources: Seq<SourceView>) -> Set<Seq<char>> {
    Set::new(|root: Seq<char>| !is_listed(sources, root))
}

/// The cache with the sources it does not know yet, and the first manifest that could not
/// be read, where the search stops.
pub open spec fn with_sources(
    cache: CacheView,
    sources: Seq<SourceView>,
    files: FilesView,
) -> (CacheView, Result<(), ErrorView>)
    decreases sources.len(),
{
    if sources.len() == 0 {
        (cache, Ok(()))
    } else {
        let (before, outcome) = with_sources(cache, sources.drop_last(), files);
        let source = sources.last();
        if outcome is Err || before.segments.contains_key(source.root) {
            (before, outcome)
        } else {
            match entry_of(source, files) {
                Ok(entry) => (
                    CacheView {
                        segments: before.segments.insert(
                            source.root,
                            SegmentView { entry, ids: None },
                        ),
                        fingerprint: None,
                        ..before
                    },
                    Ok(()),
                ),
                Err(error) => (before, Err(error)),
            }
        }
    }
}

/// The cache brought in line with the sources.
pub open spec fn synced(
    cache: CacheView,
    sources: Seq<SourceView>,
    files: FilesView,
) -> (CacheView, Result<(), ErrorView>) {
    with_sources(without_segments(cache, unlisted(sources)), sources, files)
}

/// The cached entries of the sources, in the order of the sources.
pub open spec fn known_entries(
    segments: Map<Seq<char>, SegmentView>,
    sources: Seq<SourceView>,
) -> Seq<PersistedRegistryCatalogEntry>
    decreases sources.len(),
{
    if sources.len() == 0 {
        Seq::empty()
    } else {
        let before = known_entries(segments, sources.drop_last());
        let root = sources.last().root;
        if segments.contains_key(root) {
            before.push(segments[root].entry)
        } else {
            before
        }
    }
}

/// The cache with the series of all sources loaded, and the first failure or conflict,
/// where loading stops.
pub open spec fn with_all_series(
    cache: CacheView,
    sources: Seq<SourceView>,
    files: FilesView,
) -> (CacheView, Result<(), ErrorView>)
    decreases sources.len(),
{
    if sources.len() == 0 {
        (cache, Ok(()))
    } else {
        let (before, outcome) = with_all_series(cache, sources.drop_last(), files);
        if outcome is Err {
            (before, outcome)
        } else {
            with_series(before, sources.last().root, files)
        }
    }
}

/// The catalog of the sources, as cached entries and a fingerprint give it.
pub open spec fn catalog_from(
    segments: Map<Seq<char>, SegmentView>,
    sources: Seq<SourceView>,
    fingerprint: PersistedRegistrySeriesFingerprint,
) -> CatalogView {
    CatalogView {
        version: REGISTRY_CATALOG_VERSION,
        segments: sorted_entries(known_entries(segments, sources)),
        series_fingerprint: Some(fingerprint),
    }
}

/// The cache after its catalog was asked for, and the catalog.
pub open spec fn cataloged(
    cache: CacheView,
    sources: Seq<SourceView>,
    files: FilesView,
) -> (CacheView, Result<CatalogView, ErrorView>) {
    let (known, outcome) = synced(cache, sources, files);
    match outcome {
        Err(error) => (known, Err(error)),
        Ok(()) => match known.fingerprint {
            Some(fingerprint) => (
                known,
                Ok(catalog_from(known.segments, sources, fingerprint)),
            ),
            None => {
                let (loaded, outcome) = with_all_series(known, sources, files);
                match outcome {
                    Err(error) => (loaded, Err(error)),
                    Ok(()) => {
                        let fingerprint = fingerprint_of(listing(loaded.keys));
                        (
                            CacheView { fingerprint: Some(fingerprint), ..loaded },
                            Ok(catalog_from(loaded.segments, sources, fingerprint)),
                        )
                    },
                }
            },
        },
    }
}

/// The cache after a catalog was found on disk. It is taken over when it has the current
/// version, a fingerprint, and the entries of the sources.
pub open spec fn adopted(
    cache: CacheView,
    sources: Seq<SourceView>,
    on_disk: CatalogView,
) -> CacheView {
    if on_disk.version == REGISTRY_CATALOG_VERSION && on_disk.series_fingerprint is Some
        && on_disk.segments == sorted_entries(known_entries(cache.segments, sources)) {
        CacheView {
            fingerprint: on_disk.series_fingerprint,
            persisted: Some(on_disk),
            ..cache
        }
    } else {
        cache
    }
}

/// Moves staged series into the table. No segment counts as holding them yet.
fn commit(table: &mut SeriesTable, staged: SeriesTable, fresh: &Vec<u64>)
    requires
        staging(old(table), &staged),
        old(table).counts().dom() == old(table).keys().dom(),
        fresh@.no_duplicates(),
        fresh@.to_set() == staged.keys().dom(),
    ensures
        final(table).wf(),
        final(table).keys() == together(old(table), &staged),
        final(table).counts().dom() == final(table).keys().dom(),
        forall|id: u64| #[trigger]
            final(table).counts().contains_key(id) ==> final(table).counts()[id] == (if old(
                table,
            ).counts().contains_key(id) {
                old(table).counts()[id]
            } else {
                0
            }),
{
    let ghost all = together(table, &staged);
    let ghost known = table.keys();
    let ghost counts = table.counts();
    let mut staged = staged;
    let mut at: usize = 0;
    proof {
        assert(fresh@.skip(0) =~= fresh@);
    }
    while at < fresh.len()
        invariant
            at <= fresh@.len(),
            fresh@.no_duplicates(),
            table.wf(),
            staged.wf(),
            table.counts().dom() == table.keys().dom(),
            table.keys().dom().disjoint(staged.keys().dom()),
            together(table, &staged) == all,
            keys_differ(all),
            staged.keys().dom() == fresh@.skip(at as int).to_set(),
            forall|id: u64| #[trigger]
                table.counts().contains_key(id) ==> table.counts()[id] == (
                if counts.contains_key(id) {
                    counts[id]
                } else {
                    0
                }),
            known.dom().disjoint(fresh@.to_set()),
            counts.dom() == known.dom(),
        decreases fresh@.len() - at,
    {
        let id: u64 = fresh[at];
        let ghost staged_before = staged.keys();
        let ghost table_before = table.keys();
        proof {
            assert(fresh@.skip(at as int)[0] == id);
            assert(staged.keys().dom().contains(id));
            assert(staged.keys().contains_key(id));
            assert(fresh@[at as int] == id);
            assert(fresh@.to_set().contains(id));
        }
        match staged.remove(id) {
            Some(key) => {
                proof {
                    assert(all.contains_key(id) && all[id] == key@);
                    if is_bound(table.keys(), key@) {
                        let other = choose|other: u64| #[trigger]
                            table.keys().contains_key(other) && table.keys()[other] == key@;
                        assert(!staged_before.dom().contains(other));
                        assert(all.contains_key(other) && all[other] == key@);
                    }
                    assert(!table.keys().dom().contains(id));
                }
                table.insert(id, key);
            },
            None => {},
        }
        proof {
            assert(together(table, &staged) =~= all);
            assert(table.counts().dom() =~= table.keys().dom());
            assert(staged.keys().dom() =~= fresh@.skip(at + 1).to_set()) by {
                assert forall|x: u64| staged.keys().dom().contains(x) == fresh@.skip(
                    at + 1,
                ).to_set().contains(x) by {
                    if fresh@.skip(at as int).contains(x) && x != id {
                        let i = fresh@.skip(at as int).index_of(x);
                        assert(fresh@.skip(at + 1)[i - 1] == x);
                    }
                    if fresh@.skip(at + 1).contains(x) {
                        let i = fresh@.skip(at + 1).index_of(x);
                        assert(fresh@[at + 1 + i] == x);
                        assert(fresh@.skip(at as int)[i + 1] == x);
                    }
                }
            }
        }
        at = at + 1;
    }
    proof {
        assert(staged.keys().dom() =~= Set::<u64>::empty()) by {
            assert(fresh@.skip(at as int) =~= Seq::<u64>::empty());
        }
        assert(table.keys() =~= all);
    }
}

/// Counts one more segment for each of the ids.
fn raise_all(table: &mut SeriesTable, ids: &Vec<u64>)
    requires
        old(table).wf(),
        forall|i: int, j: int|
            #![trigger ids@[i], ids@[j]]
            0 <= i < j < ids@.len() ==> ids@[i] < ids@[j],
        forall|i: int|
            0 <= i < ids@.len() ==> old(table).counts().contains_key(#[trigger] ids@[i]) && old(
                table,
            ).counts()[ids@[i]] < u64::MAX,
    ensures
        final(table).wf(),
        final(table).keys() == old(table).keys(),
        final(table).counts().dom() == old(table).counts().dom(),
        forall|id: u64| #[trigger]
            final(table).counts().contains_key(id) ==> final(table).counts()[id] == old(
                table,
            ).counts()[id] + (if ids@.contains(id) {
                1int
            } else {
                0int
            }),
{
    let ghost counts = table.counts();
    let mut at: usize = 0;
    while at < ids.len()
        invariant
            at <= ids@.len(),
            forall|i: int, j: int|
                #![trigger ids@[i], ids@[j]]
                0 <= i < j < ids@.len() ==> ids@[i] < ids@[j],
            forall|i: int|
                0 <= i < ids@.len() ==> counts.contains_key(#[trigger] ids@[i]) && counts[ids@[i]]
                    < u64::MAX,
            table.wf(),
            table.keys() == old(table).keys(),
            table.counts().dom() == counts.dom(),
            forall|id: u64| #[trigger]
                table.counts().contains_key(id) ==> table.counts()[id] == counts[id] + (
                if ids@.take(at as int).contains(id) {
                    1int
                } else {
                    0int
                }),
        decreases ids@.len() - at,
    {
        let id: u64 = ids[at];
        let ghost before = table.counts();
        proof {
            assert(counts.contains_key(ids@[at as int]));
            assert(before.dom().contains(id));
            assert(!ids@.take(at as int).contains(id)) by {
                if ids@.take(at as int).contains(id) {
                    let i = ids@.take(at as int).index_of(id);
                    assert(ids@[i] == id);
                }
            }
        }
        table.raise(id);
        proof {
            assert(table.counts().dom() =~= counts.dom());
            assert forall|x: u64| #[trigger] table.counts().contains_key(x) implies table.counts()[x]
                == counts[x] + (if ids@.take(at + 1).contains(x) {
                1int
            } else {
                0int
            }) by {
                assert(before.contains_key(x));
                assert(ids@.take(at + 1)[at as int] == id);
                if ids@.take(at as int).contains(x) {
                    let i = ids@.take(at as int).index_of(x);
                    assert(ids@.take(at + 1)[i] == x);
                }
                if ids@.take(at + 1).contains(x) && x != id {
                    let i = ids@.take(at + 1).index_of(x);
                    assert(ids@.take(at as int)[i] == x);
                }
            }
        }
        at = at + 1;
    }
    proof {
        assert(ids@.take(at as int) =~= ids@);
    }
}

impl View for RegistryCatalogCache {
    type V = CacheView;

    closed spec fn view(&self) -> CacheView {
        CacheView {
            segments: self.segments@.map_values(
                |segment: CachedCatalogSegment| segment_view(segment),
            ),
            keys: self.series.keys(),
            fingerprint: self.series_fingerprint,
            persisted: match self.persisted {
                Some(catalog) => Some(catalog@),
                None => None,
            },
        }
    }
}

proof fn lemma_holders_finite(segments: Map<Seq<char>, SegmentView>, id: u64)
    requires
        segments.dom().finite(),
    ensures
        holders(segments, id).finite(),
        holders(segments, id).len() <= segments.dom().len(),
        is_held(segments, id) <==> holders(segments, id).len() > 0,
{
    assert(holders(segments, id).subset_of(segments.dom()));
    vstd::set_lib::lemma_len_subset(holders(segments, id), segments.dom());
    if is_held(segments, id) {
        let root = choose|root: Seq<char>| holds(segments, root, id);
        assert(holders(segments, id).contains(root));
        if holders(segments, id).len() == 0 {
            assert(holders(segments, id) =~= Set::empty());
        }
    } else {
        assert(holders(segments, id) =~= Set::empty());
    }
}

impl RegistryCatalogCache {
    /// Each series is counted once for every loaded segment that holds it.
    pub closed spec fn wf(&self) -> bool {
        &&& self.series.wf()
        &&& self.series.counts().dom() == self.series.keys().dom()
        &&& self@.segments.dom().finite()
        &&& is_sound(self@)
        &&& is_counted(&self.series, self@.segments, Set::empty())
    }

    /// What a cache holds is always sound, so that the laws about caches apply to it.
    pub proof fn lemma_sound(&self)
        requires
            self.wf(),
        ensures
            is_sound(self@),
    {
    }

    /// An empty cache.
    pub fn new() -> (cache: Self)
        ensures
            cache.wf(),
            cache@.segments == Map::<Seq<char>, SegmentView>::empty(),
            cache@.keys == Map::<u64, KeyView>::empty(),
            cache@.fingerprint is None,
            cache@.persisted is None,
    {
        let cache = RegistryCatalogCache {
            segments: TextMap::new(),
            series: SeriesTable::new(),
            series_fingerprint: None,
            persisted: None,
        };
        proof {
            assert(cache@.segments =~= Map::<Seq<char>, SegmentView>::empty());
            assert forall|id: u64| !is_held(cache@.segments, id) by {
                assert forall|root: Seq<char>| !holds(cache@.segments, root, id) by {}
            }
        }
        cache
    }

    /// Forgets a segment, and the series that only it held.
    pub fn remove_segment(&mut self, root: &str)
        requires
            old(self).wf(),
        ensures
            final(self).wf(),
            final(self)@ == without_segment(old(self)@, root@),
    {
        let ghost before = self@;
        let segment = match self.segments.remove(root) {
            Some(segment) => segment,
            None => {
                proof {
                    assert(self@.segments =~= before.segments);
                    assert(self@ =~= before);
                }
                return;
            },
        };
        self.series_fingerprint = None;
        let ghost segments = before.segments.remove(root@);
        proof {
            assert(self@.segments =~= segments);
            assert(segment_view(segment) == before.segments[root@]);
            assert forall|id: u64| holders(segments, id) == holders(before.segments, id).remove(
                root@,
            ) by {
                assert(holders(segments, id) =~= holders(before.segments, id).remove(root@));
            }
            assert forall|id: u64| is_held(before.segments, id) <==> (is_held(segments, id)
                || holds(before.segments, root@, id)) by {
                if is_held(before.segments, id) {
                    let other = choose|other: Seq<char>| holds(before.segments, other, id);
                    if other != root@ {
                        assert(holds(segments, other, id));
                    }
                }
                if is_held(segments, id) {
                    let other = choose|other: Seq<char>| holds(segments, other, id);
                    assert(holds(before.segments, other, id));
                }
            }
        }
        let ids = match segment.series_ids {
            Some(treemap) => list_ids(&treemap),
            None => Vec::new(),
        };
        let ghost removed: Set<u64> = ids@.to_set();
        proof {
            assert forall|id: u64| removed.contains(id) == holds(before.segments, root@, id) by {
                if segment.series_ids is None {
                    assert(removed =~= Set::<u64>::empty());
                }
            }
            assert forall|id: u64| #[trigger]
                self.series.counts().contains_key(id) implies self.series.counts()[id] == holders(
                segments,
                id,
            ).len() + (if ids@.skip(0).to_set().contains(id) {
                1int
            } else {
                0int
            }) by {
                assert(ids@.skip(0) =~= ids@);
                lemma_holders_finite(before.segments, id);
            }
            assert forall|id: u64| #[trigger]
                self.series.keys().contains_key(id) <==> (is_held(segments, id)
                    || ids@.skip(0).to_set().contains(id)) by {
                assert(ids@.skip(0) =~= ids@);
            }
        }
        let mut at: usize = 0;
        while at < ids.len()
            invariant
                at <= ids@.len(),
                forall|i: int, j: int|
                    #![trigger ids@[i], ids@[j]]
                    0 <= i < j < ids@.len() ==> ids@[i] < ids@[j],
                segments.dom().finite(),
                self@.segments == segments,
                self@.fingerprint is None,
                self@.persisted == before.persisted,
                self.series.wf(),
                self.series.counts().dom() == self.series.keys().dom(),
                is_within(self.series.keys(), before.keys),
                forall|id: u64| #[trigger]
                    self.series.keys().contains_key(id) <==> (is_held(segments, id)
                        || ids@.skip(at as int).to_set().contains(id)),
                is_counted(&self.series, segments, ids@.skip(at as int).to_set()),
            decreases ids@.len() - at,
        {
            let id: u64 = ids[at];
            let ghost table = self.series;
            let ghost tail = ids@.skip(at as int).to_set();
            let ghost rest = ids@.skip(at + 1).to_set();
            proof {
                assert(ids@.skip(at as int)[0] == id);
                assert(tail.contains(id));
                assert(!rest.contains(id)) by {
                    if ids@.skip(at + 1).contains(id) {
                        let i = ids@.skip(at + 1).index_of(id);
                        assert(ids@[at + 1 + i] == id);
                    }
                }
                assert forall|x: u64| x != id implies tail.contains(x) == rest.contains(x) by {
                    if ids@.skip(at as int).contains(x) {
                        let i = ids@.skip(at as int).index_of(x);
                        assert(ids@.skip(at + 1)[i - 1] == x);
                    }
                    if ids@.skip(at + 1).contains(x) {
                        let i = ids@.skip(at + 1).index_of(x);
                        assert(ids@.skip(at as int)[i + 1] == x);
                    }
                }
                assert(table.keys().contains_key(id));
                assert(table.counts().dom().contains(id));
                lemma_holders_finite(segments, id);
            }
            self.series.lower(id);
            proof {
                assert(self@.segments =~= segments);
                assert forall|x: u64| #[trigger]
                    self.series.keys().contains_key(x) <==> (is_held(segments, x)
                        || rest.contains(x)) by {
                    assert(table.keys().contains_key(x) <==> (is_held(segments, x)
                        || tail.contains(x)));
                }
                assert forall|x: u64| #[trigger]
                    self.series.counts().contains_key(x) implies self.series.counts()[x]
                    == holders(segments, x).len() + (if rest.contains(x) {
                    1int
                } else {
                    0int
                }) by {
                    assert(table.counts().contains_key(x));
                }
                assert(self.series.counts().dom() =~= self.series.keys().dom());
            }
            at = at + 1;
        }
        proof {
            assert(ids@.skip(at as int) =~= Seq::<u64>::empty());
            assert(ids@.skip(at as int).to_set() =~= Set::<u64>::empty());
            assert(self.series.keys() =~= held_keys(before.keys, segments));
            assert(self@ =~= without_segment(before, root@));
            assert(is_sound(self@)) by {
                assert forall|a: u64, b: u64|
                    #![trigger self@.keys.contains_key(a), self@.keys.contains_key(b)]
                    self@.keys.contains_key(a) && self@.keys.contains_key(b) && self@.keys[a]
                        == self@.keys[b] implies a == b by {
                    assert(before.keys.contains_key(a) && before.keys.contains_key(b));
                }
            }
        }
    }

    /// Loads the series of a segment, unless they are loaded already.
    fn load_series(&mut self, root: &String, files: &SegmentFiles) -> (outcome: Result<
        (),
        TsinkError,
    >)
        requires
            old(self).wf(),
        ensures
            final(self).wf(),
            (final(self)@, outcome_view(outcome)) == with_series(old(self)@, root@, files@),
    {
        let ghost before = self@;
        let entry = match self.segments.get(root.as_str()) {
            Some(segment) => {
                if segment.series_ids.is_some() {
                    return Ok(());
                }
                segment.entry
            },
            None => {
                return Ok(());
            },
        };
        proof {
            assert(before.segments[root@] == (SegmentView { entry, ids: None }));
        }
        let list = match files.list(root) {
            Ok(list) => list,
            Err(error) => {
                return Err(error);
            },
        };
        let ghost views = series_view(list@);
        let mut staged = SeriesTable::new();
        proof {
            assert(together(&self.series, &staged) =~= before.keys);
        }
        let fresh = match stage_all(&self.series, &mut staged, list) {
            Ok(fresh) => fresh,
            Err(error) => {
                return Err(error);
            },
        };
        let treemap = collect_ids(list);
        let ids = list_ids(&treemap);
        let ghost all = add_all(before.keys, views)->Ok_0;
        proof {
            lemma_added(before.keys, views);
            assert(staged.keys().dom().difference(Set::<u64>::empty()) =~= staged.keys().dom());
        }
        // A series is counted at most once per segment.
        let _segment_count = self.segments.len();
        commit(&mut self.series, staged, &fresh);
        let ghost segments = before.segments;
        proof {
            assert(self.segments@.dom() =~= segments.dom());
            assert forall|id: u64| #[trigger]
                self.series.counts().contains_key(id) implies self.series.counts()[id] == holders(
                segments,
                id,
            ).len() by {
                lemma_holders_finite(segments, id);
                if !old(self).series.counts().contains_key(id) {
                    assert(!before.keys.dom().contains(id));
                    assert(!before.keys.contains_key(id));
                }
            }
            assert forall|i: int| 0 <= i < ids@.len() implies self.series.counts().contains_key(
                #[trigger] ids@[i],
            ) && self.series.counts()[ids@[i]] < u64::MAX by {
                let id = ids@[i];
                assert(ids@.to_set().contains(id));
                assert(ids_of(views).contains(id));
                let k = choose|k: int| 0 <= k < views.len() && (#[trigger] views[k]).id == id;
                assert(all.contains_key(views[k].id));
                assert(self.series.counts().dom().contains(id));
                lemma_holders_finite(segments, id);
                assert(!holders(segments, id).contains(root@));
                assert(holders(segments, id).insert(root@).subset_of(segments.dom()));
                vstd::set_lib::lemma_len_subset(
                    holders(segments, id).insert(root@),
                    segments.dom(),
                );
            }
        }
        raise_all(&mut self.series, &ids);
        self.segments.insert(
            copied(root),
            CachedCatalogSegment { entry, series_ids: Some(treemap) },
        );
        proof {
            let loaded = SegmentView { entry, ids: Some(ids_of(views)) };
            let grown = segments.insert(root@, loaded);
            assert(self@.segments =~= grown);
            assert forall|id: u64| ids@.contains(id) == ids_of(views).contains(id) by {
                assert(ids@.to_set().contains(id) == ids_of(views).contains(id));
            }
            assert forall|id: u64| #[trigger]
                self.series.counts().contains_key(id) implies self.series.counts()[id] == holders(
                grown,
                id,
            ).len() by {
                lemma_holders_finite(segments, id);
                if ids_of(views).contains(id) {
                    assert(!holders(segments, id).contains(root@));
                    assert(holders(grown, id) =~= holders(segments, id).insert(root@));
                } else {
                    assert(holders(grown, id) =~= holders(segments, id));
                }
            }
            assert forall|id: u64| #[trigger] self@.keys.contains_key(id) <==> is_held(
                grown,
                id,
            ) by {
                if all.contains_key(id) {
                    if ids_of(views).contains(id) {
                        assert(holds(grown, root@, id));
                    } else {
                        assert(before.keys.contains_key(id));
                        let other = choose|other: Seq<char>| holds(segments, other, id);
                        assert(holds(grown, other, id));
                    }
                }
                if is_held(grown, id) {
                    let other = choose|other: Seq<char>| holds(grown, other, id);
                    if other == root@ {
                        let k = choose|k: int|
                            0 <= k < views.len() && (#[trigger] views[k]).id == id;
                        assert(all.contains_key(views[k].id));
                    } else {
                        assert(holds(segments, other, id));
                        assert(before.keys.contains_key(id));
                        assert(before.keys.dom().contains(id));
                    }
                }
            }
            assert(self@ =~= with_series(before, root@, files@).0);
        }
        Ok(())
    }

    /// Forgets every segment that no source has.
    fn remove_unlisted(&mut self, sources: &[PersistedRegistryCatalogSource])
        requires
            old(self).wf(),
        ensures
            final(self).wf(),
            final(self)@ == without_segments(old(self)@, unlisted(sources_view(sources@))),
    {
        let ghost before = self@;
        let ghost views = sources_view(sources@);
        let mut gone: Vec<String> = Vec::new();
        let count = self.segments.len();
        let ghost keys = self.segments.keys();
        let ghost mut dropped: Set<Seq<char>> = Set::empty();
        let mut at: usize = 0;
        while at < count
            invariant
                at <= count,
                count == keys.len(),
                keys == self.segments.keys(),
                views == sources_view(sources@),
                forall|root: Seq<char>| #[trigger]
                    dropped.contains(root) <==> (exists|i: int|
                        0 <= i < gone@.len() && (#[trigger] gone@[i])@ == root),
                forall|root: Seq<char>| #[trigger]
                    dropped.contains(root) <==> (keys.take(at as int).contains(root) && !is_listed(
                        views,
                        root,
                    )),
            decreases count - at,
        {
            let root = self.segments.entry_at(at).0;
            let ghost before_gone = gone@;
            let ghost before_dropped = dropped;
            proof {
                assert(keys.take(at + 1)[at as int] == root@);
            }
            if !lists(sources, root) {
                gone.push(copied(root));
                proof {
                    dropped = dropped.insert(root@);
                    assert forall|other: Seq<char>| #[trigger]
                        dropped.contains(other) <==> (exists|i: int|
                            0 <= i < gone@.len() && (#[trigger] gone@[i])@ == other) by {
                        if before_dropped.contains(other) {
                            let i = choose|i: int|
                                0 <= i < before_gone.len() && (#[trigger] before_gone[i])@ == other;
                            assert(gone@[i]@ == other);
                        }
                        assert(gone@[before_gone.len() as int]@ == root@);
                        if exists|i: int| 0 <= i < gone@.len() && (#[trigger] gone@[i])@ == other {
                            let i = choose|i: int|
                                0 <= i < gone@.len() && (#[trigger] gone@[i])@ == other;
                            if i < before_gone.len() {
                                assert(before_gone[i]@ == other);
                            }
                        }
                    }
                }
            }
            proof {
                assert forall|other: Seq<char>| #[trigger]
                    dropped.contains(other) <==> (keys.take(at + 1).contains(other) && !is_listed(
                        views,
                        other,
                    )) by {
                    if keys.take(at as int).contains(other) {
                        let i = keys.take(at as int).index_of(other);
                        assert(keys.take(at + 1)[i] == other);
                    }
                    if keys.take(at + 1).contains(other) && other != root@ {
                        let i = keys.take(at + 1).index_of(other);
                        assert(keys.take(at as int)[i] == other);
                    }
                }
            }
            at = at + 1;
        }
        let mut next: usize = 0;
        let ghost mut removed: Set<Seq<char>> = Set::empty();
        proof {
            assert(keys.take(at as int) =~= keys);
            lemma_nothing_removed(before);
        }
        while next < gone.len()
            invariant
                next <= gone@.len(),
                self.wf(),
                is_sound(before),
                self@ == without_segments(before, removed),
                forall|root: Seq<char>| #[trigger]
                    removed.contains(root) <==> (exists|i: int|
                        0 <= i < next && (#[trigger] gone@[i])@ == root),
            decreases gone@.len() - next,
        {
            let ghost removed_before = removed;
            self.remove_segment(gone[next].as_str());
            proof {
                lemma_remove_one_more(before, removed, gone@[next as int]@);
                removed = removed.insert(gone@[next as int]@);
            }
            next = next + 1;
            proof {
                assert forall|root: Seq<char>| #[trigger]
                    removed.contains(root) <==> (exists|i: int|
                        0 <= i < next && (#[trigger] gone@[i])@ == root) by {
                    if removed_before.contains(root) {
                        let i = choose|i: int| 0 <= i < next - 1 && (#[trigger] gone@[i])@ == root;
                        assert(gone@[i]@ == root);
                    }
                    assert(gone@[next - 1]@ == gone@[next - 1]@);
                }
            }
        }
        proof {
            let wanted = unlisted(views);
            assert(removed =~= dropped);
            assert forall|root: Seq<char>| before.segments.contains_key(root) implies (
            removed.contains(root) <==> wanted.contains(root)) by {
                assert(self.segments@.dom() =~= self@.segments.dom());
                assert(before.segments.dom().contains(root));
                assert(keys.contains(root));
            }
            assert(before.segments.remove_keys(removed) =~= before.segments.remove_keys(wanted));
            assert(before.segments.dom().disjoint(removed) <==> before.segments.dom().disjoint(
                wanted,
            ));
        }
    }

    /// Brings the segments in line with the sources: forgets those that are not among
    /// them, and reads the manifests of those it does not know yet.
    pub fn sync_segments(
        &mut self,
        sources: &[PersistedRegistryCatalogSource],
        files: &SegmentFiles,
    ) -> (outcome: Result<(), TsinkError>)
        requires
            old(self).wf(),
        ensures
            final(self).wf(),
            (final(self)@, outcome_view(outcome)) == synced(
                old(self)@,
                sources_view(sources@),
                files@,
            ),
    {
        let ghost views = sources_view(sources@);
        self.remove_unlisted(sources);
        let ghost start = self@;
        let mut at: usize = 0;
        proof {
            assert(views.take(0) =~= Seq::<SourceView>::empty());
        }
        while at < sources.len()
            invariant
                at <= sources@.len(),
                views == sources_view(sources@),
                self.wf(),
                (self@, Ok::<(), ErrorView>(())) == with_sources(
                    start,
                    views.take(at as int),
                    files@,
                ),
                start == without_segments(old(self)@, unlisted(views)),
            decreases sources@.len() - at,
        {
            let ghost before = self@;
            proof {
                assert(views.take(at + 1).drop_last() =~= views.take(at as int));
                assert(views.take(at + 1).last() == sources@[at as int]@);
                assert(self.segments@.dom() =~= self@.segments.dom());
            }
            let root = &sources[at].root;
            if !self.segments.contains_key(root.as_str()) {
                match build_catalog_entry(&sources[at], files) {
                    Ok(entry) => {
                        self.segments.insert(
                            copied(root),
                            CachedCatalogSegment { entry, series_ids: None },
                        );
                        self.series_fingerprint = None;
                        proof {
                            let added = SegmentView { entry, ids: None };
                            assert(self@.segments =~= before.segments.insert(root@, added));
                            lemma_unloaded_holds_nothing(before.segments, root@, added);
                            assert(is_counted(&self.series, self@.segments, Set::empty()));
                        }
                    },
                    Err(error) => {
                        proof {
                            lemma_sources_stay_wrong(start, views, files@, at + 1);
                        }
                        return Err(error);
                    },
                }
            }
            at = at + 1;
        }
        proof {
            assert(views.take(at as int) =~= views);
        }
        Ok(())
    }

    /// The cached entries of the sources, sorted.
    pub fn entries(&self, sources: &[PersistedRegistryCatalogSource]) -> (entries: Vec<
        PersistedRegistryCatalogEntry,
    >)
        ensures
            entries@ == sorted_entries(
                known_entries(self@.segments, sources_view(sources@)),
            ),
    {
        let ghost views = sources_view(sources@);
        let mut entries: Vec<PersistedRegistryCatalogEntry> = Vec::new();
        let mut at: usize = 0;
        while at < sources.len()
            invariant
                at <= sources@.len(),
                views == sources_view(sources@),
                entries@ == known_entries(self@.segments, views.take(at as int)),
            decreases sources@.len() - at,
        {
            proof {
                assert(views.take(at + 1).drop_last() =~= views.take(at as int));
                assert(views.take(at + 1).last() == sources@[at as int]@);
                assert(self.segments@.dom() =~= self@.segments.dom());
            }
            match self.segments.get(sources[at].root.as_str()) {
                Some(segment) => {
                    entries.push(segment.entry);
                },
                None => {},
            }
            at = at + 1;
        }
        proof {
            assert(views.take(at as int) =~= views);
        }
        sort_entries(entries)
    }

    /// Takes over the catalog found on disk, if it describes the sources.
    pub fn adopt(
        &mut self,
        sources: &[PersistedRegistryCatalogSource],
        on_disk: PersistedRegistryCatalogFile,
    )
        requires
            old(self).wf(),
        ensures
            final(self).wf(),
            final(self)@ == adopted(old(self)@, sources_view(sources@), on_disk@),
    {
        if on_disk.version != REGISTRY_CATALOG_VERSION || on_disk.series_fingerprint.is_none()
            || !same_entries(&on_disk.segments, &self.entries(sources)) {
            return;
        }
        self.series_fingerprint = on_disk.series_fingerprint;
        self.persisted = Some(on_disk);
        proof {
            assert(self@.segments =~= old(self)@.segments);
        }
    }

    /// Whether the cache knows which catalog is on disk.
    pub fn knows_catalog_on_disk(&self) -> (known: bool)
        ensures
            known == (self@.persisted is Some),
    {
        self.persisted.is_some()
    }

    /// Whether that catalog is the one last known to be on disk.
    pub fn last_written_was(&self, catalog: &PersistedRegistryCatalogFile) -> (same: bool)
        ensures
            same == (self@.persisted == Some(catalog@)),
    {
        match &self.persisted {
            Some(written) => written.same(catalog),
            None => false,
        }
    }

    /// Notes that a catalog is on disk now.
    pub fn note_persisted(&mut self, catalog: PersistedRegistryCatalogFile)
        requires
            old(self).wf(),
        ensures
            final(self).wf(),
            final(self)@ == (CacheView { persisted: Some(catalog@), ..old(self)@ }),
    {
        self.persisted = Some(catalog);
        proof {
            assert(self@.segments =~= old(self)@.segments);
        }
    }

    /// The positions of the sources whose manifests are not known yet.
    pub fn unread_manifests(&self, sources: &[PersistedRegistryCatalogSource]) -> (positions: Vec<
        usize,
    >)
        ensures
            positions@ == manifests_to_read(self@, sources_view(sources@)),
    {
        let ghost views = sources_view(sources@);
        let ghost unread = |source: SourceView| !self@.segments.contains_key(source.root);
        let mut positions: Vec<usize> = Vec::new();
        let mut at: usize = 0;
        while at < sources.len()
            invariant
                at <= sources@.len(),
                views == sources_view(sources@),
                unread == (|source: SourceView| !self@.segments.contains_key(source.root)),
                positions@ == positions_where(views, unread, at as nat),
            decreases sources@.len() - at,
        {
            proof {
                assert(self.segments@.dom() =~= self@.segments.dom());
                assert(views[at as int] == sources@[at as int]@);
            }
            if !self.segments.contains_key(sources[at].root.as_str()) {
                positions.push(at);
            }
            at = at + 1;
        }
        assert(positions@ == positions_where(
            views,
            |source: SourceView| !self@.segments.contains_key(source.root),
            views.len(),
        ));
        positions
    }

    /// The positions of the sources whose series have to be loaded before the catalog can
    /// be given: none while the fingerprint is known.
    pub fn unread_series(&self, sources: &[PersistedRegistryCatalogSource]) -> (positions: Vec<
        usize,
    >)
        ensures
            positions@ == series_to_read(self@, sources_view(sources@)),
    {
        let ghost views = sources_view(sources@);
        let ghost unread = |source: SourceView| is_unloaded(self@, source.root);
        let mut positions: Vec<usize> = Vec::new();
        let mut at: usize = 0;
        while at < sources.len()
            invariant
                at <= sources@.len(),
                views == sources_view(sources@),
                unread == (|source: SourceView| is_unloaded(self@, source.root)),
                positions@ == positions_where(views, unread, at as nat),
            decreases sources@.len() - at,
        {
            proof {
                assert(self.segments@.dom() =~= self@.segments.dom());
                assert(views[at as int] == sources@[at as int]@);
            }
            let unloaded = match self.segments.get(sources[at].root.as_str()) {
                Some(segment) => segment.series_ids.is_none(),
                None => false,
            };
            if self.series_fingerprint.is_none() && unloaded {
                positions.push(at);
            }
            at = at + 1;
        }
        assert(positions@ == positions_where(
            views,
            |source: SourceView| is_unloaded(self@, source.root),
            views.len(),
        ));
        positions
    }

    /// The catalog of the sources.
    pub fn catalog(
        &mut self,
        sources: &[PersistedRegistryCatalogSource],
        files: &SegmentFiles,
    ) -> (outcome: Result<PersistedRegistryCatalogFile, TsinkError>)
        requires
            old(self).wf(),
        ensures
            final(self).wf(),
            (final(self)@, catalog_outcome(outcome)) == cataloged(
                old(self)@,
                sources_view(sources@),
                files@,
            ),
    {
        let ghost views = sources_view(sources@);
        match self.sync_segments(sources, files) {
            Ok(()) => {},
            Err(error) => {
                return Err(error);
            },
        }
        let fingerprint = match self.series_fingerprint {
            Some(fingerprint) => fingerprint,
            None => {
                let ghost known = self@;
                let mut at: usize = 0;
                proof {
                    assert(views.take(0) =~= Seq::<SourceView>::empty());
                }
                while at < sources.len()
                    invariant
                        at <= sources@.len(),
                        views == sources_view(sources@),
                        self.wf(),
                        (self@, Ok::<(), ErrorView>(())) == with_all_series(
                            known,
                            views.take(at as int),
                            files@,
                        ),
                        (known, Ok::<(), ErrorView>(())) == synced(old(self)@, views, files@),
                        known.fingerprint is None,
                    decreases sources@.len() - at,
                {
                    proof {
                        assert(views.take(at + 1).drop_last() =~= views.take(at as int));
                        assert(views.take(at + 1).last() == sources@[at as int]@);
                    }
                    match self.load_series(&sources[at].root, files) {
                        Ok(()) => {},
                        Err(error) => {
                            proof {
                                lemma_series_stay_wrong(known, views, files@, at + 1);
                            }
                            return Err(error);
                        },
                    }
                    at = at + 1;
                }
                proof {
                    assert(views.take(at as int) =~= views);
                }
                let fingerprint = self.series.fingerprint();
                let ghost loaded = self@;
                self.series_fingerprint = Some(fingerprint);
                proof {
                    assert(self@.segments =~= loaded.segments);
                }
                fingerprint
            },
        };
        Ok(
            PersistedRegistryCatalogFile {
                version: REGISTRY_CATALOG_VERSION,
                segments: self.entries(sources),
                series_fingerprint: Some(fingerprint),
            },
        )
    }
}

/// The positions of the sources whose manifests are not known yet.
pub open spec fn manifests_to_read(cache: CacheView, sources: Seq<SourceView>) -> Seq<usize> {
    positions_where(
        sources,
        |source: SourceView| !cache.segments.contains_key(source.root),
        sources.len(),
    )
}

/// The positions of the sources whose series have to be loaded for the catalog.
pub open spec fn series_to_read(cache: CacheView, sources: Seq<SourceView>) -> Seq<usize> {
    positions_where(
        sources,
        |source: SourceView| is_unloaded(cache, source.root),
        sources.len(),
    )
}

/// The positions below `n` of the sources with a property, in ascending order.
pub open spec fn positions_where(
    sources: Seq<SourceView>,
    wanted: spec_fn(SourceView) -> bool,
    n: nat,
) -> Seq<usize>
    decreases n,
{
    if n == 0 {
        Seq::empty()
    } else {
        let before = positions_where(sources, wanted, (n - 1) as nat);
        if wanted(sources[n - 1]) {
            before.push((n - 1) as usize)
        } else {
            before
        }
    }
}

/// The segment is known, but its series are needed and not loaded.
pub open spec fn is_unloaded(cache: CacheView, root: Seq<char>) -> bool {
    cache.fingerprint is None && cache.segments.contains_key(root)
        && cache.segments[root].ids is None
}

impl Default for RegistryCatalogCache {
    fn default() -> (cache: Self)
        ensures
            cache.wf(),
            cache@.segments == Map::<Seq<char>, SegmentView>::empty(),
            cache@.keys == Map::<u64, KeyView>::empty(),
            cache@.fingerprint is None,
            cache@.persisted is None,
    {
        RegistryCatalogCache::new()
    }
}

/// A catalog or an error, as mathematics.
pub open spec fn catalog_outcome(
    outcome: Result<PersistedRegistryCatalogFile, TsinkError>,
) -> Result<CatalogView, ErrorView> {
    match outcome {
        Ok(catalog) => Ok(catalog@),
        Err(error) => Err(error@),
    }
}

/// Whether some source has that root.
fn lists(sources: &[PersistedRegistryCatalogSource], root: &String) -> (listed: bool)
    ensures
        listed == is_listed(sources_view(sources@), root@),
{
    let mut at: usize = 0;
    while at < sources.len()
        invariant
            at <= sources@.len(),
            forall|i: int|
                0 <= i < at ==> (#[trigger] sources_view(sources@)[i]).root != root@,
        decreases sources@.len() - at,
    {
        if same_text(&sources[at].root, root) {
            proof {
                assert(sources_view(sources@)[at as int].root == root@);
            }
            return true;
        }
        at = at + 1;
    }
    false
}

proof fn lemma_nothing_removed(cache: CacheView)
    ensures
        without_segments(cache, Set::empty()) == cache,
{
    assert(cache.segments.dom().disjoint(Set::<Seq<char>>::empty()));
}

/// Removing one more segment is removing it together with those removed before.
proof fn lemma_remove_one_more(cache: CacheView, gone: Set<Seq<char>>, root: Seq<char>)
    requires
        is_sound(cache),
    ensures
        without_segment(without_segments(cache, gone), root) == without_segments(
            cache,
            gone.insert(root),
        ),
{
    let before = without_segments(cache, gone);
    let after = without_segments(cache, gone.insert(root));
    if cache.segments.dom().disjoint(gone) {
        assert(cache.segments.remove_keys(gone) =~= cache.segments);
    }
    assert(before.segments =~= cache.segments.remove_keys(gone));
    if before.segments.contains_key(root) {
        assert(gone.insert(root).contains(root));
        assert(before.segments.remove(root) =~= cache.segments.remove_keys(gone.insert(root)));
        let segments = before.segments.remove(root);
        assert(held_keys(before.keys, segments) =~= held_keys(cache.keys, segments)) by {
            assert forall|id: u64| is_held(segments, id) implies is_held(before.segments, id) by {
                let other = choose|other: Seq<char>| holds(segments, other, id);
                assert(holds(before.segments, other, id));
            }
        }
        assert(without_segment(before, root) =~= after);
    } else {
        assert(cache.segments.remove_keys(gone.insert(root)) =~= cache.segments.remove_keys(gone));
        assert(cache.segments.dom().disjoint(gone.insert(root)) <==> cache.segments.dom().disjoint(
            gone,
        )) by {
            if cache.segments.dom().disjoint(gone) {
                assert(!cache.segments.dom().contains(root));
            } else {
                let other = choose|other: Seq<char>|
                    cache.segments.dom().contains(other) && gone.contains(other);
                assert(gone.insert(root).contains(other));
            }
        }
        assert(before =~= after);
    }
}

/// A segment that is not loaded changes nothing about who holds a series.
proof fn lemma_unloaded_holds_nothing(
    segments: Map<Seq<char>, SegmentView>,
    root: Seq<char>,
    added: SegmentView,
)
    requires
        !segments.contains_key(root),
        added.ids is None,
    ensures
        forall|id: u64| #[trigger]
            is_held(segments.insert(root, added), id) <==> is_held(segments, id),
        forall|id: u64| #[trigger]
            holders(segments.insert(root, added), id) == holders(segments, id),
{
    let grown = segments.insert(root, added);
    assert forall|id: u64| #[trigger] holders(grown, id) == holders(segments, id) by {
        assert(holders(grown, id) =~= holders(segments, id));
    }
    assert forall|id: u64| #[trigger] is_held(grown, id) <==> is_held(segments, id) by {
        if is_held(grown, id) {
            let other = choose|other: Seq<char>| holds(grown, other, id);
            assert(holds(segments, other, id));
        }
        if is_held(segments, id) {
            let other = choose|other: Seq<char>| holds(segments, other, id);
            assert(holds(grown, other, id));
        }
    }
}

proof fn lemma_sources_stay_wrong(
    cache: CacheView,
    sources: Seq<SourceView>,
    files: FilesView,
    n: int,
)
    requires
        0 <= n <= sources.len(),
        with_sources(cache, sources.take(n), files).1 is Err,
    ensures
        with_sources(cache, sources, files) == with_sources(cache, sources.take(n), files),
    decreases sources.len() - n,
{
    if n == sources.len() {
        assert(sources.take(n) =~= sources);
    } else {
        assert(sources.take(n + 1).drop_last() =~= sources.take(n));
        lemma_sources_stay_wrong(cache, sources, files, n + 1);
    }
}

proof fn lemma_series_stay_wrong(
    cache: CacheView,
    sources: Seq<SourceView>,
    files: FilesView,
    n: int,
)
    requires
        0 <= n <= sources.len(),
        with_all_series(cache, sources.take(n), files).1 is Err,
    ensures
        with_all_series(cache, sources, files) == with_all_series(cache, sources.take(n), files),
    decreases sources.len() - n,
{
    if n == sources.len() {
        assert(sources.take(n) =~= sources);
    } else {
        assert(sources.take(n + 1).drop_last() =~= sources.take(n));
        lemma_series_stay_wrong(cache, sources, files, n + 1);
    }
}

} // verus!
