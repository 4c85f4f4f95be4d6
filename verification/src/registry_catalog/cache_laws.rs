//! What the catalog cache knows, reads and writes, in terms of the segments and files.
use crate::error::ErrorView;
use crate::registry_catalog::cache::{
    adopted, cataloged, is_sound, known_entries, manifests_to_read, positions_where,
    series_to_read, synced, unlisted, with_series, with_sources, without_segments, CacheView,
    SegmentView,
};
use crate::registry_catalog::entry_laws::{
    law_entries_are_sorted_by_lane_level_and_id, lists_in_order, tells,
};
use crate::registry_catalog::fingerprint::{fingerprint_of, series_bytes, xxh64_of};
use crate::registry_catalog::from_files::{catalog_of, merge_sources};
use crate::registry_catalog::laws::{
    is_from_source, lemma_merge_is_union, lemma_synced, lists_id, roots_of,
};
use crate::registry_catalog::merging::{agrees, ids_of, law_first_conflict_is_reported};
use crate::registry_catalog::persist::{
    after_reply, is_reply_to, PersistReplyView, PersistStepView,
};
use crate::registry_catalog::series_table::{
    is_listing, law_series_are_listed, lemma_one_listing, listing,
};
use crate::registry_catalog::{
    CatalogView, FilesView, PersistedRegistryCatalogEntry, SourceView,
};
use crate::series::SeriesView;
use vstd::prelude::*;

verus! {

/// Some source has that root.
pub open spec fn has_source(sources: Seq<SourceView>, root: Seq<char>) -> bool {
    exists|i: int| 0 <= i < sources.len() && (#[trigger] sources[i]).root == root
}

/// The segment is as its files say: its entry tells of the manifest under the lane of some
/// source with that root, and its series are not loaded.
pub open spec fn is_newly_read(
    segment: SegmentView,
    root: Seq<char>,
    sources: Seq<SourceView>,
    files: FilesView,
) -> bool {
    &&& segment.ids is None
    &&& files.manifests.contains_key(root)
    &&& files.manifests[root] is Ok
    &&& exists|i: int|
        0 <= i < sources.len() && (#[trigger] sources[i]).root == root && tells(
            segment.entry,
            sources[i].lane,
            files.manifests[root]->Ok_0,
        )
}

/// Every source is known to the cache, or its manifest can be read.
pub open spec fn all_known_or_readable(
    cache: CacheView,
    sources: Seq<SourceView>,
    files: FilesView,
) -> bool {
    forall|i: int|
        0 <= i < sources.len() ==> cache.segments.contains_key((#[trigger] sources[i]).root)
            || files.manifests.contains_key(sources[i].root)
            && files.manifests[sources[i].root] is Ok
}

proof fn lemma_adding_outcome(cache: CacheView, sources: Seq<SourceView>, files: FilesView)
    ensures
        with_sources(cache, sources, files).1 is Ok <==> all_known_or_readable(
            cache,
            sources,
            files,
        ),
        forall|root: Seq<char>| #[trigger]
            with_sources(cache, sources, files).0.segments.contains_key(root)
                ==> cache.segments.contains_key(root) || files.manifests.contains_key(root)
                && files.manifests[root] is Ok,
        forall|root: Seq<char>| #[trigger]
            cache.segments.contains_key(root) ==> with_sources(
                cache,
                sources,
                files,
            ).0.segments.contains_key(root),
    decreases sources.len(),
{
    if sources.len() > 0 {
        let shorter = sources.drop_last();
        lemma_adding_outcome(cache, shorter, files);
        if all_known_or_readable(cache, sources, files) {
            assert forall|i: int| 0 <= i < shorter.len() implies cache.segments.contains_key(
                (#[trigger] shorter[i]).root,
            ) || files.manifests.contains_key(shorter[i].root)
                && files.manifests[shorter[i].root] is Ok by {
                assert(shorter[i] == sources[i]);
            }
            assert(sources[sources.len() - 1] == sources.last());
        }
        if with_sources(cache, sources, files).1 is Ok {
            assert forall|i: int| 0 <= i < sources.len() implies cache.segments.contains_key(
                (#[trigger] sources[i]).root,
            ) || files.manifests.contains_key(sources[i].root)
                && files.manifests[sources[i].root] is Ok by {
                if i < shorter.len() {
                    assert(shorter[i] == sources[i]);
                }
            }
        }
    }
}

proof fn lemma_sync_outcome(cache: CacheView, sources: Seq<SourceView>, files: FilesView)
    ensures
        synced(cache, sources, files).1 is Ok <==> all_known_or_readable(cache, sources, files),
{
    let kept = without_segments(cache, unlisted(sources));
    lemma_adding_outcome(kept, sources, files);
    assert forall|i: int| 0 <= i < sources.len() implies kept.segments.contains_key(
        (#[trigger] sources[i]).root,
    ) == cache.segments.contains_key(sources[i].root) by {
        assert(!unlisted(sources).contains(sources[i].root));
    }
}

/// A cache that is brought in line with the sources knows exactly the segments that some source
/// has. What it knew of them before it still knows; of the others it knows what their manifests
/// say. What is on disk it knows as before. That fails exactly where the manifest of a source
/// that it did not know cannot be read; then, too, it knows no segment that no source has.
pub proof fn law_synced_cache_knows_the_sources(
    cache: CacheView,
    sources: Seq<SourceView>,
    files: FilesView,
)
    requires
        is_sound(cache),
    ensures
        ({
            let (after, outcome) = synced(cache, sources, files);
            &&& after.persisted == cache.persisted
            &&& forall|root: Seq<char>| #[trigger]
                after.segments.contains_key(root) ==> has_source(sources, root) && (
                if cache.segments.contains_key(root) {
                    after.segments[root] == cache.segments[root]
                } else {
                    is_newly_read(after.segments[root], root, sources, files)
                })
            &&& outcome is Ok ==> forall|root: Seq<char>| #[trigger]
                has_source(sources, root) ==> after.segments.contains_key(root)
            &&& outcome is Ok <==> all_known_or_readable(cache, sources, files)
        }),
{
    lemma_synced(cache, sources, files);
    let (after, outcome) = synced(cache, sources, files);
    lemma_sync_outcome(cache, sources, files);
    assert forall|root: Seq<char>| #[trigger] after.segments.contains_key(root) implies has_source(
        sources,
        root,
    ) && (if cache.segments.contains_key(root) {
        after.segments[root] == cache.segments[root]
    } else {
        is_newly_read(after.segments[root], root, sources, files)
    }) by {
        assert(after.segments.dom().contains(root));
        assert(roots_of(sources).contains(root));
        if !cache.segments.contains_key(root) {
            assert(is_from_source(after.segments[root], root, sources, files));
        }
    }
    if outcome is Ok {
        assert forall|root: Seq<char>| #[trigger] has_source(
            sources,
            root,
        ) implies after.segments.contains_key(root) by {
            assert(roots_of(sources).contains(root));
            assert(after.segments.dom().contains(root));
        }
    }
}

/// The list holds every series that some source lists, each id once, in ascending order.
pub open spec fn is_list_of_all(
    sources: Seq<SourceView>,
    files: FilesView,
    list: Seq<SeriesView>,
) -> bool {
    &&& forall|i: int, j: int|
        #![trigger list[i], list[j]]
        0 <= i < j < list.len() ==> list[i].id < list[j].id
    &&& forall|i: int, series: SeriesView|
        #![trigger sources[i], list.contains(series)]
        0 <= i < sources.len() && files.lists.contains_key(sources[i].root)
            && files.lists[sources[i].root] is Ok
            && files.lists[sources[i].root]->Ok_0.contains(series) ==> list.contains(series)
    &&& forall|k: int|
        0 <= k < list.len() ==> exists|i: int|
            {
                &&& 0 <= i < sources.len()
                &&& files.lists.contains_key((#[trigger] sources[i]).root)
                &&& files.lists[sources[i].root] is Ok
                &&& files.lists[sources[i].root]->Ok_0.contains(#[trigger] list[k])
            }
}

/// The fingerprint of a catalog is that of every series that some source lists, each id once, in
/// ascending order: their number, and the hash of their bytes.
pub proof fn law_fingerprint_covers_every_listed_series(
    sources: Seq<SourceView>,
    files: FilesView,
    list: Seq<SeriesView>,
)
    requires
        is_list_of_all(sources, files, list),
        list.len() <= usize::MAX,
    ensures
        merge_sources(sources, files) matches Ok(keys) ==> {
            let fingerprint = fingerprint_of(listing(keys));
            &&& fingerprint.series_count == list.len()
            &&& fingerprint.series_hash64 == xxh64_of(0, series_bytes(list))
        },
        catalog_of(sources, files) matches Ok(catalog) ==> {
            &&& catalog.series_fingerprint is Some
            &&& catalog.series_fingerprint->Some_0.series_count == list.len()
            &&& catalog.series_fingerprint->Some_0.series_hash64 == xxh64_of(0, series_bytes(list))
        },
{
    if merge_sources(sources, files) is Ok {
        let keys = merge_sources(sources, files)->Ok_0;
        let roots = roots_of(sources);
        lemma_merge_is_union(sources, files);
        law_series_are_listed(keys);
        assert(is_listing(keys, list)) by {
            assert forall|k: int| 0 <= k < list.len() implies keys.contains_key(
                (#[trigger] list[k]).id,
            ) && keys[list[k].id] == list[k].key by {
                let i = choose|i: int|
                    {
                        &&& 0 <= i < sources.len()
                        &&& files.lists.contains_key((#[trigger] sources[i]).root)
                        &&& files.lists[sources[i].root] is Ok
                        &&& files.lists[sources[i].root]->Ok_0.contains(list[k])
                    };
                let root = sources[i].root;
                assert(roots.contains(root));
                let given = files.list(root)->Ok_0;
                assert(agrees(keys, given));
                let at = given.index_of(list[k]);
                assert(given[at] == list[k]);
            }
            assert forall|id: u64| #[trigger] keys.contains_key(id) implies exists|i: int|
                0 <= i < list.len() && (#[trigger] list[i]).id == id by {
                let root = choose|root: Seq<char>| lists_id(roots, files, root, id);
                assert(roots.contains(root));
                let i = choose|i: int| 0 <= i < sources.len() && (#[trigger] sources[i]).root
                    == root;
                let given = files.list(root)->Ok_0;
                assert(ids_of(given).contains(id));
                let at = choose|at: int| 0 <= at < given.len() && (#[trigger] given[at]).id == id;
                assert(given.contains(given[at]));
                assert(sources[i].root == root);
                assert(list.contains(given[at]));
                assert(list[list.index_of(given[at])].id == id);
            }
        }
        lemma_one_listing(keys, list, listing(keys));
    }
}

proof fn lemma_known_entries(segments: Map<Seq<char>, SegmentView>, sources: Seq<SourceView>)
    requires
        forall|i: int|
            0 <= i < sources.len() ==> segments.contains_key((#[trigger] sources[i]).root),
    ensures
        known_entries(segments, sources).len() == sources.len(),
        forall|i: int|
            0 <= i < sources.len() ==> #[trigger] known_entries(segments, sources)[i]
                == segments[sources[i].root].entry,
    decreases sources.len(),
{
    if sources.len() > 0 {
        let shorter = sources.drop_last();
        assert forall|i: int| 0 <= i < shorter.len() implies segments.contains_key(
            (#[trigger] shorter[i]).root,
        ) by {
            assert(shorter[i] == sources[i]);
        }
        lemma_known_entries(segments, shorter);
        assert(segments.contains_key(sources[sources.len() - 1].root));
        assert forall|i: int| 0 <= i < sources.len() implies #[trigger] known_entries(
            segments,
            sources,
        )[i] == segments[sources[i].root].entry by {
            if i < shorter.len() {
                assert(known_entries(segments, sources)[i] == known_entries(segments, shorter)[i]);
            }
        }
    }
}

/// The entries that the cache has of the sources, one for each source.
pub open spec fn cached_entries(cache: CacheView, sources: Seq<SourceView>) -> Seq<
    PersistedRegistryCatalogEntry,
> {
    Seq::new(sources.len(), |i: int| cache.segments[sources[i].root].entry)
}

/// A catalog found on disk is taken over exactly where it has version 2 and a fingerprint, and
/// its entries are those of the sources in the order of lane, level and segment id. Then the
/// cache has its fingerprint and knows it to be on disk; otherwise the cache stays as it is.
pub proof fn law_only_a_current_catalog_is_taken_over(
    cache: CacheView,
    sources: Seq<SourceView>,
    on_disk: CatalogView,
)
    requires
        sources.len() <= usize::MAX,
        forall|i: int|
            0 <= i < sources.len() ==> cache.segments.contains_key((#[trigger] sources[i]).root),
    ensures
        ({
            let after = adopted(cache, sources, on_disk);
            let current = on_disk.version == 2 && on_disk.series_fingerprint is Some && exists|
                order: Seq<usize>,
            | #[trigger]
                lists_in_order(on_disk.segments, cached_entries(cache, sources), order);
            &&& after.segments == cache.segments
            &&& after.keys == cache.keys
            &&& current ==> after.fingerprint == on_disk.series_fingerprint && after.persisted
                == Some(on_disk)
            &&& !current ==> after == cache
        }),
{
    lemma_known_entries(cache.segments, sources);
    assert(known_entries(cache.segments, sources) =~= cached_entries(cache, sources));
    law_entries_are_sorted_by_lane_level_and_id(
        known_entries(cache.segments, sources),
        on_disk.segments,
    );
}

/// The catalog that a cache gives has version 2 and a fingerprint, and lists the entries that
/// the cache then has of the sources in the order of lane, level and segment id. Giving it
/// changes nothing that is known to be on disk, and the cache keeps the fingerprint. That is the
/// one it had, or it was made anew, of all its series, with the series of every source loaded.
pub proof fn law_given_catalog_lists_the_cached_entries(
    cache: CacheView,
    sources: Seq<SourceView>,
    files: FilesView,
)
    requires
        is_sound(cache),
        sources.len() <= usize::MAX,
    ensures
        ({
            let (after, outcome) = cataloged(cache, sources, files);
            &&& after.persisted == cache.persisted
            &&& outcome matches Ok(catalog) ==> {
                &&& catalog.version == 2
                &&& catalog.series_fingerprint is Some
                &&& after.fingerprint == catalog.series_fingerprint
                &&& forall|i: int|
                    0 <= i < sources.len() ==> after.segments.contains_key(
                        (#[trigger] sources[i]).root,
                    )
                &&& exists|order: Seq<usize>| #[trigger]
                    lists_in_order(catalog.segments, cached_entries(after, sources), order)
                &&& after.fingerprint == cache.fingerprint || {
                    &&& forall|i: int|
                        0 <= i < sources.len() ==> after.segments[(
                        #[trigger] sources[i]).root].ids is Some
                    &&& after.fingerprint == Some(fingerprint_of(listing(after.keys)))
                }
            }
            &&& outcome is Ok ==> all_known_or_readable(cache, sources, files)
        }),
{
    lemma_synced(cache, sources, files);
    lemma_sync_outcome(cache, sources, files);
    let (known, outcome) = synced(cache, sources, files);
    let (after, given) = cataloged(cache, sources, files);
    if outcome is Ok {
        lemma_loading_keeps_entries(known, sources, files);
        lemma_kept_fingerprint(cache, sources, files);
    }
    if given is Ok {
        assert forall|i: int| 0 <= i < sources.len() implies after.segments.contains_key(
            (#[trigger] sources[i]).root,
        ) by {
            assert(roots_of(sources).contains(sources[i].root));
            assert(known.segments.dom().contains(sources[i].root));
        }
        lemma_known_entries(after.segments, sources);
        assert(known_entries(after.segments, sources) =~= cached_entries(after, sources));
        law_entries_are_sorted_by_lane_level_and_id(
            known_entries(after.segments, sources),
            given->Ok_0.segments,
        );
    }
}

proof fn lemma_loading_keeps_entries(cache: CacheView, sources: Seq<SourceView>, files: FilesView)
    ensures
        ({
            let after = crate::registry_catalog::cache::with_all_series(cache, sources, files).0;
            &&& after.persisted == cache.persisted
            &&& after.segments.dom() == cache.segments.dom()
            &&& forall|root: Seq<char>| #[trigger]
                cache.segments.contains_key(root) && cache.segments[root].ids is Some
                    ==> after.segments[root].ids is Some
            &&& crate::registry_catalog::cache::with_all_series(cache, sources, files).1 is Ok
                ==> forall|i: int|
                0 <= i < sources.len() && cache.segments.contains_key((#[trigger] sources[i]).root)
                    ==> after.segments[sources[i].root].ids is Some
        }),
    decreases sources.len(),
{
    if sources.len() > 0 {
        lemma_loading_keeps_entries(cache, sources.drop_last(), files);
        let (before, outcome) = crate::registry_catalog::cache::with_all_series(
            cache,
            sources.drop_last(),
            files,
        );
        let after = with_series(before, sources.last().root, files).0;
        assert(after.segments.dom() =~= before.segments.dom());
        if outcome is Ok {
            assert forall|i: int|
                0 <= i < sources.len() && cache.segments.contains_key(
                    (#[trigger] sources[i]).root,
                ) && with_series(before, sources.last().root, files).1 is Ok implies
                after.segments[sources[i].root].ids is Some by {
                assert(before.segments.dom().contains(sources[i].root));
                if i < sources.len() - 1 {
                    assert(sources.drop_last()[i] == sources[i]);
                    assert(before.segments[sources[i].root].ids is Some);
                }
            }
            assert forall|root: Seq<char>| #[trigger]
                cache.segments.contains_key(root) && cache.segments[root].ids is Some implies
                after.segments[root].ids is Some by {
                assert(before.segments[root].ids is Some);
            }
        }
    }
}

/// A fingerprint outlasts syncing only as it is.
proof fn lemma_kept_fingerprint(cache: CacheView, sources: Seq<SourceView>, files: FilesView)
    ensures
        synced(cache, sources, files).0.fingerprint is Some ==> synced(
            cache,
            sources,
            files,
        ).0.fingerprint == cache.fingerprint,
{
    lemma_added_fingerprint(without_segments(cache, unlisted(sources)), sources, files);
}

proof fn lemma_added_fingerprint(cache: CacheView, sources: Seq<SourceView>, files: FilesView)
    ensures
        with_sources(cache, sources, files).0.fingerprint is Some ==> with_sources(
            cache,
            sources,
            files,
        ).0.fingerprint == cache.fingerprint,
    decreases sources.len(),
{
    if sources.len() > 0 {
        lemma_added_fingerprint(cache, sources.drop_last(), files);
    }
}

/// Loading a segment that is known and not loaded makes the cache know exactly the ids of its
/// list for it, and every series of the list under its key; what was known before stays, and so
/// does every other segment. A list that cannot be read or is in conflict changes nothing, and a
/// segment that is not known or is loaded already is left alone.
pub proof fn law_loading_a_segment_adds_its_series(
    cache: CacheView,
    root: Seq<char>,
    files: FilesView,
)
    ensures
        ({
            let (after, outcome) = with_series(cache, root, files);
            let waits = cache.segments.contains_key(root) && cache.segments[root].ids is None;
            &&& !waits ==> after == cache && outcome is Ok
            &&& outcome is Err ==> after == cache
            &&& waits && (!files.lists.contains_key(root) || files.lists[root] is Err)
                ==> outcome is Err
            &&& waits && outcome is Ok ==> {
                let list = files.lists[root]->Ok_0;
                &&& after.segments.dom() == cache.segments.dom()
                &&& after.segments[root].entry == cache.segments[root].entry
                &&& after.segments[root].ids is Some
                &&& forall|id: u64| #[trigger]
                    after.segments[root].ids->Some_0.contains(id) <==> exists|i: int|
                        0 <= i < list.len() && (#[trigger] list[i]).id == id
                &&& forall|i: int|
                    0 <= i < list.len() ==> after.keys.contains_key((#[trigger] list[i]).id)
                        && after.keys[list[i].id] == list[i].key
                &&& forall|id: u64| #[trigger]
                    cache.keys.contains_key(id) ==> after.keys.contains_key(id) && after.keys[id]
                        == cache.keys[id]
                &&& forall|id: u64| #[trigger]
                    after.keys.contains_key(id) ==> cache.keys.contains_key(id)
                        || after.segments[root].ids->Some_0.contains(id)
                &&& forall|other: Seq<char>| #[trigger]
                    cache.segments.contains_key(other) && other != root ==> after.segments[other]
                        == cache.segments[other]
                &&& after.fingerprint == cache.fingerprint
                &&& after.persisted == cache.persisted
            }
        }),
{
    if files.lists.contains_key(root) && files.lists[root] is Ok {
        let list = files.lists[root]->Ok_0;
        law_first_conflict_is_reported(cache.keys, list);
        let (after, outcome) = with_series(cache, root, files);
        if cache.segments.contains_key(root) {
            assert(cache.segments.insert(root, after.segments[root]).dom() =~= cache.segments.dom());
        }
        assert forall|id: u64| #[trigger] ids_of(list).contains(id) <==> exists|i: int|
            0 <= i < list.len() && (#[trigger] list[i]).id == id by {}
    }
}

/// The positions are ascending, and a position is among them exactly where the source there is
/// wanted.
pub open spec fn are_positions_of(
    sources: Seq<SourceView>,
    wanted: spec_fn(SourceView) -> bool,
    positions: Seq<usize>,
) -> bool {
    &&& forall|k: int, l: int|
        #![trigger positions[k], positions[l]]
        0 <= k < l < positions.len() ==> positions[k] < positions[l]
    &&& forall|k: int|
        0 <= k < positions.len() ==> (#[trigger] positions[k]) < sources.len() && wanted(
            sources[positions[k] as int],
        )
    &&& forall|i: int|
        0 <= i < sources.len() && wanted(#[trigger] sources[i]) ==> positions.contains(i as usize)
}

proof fn lemma_positions(
    sources: Seq<SourceView>,
    wanted: spec_fn(SourceView) -> bool,
    n: nat,
)
    requires
        n <= sources.len() <= usize::MAX,
    ensures
        are_positions_of(sources.take(n as int), wanted, positions_where(sources, wanted, n)),
    decreases n,
{
    if n > 0 {
        let m = (n - 1) as nat;
        lemma_positions(sources, wanted, m);
        let before = positions_where(sources, wanted, m);
        let positions = positions_where(sources, wanted, n);
        let shorter = sources.take(m as int);
        let longer = sources.take(n as int);
        assert forall|k: int| 0 <= k < before.len() implies positions[k] == before[k] && (
        #[trigger] before[k]) < m && wanted(longer[before[k] as int]) by {
            assert(wanted(shorter[before[k] as int]));
        }
        assert forall|k: int| 0 <= k < positions.len() implies (#[trigger] positions[k])
            < longer.len() && wanted(longer[positions[k] as int]) by {
            if k < before.len() {
                assert(before[k] < m);
            }
        }
        assert forall|k: int, l: int|
            #![trigger positions[k], positions[l]]
            0 <= k < l < positions.len() implies positions[k] < positions[l] by {
            assert(before[k] < m);
            if l < before.len() {
                assert(before[k] < before[l]);
            }
        }
        assert forall|i: int|
            0 <= i < longer.len() && wanted(#[trigger] longer[i]) implies positions.contains(
            i as usize,
        ) by {
            if i < m {
                assert(shorter[i] == longer[i]);
                assert(before.contains(i as usize));
                let k = before.index_of(i as usize);
                assert(positions[k] == i as usize);
            } else {
                assert(positions[before.len() as int] == i as usize);
            }
        }
    }
}

/// The manifests that are read are those of the sources that the cache does not know. The series
/// lists that are read are those of the sources that it knows and has not loaded, and none while
/// it has a fingerprint.
pub proof fn law_only_what_is_unknown_is_read(cache: CacheView, sources: Seq<SourceView>)
    requires
        sources.len() <= usize::MAX,
    ensures
        are_positions_of(
            sources,
            |source: SourceView| !cache.segments.contains_key(source.root),
            manifests_to_read(cache, sources),
        ),
        are_positions_of(
            sources,
            |source: SourceView|
                cache.fingerprint is None && cache.segments.contains_key(source.root)
                    && cache.segments[source.root].ids is None,
            series_to_read(cache, sources),
        ),
{
    let unknown = |source: SourceView| !cache.segments.contains_key(source.root);
    let unloaded = |source: SourceView|
        crate::registry_catalog::cache::is_unloaded(cache, source.root);
    lemma_positions(sources, unknown, sources.len());
    lemma_positions(sources, unloaded, sources.len());
    assert(sources.take(sources.len() as int) =~= sources);
    assert(unloaded =~= (|source: SourceView|
        cache.fingerprint is None && cache.segments.contains_key(source.root)
            && cache.segments[source.root].ids is None));
}

/// The failure that a reply reports, if it reports one.
pub open spec fn failure_in(reply: PersistReplyView) -> Option<ErrorView> {
    match reply {
        PersistReplyView::CatalogRead(Err(error)) => Some(error),
        PersistReplyView::Looked(Err(error)) => Some(error),
        PersistReplyView::Written(Err(error)) => Some(error),
        _ => None,
    }
}

/// The catalog that a step is about to find or write.
pub open spec fn catalog_at(step: PersistStepView) -> Option<CatalogView> {
    match step {
        PersistStepView::LookForFile { catalog } => Some(catalog),
        PersistStepView::WriteFile { catalog } => Some(catalog),
        _ => None,
    }
}

/// How a catalog gets to disk. It is looked for only where the cache knows that very catalog to
/// be there, and written where the cache knows none or another one, or where the file is gone.
/// It is noted as persisted once it was found or written, and that ends it well. The catalog
/// file is read only by a cache that does not know what is on disk, after the manifests and
/// before any series list. A failure ends it, and so does the manifest of an unknown source that
/// cannot be read; then nothing new is noted.
pub proof fn law_catalog_is_written_where_it_is_not_on_disk(
    cache: CacheView,
    sources: Seq<SourceView>,
    step: PersistStepView,
    reply: PersistReplyView,
)
    requires
        is_sound(cache),
        is_reply_to(step, reply),
    ensures
        ({
            let (after, next) = after_reply(cache, sources, step, reply);
            &&& match next {
                PersistStepView::ReadManifests { .. } => false,
                PersistStepView::ReadCatalog => step is ReadManifests && after.persisted is None,
                PersistStepView::ReadSeries { positions } => {
                    &&& step is ReadManifests && after.persisted is Some || step is ReadCatalog
                    &&& positions == series_to_read(after, sources)
                },
                PersistStepView::LookForFile { catalog } => step is ReadSeries && after.persisted
                    == Some(catalog),
                PersistStepView::WriteFile { catalog } => if step is ReadSeries {
                    after.persisted != Some(catalog)
                } else {
                    step == (PersistStepView::LookForFile { catalog }) && reply == (
                    PersistReplyView::Looked(Ok(false)))
                },
                PersistStepView::Done { outcome: Ok(_) } => {
                    &&& catalog_at(step) is Some
                    &&& after.persisted == catalog_at(step)
                    &&& if step is LookForFile {
                        reply == (PersistReplyView::Looked(Ok(true)))
                    } else {
                        reply matches PersistReplyView::Written(Ok(_))
                    }
                },
                PersistStepView::Done { outcome: Err(_) } => after.persisted == cache.persisted,
            }
            &&& reply matches PersistReplyView::ManifestsRead(files) ==> (next is Done
                <==> !all_known_or_readable(cache, sources, files))
            &&& failure_in(reply) is Some ==> next == (PersistStepView::Done {
                outcome: Err::<(), ErrorView>(failure_in(reply)->Some_0),
            }) && after == cache
            &&& after.persisted != cache.persisted ==> match reply {
                PersistReplyView::CatalogRead(Ok(Some(on_disk))) => after.persisted == Some(on_disk)
                    && after.fingerprint == on_disk.series_fingerprint,
                PersistReplyView::Looked(Ok(true)) => after.persisted == catalog_at(step),
                PersistReplyView::Written(Ok(_)) => after.persisted == catalog_at(step),
                _ => false,
            }
            &&& (step is LookForFile || step is WriteFile) ==> after.segments == cache.segments
                && after.keys == cache.keys && after.fingerprint == cache.fingerprint
        }),
{
    match (step, reply) {
        (PersistStepView::ReadManifests { .. }, PersistReplyView::ManifestsRead(files)) => {
            lemma_synced(cache, sources, files);
            lemma_sync_outcome(cache, sources, files);
        },
        (PersistStepView::ReadSeries { .. }, PersistReplyView::SeriesRead(files)) => {
            lemma_synced(cache, sources, files);
            let known = synced(cache, sources, files).0;
            lemma_loading_keeps_entries(known, sources, files);
        },
        _ => {},
    }
}

} // verus!
