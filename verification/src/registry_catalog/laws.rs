//! What holds of the catalog cache over its whole life.
use crate::error::ErrorView;
use crate::registry_catalog::cache::{
    adopted, cataloged, catalog_from, holds, is_held, is_listed, is_sound, is_within,
    known_entries, manifests_to_read, synced, unlisted, with_all_series, with_series,
    with_sources, without_segment, without_segments, CacheView, SegmentView,
};
use crate::registry_catalog::fingerprint::fingerprint_of;
use crate::registry_catalog::from_files::{
    catalog_of, entries_of, entry_of, entry_with, merge_sources, sorted_entries,
};
use crate::registry_catalog::merging::{add_all, agrees, ids_of, lemma_added};
use crate::registry_catalog::persist::{
    after_reply, opened, write_plan, PersistReplyView, PersistStepView,
};
use crate::registry_catalog::series_table::{
    bound_id, is_bound, keys_differ, law_series_are_listed, listing,
};
use crate::registry_catalog::{
    CatalogView, FilesView, PersistedRegistryCatalogEntry, SourceView, REGISTRY_CATALOG_VERSION,
};
use crate::series::{KeyView, SeriesView};
use vstd::prelude::*;

verus! {

/// `keys` are the series of the segments at `roots`: theirs and no others, each key once.
pub open spec fn is_union(
    keys: Map<u64, KeyView>,
    roots: Set<Seq<char>>,
    files: FilesView,
) -> bool {
    &&& keys_differ(keys)
    &&& forall|root: Seq<char>| #[trigger]
        roots.contains(root) ==> files.list(root) is Ok && agrees(keys, files.list(root)->Ok_0)
    &&& forall|id: u64| #[trigger]
        keys.contains_key(id) ==> exists|root: Seq<char>| lists_id(roots, files, root, id)
}

/// The segment at one of `roots` lists the series.
pub open spec fn lists_id(
    roots: Set<Seq<char>>,
    files: FilesView,
    root: Seq<char>,
    id: u64,
) -> bool {
    roots.contains(root) && files.list(root) is Ok && ids_of(files.list(root)->Ok_0).contains(id)
}

/// The roots of the sources.
pub open spec fn roots_of(sources: Seq<SourceView>) -> Set<Seq<char>> {
    Set::new(|root: Seq<char>| is_listed(sources, root))
}

/// Everything the cache holds is what the files say.
pub open spec fn reflects(cache: CacheView, files: FilesView) -> bool {
    &&& forall|root: Seq<char>| #[trigger]
        cache.segments.contains_key(root) ==> reflects_segment(cache, root, files)
    &&& cache.fingerprint is Some ==> exists|keys: Map<u64, KeyView>|
        is_union(keys, cache.segments.dom(), files) && cache.fingerprint->Some_0
            == fingerprint_of(listing(keys))
}

/// What the cache holds of a segment is what its files say.
pub open spec fn reflects_segment(cache: CacheView, root: Seq<char>, files: FilesView) -> bool {
    let segment = cache.segments[root];
    &&& files.manifest(root) is Ok
    &&& segment.entry == entry_with(segment.entry.lane, files.manifest(root)->Ok_0)
    &&& segment.ids is Some ==> {
        &&& files.list(root) is Ok
        &&& segment.ids->Some_0 == ids_of(files.list(root)->Ok_0)
        &&& agrees(cache.keys, files.list(root)->Ok_0)
    }
}

/// No source puts a segment in another lane than the cache or another source does.
pub open spec fn lanes_agree(cache: CacheView, sources: Seq<SourceView>) -> bool {
    &&& forall|i: int|
        0 <= i < sources.len() && cache.segments.contains_key((#[trigger] sources[i]).root)
            ==> cache.segments[sources[i].root].entry.lane == sources[i].lane
    &&& forall|i: int, j: int|
        #![trigger sources[i], sources[j]]
        0 <= i < sources.len() && 0 <= j < sources.len() && sources[i].root == sources[j].root
            ==> sources[i].lane == sources[j].lane
}

/// Manifest and series list of every source can be read.
pub open spec fn are_readable(sources: Seq<SourceView>, files: FilesView) -> bool {
    forall|i: int|
        0 <= i < sources.len() ==> files.manifest((#[trigger] sources[i]).root) is Ok
            && files.list(sources[i].root) is Ok
}

proof fn lemma_add_within(keys: Map<u64, KeyView>, list: Seq<SeriesView>, all: Map<u64, KeyView>)
    requires
        is_within(keys, all),
        agrees(all, list),
        keys_differ(all),
    ensures
        add_all(keys, list) is Ok,
        is_within(add_all(keys, list)->Ok_0, all),
    decreases list.len(),
{
    if list.len() > 0 {
        let shorter = list.drop_last();
        assert(agrees(all, shorter)) by {
            assert forall|i: int| 0 <= i < shorter.len() implies all.contains_key(
                (#[trigger] shorter[i]).id,
            ) && all[shorter[i].id] == shorter[i].key by {
                assert(shorter[i] == list[i]);
            }
        }
        lemma_add_within(keys, shorter, all);
        let before = add_all(keys, shorter)->Ok_0;
        let last = list.last();
        assert(list[list.len() - 1] == last);
        assert(all.contains_key(last.id) && all[last.id] == last.key);
        if !before.contains_key(last.id) && is_bound(before, last.key) {
            let other = bound_id(before, last.key);
            assert(before.contains_key(other));
            assert(all.contains_key(other));
        }
    }
}

proof fn lemma_union_unique(
    a: Map<u64, KeyView>,
    b: Map<u64, KeyView>,
    roots: Set<Seq<char>>,
    files: FilesView,
)
    requires
        is_union(a, roots, files),
        is_union(b, roots, files),
    ensures
        a == b,
{
    lemma_union_within(a, b, roots, files);
    lemma_union_within(b, a, roots, files);
    assert(a =~= b);
}

proof fn lemma_union_within(
    a: Map<u64, KeyView>,
    b: Map<u64, KeyView>,
    roots: Set<Seq<char>>,
    files: FilesView,
)
    requires
        is_union(a, roots, files),
        is_union(b, roots, files),
    ensures
        is_within(a, b),
{
    assert forall|id: u64| #[trigger] a.contains_key(id) implies b.contains_key(id) && b[id]
        == a[id] by {
        let root = choose|root: Seq<char>| lists_id(roots, files, root, id);
        let list = files.list(root)->Ok_0;
        assert(roots.contains(root));
        let i = choose|i: int| 0 <= i < list.len() && (#[trigger] list[i]).id == id;
        assert(a.contains_key(list[i].id) && b.contains_key(list[i].id));
    }
}

proof fn lemma_roots_grow(sources: Seq<SourceView>)
    requires
        sources.len() > 0,
    ensures
        roots_of(sources) == roots_of(sources.drop_last()).insert(sources.last().root),
{
    let shorter = sources.drop_last();
    assert forall|root: Seq<char>| roots_of(sources).contains(root) == roots_of(shorter).insert(
        sources.last().root,
    ).contains(root) by {
        assert(sources[sources.len() - 1] == sources.last());
        if is_listed(shorter, root) {
            let i = choose|i: int| 0 <= i < shorter.len() && (#[trigger] shorter[i]).root == root;
            assert(sources[i].root == root);
        }
        if is_listed(sources, root) && root != sources.last().root {
            let i = choose|i: int| 0 <= i < sources.len() && (#[trigger] sources[i]).root == root;
            assert(shorter[i].root == root);
        }
    }
    assert(roots_of(sources) =~= roots_of(shorter).insert(sources.last().root));
}

/// What merging the files of the sources gives is the union of their series.
pub proof fn lemma_merge_is_union(sources: Seq<SourceView>, files: FilesView)
    requires
        merge_sources(sources, files) is Ok,
    ensures
        is_union(merge_sources(sources, files)->Ok_0, roots_of(sources), files),
    decreases sources.len(),
{
    let keys = merge_sources(sources, files)->Ok_0;
    let roots = roots_of(sources);
    if sources.len() == 0 {
        assert forall|root: Seq<char>| !roots.contains(root) by {}
    } else {
        let shorter = sources.drop_last();
        lemma_merge_is_union(shorter, files);
        lemma_roots_grow(sources);
        let before = merge_sources(shorter, files)->Ok_0;
        let last = sources.last().root;
        let list = files.list(last)->Ok_0;
        lemma_added(before, list);
        assert forall|root: Seq<char>| #[trigger] roots.contains(root) implies files.list(
            root,
        ) is Ok && agrees(keys, files.list(root)->Ok_0) by {
            if root != last {
                assert(roots_of(shorter).contains(root));
                let other = files.list(root)->Ok_0;
                assert(agrees(before, other));
                assert forall|i: int| 0 <= i < other.len() implies keys.contains_key(
                    (#[trigger] other[i]).id,
                ) && keys[other[i].id] == other[i].key by {
                    assert(before.dom().contains(other[i].id));
                }
            }
        }
        assert forall|id: u64| #[trigger] keys.contains_key(id) implies exists|root: Seq<char>|
            lists_id(roots, files, root, id) by {
            if ids_of(list).contains(id) {
                assert(lists_id(roots, files, last, id));
            } else {
                assert(before.contains_key(id));
                let root = choose|root: Seq<char>| lists_id(roots_of(shorter), files, root, id);
                assert(lists_id(roots, files, root, id));
            }
        }
    }
}

/// Where the sources have a union, merging their files finds no conflict.
proof fn lemma_union_merges(
    sources: Seq<SourceView>,
    files: FilesView,
    roots: Set<Seq<char>>,
    keys: Map<u64, KeyView>,
)
    requires
        is_union(keys, roots, files),
        roots_of(sources).subset_of(roots),
    ensures
        merge_sources(sources, files) is Ok,
        is_within(merge_sources(sources, files)->Ok_0, keys),
    decreases sources.len(),
{
    if sources.len() > 0 {
        lemma_roots_grow(sources);
        let shorter = sources.drop_last();
        assert(roots_of(sources).contains(sources.last().root));
        lemma_union_merges(shorter, files, roots, keys);
        let before = merge_sources(shorter, files)->Ok_0;
        let list = files.list(sources.last().root)->Ok_0;
        lemma_add_within(before, list, keys);
    }
}

proof fn lemma_removal_keeps(cache: CacheView, gone: Set<Seq<char>>, files: FilesView)
    requires
        is_sound(cache),
    ensures
        is_sound(without_segments(cache, gone)),
        without_segments(cache, gone).segments == cache.segments.remove_keys(gone),
        reflects(cache, files) ==> reflects(without_segments(cache, gone), files),
{
    let after = without_segments(cache, gone);
    if cache.segments.dom().disjoint(gone) {
        assert(cache.segments.remove_keys(gone) =~= cache.segments);
    } else {
        assert forall|id: u64| #[trigger] after.keys.contains_key(id) <==> is_held(
            after.segments,
            id,
        ) by {
            if is_held(after.segments, id) {
                let root = choose|root: Seq<char>| holds(after.segments, root, id);
                assert(holds(cache.segments, root, id));
                assert(cache.keys.contains_key(id));
            }
        }
        assert forall|a: u64, b: u64|
            #![trigger after.keys.contains_key(a), after.keys.contains_key(b)]
            after.keys.contains_key(a) && after.keys.contains_key(b) && after.keys[a]
                == after.keys[b] implies a == b by {
            assert(cache.keys.contains_key(a) && cache.keys.contains_key(b));
        }
        if reflects(cache, files) {
            assert forall|root: Seq<char>| #[trigger]
                after.segments.contains_key(root) implies reflects_segment(after, root, files) by {
                assert(cache.segments.contains_key(root));
                assert(reflects_segment(cache, root, files));
                if after.segments[root].ids is Some {
                    let list = files.list(root)->Ok_0;
                    assert forall|i: int| 0 <= i < list.len() implies after.keys.contains_key(
                        (#[trigger] list[i]).id,
                    ) && after.keys[list[i].id] == list[i].key by {
                        assert(ids_of(list).contains(list[i].id));
                        assert(holds(after.segments, root, list[i].id));
                        assert(cache.keys.contains_key(list[i].id));
                    }
                }
            }
        }
    }
}

/// Adding the sources keeps what was there, adds what was missing, and nothing else.
proof fn lemma_sources_keep(cache: CacheView, sources: Seq<SourceView>, files: FilesView)
    requires
        is_sound(cache),
    ensures
        ({
            let (after, outcome) = with_sources(cache, sources, files);
            &&& is_sound(after)
            &&& reflects(cache, files) ==> reflects(after, files)
            &&& after.keys == cache.keys
            &&& after.persisted == cache.persisted
            &&& after.segments.dom().subset_of(cache.segments.dom().union(roots_of(sources)))
            &&& cache.segments.dom().subset_of(after.segments.dom())
            &&& outcome is Ok ==> roots_of(sources).subset_of(after.segments.dom())
            &&& forall|root: Seq<char>| #[trigger]
                cache.segments.contains_key(root) ==> after.segments[root] == cache.segments[root]
            &&& forall|root: Seq<char>| #[trigger]
                after.segments.contains_key(root) && !cache.segments.contains_key(root)
                    ==> is_from_source(after.segments[root], root, sources, files)
        }),
    decreases sources.len(),
{
    let (after, outcome) = with_sources(cache, sources, files);
    if sources.len() == 0 {
        assert forall|root: Seq<char>| !roots_of(sources).contains(root) by {}
    } else {
        let shorter = sources.drop_last();
        lemma_sources_keep(cache, shorter, files);
        lemma_roots_grow(sources);
        let (before, outcome_before) = with_sources(cache, shorter, files);
        let last = sources.last();
        assert(sources[sources.len() - 1] == last);
        assert forall|root: Seq<char>| #[trigger]
            after.segments.contains_key(root) && !cache.segments.contains_key(root)
                implies is_from_source(after.segments[root], root, sources, files) by {
            if before.segments.contains_key(root) {
                let i = choose|i: int|
                    0 <= i < shorter.len() && (#[trigger] shorter[i]).root == root
                        && entry_of(shorter[i], files) == Ok::<
                        PersistedRegistryCatalogEntry,
                        ErrorView,
                    >(before.segments[root].entry);
                assert(sources[i] == shorter[i]);
            }
        }
        if outcome_before is Ok && !before.segments.contains_key(last.root) && outcome is Ok {
            let added = after.segments[last.root];
            assert forall|id: u64| #[trigger] after.keys.contains_key(id) <==> is_held(
                after.segments,
                id,
            ) by {
                if is_held(before.segments, id) {
                    let root = choose|root: Seq<char>| holds(before.segments, root, id);
                    assert(holds(after.segments, root, id));
                }
                if is_held(after.segments, id) {
                    let root = choose|root: Seq<char>| holds(after.segments, root, id);
                    assert(holds(before.segments, root, id));
                }
            }
            if reflects(cache, files) {
                assert forall|root: Seq<char>| #[trigger]
                    after.segments.contains_key(root) implies reflects_segment(
                    after,
                    root,
                    files,
                ) by {
                    if root != last.root {
                        assert(before.segments.contains_key(root));
                        assert(reflects_segment(before, root, files));
                    }
                }
            }
        }
    }
}

/// The segment was added for one of the sources, and not loaded.
pub open spec fn is_from_source(
    segment: SegmentView,
    root: Seq<char>,
    sources: Seq<SourceView>,
    files: FilesView,
) -> bool {
    &&& segment.ids is None
    &&& exists|i: int|
        0 <= i < sources.len() && (#[trigger] sources[i]).root == root && entry_of(
            sources[i],
            files,
        ) == Ok::<PersistedRegistryCatalogEntry, ErrorView>(segment.entry)
}

/// Two sets of segments have the same roots and entries.
pub open spec fn same_but_for_series(
    a: Map<Seq<char>, SegmentView>,
    b: Map<Seq<char>, SegmentView>,
) -> bool {
    &&& a.dom() == b.dom()
    &&& forall|root: Seq<char>| #[trigger] a.contains_key(root) ==> a[root].entry == b[root].entry
}

/// Loading a segment keeps every series and every entry.
proof fn lemma_series_keep(cache: CacheView, root: Seq<char>, files: FilesView)
    requires
        is_sound(cache),
    ensures
        ({
            let (after, outcome) = with_series(cache, root, files);
            &&& is_sound(after)
            &&& reflects(cache, files) && cache.fingerprint is None ==> reflects(after, files)
            &&& is_within(cache.keys, after.keys)
            &&& after.fingerprint == cache.fingerprint
            &&& after.persisted == cache.persisted
            &&& same_but_for_series(cache.segments, after.segments)
            &&& forall|other: Seq<char>| #[trigger]
                cache.segments.contains_key(other) && cache.segments[other].ids is Some
                    ==> after.segments[other] == cache.segments[other]
            &&& outcome is Ok && after.segments.contains_key(root)
                ==> after.segments[root].ids is Some
        }),
{
    let (after, outcome) = with_series(cache, root, files);
    assert(cache.segments.dom() =~= after.segments.dom());
    if cache.segments.contains_key(root) && cache.segments[root].ids is None && outcome is Ok {
        let list = files.list(root)->Ok_0;
        lemma_added(cache.keys, list);
        assert forall|id: u64| #[trigger] cache.keys.contains_key(id) implies after.keys.contains_key(
            id,
        ) && after.keys[id] == cache.keys[id] by {
            assert(cache.keys.dom().contains(id));
        }
        assert forall|id: u64| #[trigger] after.keys.contains_key(id) <==> is_held(
            after.segments,
            id,
        ) by {
            if after.keys.contains_key(id) {
                if ids_of(list).contains(id) {
                    assert(holds(after.segments, root, id));
                } else {
                    assert(cache.keys.contains_key(id));
                    let other = choose|other: Seq<char>| holds(cache.segments, other, id);
                    assert(holds(after.segments, other, id));
                }
            }
            if is_held(after.segments, id) {
                let other = choose|other: Seq<char>| holds(after.segments, other, id);
                if other == root {
                    let k = choose|k: int| 0 <= k < list.len() && (#[trigger] list[k]).id == id;
                    assert(after.keys.contains_key(list[k].id));
                } else {
                    assert(holds(cache.segments, other, id));
                    assert(cache.keys.contains_key(id));
                }
            }
        }
        if reflects(cache, files) && cache.fingerprint is None {
            assert forall|other: Seq<char>| #[trigger]
                after.segments.contains_key(other) implies reflects_segment(after, other, files) by {
                assert(cache.segments.contains_key(other));
                assert(reflects_segment(cache, other, files));
                if other != root && cache.segments[other].ids is Some {
                    let other_list = files.list(other)->Ok_0;
                    assert forall|i: int|
                        0 <= i < other_list.len() implies after.keys.contains_key(
                        (#[trigger] other_list[i]).id,
                    ) && after.keys[other_list[i].id] == other_list[i].key by {
                        assert(cache.keys.contains_key(other_list[i].id));
                    }
                }
            }
        }
    }
}

/// Loading all sources keeps every series and every entry, and leaves none unloaded.
proof fn lemma_all_series_keep(cache: CacheView, sources: Seq<SourceView>, files: FilesView)
    requires
        is_sound(cache),
    ensures
        ({
            let (after, outcome) = with_all_series(cache, sources, files);
            &&& is_sound(after)
            &&& reflects(cache, files) && cache.fingerprint is None ==> reflects(after, files)
            &&& is_within(cache.keys, after.keys)
            &&& after.fingerprint == cache.fingerprint
            &&& after.persisted == cache.persisted
            &&& same_but_for_series(cache.segments, after.segments)
            &&& outcome is Ok ==> forall|root: Seq<char>| #[trigger]
                after.segments.contains_key(root) && is_listed(sources, root)
                    ==> after.segments[root].ids is Some
        }),
    decreases sources.len(),
{
    let (after, outcome) = with_all_series(cache, sources, files);
    if sources.len() > 0 {
        let shorter = sources.drop_last();
        lemma_all_series_keep(cache, shorter, files);
        let (before, outcome_before) = with_all_series(cache, shorter, files);
        let last = sources.last().root;
        if outcome_before is Ok {
            lemma_series_keep(before, last, files);
            lemma_roots_grow(sources);
            assert forall|id: u64| #[trigger]
                cache.keys.contains_key(id) implies after.keys.contains_key(id) && after.keys[id]
                == cache.keys[id] by {
                assert(before.keys.contains_key(id));
            }
            assert forall|root: Seq<char>| #[trigger]
                cache.segments.contains_key(root) implies cache.segments[root].entry
                == after.segments[root].entry by {
                assert(before.segments.dom().contains(root));
                assert(before.segments.contains_key(root));
            }
            if outcome is Ok {
                assert forall|root: Seq<char>| #[trigger]
                    after.segments.contains_key(root) && is_listed(sources, root)
                        implies after.segments[root].ids is Some by {
                    assert(before.segments.dom().contains(root));
                    assert(before.segments.contains_key(root));
                    if root != last {
                        assert(roots_of(sources).contains(root));
                        assert(roots_of(shorter).contains(root));
                    }
                }
            }
        }
    }
}

/// Where the sources have a union that covers the cache, loading meets no conflict.
proof fn lemma_union_loads(
    cache: CacheView,
    sources: Seq<SourceView>,
    files: FilesView,
    roots: Set<Seq<char>>,
    keys: Map<u64, KeyView>,
)
    requires
        is_union(keys, roots, files),
        roots_of(sources).subset_of(roots),
        is_within(cache.keys, keys),
    ensures
        with_all_series(cache, sources, files).1 is Ok,
        is_within(with_all_series(cache, sources, files).0.keys, keys),
    decreases sources.len(),
{
    if sources.len() > 0 {
        let shorter = sources.drop_last();
        lemma_roots_grow(sources);
        let last = sources.last().root;
        assert(roots_of(sources).contains(last));
        lemma_union_loads(cache, shorter, files, roots, keys);
        let before = with_all_series(cache, shorter, files).0;
        lemma_add_within(before.keys, files.list(last)->Ok_0, keys);
    }
}

/// What syncing does to the segments of a cache.
pub proof fn lemma_synced(cache: CacheView, sources: Seq<SourceView>, files: FilesView)
    requires
        is_sound(cache),
    ensures
        ({
            let (after, outcome) = synced(cache, sources, files);
            &&& is_sound(after)
            &&& reflects(cache, files) ==> reflects(after, files)
            &&& after.persisted == cache.persisted
            &&& after.segments.dom().subset_of(roots_of(sources))
            &&& outcome is Ok ==> after.segments.dom() == roots_of(sources)
            &&& forall|root: Seq<char>| #[trigger]
                after.segments.contains_key(root) && cache.segments.contains_key(root)
                    ==> after.segments[root] == cache.segments[root]
            &&& forall|root: Seq<char>| #[trigger]
                after.segments.contains_key(root) && !cache.segments.contains_key(root)
                    ==> is_from_source(after.segments[root], root, sources, files)
        }),
{
    let gone = unlisted(sources);
    let kept = without_segments(cache, gone);
    lemma_removal_keeps(cache, gone, files);
    lemma_sources_keep(kept, sources, files);
    let (after, outcome) = synced(cache, sources, files);
    assert forall|root: Seq<char>| #[trigger] after.segments.dom().contains(
        root,
    ) implies roots_of(sources).contains(root) by {
        if kept.segments.dom().contains(root) {
            assert(!gone.contains(root));
        }
    }
    assert forall|root: Seq<char>| #[trigger]
        after.segments.contains_key(root) && cache.segments.contains_key(root)
            implies after.segments[root] == cache.segments[root] by {
        assert(after.segments.dom().contains(root));
        assert(kept.segments.contains_key(root));
    }
    assert forall|root: Seq<char>| #[trigger]
        after.segments.contains_key(root) && !cache.segments.contains_key(root)
            implies is_from_source(after.segments[root], root, sources, files) by {
        assert(!kept.segments.contains_key(root));
    }
    if outcome is Ok {
        assert(after.segments.dom() =~= roots_of(sources));
    }
}

/// A cache whose every segment is loaded knows the union of their series.
proof fn lemma_loaded_is_union(cache: CacheView, files: FilesView)
    requires
        is_sound(cache),
        reflects(cache, files),
        forall|root: Seq<char>| #[trigger]
            cache.segments.contains_key(root) ==> cache.segments[root].ids is Some,
    ensures
        is_union(cache.keys, cache.segments.dom(), files),
{
    let roots = cache.segments.dom();
    assert forall|root: Seq<char>| #[trigger] roots.contains(root) implies files.list(root) is Ok
        && agrees(cache.keys, files.list(root)->Ok_0) by {
        assert(cache.segments.contains_key(root));
        assert(reflects_segment(cache, root, files));
    }
    assert forall|id: u64| #[trigger] cache.keys.contains_key(id) implies exists|root: Seq<char>|
        lists_id(roots, files, root, id) by {
        let root = choose|root: Seq<char>| holds(cache.segments, root, id);
        assert(cache.segments.contains_key(root));
        assert(reflects_segment(cache, root, files));
        assert(lists_id(roots, files, root, id));
    }
}

/// Asking for a catalog keeps the cache true to the files, whether or not it succeeds:
/// a segment with conflicting series is refused without corrupting what is known.
pub proof fn law_cache_stays_true_to_the_files(
    cache: CacheView,
    sources: Seq<SourceView>,
    files: FilesView,
)
    requires
        is_sound(cache),
        reflects(cache, files),
    ensures
        is_sound(cataloged(cache, sources, files).0),
        reflects(cataloged(cache, sources, files).0, files),
{
    let (known, outcome) = synced(cache, sources, files);
    lemma_synced(cache, sources, files);
    if outcome is Ok && known.fingerprint is None {
        let (loaded, outcome) = with_all_series(known, sources, files);
        lemma_all_series_keep(known, sources, files);
        if outcome is Ok {
            assert forall|root: Seq<char>| #[trigger]
                loaded.segments.contains_key(root) implies loaded.segments[root].ids is Some by {
                assert(known.segments.dom().contains(root));
                assert(roots_of(sources).contains(root));
            }
            lemma_loaded_is_union(loaded, files);
            let after = cataloged(cache, sources, files).0;
            assert(is_sound(after));
            assert forall|root: Seq<char>| #[trigger]
                after.segments.contains_key(root) implies reflects_segment(after, root, files) by {
                assert(loaded.segments.contains_key(root));
                assert(reflects_segment(loaded, root, files));
            }
            assert(is_union(loaded.keys, after.segments.dom(), files));
        }
    }
}

/// The entries a synced cache gives are those built from the files.
proof fn lemma_entries_match(
    segments: Map<Seq<char>, SegmentView>,
    sources: Seq<SourceView>,
    files: FilesView,
)
    requires
        forall|i: int|
            0 <= i < sources.len() ==> segments.contains_key((#[trigger] sources[i]).root)
                && entry_of(sources[i], files) == Ok::<PersistedRegistryCatalogEntry, ErrorView>(
                segments[sources[i].root].entry,
            ),
    ensures
        entries_of(sources, files) == Ok::<Seq<PersistedRegistryCatalogEntry>, ErrorView>(
            known_entries(segments, sources),
        ),
    decreases sources.len(),
{
    if sources.len() > 0 {
        let shorter = sources.drop_last();
        assert forall|i: int| 0 <= i < shorter.len() implies segments.contains_key(
            (#[trigger] shorter[i]).root,
        ) && entry_of(shorter[i], files) == Ok::<PersistedRegistryCatalogEntry, ErrorView>(
            segments[shorter[i].root].entry,
        ) by {
            assert(shorter[i] == sources[i]);
        }
        lemma_entries_match(segments, shorter, files);
        assert(sources[sources.len() - 1] == sources.last());
    }
}

proof fn lemma_known_entries_same(
    a: Map<Seq<char>, SegmentView>,
    b: Map<Seq<char>, SegmentView>,
    sources: Seq<SourceView>,
)
    requires
        same_but_for_series(a, b),
    ensures
        known_entries(a, sources) == known_entries(b, sources),
    decreases sources.len(),
{
    if sources.len() > 0 {
        lemma_known_entries_same(a, b, sources.drop_last());
        let root = sources.last().root;
        assert(a.dom().contains(root) == b.dom().contains(root));
    }
}

/// Built entries mean that every manifest could be read.
proof fn lemma_entries_readable(sources: Seq<SourceView>, files: FilesView, i: int)
    requires
        entries_of(sources, files) is Ok,
        0 <= i < sources.len(),
    ensures
        files.manifest(sources[i].root) is Ok,
    decreases sources.len(),
{
    if i < sources.len() - 1 {
        lemma_entries_readable(sources.drop_last(), files, i);
        assert(sources.drop_last()[i] == sources[i]);
    }
}

/// Syncing succeeds where every manifest can be read.
proof fn lemma_sync_succeeds(cache: CacheView, sources: Seq<SourceView>, files: FilesView)
    requires
        forall|i: int|
            0 <= i < sources.len() ==> files.manifest((#[trigger] sources[i]).root) is Ok,
    ensures
        with_sources(cache, sources, files).1 is Ok,
    decreases sources.len(),
{
    if sources.len() > 0 {
        let shorter = sources.drop_last();
        assert forall|i: int| 0 <= i < shorter.len() implies files.manifest(
            (#[trigger] shorter[i]).root,
        ) is Ok by {
            assert(shorter[i] == sources[i]);
        }
        lemma_sync_succeeds(cache, shorter, files);
        assert(sources[sources.len() - 1] == sources.last());
    }
}

/// The catalog that the cache gives is the catalog built from the files alone: whenever
/// that one can be built, and, where the files of all sources can be read, in no other
/// case. So it holds as segments come and go.
pub proof fn law_cached_catalog_is_that_of_the_files(
    cache: CacheView,
    sources: Seq<SourceView>,
    files: FilesView,
)
    requires
        is_sound(cache),
        reflects(cache, files),
        lanes_agree(cache, sources),
    ensures
        catalog_of(sources, files) is Ok ==> cataloged(cache, sources, files).1 == catalog_of(
            sources,
            files,
        ),
        are_readable(sources, files) && cataloged(cache, sources, files).1 is Ok ==> catalog_of(
            sources,
            files,
        ) == cataloged(cache, sources, files).1,
{
    let (known, outcome) = synced(cache, sources, files);
    lemma_synced(cache, sources, files);
    let roots = roots_of(sources);
    let built = catalog_of(sources, files);
    let given = cataloged(cache, sources, files).1;
    if built is Ok || (are_readable(sources, files) && given is Ok) {
        assert forall|i: int| 0 <= i < sources.len() implies files.manifest(
            (#[trigger] sources[i]).root,
        ) is Ok by {
            if built is Ok {
                lemma_entries_readable(sources, files, i);
            }
        }
        lemma_sync_succeeds(without_segments(cache, unlisted(sources)), sources, files);
        assert(outcome is Ok);
        assert forall|i: int| 0 <= i < sources.len() implies known.segments.contains_key(
            (#[trigger] sources[i]).root,
        ) && entry_of(sources[i], files) == Ok::<PersistedRegistryCatalogEntry, ErrorView>(
            known.segments[sources[i].root].entry,
        ) by {
            let root = sources[i].root;
            assert(roots.contains(root));
            assert(known.segments.contains_key(root));
            if cache.segments.contains_key(root) {
                assert(reflects_segment(cache, root, files));
            } else {
                let j = choose|j: int|
                    0 <= j < sources.len() && (#[trigger] sources[j]).root == root && entry_of(
                        sources[j],
                        files,
                    ) == Ok::<PersistedRegistryCatalogEntry, ErrorView>(
                        known.segments[root].entry,
                    );
                assert(sources[i].lane == sources[j].lane);
            }
        }
        lemma_entries_match(known.segments, sources, files);
        if known.fingerprint is Some {
            let keys = choose|keys: Map<u64, KeyView>|
                is_union(keys, known.segments.dom(), files) && known.fingerprint->Some_0
                    == fingerprint_of(listing(keys));
            lemma_union_merges(sources, files, roots, keys);
            lemma_merge_is_union(sources, files);
            lemma_union_unique(keys, merge_sources(sources, files)->Ok_0, roots, files);
        } else {
            let (loaded, loading) = with_all_series(known, sources, files);
            lemma_all_series_keep(known, sources, files);
            if built is Ok {
                let keys = merge_sources(sources, files)->Ok_0;
                lemma_merge_is_union(sources, files);
                assert(is_within(known.keys, keys)) by {
                    assert forall|id: u64| #[trigger]
                        known.keys.contains_key(id) implies keys.contains_key(id) && keys[id]
                        == known.keys[id] by {
                        let root = choose|root: Seq<char>| holds(known.segments, root, id);
                        assert(known.segments.contains_key(root));
                        assert(reflects_segment(known, root, files));
                        assert(known.segments.dom().contains(root));
                        assert(roots.contains(root));
                        let list = files.list(root)->Ok_0;
                        let k = choose|k: int| 0 <= k < list.len() && (#[trigger] list[k]).id == id;
                        assert(known.keys.contains_key(list[k].id));
                        assert(keys.contains_key(list[k].id));
                    }
                }
                lemma_union_loads(known, sources, files, roots, keys);
            }
            assert(loading is Ok);
            assert forall|root: Seq<char>| #[trigger]
                loaded.segments.contains_key(root) implies loaded.segments[root].ids is Some by {
                assert(known.segments.dom().contains(root));
                assert(roots.contains(root));
            }
            lemma_loaded_is_union(loaded, files);
            assert(loaded.segments.dom() == roots);
            lemma_union_merges(sources, files, roots, loaded.keys);
            lemma_merge_is_union(sources, files);
            lemma_union_unique(loaded.keys, merge_sources(sources, files)->Ok_0, roots, files);
            lemma_known_entries_same(known.segments, loaded.segments, sources);
        }
    }
}

/// Two states of the disk agree on what a cache has not read of the sources: the manifests
/// of segments it does not know, and the series lists of those it has not loaded.
pub open spec fn agree_on_the_unread(
    cache: CacheView,
    sources: Seq<SourceView>,
    a: FilesView,
    b: FilesView,
) -> bool {
    forall|i: int|
        0 <= i < sources.len() ==> {
            let root = (#[trigger] sources[i]).root;
            &&& !cache.segments.contains_key(root) ==> a.manifest(root) == b.manifest(root)
            &&& !(cache.segments.contains_key(root) && cache.segments[root].ids is Some) ==> a.list(
                root,
            ) == b.list(root)
        }
}

proof fn lemma_same_sources(
    cache: CacheView,
    sources: Seq<SourceView>,
    a: FilesView,
    b: FilesView,
)
    requires
        is_sound(cache),
        forall|i: int|
            0 <= i < sources.len() && !cache.segments.contains_key((#[trigger] sources[i]).root)
                ==> a.manifest(sources[i].root) == b.manifest(sources[i].root),
    ensures
        with_sources(cache, sources, a) == with_sources(cache, sources, b),
    decreases sources.len(),
{
    if sources.len() > 0 {
        let shorter = sources.drop_last();
        assert forall|i: int|
            0 <= i < shorter.len() && !cache.segments.contains_key((#[trigger] shorter[i]).root)
                implies a.manifest(shorter[i].root) == b.manifest(shorter[i].root) by {
            assert(shorter[i] == sources[i]);
        }
        lemma_same_sources(cache, shorter, a, b);
        lemma_sources_keep(cache, shorter, a);
        let before = with_sources(cache, shorter, a).0;
        assert(sources[sources.len() - 1] == sources.last());
        if cache.segments.contains_key(sources.last().root) {
            assert(cache.segments.dom().contains(sources.last().root));
            assert(before.segments.dom().contains(sources.last().root));
        }
    }
}

proof fn lemma_same_series(cache: CacheView, sources: Seq<SourceView>, a: FilesView, b: FilesView)
    requires
        is_sound(cache),
        forall|i: int|
            0 <= i < sources.len() ==> {
                let root = (#[trigger] sources[i]).root;
                !(cache.segments.contains_key(root) && cache.segments[root].ids is Some) ==> a.list(
                    root,
                ) == b.list(root)
            },
    ensures
        with_all_series(cache, sources, a) == with_all_series(cache, sources, b),
        forall|root: Seq<char>| #[trigger]
            cache.segments.contains_key(root) && cache.segments[root].ids is Some
                ==> with_all_series(cache, sources, a).0.segments[root] == cache.segments[root],
    decreases sources.len(),
{
    if sources.len() > 0 {
        let shorter = sources.drop_last();
        assert forall|i: int| 0 <= i < shorter.len() implies {
            let root = (#[trigger] shorter[i]).root;
            !(cache.segments.contains_key(root) && cache.segments[root].ids is Some) ==> a.list(
                root,
            ) == b.list(root)
        } by {
            assert(shorter[i] == sources[i]);
        }
        lemma_same_series(cache, shorter, a, b);
        lemma_all_series_keep(cache, shorter, a);
        let before = with_all_series(cache, shorter, a).0;
        let last = sources.last().root;
        assert(sources[sources.len() - 1].root == last);
        lemma_series_keep(before, last, a);
        assert forall|root: Seq<char>| #[trigger]
            cache.segments.contains_key(root) && cache.segments[root].ids is Some
                implies with_all_series(cache, sources, a).0.segments[root]
            == cache.segments[root] by {
            assert(before.segments.dom().contains(root));
            assert(before.segments.contains_key(root));
        }
    }
}

/// What a cache has read it does not read again: its catalog does not depend on the
/// manifests of segments it knows or on the series lists of segments it has loaded.
pub proof fn law_known_segments_are_not_read_again(
    cache: CacheView,
    sources: Seq<SourceView>,
    a: FilesView,
    b: FilesView,
)
    requires
        is_sound(cache),
        agree_on_the_unread(cache, sources, a, b),
    ensures
        cataloged(cache, sources, a) == cataloged(cache, sources, b),
{
    let gone = unlisted(sources);
    let kept = without_segments(cache, gone);
    lemma_removal_keeps(cache, gone, a);
    assert forall|i: int| 0 <= i < sources.len() implies kept.segments.contains_key(
        (#[trigger] sources[i]).root,
    ) == cache.segments.contains_key(sources[i].root) by {
        assert(!gone.contains(sources[i].root));
    }
    lemma_same_sources(kept, sources, a, b);
    let known = synced(cache, sources, a).0;
    lemma_synced(cache, sources, a);
    if synced(cache, sources, a).1 is Ok {
        assert forall|i: int| 0 <= i < sources.len() implies {
            let root = (#[trigger] sources[i]).root;
            !(known.segments.contains_key(root) && known.segments[root].ids is Some) ==> a.list(
                root,
            ) == b.list(root)
        } by {
            let root = sources[i].root;
            assert(roots_of(sources).contains(root));
            assert(known.segments.contains_key(root));
        }
        lemma_same_series(known, sources, a, b);
    }
}

proof fn lemma_nothing_to_sync(cache: CacheView, sources: Seq<SourceView>, files: FilesView)
    requires
        roots_of(sources).subset_of(cache.segments.dom()),
    ensures
        with_sources(cache, sources, files) == (cache, Ok::<(), ErrorView>(())),
    decreases sources.len(),
{
    if sources.len() > 0 {
        lemma_roots_grow(sources);
        assert(roots_of(sources).contains(sources.last().root));
        lemma_nothing_to_sync(cache, sources.drop_last(), files);
    }
}

/// A cache that knows the fingerprint of exactly the listed segments answers from memory:
/// it reads nothing and stays as it is.
pub proof fn law_known_catalog_comes_from_memory(
    cache: CacheView,
    sources: Seq<SourceView>,
    files: FilesView,
)
    requires
        cache.segments.dom() == roots_of(sources),
        cache.fingerprint is Some,
    ensures
        cataloged(cache, sources, files) == (
            cache,
            Ok::<CatalogView, ErrorView>(
                catalog_from(cache.segments, sources, cache.fingerprint->Some_0),
            ),
        ),
{
    assert(cache.segments.dom().disjoint(unlisted(sources)));
    lemma_nothing_to_sync(cache, sources, files);
}

/// After a catalog was given, asking again gives the same catalog, whatever became of the
/// files, and changes nothing.
pub proof fn law_asking_again_gives_the_same_catalog(
    cache: CacheView,
    sources: Seq<SourceView>,
    files: FilesView,
    later: FilesView,
)
    requires
        is_sound(cache),
        cataloged(cache, sources, files).1 is Ok,
    ensures
        cataloged(cataloged(cache, sources, files).0, sources, later) == cataloged(
            cache,
            sources,
            files,
        ),
{
    let (known, outcome) = synced(cache, sources, files);
    lemma_synced(cache, sources, files);
    let after = cataloged(cache, sources, files).0;
    if known.fingerprint is None {
        lemma_all_series_keep(known, sources, files);
    }
    law_known_catalog_comes_from_memory(after, sources, later);
}

/// A catalog that was written is not written again while the sources stay the same and
/// the file is there; when the file is gone it is.
pub proof fn law_unchanged_catalog_is_not_rewritten(
    cache: CacheView,
    sources: Seq<SourceView>,
    files: FilesView,
    later: FilesView,
    there: bool,
)
    requires
        is_sound(cache),
        cataloged(cache, sources, files).1 is Ok,
    ensures
        ({
            let (after, outcome) = cataloged(cache, sources, files);
            let catalog = outcome->Ok_0;
            let written = CacheView { persisted: Some(catalog), ..after };
            write_plan(written, sources, later, Ok(there)) == (
                written,
                Ok::<(CatalogView, bool), ErrorView>((catalog, !there)),
            )
        }),
{
    let (known, outcome) = synced(cache, sources, files);
    lemma_synced(cache, sources, files);
    let (after, given) = cataloged(cache, sources, files);
    if known.fingerprint is None {
        lemma_all_series_keep(known, sources, files);
    }
    let written = CacheView { persisted: Some(given->Ok_0), ..after };
    law_known_catalog_comes_from_memory(written, sources, later);
}

/// A cache that takes over the catalog on disk gives that very catalog without reading a
/// series list, and does not write it while the file is there.
pub proof fn law_adopted_catalog_is_given_back(
    cache: CacheView,
    sources: Seq<SourceView>,
    on_disk: CatalogView,
    files: FilesView,
)
    requires
        cache.segments.dom() == roots_of(sources),
        on_disk.version == REGISTRY_CATALOG_VERSION,
        on_disk.series_fingerprint is Some,
        on_disk.segments == sorted_entries(known_entries(cache.segments, sources)),
    ensures
        write_plan(adopted(cache, sources, on_disk), sources, files, Ok(true)) == (
            adopted(cache, sources, on_disk),
            Ok::<(CatalogView, bool), ErrorView>((on_disk, false)),
        ),
{
    law_known_catalog_comes_from_memory(adopted(cache, sources, on_disk), sources, files);
    assert(catalog_from(
        cache.segments,
        sources,
        on_disk.series_fingerprint->Some_0,
    ) =~= on_disk);
}

/// A catalog on disk that does not describe the sources leaves the cache as it was.
pub proof fn law_stale_catalog_is_not_adopted(
    cache: CacheView,
    sources: Seq<SourceView>,
    on_disk: CatalogView,
)
    requires
        on_disk.version != REGISTRY_CATALOG_VERSION || on_disk.series_fingerprint is None
            || on_disk.segments != sorted_entries(known_entries(cache.segments, sources)),
    ensures
        adopted(cache, sources, on_disk) == cache,
{
}

/// A cache that knows nothing.
pub open spec fn is_fresh(cache: CacheView) -> bool {
    &&& cache.segments == Map::<Seq<char>, SegmentView>::empty()
    &&& cache.keys == Map::<u64, KeyView>::empty()
    &&& cache.fingerprint is None
    &&& cache.persisted is None
}

/// A fresh cache is true to any files.
pub proof fn law_fresh_cache_is_true_to_the_files(cache: CacheView, files: FilesView)
    requires
        is_fresh(cache),
    ensures
        is_sound(cache),
        reflects(cache, files),
{
    assert forall|id: u64| !is_held(cache.segments, id) by {
        assert forall|root: Seq<char>| !holds(cache.segments, root, id) by {}
    }
}

/// After a restart, a fresh cache that finds the catalog of the files on disk takes it
/// over: it is true to the files, gives that catalog without reading a series list, and
/// does not write it again.
pub proof fn law_restart_takes_the_catalog_over(
    cache: CacheView,
    sources: Seq<SourceView>,
    files: FilesView,
    later: FilesView,
)
    requires
        is_fresh(cache),
        lanes_agree(cache, sources),
        catalog_of(sources, files) is Ok,
    ensures
        ({
            let catalog = catalog_of(sources, files)->Ok_0;
            let (after, outcome) = opened(cache, sources, files, Some(catalog));
            &&& outcome is Ok
            &&& is_sound(after)
            &&& reflects(after, files)
            &&& write_plan(after, sources, later, Ok(true)) == (
                after,
                Ok::<(CatalogView, bool), ErrorView>((catalog, false)),
            )
        }),
{
    law_fresh_cache_is_true_to_the_files(cache, files);
    let catalog = catalog_of(sources, files)->Ok_0;
    let (known, outcome) = synced(cache, sources, files);
    lemma_synced(cache, sources, files);
    assert forall|i: int| 0 <= i < sources.len() implies files.manifest(
        (#[trigger] sources[i]).root,
    ) is Ok by {
        lemma_entries_readable(sources, files, i);
    }
    lemma_sync_succeeds(without_segments(cache, unlisted(sources)), sources, files);
    assert forall|i: int| 0 <= i < sources.len() implies known.segments.contains_key(
        (#[trigger] sources[i]).root,
    ) && entry_of(sources[i], files) == Ok::<PersistedRegistryCatalogEntry, ErrorView>(
        known.segments[sources[i].root].entry,
    ) by {
        let root = sources[i].root;
        assert(roots_of(sources).contains(root));
        assert(known.segments.contains_key(root));
        let j = choose|j: int|
            0 <= j < sources.len() && (#[trigger] sources[j]).root == root && entry_of(
                sources[j],
                files,
            ) == Ok::<PersistedRegistryCatalogEntry, ErrorView>(known.segments[root].entry);
        assert(sources[i].lane == sources[j].lane);
    }
    lemma_entries_match(known.segments, sources, files);
    law_adopted_catalog_is_given_back(known, sources, catalog, later);
    let after = adopted(known, sources, catalog);
    lemma_merge_is_union(sources, files);
    assert(is_union(
        merge_sources(sources, files)->Ok_0,
        after.segments.dom(),
        files,
    ));
    assert forall|root: Seq<char>| #[trigger]
        after.segments.contains_key(root) implies reflects_segment(after, root, files) by {
        assert(known.segments.contains_key(root));
        assert(reflects_segment(known, root, files));
    }
}

/// Some segment at one of `roots` lists this very series.
pub open spec fn lists_series(
    roots: Set<Seq<char>>,
    files: FilesView,
    series: SeriesView,
) -> bool {
    exists|root: Seq<char>| #[trigger]
        roots.contains(root) && files.list(root) is Ok && files.list(root)->Ok_0.contains(series)
}

/// The segments at `roots` give no id two keys, and no key two ids.
pub open spec fn is_consistent(roots: Set<Seq<char>>, files: FilesView) -> bool {
    forall|a: SeriesView, b: SeriesView|
        #![trigger lists_series(roots, files, a), lists_series(roots, files, b)]
        lists_series(roots, files, a) && lists_series(roots, files, b) ==> (a.id == b.id <==> a.key
            == b.key)
}

/// The series list of every segment at `roots` can be read.
pub open spec fn lists_readable(roots: Set<Seq<char>>, files: FilesView) -> bool {
    forall|root: Seq<char>| #[trigger] roots.contains(root) ==> files.list(root) is Ok
}

/// The ids that the segments at `roots` list.
pub open spec fn listed_ids(roots: Set<Seq<char>>, files: FilesView) -> Set<u64> {
    Set::new(|id: u64| exists|root: Seq<char>| lists_id(roots, files, root, id))
}

/// The key that the segments at `roots` give each id.
spec fn listed_keys(roots: Set<Seq<char>>, files: FilesView) -> Map<u64, KeyView> {
    Map::new(
        |id: u64| exists|key: KeyView| lists_series(roots, files, SeriesView { id, key }),
        |id: u64| choose|key: KeyView| lists_series(roots, files, SeriesView { id, key }),
    )
}

/// Consistent lists have a union.
proof fn lemma_listed_keys(roots: Set<Seq<char>>, files: FilesView)
    requires
        lists_readable(roots, files),
        is_consistent(roots, files),
    ensures
        is_union(listed_keys(roots, files), roots, files),
{
    let keys = listed_keys(roots, files);
    assert forall|id: u64| #[trigger] keys.contains_key(id) implies lists_series(
        roots,
        files,
        SeriesView { id, key: keys[id] },
    ) by {}
    assert(keys_differ(keys)) by {
        assert forall|a: u64, b: u64|
            #![trigger keys.contains_key(a), keys.contains_key(b)]
            keys.contains_key(a) && keys.contains_key(b) && keys[a] == keys[b] implies a == b by {
            assert(lists_series(roots, files, SeriesView { id: a, key: keys[a] }));
            assert(lists_series(roots, files, SeriesView { id: b, key: keys[b] }));
        }
    }
    assert forall|root: Seq<char>| #[trigger] roots.contains(root) implies files.list(root) is Ok
        && agrees(keys, files.list(root)->Ok_0) by {
        let list = files.list(root)->Ok_0;
        assert forall|i: int| 0 <= i < list.len() implies keys.contains_key((#[trigger] list[i]).id)
            && keys[list[i].id] == list[i].key by {
            let one = list[i];
            assert(list.contains(one));
            assert(one == (SeriesView { id: one.id, key: one.key }));
            assert(lists_series(roots, files, SeriesView { id: one.id, key: one.key }));
            assert(lists_series(roots, files, SeriesView { id: one.id, key: keys[one.id] }));
        }
    }
    assert forall|id: u64| #[trigger] keys.contains_key(id) implies exists|root: Seq<char>|
        lists_id(roots, files, root, id) by {
        let one = SeriesView { id, key: keys[id] };
        let root = choose|root: Seq<char>| #[trigger]
            roots.contains(root) && files.list(root) is Ok && files.list(root)->Ok_0.contains(one);
        let list = files.list(root)->Ok_0;
        assert(list[list.index_of(one)].id == id);
        assert(lists_id(roots, files, root, id));
    }
}

/// Lists that have a union are consistent.
proof fn lemma_union_is_consistent(
    keys: Map<u64, KeyView>,
    roots: Set<Seq<char>>,
    files: FilesView,
)
    requires
        is_union(keys, roots, files),
    ensures
        lists_readable(roots, files),
        is_consistent(roots, files),
        keys.dom() == listed_ids(roots, files),
{
    assert forall|one: SeriesView| #[trigger] lists_series(roots, files, one) implies keys.contains_key(
        one.id,
    ) && keys[one.id] == one.key by {
        let root = choose|root: Seq<char>| #[trigger]
            roots.contains(root) && files.list(root) is Ok && files.list(root)->Ok_0.contains(one);
        let list = files.list(root)->Ok_0;
        assert(list[list.index_of(one)] == one);
    }
    assert forall|id: u64| keys.dom().contains(id) == listed_ids(roots, files).contains(id) by {
        if keys.dom().contains(id) {
            assert(keys.contains_key(id));
        }
        if listed_ids(roots, files).contains(id) {
            let root = choose|root: Seq<char>| lists_id(roots, files, root, id);
            let list = files.list(root)->Ok_0;
            let i = choose|i: int| 0 <= i < list.len() && (#[trigger] list[i]).id == id;
            assert(keys.contains_key(list[i].id));
        }
    }
    assert(keys.dom() =~= listed_ids(roots, files));
}

/// A listing names as many series as there are ids.
proof fn lemma_listing_len(keys: Map<u64, KeyView>)
    ensures
        keys.dom().finite(),
        listing(keys).len() == keys.dom().len(),
{
    law_series_are_listed(keys);
    let list = listing(keys);
    let ids = list.map_values(|series: SeriesView| series.id);
    assert(ids.no_duplicates()) by {
        assert forall|i: int, j: int|
            0 <= i < ids.len() && 0 <= j < ids.len() && i != j implies ids[i] != ids[j] by {
            assert(ids[i] == list[i].id && ids[j] == list[j].id);
        }
    }
    ids.unique_seq_to_set();
    assert forall|id: u64| ids.to_set().contains(id) == keys.dom().contains(id) by {
        if keys.contains_key(id) {
            let i = choose|i: int| 0 <= i < list.len() && (#[trigger] list[i]).id == id;
            assert(ids[i] == id);
        }
        if ids.to_set().contains(id) {
            let i = ids.index_of(id);
            assert(list[i].id == id);
        }
    }
    assert(ids.to_set() =~= keys.dom());
}

/// Merging succeeds exactly where every series list can be read and no two of them give an
/// id two keys or a key two ids. The fingerprint then counts the distinct ids.
pub proof fn law_merging_fails_only_on_conflicts(sources: Seq<SourceView>, files: FilesView)
    ensures
        merge_sources(sources, files) is Ok <==> lists_readable(roots_of(sources), files)
            && is_consistent(roots_of(sources), files),
        merge_sources(sources, files) is Ok ==> {
            let count = listed_ids(roots_of(sources), files).len();
            &&& listed_ids(roots_of(sources), files).finite()
            &&& fingerprint_of(
                listing(merge_sources(sources, files)->Ok_0),
            ).series_count == (if count <= usize::MAX {
                count
            } else {
                usize::MAX as nat
            })
        },
{
    let roots = roots_of(sources);
    if merge_sources(sources, files) is Ok {
        let keys = merge_sources(sources, files)->Ok_0;
        lemma_merge_is_union(sources, files);
        lemma_union_is_consistent(keys, roots, files);
        lemma_listing_len(keys);
    } else if lists_readable(roots, files) && is_consistent(roots, files) {
        lemma_listed_keys(roots, files);
        lemma_union_merges(sources, files, roots, listed_keys(roots, files));
    }
}

/// Neither the order in which segments are listed nor how often they are matters: sources
/// with the same roots merge to the same series, or all fail.
pub proof fn law_merging_depends_on_the_roots_alone(
    a: Seq<SourceView>,
    b: Seq<SourceView>,
    files: FilesView,
)
    requires
        roots_of(a) == roots_of(b),
    ensures
        merge_sources(a, files) is Ok <==> merge_sources(b, files) is Ok,
        merge_sources(a, files) is Ok ==> merge_sources(a, files) == merge_sources(b, files),
{
    law_merging_fails_only_on_conflicts(a, files);
    law_merging_fails_only_on_conflicts(b, files);
    if merge_sources(a, files) is Ok {
        lemma_merge_is_union(a, files);
        lemma_merge_is_union(b, files);
        lemma_union_unique(
            merge_sources(a, files)->Ok_0,
            merge_sources(b, files)->Ok_0,
            roots_of(a),
            files,
        );
    }
}

/// A loaded segment that stays holds the series.
pub open spec fn is_held_elsewhere(cache: CacheView, gone: Set<Seq<char>>, id: u64) -> bool {
    exists|root: Seq<char>| !gone.contains(root) && #[trigger] holds(cache.segments, root, id)
}

/// Removing segments forgets exactly the series that no other loaded segment holds, by id
/// and by key. The other segments stay as they were, and the fingerprint goes. Where none of
/// the segments is cached nothing changes.
pub proof fn law_series_stay_while_a_segment_holds_them(cache: CacheView, gone: Set<Seq<char>>)
    requires
        is_sound(cache),
    ensures
        ({
            let after = without_segments(cache, gone);
            &&& is_sound(after)
            &&& after.segments == cache.segments.remove_keys(gone)
            &&& after.persisted == cache.persisted
            &&& forall|id: u64| #[trigger]
                after.keys.contains_key(id) <==> is_held_elsewhere(cache, gone, id)
            &&& is_within(after.keys, cache.keys)
            &&& forall|key: KeyView| #[trigger]
                is_bound(after.keys, key) <==> is_bound(cache.keys, key) && is_held_elsewhere(
                    cache,
                    gone,
                    bound_id(cache.keys, key),
                )
            &&& if cache.segments.dom().disjoint(gone) {
                after == cache
            } else {
                after.fingerprint is None
            }
        }),
{
    let after = without_segments(cache, gone);
    lemma_removal_keeps(cache, gone, FilesView { manifests: Map::empty(), lists: Map::empty() });
    assert forall|id: u64| #[trigger] after.keys.contains_key(id) <==> is_held_elsewhere(
        cache,
        gone,
        id,
    ) by {
        if is_held(after.segments, id) {
            let root = choose|root: Seq<char>| holds(after.segments, root, id);
            assert(!gone.contains(root) && holds(cache.segments, root, id));
        }
        if is_held_elsewhere(cache, gone, id) {
            let root = choose|root: Seq<char>|
                !gone.contains(root) && #[trigger] holds(cache.segments, root, id);
            assert(holds(after.segments, root, id));
        }
    }
    assert forall|key: KeyView| #[trigger] is_bound(after.keys, key) <==> is_bound(cache.keys, key)
        && is_held_elsewhere(cache, gone, bound_id(cache.keys, key)) by {
        let id = bound_id(cache.keys, key);
        if is_bound(after.keys, key) {
            let other = bound_id(after.keys, key);
            assert(after.keys.contains_key(other) && after.keys[other] == key);
            assert(cache.keys.contains_key(other) && cache.keys[other] == key);
            assert(cache.keys.contains_key(id) && cache.keys[id] == key);
        }
        if is_bound(cache.keys, key) && is_held_elsewhere(cache, gone, id) {
            assert(cache.keys.contains_key(id) && cache.keys[id] == key);
            assert(is_within(after.keys, cache.keys));
            assert(after.keys.contains_key(id));
            assert(after.keys[id] == key);
        }
    }
}

/// Removing a segment forgets it and exactly the series that no other loaded segment holds,
/// by id and by key. The other segments stay as they were, and the fingerprint goes. A
/// segment that is not cached changes nothing.
pub proof fn law_removed_segment_is_forgotten(cache: CacheView, root: Seq<char>)
    requires
        is_sound(cache),
    ensures
        ({
            let after = without_segment(cache, root);
            &&& is_sound(after)
            &&& !after.segments.contains_key(root)
            &&& after.segments == cache.segments.remove(root)
            &&& after.persisted == cache.persisted
            &&& forall|id: u64| #[trigger]
                after.keys.contains_key(id) <==> is_held_elsewhere(cache, set![root], id)
            &&& is_within(after.keys, cache.keys)
            &&& forall|key: KeyView| #[trigger]
                is_bound(after.keys, key) <==> is_bound(cache.keys, key) && is_held_elsewhere(
                    cache,
                    set![root],
                    bound_id(cache.keys, key),
                )
            &&& if cache.segments.contains_key(root) {
                after.fingerprint is None
            } else {
                after == cache
            }
        }),
{
    lemma_one_removed(cache, root);
    law_series_stay_while_a_segment_holds_them(cache, set![root]);
    assert(cache.segments.remove(root) =~= cache.segments.remove_keys(set![root]));
}

/// Removing one segment is removing a set of one.
proof fn lemma_one_removed(cache: CacheView, root: Seq<char>)
    ensures
        without_segment(cache, root) == without_segments(cache, set![root]),
        cache.segments.contains_key(root) <==> !cache.segments.dom().disjoint(set![root]),
{
    assert(set![root].contains(root));
    if cache.segments.contains_key(root) {
        assert(cache.segments.dom().contains(root));
        assert(!cache.segments.dom().disjoint(set![root]));
        assert(cache.segments.remove(root) =~= cache.segments.remove_keys(set![root]));
    } else {
        assert(cache.segments.dom().disjoint(set![root])) by {
            assert forall|other: Seq<char>| cache.segments.dom().contains(other) implies !set![
                root,
            ].contains(other) by {}
        }
    }
}

/// Removing a segment undoes loading it: what is known afterwards is what was known before,
/// without the segment.
pub proof fn law_removal_undoes_loading(cache: CacheView, root: Seq<char>, files: FilesView)
    requires
        is_sound(cache),
        cache.segments.contains_key(root),
        cache.segments[root].ids is None,
        with_series(cache, root, files).1 is Ok,
    ensures
        ({
            let loaded = with_series(cache, root, files).0;
            let after = without_segment(loaded, root);
            &&& after == without_segments(loaded, set![root])
            &&& after.keys == cache.keys
            &&& after.segments == cache.segments.remove(root)
            &&& after.persisted == cache.persisted
            &&& after.fingerprint is None
        }),
{
    let loaded = with_series(cache, root, files).0;
    let after = without_segment(loaded, root);
    lemma_series_keep(cache, root, files);
    law_series_stay_while_a_segment_holds_them(loaded, set![root]);
    lemma_one_removed(loaded, root);
    assert(loaded.segments.dom().contains(root));
    assert(loaded.segments.remove(root) =~= cache.segments.remove(root));
    assert forall|id: u64| after.keys.contains_key(id) == cache.keys.contains_key(id) by {
        if cache.keys.contains_key(id) {
            let other = choose|other: Seq<char>| holds(cache.segments, other, id);
            assert(holds(loaded.segments, other, id));
            assert(is_held_elsewhere(loaded, set![root], id));
        }
        if is_held_elsewhere(loaded, set![root], id) {
            let other = choose|other: Seq<char>|
                !set![root].contains(other) && #[trigger] holds(loaded.segments, other, id);
            assert(holds(cache.segments, other, id));
        }
    }
    assert(after.keys =~= cache.keys);
}

/// What whoever persists a catalog meets outside: the segment files, the catalog file,
/// whether it is there, and whether it can be written.
pub struct Surroundings {
    pub files: FilesView,
    pub on_disk: Result<Option<CatalogView>, ErrorView>,
    pub present: Result<bool, ErrorView>,
    pub written: Result<(), ErrorView>,
}

/// The reply to a step.
pub open spec fn reply_in(around: Surroundings, step: PersistStepView) -> PersistReplyView {
    match step {
        PersistStepView::ReadManifests { .. } => PersistReplyView::ManifestsRead(around.files),
        PersistStepView::ReadCatalog => PersistReplyView::CatalogRead(around.on_disk),
        PersistStepView::ReadSeries { .. } => PersistReplyView::SeriesRead(around.files),
        PersistStepView::LookForFile { .. } => PersistReplyView::Looked(around.present),
        _ => PersistReplyView::Written(around.written),
    }
}

/// The cache and the step after so many replies.
pub open spec fn after_replies(
    cache: CacheView,
    sources: Seq<SourceView>,
    around: Surroundings,
    replies: nat,
) -> (CacheView, PersistStepView)
    decreases replies,
{
    if replies == 0 {
        (
            cache,
            PersistStepView::ReadManifests { positions: manifests_to_read(cache, sources) },
        )
    } else {
        let (before, step) = after_replies(cache, sources, around, (replies - 1) as nat);
        if step is Done {
            (before, step)
        } else {
            after_reply(before, sources, step, reply_in(around, step))
        }
    }
}

/// How persisting a catalog ends: it opens the cache, plans the write, and writes where that
/// is needed. Only then the catalog is noted. The first failure ends it.
pub open spec fn persisted(
    cache: CacheView,
    sources: Seq<SourceView>,
    around: Surroundings,
) -> (CacheView, Result<(), ErrorView>) {
    let (known, outcome) = synced(cache, sources, around.files);
    if cache.persisted is None && outcome is Ok && around.on_disk is Err {
        (known, Err(around.on_disk->Err_0))
    } else {
        let (open, outcome) = opened(
            cache,
            sources,
            around.files,
            match around.on_disk {
                Ok(on_disk) => on_disk,
                Err(_) => None,
            },
        );
        match outcome {
            Err(error) => (open, Err(error)),
            Ok(()) => {
                let (after, plan) = write_plan(open, sources, around.files, around.present);
                match plan {
                    Err(error) => (after, Err(error)),
                    Ok((catalog, needed)) => if needed && around.written is Err {
                        (after, Err(around.written->Err_0))
                    } else {
                        (CacheView { persisted: Some(catalog), ..after }, Ok(()))
                    },
                }
            },
        }
    }
}

/// Persisting takes at most five replies, and ends as opening the cache, planning the write
/// and carrying it out does.
pub proof fn law_persisting_carries_out_the_plan(
    cache: CacheView,
    sources: Seq<SourceView>,
    around: Surroundings,
)
    requires
        is_sound(cache),
    ensures
        ({
            let (after, outcome) = persisted(cache, sources, around);
            after_replies(cache, sources, around, 5) == (after, PersistStepView::Done { outcome })
        }),
{
    reveal_with_fuel(after_replies, 6);
    let (known, outcome) = synced(cache, sources, around.files);
    lemma_synced(cache, sources, around.files);
    if outcome is Ok {
        assert(known.segments.dom().disjoint(unlisted(sources)));
        lemma_nothing_to_sync(known, sources, around.files);
        assert(synced(known, sources, around.files) == (known, Ok::<(), ErrorView>(())));
    }
}

} // verus!
