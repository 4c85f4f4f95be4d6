//! What the entries of a catalog say of the segments, field by field and in which order.
use crate::error::ErrorView;
use crate::registry_catalog::fingerprint::PersistedRegistrySeriesFingerprint;
use crate::registry_catalog::from_files::{
    catalog_of, entries_of, entry_key, entry_keys, sorted_entries,
};
use crate::registry_catalog::persist::validation;
use crate::registry_catalog::{
    CatalogView, FilesView, PersistedRegistryCatalogEntry, SegmentManifestFingerprint, SourceView,
};
use crate::segment::SegmentLaneFamily;
use crate::sorting::{arranged, is_order, key_before, lemma_order_exists, lemma_order_unique};
use vstd::prelude::*;

verus! {

/// The entry says of a segment what its manifest says, and length and hash of its files.
pub open spec fn tells(
    entry: PersistedRegistryCatalogEntry,
    lane: SegmentLaneFamily,
    segment: SegmentManifestFingerprint,
) -> bool {
    &&& entry.lane == lane
    &&& entry.level == segment.manifest.level
    &&& entry.segment_id == segment.manifest.segment_id
    &&& entry.chunk_count == segment.manifest.chunk_count
    &&& entry.point_count == segment.manifest.point_count
    &&& entry.series_count == segment.manifest.series_count
    &&& entry.min_ts == segment.manifest.min_ts
    &&& entry.max_ts == segment.manifest.max_ts
    &&& entry.wal_highwater_segment == segment.manifest.wal_highwater.segment
    &&& entry.wal_highwater_frame == segment.manifest.wal_highwater.frame
    &&& entry.chunks_len == segment.chunks.file_len
    &&& entry.chunks_hash64 == segment.chunks.hash64
    &&& entry.chunk_index_len == segment.chunk_index.file_len
    &&& entry.chunk_index_hash64 == segment.chunk_index.hash64
    &&& entry.series_len == segment.series.file_len
    &&& entry.series_hash64 == segment.series.hash64
    &&& entry.postings_len == segment.postings.file_len
    &&& entry.postings_hash64 == segment.postings.hash64
}

/// The manifest of every source was read.
pub open spec fn all_read(sources: Seq<SourceView>, files: FilesView) -> bool {
    forall|i: int|
        0 <= i < sources.len() ==> files.manifests.contains_key((#[trigger] sources[i]).root)
            && files.manifests[sources[i].root] is Ok
}

/// One entry goes before the other: numeric before blob, then the lower level, then the lower
/// segment id.
pub open spec fn goes_before(
    a: PersistedRegistryCatalogEntry,
    b: PersistedRegistryCatalogEntry,
) -> bool {
    ||| a.lane == SegmentLaneFamily::Numeric && b.lane == SegmentLaneFamily::Blob
    ||| a.lane == b.lane && a.level < b.level
    ||| a.lane == b.lane && a.level == b.level && a.segment_id < b.segment_id
}

/// The entries tell of every source once, each what the manifest of its source says, in the
/// order of lane, level and segment id. `order` is the source that each entry tells of.
pub open spec fn describes(
    entries: Seq<PersistedRegistryCatalogEntry>,
    sources: Seq<SourceView>,
    files: FilesView,
    order: Seq<usize>,
) -> bool {
    &&& entries.len() == sources.len()
    &&& order.len() == sources.len()
    &&& order.no_duplicates()
    &&& forall|k: int| 0 <= k < order.len() ==> (#[trigger] order[k]) < sources.len()
    &&& forall|k: int|
        #![trigger entries[k]]
        0 <= k < entries.len() ==> {
            let source = sources[order[k] as int];
            &&& files.manifests.contains_key(source.root)
            &&& files.manifests[source.root] is Ok
            &&& tells(entries[k], source.lane, files.manifests[source.root]->Ok_0)
        }
    &&& forall|k: int, l: int|
        #![trigger entries[k], entries[l]]
        0 <= k < l < entries.len() ==> goes_before(entries[k], entries[l]) || !goes_before(
            entries[l],
            entries[k],
        ) && order[k] < order[l]
}

/// Some order of the sources makes the entries describe them.
pub open spec fn is_description(
    entries: Seq<PersistedRegistryCatalogEntry>,
    sources: Seq<SourceView>,
    files: FilesView,
) -> bool {
    exists|order: Seq<usize>| #[trigger] describes(entries, sources, files, order)
}

proof fn lemma_entries_tell(sources: Seq<SourceView>, files: FilesView)
    ensures
        entries_of(sources, files) is Ok <==> all_read(sources, files),
        entries_of(sources, files) is Ok ==> {
            let entries = entries_of(sources, files)->Ok_0;
            &&& entries.len() == sources.len()
            &&& forall|i: int|
                #![trigger entries[i]]
                0 <= i < entries.len() ==> tells(
                    entries[i],
                    sources[i].lane,
                    files.manifests[sources[i].root]->Ok_0,
                )
        },
    decreases sources.len(),
{
    if sources.len() > 0 {
        let shorter = sources.drop_last();
        lemma_entries_tell(shorter, files);
        if all_read(sources, files) {
            assert forall|i: int| 0 <= i < shorter.len() implies files.manifests.contains_key(
                (#[trigger] shorter[i]).root,
            ) && files.manifests[shorter[i].root] is Ok by {
                assert(shorter[i] == sources[i]);
            }
            assert(sources[sources.len() - 1] == sources.last());
        }
        if entries_of(sources, files) is Ok {
            assert forall|i: int| 0 <= i < sources.len() implies files.manifests.contains_key(
                (#[trigger] sources[i]).root,
            ) && files.manifests[sources[i].root] is Ok by {
                if i < shorter.len() {
                    assert(shorter[i] == sources[i]);
                }
            }
            let entries = entries_of(sources, files)->Ok_0;
            let before = entries_of(shorter, files)->Ok_0;
            assert forall|i: int|
                #![trigger entries[i]]
                0 <= i < entries.len() implies tells(
                entries[i],
                sources[i].lane,
                files.manifests[sources[i].root]->Ok_0,
            ) by {
                if i < before.len() {
                    assert(entries[i] == before[i]);
                }
            }
        }
    }
}

/// Of two entries that tell the same there is only one.
proof fn lemma_one_entry(
    a: PersistedRegistryCatalogEntry,
    b: PersistedRegistryCatalogEntry,
    lane: SegmentLaneFamily,
    segment: SegmentManifestFingerprint,
)
    requires
        tells(a, lane, segment),
        tells(b, lane, segment),
    ensures
        a == b,
{
}

/// The sorted entries of the sources are a description of them, and the only one.
proof fn lemma_sorted_entries_describe(
    sources: Seq<SourceView>,
    files: FilesView,
    listed: Seq<PersistedRegistryCatalogEntry>,
)
    requires
        sources.len() <= usize::MAX,
        entries_of(sources, files) is Ok,
    ensures
        is_description(listed, sources, files) <==> listed == sorted_entries(
            entries_of(sources, files)->Ok_0,
        ),
{
    let entries = entries_of(sources, files)->Ok_0;
    let keys = entry_keys(entries);
    lemma_entries_tell(sources, files);
    lemma_order_exists(keys);
    let order = choose|order: Seq<usize>| is_order(keys, order);
    let sorted = sorted_entries(entries);
    assert(sorted == arranged(entries, order));
    assert(describes(sorted, sources, files, order)) by {
        assert forall|k: int, l: int|
            #![trigger sorted[k], sorted[l]]
            0 <= k < l < sorted.len() implies goes_before(sorted[k], sorted[l]) || !goes_before(
            sorted[l],
            sorted[k],
        ) && order[k] < order[l] by {
            assert(key_before(keys, order[k] as int, order[l] as int));
            assert(keys[order[k] as int] == entry_key(sorted[k]));
            assert(keys[order[l] as int] == entry_key(sorted[l]));
        }
        assert forall|k: int, l: int| 0 <= k < order.len() && 0 <= l < order.len() && k
            != l implies order[k] != order[l] by {
            if k < l {
                assert(key_before(keys, order[k] as int, order[l] as int));
            } else {
                assert(key_before(keys, order[l] as int, order[k] as int));
            }
        }
    }
    if is_description(listed, sources, files) {
        let other = choose|other: Seq<usize>| #[trigger] describes(listed, sources, files, other);
        assert forall|k: int| 0 <= k < other.len() implies listed[k] == #[trigger] entries[other[k]
            as int] by {
            let source = sources[other[k] as int];
            lemma_one_entry(
                listed[k],
                entries[other[k] as int],
                source.lane,
                files.manifests[source.root]->Ok_0,
            );
        }
        assert(is_order(keys, other)) by {
            assert forall|k: int, l: int|
                #![trigger other[k], other[l]]
                0 <= k < l < other.len() implies key_before(
                keys,
                other[k] as int,
                other[l] as int,
            ) by {
                assert(listed[k] == entries[other[k] as int]);
                assert(listed[l] == entries[other[l] as int]);
                assert(keys[other[k] as int] == entry_key(listed[k]));
                assert(keys[other[l] as int] == entry_key(listed[l]));
                assert(goes_before(listed[k], listed[l]) || !goes_before(listed[l], listed[k])
                    && other[k] < other[l]);
            }
        }
        lemma_order_unique(keys, order, other);
        assert(listed =~= sorted);
    }
}

/// A catalog is validated exactly where its entries are, one for one and field by field, those
/// of the sources in the order of lane, level and segment id. What is given then is the
/// catalog's own fingerprint. A catalog in which any entry is another one is not taken, and no
/// catalog where there is no file. A manifest that cannot be read is an error, and so is a
/// catalog that cannot be.
pub proof fn law_validated_catalog_describes_the_segments(
    sources: Seq<SourceView>,
    files: FilesView,
    on_disk: Option<Result<CatalogView, ErrorView>>,
)
    requires
        sources.len() <= usize::MAX,
    ensures
        ({
            let outcome = validation(sources, files, on_disk);
            &&& on_disk is None ==> outcome == Ok::<
                Option<Option<PersistedRegistrySeriesFingerprint>>,
                ErrorView,
            >(None)
            &&& on_disk is Some && !all_read(sources, files) ==> outcome is Err
            &&& all_read(sources, files) ==> match on_disk {
                Some(Ok(catalog)) => if is_description(catalog.segments, sources, files) {
                    outcome == Ok::<Option<Option<PersistedRegistrySeriesFingerprint>>, ErrorView>(
                        Some(catalog.series_fingerprint),
                    )
                } else {
                    outcome == Ok::<Option<Option<PersistedRegistrySeriesFingerprint>>, ErrorView>(
                        None,
                    )
                },
                Some(Err(error)) => outcome == Err::<
                    Option<Option<PersistedRegistrySeriesFingerprint>>,
                    ErrorView,
                >(error),
                None => true,
            }
            &&& outcome matches Ok(Some(fingerprint)) ==> {
                &&& on_disk matches Some(Ok(catalog))
                &&& catalog.series_fingerprint == fingerprint
                &&& is_description(catalog.segments, sources, files)
                &&& catalog.segments == sorted_entries(entries_of(sources, files)->Ok_0)
            }
        }),
{
    lemma_entries_tell(sources, files);
    if all_read(sources, files) {
        if let Some(Ok(catalog)) = on_disk {
            lemma_sorted_entries_describe(sources, files, catalog.segments);
        }
    }
}

/// There is one description of the sources, so a catalog that differs from it in any entry is
/// not validated.
pub proof fn law_changed_entry_is_not_validated(
    sources: Seq<SourceView>,
    files: FilesView,
    expected: Seq<PersistedRegistryCatalogEntry>,
    catalog: CatalogView,
    k: int,
)
    requires
        sources.len() <= usize::MAX,
        is_description(expected, sources, files),
        catalog.segments.len() != expected.len() || 0 <= k < expected.len()
            && catalog.segments[k] != expected[k],
    ensures
        validation(sources, files, Some(Ok(catalog))) == Ok::<
            Option<Option<PersistedRegistrySeriesFingerprint>>,
            ErrorView,
        >(None),
{
    let order = choose|order: Seq<usize>| #[trigger] describes(expected, sources, files, order);
    lemma_all_described_are_read(expected, sources, files, order);
    lemma_entries_tell(sources, files);
    lemma_sorted_entries_describe(sources, files, expected);
    lemma_sorted_entries_describe(sources, files, catalog.segments);
}

proof fn lemma_all_described_are_read(
    entries: Seq<PersistedRegistryCatalogEntry>,
    sources: Seq<SourceView>,
    files: FilesView,
    order: Seq<usize>,
)
    requires
        describes(entries, sources, files, order),
    ensures
        all_read(sources, files),
{
    let positions = order.map_values(|at: usize| at as int);
    assert forall|i: int| 0 <= i < sources.len() implies files.manifests.contains_key(
        (#[trigger] sources[i]).root,
    ) && files.manifests[sources[i].root] is Ok by {
        let all = vstd::set_lib::set_int_range(0, sources.len() as int);
        vstd::set_lib::lemma_int_range(0, sources.len() as int);
        assert(positions.no_duplicates());
        positions.unique_seq_to_set();
        assert(positions.to_set().subset_of(all));
        vstd::set_lib::lemma_subset_equality(positions.to_set(), all);
        assert(positions.to_set().contains(i));
        assert(positions.contains(i));
        let k = positions.index_of(i);
        assert(positions[k] == order[k] as int);
        assert(tells(
            entries[k],
            sources[order[k] as int].lane,
            files.manifests[sources[order[k] as int].root]->Ok_0,
        ));
    }
}

/// Why the manifest at a root cannot be had: reading it failed, or there is none.
pub open spec fn is_reading_error(files: FilesView, root: Seq<char>, error: ErrorView) -> bool {
    if files.manifests.contains_key(root) {
        files.manifests[root] == Err::<SegmentManifestFingerprint, ErrorView>(error)
    } else {
        error == ErrorView::NotFound(root)
    }
}

/// The first manifest that cannot be had is the error of the whole: of the entries, of the
/// catalog built from them, and of validating a catalog that is there.
pub proof fn law_first_unreadable_manifest_is_the_error(
    sources: Seq<SourceView>,
    files: FilesView,
    at: int,
    error: ErrorView,
    catalog: Result<CatalogView, ErrorView>,
)
    requires
        0 <= at < sources.len(),
        all_read(sources.take(at), files),
        is_reading_error(files, sources[at].root, error),
    ensures
        entries_of(sources, files) == Err::<Seq<PersistedRegistryCatalogEntry>, ErrorView>(error),
        catalog_of(sources, files) == Err::<CatalogView, ErrorView>(error),
        validation(sources, files, Some(catalog)) == Err::<
            Option<Option<PersistedRegistrySeriesFingerprint>>,
            ErrorView,
        >(error),
    decreases sources.len(),
{
    if at == sources.len() - 1 {
        lemma_entries_tell(sources.take(at), files);
        assert(sources.drop_last() =~= sources.take(at));
    } else {
        assert(sources.drop_last().take(at) =~= sources.take(at));
        law_first_unreadable_manifest_is_the_error(
            sources.drop_last(),
            files,
            at,
            error,
            catalog,
        );
    }
}

/// A catalog that is built describes the sources. It has version 2 and a fingerprint.
pub proof fn law_built_catalog_describes_the_segments(sources: Seq<SourceView>, files: FilesView)
    requires
        sources.len() <= usize::MAX,
    ensures
        catalog_of(sources, files) matches Ok(catalog) ==> {
            &&& catalog.version == 2
            &&& catalog.series_fingerprint is Some
            &&& is_description(catalog.segments, sources, files)
        },
        catalog_of(sources, files) is Ok ==> all_read(sources, files),
{
    lemma_entries_tell(sources, files);
    if catalog_of(sources, files) is Ok {
        lemma_sorted_entries_describe(
            sources,
            files,
            catalog_of(sources, files)->Ok_0.segments,
        );
    }
}

/// The entries are listed once each, in the order of lane, level and segment id; those that are
/// equal in these keep their order.
pub open spec fn lists_in_order(
    listed: Seq<PersistedRegistryCatalogEntry>,
    entries: Seq<PersistedRegistryCatalogEntry>,
    order: Seq<usize>,
) -> bool {
    &&& listed.len() == entries.len()
    &&& order.len() == entries.len()
    &&& order.no_duplicates()
    &&& forall|k: int|
        #![trigger listed[k]]
        0 <= k < listed.len() ==> order[k] < entries.len() && listed[k] == entries[order[k] as int]
    &&& forall|k: int, l: int|
        #![trigger listed[k], listed[l]]
        0 <= k < l < listed.len() ==> goes_before(listed[k], listed[l]) || !goes_before(
            listed[l],
            listed[k],
        ) && order[k] < order[l]
}

/// Sorting entries lists them in the order of lane, level and segment id, and there is only one
/// such list.
pub proof fn law_entries_are_sorted_by_lane_level_and_id(
    entries: Seq<PersistedRegistryCatalogEntry>,
    listed: Seq<PersistedRegistryCatalogEntry>,
)
    requires
        entries.len() <= usize::MAX,
    ensures
        listed == sorted_entries(entries) <==> exists|order: Seq<usize>| #[trigger]
            lists_in_order(listed, entries, order),
{
    let keys = entry_keys(entries);
    lemma_order_exists(keys);
    let order = choose|order: Seq<usize>| is_order(keys, order);
    let sorted = sorted_entries(entries);
    assert(lists_in_order(sorted, entries, order)) by {
        assert forall|k: int, l: int|
            #![trigger sorted[k], sorted[l]]
            0 <= k < l < sorted.len() implies goes_before(sorted[k], sorted[l]) || !goes_before(
            sorted[l],
            sorted[k],
        ) && order[k] < order[l] by {
            assert(key_before(keys, order[k] as int, order[l] as int));
            assert(keys[order[k] as int] == entry_key(sorted[k]));
            assert(keys[order[l] as int] == entry_key(sorted[l]));
        }
        assert forall|k: int, l: int| 0 <= k < order.len() && 0 <= l < order.len() && k
            != l implies order[k] != order[l] by {
            if k < l {
                assert(key_before(keys, order[k] as int, order[l] as int));
            } else {
                assert(key_before(keys, order[l] as int, order[k] as int));
            }
        }
    }
    if exists|other: Seq<usize>| #[trigger] lists_in_order(listed, entries, other) {
        let other = choose|other: Seq<usize>| #[trigger] lists_in_order(listed, entries, other);
        assert(is_order(keys, other)) by {
            assert forall|k: int| 0 <= k < other.len() implies (#[trigger] other[k])
                < keys.len() by {
                assert(listed[k] == entries[other[k] as int]);
            }
            assert forall|k: int, l: int|
                #![trigger other[k], other[l]]
                0 <= k < l < other.len() implies key_before(
                keys,
                other[k] as int,
                other[l] as int,
            ) by {
                assert(listed[k] == entries[other[k] as int]);
                assert(listed[l] == entries[other[l] as int]);
                assert(keys[other[k] as int] == entry_key(listed[k]));
                assert(keys[other[l] as int] == entry_key(listed[l]));
            }
        }
        lemma_order_unique(keys, order, other);
        assert(listed =~= sorted);
    }
}

} // verus!
