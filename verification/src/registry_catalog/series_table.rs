//! The series that the segments of a store hold, by id and by key.
use crate::registry_catalog::fingerprint::{
    fingerprint_of, key_bytes, key_hash, xxh64_of, PersistedRegistrySeriesFingerprint,
    SeriesHasher,
};
use crate::series::{KeyView, SeriesKey, SeriesView};
use std::collections::BTreeMap;
use vstd::prelude::*;
use vstd::std_specs::cmp::OrdSpec;
use vstd::std_specs::iter::IteratorSpec;

verus! {

/// Whether some id is bound to the key.
pub open spec fn is_bound(keys: Map<u64, KeyView>, key: KeyView) -> bool {
    exists|id: u64| #[trigger] keys.contains_key(id) && keys[id] == key
}

/// An id that is bound to the key.
pub open spec fn bound_id(keys: Map<u64, KeyView>, key: KeyView) -> u64 {
    choose|id: u64| #[trigger] keys.contains_key(id) && keys[id] == key
}

/// No two ids share a key.
pub open spec fn keys_differ(keys: Map<u64, KeyView>) -> bool {
    forall|a: u64, b: u64|
        #![trigger keys.contains_key(a), keys.contains_key(b)]
        keys.contains_key(a) && keys.contains_key(b) && keys[a] == keys[b] ==> a == b
}

/// `list` holds what `keys` says, in ascending order of ids.
pub open spec fn is_listing(keys: Map<u64, KeyView>, list: Seq<SeriesView>) -> bool {
    &&& forall|i: int, j: int|
        #![trigger list[i], list[j]]
        0 <= i < j < list.len() ==> list[i].id < list[j].id
    &&& forall|i: int|
        0 <= i < list.len() ==> keys.contains_key((#[trigger] list[i]).id) && keys[list[i].id]
            == list[i].key
    &&& forall|id: u64| #[trigger]
        keys.contains_key(id) ==> exists|i: int| 0 <= i < list.len() && (#[trigger] list[i]).id == id
}

/// The series in ascending order of ids.
pub open spec fn listing(keys: Map<u64, KeyView>) -> Seq<SeriesView> {
    choose|list: Seq<SeriesView>| is_listing(keys, list)
}

/// There is only one listing of the same series.
pub proof fn lemma_one_listing(keys: Map<u64, KeyView>, a: Seq<SeriesView>, b: Seq<SeriesView>)
    requires
        is_listing(keys, a),
        is_listing(keys, b),
    ensures
        a == b,
    decreases a.len(),
{
    if a.len() == 0 {
        if b.len() > 0 {
            assert(keys.contains_key(b[0].id));
        }
        assert(a =~= b);
    } else if b.len() == 0 {
        assert(keys.contains_key(a[0].id));
    } else {
        let last_a = a.last();
        let last_b = b.last();
        assert(a[a.len() - 1] == last_a && b[b.len() - 1] == last_b);
        assert(keys.contains_key(last_a.id) && keys.contains_key(last_b.id));
        let i = choose|i: int| 0 <= i < b.len() && (#[trigger] b[i]).id == last_a.id;
        let j = choose|j: int| 0 <= j < a.len() && (#[trigger] a[j]).id == last_b.id;
        assert(b[i].id <= last_b.id);
        assert(a[j].id <= last_a.id);
        assert(last_a.id == last_b.id);
        assert(last_a == last_b);
        let rest = keys.remove(last_a.id);
        assert(is_listing(rest, a.drop_last())) by {
            assert forall|id: u64| #[trigger] rest.contains_key(id) implies exists|i: int|
                0 <= i < a.drop_last().len() && (#[trigger] a.drop_last()[i]).id == id by {
                assert(keys.contains_key(id));
                let i = choose|i: int| 0 <= i < a.len() && (#[trigger] a[i]).id == id;
                assert(a.drop_last()[i].id == id);
            }
        }
        assert(is_listing(rest, b.drop_last())) by {
            assert forall|id: u64| #[trigger] rest.contains_key(id) implies exists|i: int|
                0 <= i < b.drop_last().len() && (#[trigger] b.drop_last()[i]).id == id by {
                assert(keys.contains_key(id));
                let i = choose|i: int| 0 <= i < b.len() && (#[trigger] b[i]).id == id;
                assert(b.drop_last()[i].id == id);
            }
        }
        lemma_one_listing(rest, a.drop_last(), b.drop_last());
        assert(a =~= a.drop_last().push(last_a));
        assert(b =~= b.drop_last().push(last_b));
    }
}

/// What `keys` says of the ids below a bound.
spec fn below(keys: Map<u64, KeyView>, bound: int) -> Map<u64, KeyView> {
    Map::new(|id: u64| keys.contains_key(id) && id < bound, |id: u64| keys[id])
}

/// The ids below a bound in ascending order, each with its key.
spec fn listed_below(keys: Map<u64, KeyView>, bound: nat) -> Seq<SeriesView>
    decreases bound,
{
    if bound == 0 {
        Seq::empty()
    } else {
        let before = listed_below(keys, (bound - 1) as nat);
        let id = (bound - 1) as u64;
        if keys.contains_key(id) {
            before.push(SeriesView { id, key: keys[id] })
        } else {
            before
        }
    }
}

proof fn lemma_listed_below(keys: Map<u64, KeyView>, bound: nat)
    requires
        bound <= u64::MAX + 1,
    ensures
        is_listing(below(keys, bound as int), listed_below(keys, bound)),
    decreases bound,
{
    let list = listed_below(keys, bound);
    let some = below(keys, bound as int);
    if bound > 0 {
        let before = listed_below(keys, (bound - 1) as nat);
        let fewer = below(keys, bound - 1);
        let last = (bound - 1) as u64;
        lemma_listed_below(keys, (bound - 1) as nat);
        assert forall|i: int| 0 <= i < before.len() implies (#[trigger] list[i]) == before[i]
            && list[i].id < last by {
            assert(fewer.contains_key(before[i].id));
        }
        assert forall|id: u64| #[trigger] some.contains_key(id) implies exists|i: int|
            0 <= i < list.len() && (#[trigger] list[i]).id == id by {
            if id == last {
                assert(list[before.len() as int].id == id);
            } else {
                assert(fewer.contains_key(id));
                let i = choose|i: int| 0 <= i < before.len() && (#[trigger] before[i]).id == id;
                assert(list[i].id == id);
            }
        }
    }
}

/// Every table of series can be listed by id: the listing names each of them once.
pub proof fn law_series_are_listed(keys: Map<u64, KeyView>)
    ensures
        is_listing(keys, listing(keys)),
{
    lemma_listed_below(keys, (u64::MAX + 1) as nat);
    assert(below(keys, u64::MAX + 1) =~= keys);
}

/// A series, and how many of the loaded segments hold it.
pub struct CachedCatalogSeries {
    key: SeriesKey,
    segments: u64,
}

/// The series that the loaded segments hold.
pub struct SeriesTable {
    series: BTreeMap<u64, CachedCatalogSeries>,
    ids_by_hash: BTreeMap<u64, Vec<u64>>,
}

spec fn hash_of(key: KeyView) -> u64 {
    xxh64_of(0, key_bytes(key))
}

impl SeriesTable {
    /// The key of each id.
    pub closed spec fn keys(&self) -> Map<u64, KeyView> {
        self.series@.map_values(|cached: CachedCatalogSeries| cached.key@)
    }

    /// How many loaded segments hold each id.
    pub closed spec fn counts(&self) -> Map<u64, u64> {
        self.series@.map_values(|cached: CachedCatalogSeries| cached.segments)
    }

    /// Every id is found under the hash of its key, and keys differ.
    pub closed spec fn wf(&self) -> bool {
        &&& keys_differ(self.keys())
        &&& forall|id: u64| #[trigger]
            self.keys().contains_key(id) ==> self.ids_by_hash@.contains_key(
                hash_of(self.keys()[id]),
            ) && self.ids_by_hash@[hash_of(self.keys()[id])]@.contains(id)
        &&& forall|hash: u64| #[trigger]
            self.ids_by_hash@.contains_key(hash) ==> self.is_bucket(
                hash,
                self.ids_by_hash@[hash]@,
            )
    }

    spec fn is_bucket(&self, hash: u64, ids: Seq<u64>) -> bool {
        &&& ids.no_duplicates()
        &&& forall|i: int|
            0 <= i < ids.len() ==> self.keys().contains_key(#[trigger] ids[i]) && hash_of(
                self.keys()[ids[i]],
            ) == hash
    }

    /// A table without series.
    pub fn new() -> (table: Self)
        ensures
            table.wf(),
            table.keys() == Map::<u64, KeyView>::empty(),
            table.counts() == Map::<u64, u64>::empty(),
    {
        let table = SeriesTable { series: BTreeMap::new(), ids_by_hash: BTreeMap::new() };
        proof {
            assert(table.keys() =~= Map::<u64, KeyView>::empty());
            assert(table.counts() =~= Map::<u64, u64>::empty());
        }
        table
    }

    /// The key of an id.
    pub fn key_of(&self, id: u64) -> (key: Option<&SeriesKey>)
        ensures
            match key {
                Some(key) => self.keys().contains_key(id) && self.keys()[id] == key@,
                None => !self.keys().contains_key(id),
            },
    {
        broadcast use vstd::std_specs::btree::group_btree_axioms;

        match self.series.get(&id) {
            Some(cached) => Some(&cached.key),
            None => None,
        }
    }

    /// The id that is bound to a key.
    pub fn id_of(&self, key: &SeriesKey) -> (id: Option<u64>)
        requires
            self.wf(),
        ensures
            match id {
                Some(id) => self.keys().contains_key(id) && self.keys()[id] == key@,
                None => !is_bound(self.keys(), key@),
            },
    {
        broadcast use vstd::std_specs::btree::group_btree_axioms;

        let hash = key_hash(key);
        let ids = match self.ids_by_hash.get(&hash) {
            Some(ids) => ids,
            None => {
                return None;
            },
        };
        let mut at: usize = 0;
        while at < ids.len()
            invariant
                self.wf(),
                hash == hash_of(key@),
                self.ids_by_hash@.contains_key(hash),
                *ids == self.ids_by_hash@[hash],
                at <= ids@.len(),
                forall|i: int| 0 <= i < at ==> self.keys()[#[trigger] ids@[i]] != key@,
            decreases ids@.len() - at,
        {
            let id: u64 = ids[at];
            proof {
                assert(self.is_bucket(hash, ids@));
                assert(self.keys().contains_key(ids@[at as int]));
            }
            match self.key_of(id) {
                Some(known) => {
                    if known.same(key) {
                        return Some(id);
                    }
                },
                None => {},
            }
            at = at + 1;
        }
        None
    }

    /// Binds an id to a key. No segment counts as holding it yet.
    pub fn insert(&mut self, id: u64, key: SeriesKey)
        requires
            old(self).wf(),
            !old(self).keys().contains_key(id),
            !is_bound(old(self).keys(), key@),
        ensures
            final(self).wf(),
            final(self).keys() == old(self).keys().insert(id, key@),
            final(self).counts() == old(self).counts().insert(id, 0),
    {
        broadcast use vstd::std_specs::btree::group_btree_axioms;

        let ghost view = key@;
        let hash = key_hash(&key);
        let mut ids: Vec<u64> = match self.ids_by_hash.remove(&hash) {
            Some(ids) => ids,
            None => Vec::new(),
        };
        let ghost before = ids@;
        proof {
            if before.len() > 0 {
                assert(old(self).ids_by_hash@.contains_key(hash));
                assert(old(self).is_bucket(hash, before));
            }
            assert forall|i: int| 0 <= i < before.len() implies before[i] != id by {
                assert(old(self).keys().contains_key(before[i]));
            }
        }
        ids.push(id);
        let ghost after = ids@;
        self.ids_by_hash.insert(hash, ids);
        self.series.insert(id, CachedCatalogSeries { key, segments: 0 });
        proof {
            let keys = old(self).keys();
            assert(self.keys() =~= keys.insert(id, view));
            assert(self.counts() =~= old(self).counts().insert(id, 0));
            assert(keys_differ(self.keys())) by {
                assert forall|a: u64, b: u64|
                    #![trigger self.keys().contains_key(a), self.keys().contains_key(b)]
                    self.keys().contains_key(a) && self.keys().contains_key(b) && self.keys()[a]
                        == self.keys()[b] implies a == b by {
                    if a != id && b != id {
                        assert(keys.contains_key(a) && keys.contains_key(b));
                    } else if a != id {
                        assert(keys.contains_key(a));
                    } else if b != id {
                        assert(keys.contains_key(b));
                    }
                }
            }
            assert(after[before.len() as int] == id);
            assert forall|other: u64| #[trigger]
                self.keys().contains_key(other) implies self.ids_by_hash@.contains_key(
                hash_of(self.keys()[other]),
            ) && self.ids_by_hash@[hash_of(self.keys()[other])]@.contains(other) by {
                if other != id {
                    assert(keys.contains_key(other));
                    let h = hash_of(keys[other]);
                    assert(old(self).ids_by_hash@[h]@.contains(other));
                    if h == hash {
                        let i = before.index_of(other);
                        assert(after[i] == other);
                    }
                }
            }
            assert forall|h: u64| #[trigger]
                self.ids_by_hash@.contains_key(h) implies self.is_bucket(
                h,
                self.ids_by_hash@[h]@,
            ) by {
                let ids = self.ids_by_hash@[h]@;
                if h != hash {
                    assert(old(self).ids_by_hash@.contains_key(h));
                    assert(old(self).is_bucket(h, ids));
                    assert forall|i: int| 0 <= i < ids.len() implies self.keys().contains_key(
                        #[trigger] ids[i],
                    ) && hash_of(self.keys()[ids[i]]) == h by {
                        assert(keys.contains_key(ids[i]));
                    }
                } else {
                    assert(ids == after);
                    assert forall|i: int| 0 <= i < ids.len() implies self.keys().contains_key(
                        #[trigger] ids[i],
                    ) && hash_of(self.keys()[ids[i]]) == h by {
                        if i < before.len() {
                            assert(ids[i] == before[i]);
                            assert(keys.contains_key(before[i]));
                        }
                    }
                }
            }
        }
    }

    /// Takes an id and its key out.
    pub fn remove(&mut self, id: u64) -> (key: Option<SeriesKey>)
        requires
            old(self).wf(),
        ensures
            final(self).wf(),
            final(self).keys() == old(self).keys().remove(id),
            final(self).counts() == old(self).counts().remove(id),
            match key {
                Some(key) => old(self).keys().contains_key(id) && old(self).keys()[id] == key@,
                None => !old(self).keys().contains_key(id),
            },
    {
        broadcast use vstd::std_specs::btree::group_btree_axioms;

        let cached = match self.series.remove(&id) {
            Some(cached) => cached,
            None => {
                proof {
                    assert(self.series@ =~= old(self).series@);
                    assert(self.keys() =~= old(self).keys().remove(id));
                    assert(self.counts() =~= old(self).counts().remove(id));
                }
                return None;
            },
        };
        let ghost keys = old(self).keys();
        let hash = key_hash(&cached.key);
        proof {
            assert(keys.contains_key(id) && keys[id] == cached.key@);
            assert(old(self).is_bucket(hash, old(self).ids_by_hash@[hash]@));
        }
        let mut ids: Vec<u64> = match self.ids_by_hash.remove(&hash) {
            Some(ids) => ids,
            None => Vec::new(),
        };
        let ghost before = ids@;
        let mut at: usize = 0;
        while at < ids.len() && ids[at] != id
            invariant
                at <= ids@.len(),
                ids@ == before,
                forall|i: int| 0 <= i < at ==> before[i] != id,
            decreases ids@.len() - at,
        {
            at = at + 1;
        }
        proof {
            let i = before.index_of(id);
            assert(before[i] == id);
            assert(at < before.len());
        }
        ids.remove(at);
        let ghost after = ids@;
        proof {
            assert forall|other: u64| other != id && before.contains(other) implies after.contains(
                other,
            ) by {
                let i = before.index_of(other);
                assert(before[i] == other);
                if i < at {
                    assert(after[i] == other);
                } else {
                    assert(after[i - 1] == other);
                }
            }
            assert forall|i: int| 0 <= i < after.len() implies before.contains(
                #[trigger] after[i],
            ) && after[i] != id by {
                if i < at {
                    assert(before[i] == after[i]);
                } else {
                    assert(before[i + 1] == after[i]);
                }
            }
            assert(after.no_duplicates()) by {
                assert forall|i: int, j: int|
                    0 <= i < after.len() && 0 <= j < after.len() && i != j implies after[i]
                    != after[j] by {
                    let p = if i < at {
                        i
                    } else {
                        i + 1
                    };
                    let q = if j < at {
                        j
                    } else {
                        j + 1
                    };
                    assert(before[p] == after[i] && before[q] == after[j]);
                }
            }
        }
        if ids.len() > 0 {
            self.ids_by_hash.insert(hash, ids);
        }
        proof {
            assert(self.keys() =~= keys.remove(id));
            assert(self.counts() =~= old(self).counts().remove(id));
            assert(keys_differ(self.keys())) by {
                assert forall|a: u64, b: u64|
                    #![trigger self.keys().contains_key(a), self.keys().contains_key(b)]
                    self.keys().contains_key(a) && self.keys().contains_key(b) && self.keys()[a]
                        == self.keys()[b] implies a == b by {
                    assert(keys.contains_key(a) && keys.contains_key(b));
                }
            }
            assert forall|other: u64| #[trigger]
                self.keys().contains_key(other) implies self.ids_by_hash@.contains_key(
                hash_of(self.keys()[other]),
            ) && self.ids_by_hash@[hash_of(self.keys()[other])]@.contains(other) by {
                assert(keys.contains_key(other));
                let h = hash_of(keys[other]);
                assert(old(self).ids_by_hash@[h]@.contains(other));
                if h == hash {
                    assert(after.contains(other));
                }
            }
            assert forall|h: u64| #[trigger]
                self.ids_by_hash@.contains_key(h) implies self.is_bucket(
                h,
                self.ids_by_hash@[h]@,
            ) by {
                let ids = self.ids_by_hash@[h]@;
                assert(old(self).ids_by_hash@.contains_key(h));
                let old_ids = old(self).ids_by_hash@[h]@;
                assert(old(self).is_bucket(h, old_ids));
                assert forall|i: int| 0 <= i < ids.len() implies self.keys().contains_key(
                    #[trigger] ids[i],
                ) && hash_of(self.keys()[ids[i]]) == h by {
                    assert(old_ids.contains(ids[i]));
                    let j = old_ids.index_of(ids[i]);
                    assert(keys.contains_key(old_ids[j]));
                    if h != hash {
                        assert(hash_of(keys[ids[i]]) == h);
                    }
                }
            }
        }
        Some(cached.key)
    }

    /// Counts one more segment that holds the series.
    pub fn raise(&mut self, id: u64)
        requires
            old(self).wf(),
            old(self).counts().contains_key(id),
            old(self).counts()[id] < u64::MAX,
        ensures
            final(self).wf(),
            final(self).keys() == old(self).keys(),
            final(self).counts() == old(self).counts().insert(
                id,
                (old(self).counts()[id] + 1) as u64,
            ),
    {
        broadcast use vstd::std_specs::btree::group_btree_axioms;

        match self.series.remove(&id) {
            Some(cached) => {
                self.series.insert(
                    id,
                    CachedCatalogSeries { key: cached.key, segments: cached.segments + 1 },
                );
            },
            None => {},
        }
        proof {
            assert(self.keys() =~= old(self).keys());
            assert(self.counts() =~= old(self).counts().insert(
                id,
                (old(self).counts()[id] + 1) as u64,
            ));
            self.lemma_same_index(old(self));
        }
    }

    proof fn lemma_same_index(&self, other: &Self)
        requires
            other.wf(),
            self.keys() == other.keys(),
            self.ids_by_hash == other.ids_by_hash,
        ensures
            self.wf(),
    {
        assert forall|h: u64| #[trigger] self.ids_by_hash@.contains_key(h) implies self.is_bucket(
            h,
            self.ids_by_hash@[h]@,
        ) by {
            assert(other.is_bucket(h, other.ids_by_hash@[h]@));
        }
    }

    /// Counts one segment less, and drops the series with the last one.
    pub fn lower(&mut self, id: u64)
        requires
            old(self).wf(),
            old(self).counts().contains_key(id),
            old(self).counts()[id] > 0,
        ensures
            final(self).wf(),
            old(self).counts()[id] == 1 ==> {
                &&& final(self).keys() == old(self).keys().remove(id)
                &&& final(self).counts() == old(self).counts().remove(id)
            },
            old(self).counts()[id] > 1 ==> {
                &&& final(self).keys() == old(self).keys()
                &&& final(self).counts() == old(self).counts().insert(
                    id,
                    (old(self).counts()[id] - 1) as u64,
                )
            },
    {
        broadcast use vstd::std_specs::btree::group_btree_axioms;

        let last = match self.series.get(&id) {
            Some(cached) => cached.segments == 1,
            None => false,
        };
        if last {
            self.remove(id);
            return;
        }
        match self.series.remove(&id) {
            Some(cached) => {
                self.series.insert(
                    id,
                    CachedCatalogSeries { key: cached.key, segments: cached.segments - 1 },
                );
            },
            None => {},
        }
        proof {
            assert(self.keys() =~= old(self).keys());
            assert(self.counts() =~= old(self).counts().insert(
                id,
                (old(self).counts()[id] - 1) as u64,
            ));
            self.lemma_same_index(old(self));
        }
    }

    /// The fingerprint of the series, in ascending order of ids.
    pub fn fingerprint(&self) -> (fingerprint: PersistedRegistrySeriesFingerprint)
        ensures
            is_listing(self.keys(), listing(self.keys())),
            fingerprint == fingerprint_of(listing(self.keys())),
    {
        broadcast use vstd::std_specs::btree::group_btree_axioms;

        let mut hasher = SeriesHasher::new();
        let iter = self.series.iter();
        let ghost pairs = iter.remaining();
        let ghost ids = pairs.map_values(|pair: (&u64, &CachedCatalogSeries)| *pair.0);
        for pair in it: iter
            invariant
                it.seq() == pairs,
                hasher.added().len() == it.index(),
                forall|i: int|
                    0 <= i < it.index() ==> (#[trigger] hasher.added()[i]) == (SeriesView {
                        id: *pairs[i].0,
                        key: pairs[i].1.key@,
                    }),
        {
            hasher = hasher.add(*pair.0, &pair.1.key);
        }
        proof {
            let list = hasher.added();
            assert(vstd::std_specs::btree::increasing_seq(ids));
            assert forall|i: int, j: int|
                #![trigger list[i], list[j]]
                0 <= i < j < list.len() implies list[i].id < list[j].id by {
                assert(ids[i].cmp_spec(&ids[j]) is Less);
                assert(ids[i] < ids[j]);
            }
            assert forall|i: int| 0 <= i < list.len() implies self.keys().contains_key(
                (#[trigger] list[i]).id,
            ) && self.keys()[list[i].id] == list[i].key by {
                assert(self.series@.contains_key(*pairs[i].0));
            }
            assert forall|id: u64| #[trigger] self.keys().contains_key(id) implies exists|i: int|
                0 <= i < list.len() && (#[trigger] list[i]).id == id by {
                assert(self.series@.contains_key(id));
                let i = pairs.index_of((&id, &self.series@[id]));
                assert(list[i].id == id);
            }
            assert(is_listing(self.keys(), list));
            lemma_one_listing(self.keys(), list, listing(self.keys()));
        }
        hasher.finish()
    }
}

} // verus!
