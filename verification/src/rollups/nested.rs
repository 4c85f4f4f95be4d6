//! Maps of maps, keyed by policy and by source.
use crate::text::copied;
use crate::text_map::TextMap;
use vstd::prelude::*;
use vstd::string::StringExecFns;

verus! {

/// A map of maps as mathematics.
pub open spec fn nested<V>(outer: Map<Seq<char>, TextMap<V>>) -> Map<
    Seq<char>,
    Map<Seq<char>, V>,
> {
    outer.map_values(|inner: TextMap<V>| inner@)
}

/// The value at two keys.
pub open spec fn at_keys<V>(
    map: Map<Seq<char>, Map<Seq<char>, V>>,
    outer: Seq<char>,
    inner: Seq<char>,
) -> Option<V> {
    if map.contains_key(outer) && map[outer].contains_key(inner) {
        Some(map[outer][inner])
    } else {
        None
    }
}

/// The map with a value at two keys.
pub open spec fn put_at<V>(
    map: Map<Seq<char>, Map<Seq<char>, V>>,
    outer: Seq<char>,
    inner: Seq<char>,
    value: V,
) -> Map<Seq<char>, Map<Seq<char>, V>> {
    let entries = if map.contains_key(outer) {
        map[outer]
    } else {
        Map::empty()
    };
    map.insert(outer, entries.insert(inner, value))
}

/// The map without the value at two keys, and without the outer key once nothing is left
/// under it.
pub open spec fn drop_at<V>(
    map: Map<Seq<char>, Map<Seq<char>, V>>,
    outer: Seq<char>,
    inner: Seq<char>,
) -> Map<Seq<char>, Map<Seq<char>, V>> {
    if map.contains_key(outer) {
        let entries = map[outer].remove(inner);
        if entries =~= Map::<Seq<char>, V>::empty() {
            map.remove(outer)
        } else {
            map.insert(outer, entries)
        }
    } else {
        map
    }
}

/// The value at two keys.
pub fn get_nested<'a, V>(map: &'a TextMap<TextMap<V>>, outer: &str, inner: &str) -> (value: Option<
    &'a V,
>)
    ensures
        match value {
            Some(value) => at_keys(nested(map@), outer@, inner@) == Some(*value),
            None => at_keys(nested(map@), outer@, inner@) is None,
        },
{
    match map.get(outer) {
        Some(entries) => entries.get(inner),
        None => None,
    }
}

/// Sets the value at two keys.
pub fn put_nested<V>(map: &mut TextMap<TextMap<V>>, outer: &str, inner: &str, value: V)
    ensures
        nested(final(map)@) == put_at(nested(old(map)@), outer@, inner@, value),
{
    let mut entries: TextMap<V> = match map.remove(outer) {
        Some(entries) => entries,
        None => TextMap::new(),
    };
    entries.insert(String::from_str(inner), value);
    map.insert(String::from_str(outer), entries);
    proof {
        assert(nested(map@) =~= put_at(nested(old(map)@), outer@, inner@, value));
    }
}

/// Takes the value at two keys out, and the outer key once nothing is left under it.
pub fn drop_nested<V>(map: &mut TextMap<TextMap<V>>, outer: &str, inner: &str)
    ensures
        nested(final(map)@) == drop_at(nested(old(map)@), outer@, inner@),
{
    let ghost before = nested(map@);
    let mut entries: TextMap<V> = match map.remove(outer) {
        Some(entries) => entries,
        None => {
            proof {
                assert(nested(map@) =~= before);
            }
            return;
        },
    };
    entries.remove(inner);
    if !entries.is_empty() {
        map.insert(String::from_str(outer), entries);
    }
    proof {
        assert(nested(map@) =~= drop_at(before, outer@, inner@));
    }
}

/// A copy of a map.
pub fn copied_map<V: Copy>(map: &TextMap<V>) -> (copy: TextMap<V>)
    ensures
        copy@ == map@,
{
    let count = map.len();
    let ghost keys = map.keys();
    let mut copy: TextMap<V> = TextMap::new();
    let mut at: usize = 0;
    while at < count
        invariant
            at <= count,
            keys == map.keys(),
            count == keys.len(),
            forall|key: Seq<char>| #[trigger]
                copy@.contains_key(key) <==> keys.take(at as int).contains(key),
            forall|key: Seq<char>| #[trigger]
                copy@.contains_key(key) ==> map@.contains_key(key) && copy@[key] == map@[key],
        decreases count - at,
    {
        let (key, value) = map.entry_at(at);
        let ghost before = copy@;
        copy.insert(copied(key), *value);
        proof {
            let grown = keys.take(at + 1);
            assert(grown[at as int] == key@);
            assert forall|k: Seq<char>| #[trigger] copy@.contains_key(k) <==> grown.contains(k) by {
                if keys.take(at as int).contains(k) {
                    assert(grown[keys.take(at as int).index_of(k)] == k);
                }
                if grown.contains(k) && k != key@ {
                    assert(keys.take(at as int)[grown.index_of(k)] == k);
                }
                assert(before.contains_key(k) <==> keys.take(at as int).contains(k));
            }
        }
        at = at + 1;
    }
    proof {
        assert(keys.take(at as int) =~= keys);
        assert forall|key: Seq<char>| map@.contains_key(key) implies copy@.contains_key(key) by {
            assert(map@.dom().contains(key));
            assert(keys.contains(key));
        }
        assert(copy@ =~= map@);
    }
    copy
}

/// A copy of a map of maps.
pub fn copied_nested<V: Copy>(map: &TextMap<TextMap<V>>) -> (copy: TextMap<TextMap<V>>)
    ensures
        nested(copy@) == nested(map@),
{
    let count = map.len();
    let ghost keys = map.keys();
    let mut copy: TextMap<TextMap<V>> = TextMap::new();
    let mut at: usize = 0;
    while at < count
        invariant
            at <= count,
            keys == map.keys(),
            count == keys.len(),
            forall|key: Seq<char>| #[trigger]
                copy@.contains_key(key) <==> keys.take(at as int).contains(key),
            forall|key: Seq<char>| #[trigger]
                copy@.contains_key(key) ==> map@.contains_key(key) && copy@[key]@ == map@[key]@,
        decreases count - at,
    {
        let (key, value) = map.entry_at(at);
        let ghost before = copy@;
        copy.insert(copied(key), copied_map(value));
        proof {
            let grown = keys.take(at + 1);
            assert(grown[at as int] == key@);
            assert forall|k: Seq<char>| #[trigger] copy@.contains_key(k) <==> grown.contains(k) by {
                if keys.take(at as int).contains(k) {
                    assert(grown[keys.take(at as int).index_of(k)] == k);
                }
                if grown.contains(k) && k != key@ {
                    assert(keys.take(at as int)[grown.index_of(k)] == k);
                }
                assert(before.contains_key(k) <==> keys.take(at as int).contains(k));
            }
        }
        at = at + 1;
    }
    proof {
        assert(keys.take(at as int) =~= keys);
        assert forall|key: Seq<char>| map@.contains_key(key) implies copy@.contains_key(key) by {
            assert(map@.dom().contains(key));
            assert(keys.contains(key));
        }
        assert(nested(copy@) =~= nested(map@));
    }
    copy
}

} // verus!
