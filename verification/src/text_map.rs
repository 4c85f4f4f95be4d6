//! A map from text, kept sorted.
use vstd::prelude::*;
use vstd::utf8::{encode_utf8, encode_utf8_decode_utf8};

verus! {

/// Byte order: the first differing byte decides, and a prefix comes first.
pub open spec fn bytes_before(a: Seq<u8>, b: Seq<u8>) -> bool
    decreases a.len(),
{
    if b.len() == 0 {
        false
    } else if a.len() == 0 {
        true
    } else if a[0] != b[0] {
        a[0] < b[0]
    } else {
        bytes_before(a.drop_first(), b.drop_first())
    }
}

/// The order of texts: that of their UTF-8 bytes.
pub open spec fn text_before(a: Seq<char>, b: Seq<char>) -> bool {
    bytes_before(encode_utf8(a), encode_utf8(b))
}

proof fn lemma_bytes_irreflexive(a: Seq<u8>)
    ensures
        !bytes_before(a, a),
    decreases a.len(),
{
    if a.len() > 0 {
        lemma_bytes_irreflexive(a.drop_first());
    }
}

proof fn lemma_bytes_transitive(a: Seq<u8>, b: Seq<u8>, c: Seq<u8>)
    requires
        bytes_before(a, b),
        bytes_before(b, c),
    ensures
        bytes_before(a, c),
    decreases a.len(),
{
    if a.len() > 0 && a[0] == b[0] && b[0] == c[0] {
        lemma_bytes_transitive(a.drop_first(), b.drop_first(), c.drop_first());
    }
}

proof fn lemma_bytes_total(a: Seq<u8>, b: Seq<u8>)
    ensures
        a == b || bytes_before(a, b) || bytes_before(b, a),
    decreases a.len(),
{
    if a.len() > 0 && b.len() > 0 && a[0] == b[0] {
        lemma_bytes_total(a.drop_first(), b.drop_first());
        if a.drop_first() == b.drop_first() {
            assert(a =~= seq![a[0]] + a.drop_first());
            assert(b =~= seq![b[0]] + b.drop_first());
        }
    } else if a.len() == 0 && b.len() == 0 {
        assert(a =~= b);
    }
}

proof fn lemma_bytes_after_prefix(a: Seq<u8>, b: Seq<u8>, n: int)
    requires
        0 <= n <= a.len(),
        n <= b.len(),
        forall|i: int| 0 <= i < n ==> a[i] == b[i],
    ensures
        bytes_before(a, b) == bytes_before(a.skip(n), b.skip(n)),
    decreases n,
{
    if n == 0 {
        assert(a.skip(0) =~= a);
        assert(b.skip(0) =~= b);
    } else {
        assert(a[0] == b[0]);
        assert forall|i: int| 0 <= i < n - 1 implies a.drop_first()[i] == b.drop_first()[i] by {
            assert(a[i + 1] == b[i + 1]);
        }
        lemma_bytes_after_prefix(a.drop_first(), b.drop_first(), n - 1);
        assert(a.drop_first().skip(n - 1) =~= a.skip(n));
        assert(b.drop_first().skip(n - 1) =~= b.skip(n));
    }
}

/// Different texts have different bytes.
pub proof fn lemma_utf8_injective(a: Seq<char>, b: Seq<char>)
    requires
        encode_utf8(a) == encode_utf8(b),
    ensures
        a == b,
{
    encode_utf8_decode_utf8(a);
    encode_utf8_decode_utf8(b);
}

/// Texts are totally ordered.
pub proof fn lemma_text_order(a: Seq<char>, b: Seq<char>)
    ensures
        a == b || text_before(a, b) || text_before(b, a),
        text_before(a, b) ==> a != b && !text_before(b, a),
{
    lemma_bytes_total(encode_utf8(a), encode_utf8(b));
    if encode_utf8(a) == encode_utf8(b) {
        lemma_utf8_injective(a, b);
    }
    lemma_bytes_irreflexive(encode_utf8(a));
    if text_before(a, b) && text_before(b, a) {
        lemma_bytes_transitive(encode_utf8(a), encode_utf8(b), encode_utf8(a));
    }
}

/// The order of texts is transitive.
pub proof fn lemma_text_transitive(a: Seq<char>, b: Seq<char>, c: Seq<char>)
    requires
        text_before(a, b),
        text_before(b, c),
    ensures
        text_before(a, c),
{
    lemma_bytes_transitive(encode_utf8(a), encode_utf8(b), encode_utf8(c));
}

/// Whether one text comes before another.
pub fn is_text_before(a: &str, b: &str) -> (before: bool)
    ensures
        before == text_before(a@, b@),
{
    let left = a.as_bytes();
    let right = b.as_bytes();
    let mut at: usize = 0;
    while at < left.len() && at < right.len() && left[at] == right[at]
        invariant
            at <= left@.len(),
            at <= right@.len(),
            forall|i: int| 0 <= i < at ==> left@[i] == right@[i],
        decreases left@.len() - at,
    {
        at = at + 1;
    }
    proof {
        lemma_bytes_after_prefix(left@, right@, at as int);
    }
    if at == right.len() {
        false
    } else if at == left.len() {
        true
    } else {
        left[at] < right[at]
    }
}

/// `keys` lists `all` once each, in order.
pub open spec fn are_sorted_keys(keys: Seq<Seq<char>>, all: Set<Seq<char>>) -> bool {
    &&& forall|i: int| 0 <= i < keys.len() ==> all.contains(#[trigger] keys[i])
    &&& forall|key: Seq<char>| #[trigger] all.contains(key) ==> keys.contains(key)
    &&& forall|i: int, j: int|
        #![trigger keys[i], keys[j]]
        0 <= i < j < keys.len() ==> text_before(keys[i], keys[j])
}

/// A sorted list of keys is as long as the set of them is large.
pub proof fn lemma_sorted_keys_are_all(keys: Seq<Seq<char>>, all: Set<Seq<char>>)
    requires
        are_sorted_keys(keys, all),
    ensures
        keys.no_duplicates(),
        keys.to_set() == all,
        all.finite(),
        all.len() == keys.len(),
{
    assert forall|i: int, j: int|
        0 <= i < keys.len() && 0 <= j < keys.len() && i != j implies keys[i] != keys[j] by {
        lemma_text_order(keys[i], keys[j]);
        lemma_text_order(keys[j], keys[i]);
    }
    assert(keys.to_set() =~= all);
    keys.unique_seq_to_set();
}

/// A map from text to `V`, sorted by key.
#[derive(Debug)]
pub struct TextMap<V> {
    entries: Vec<(String, V)>,
}

/// The keys ascend.
spec fn keys_ascend<V>(entries: Seq<(String, V)>) -> bool {
    forall|i: int, j: int|
        #![trigger entries[i], entries[j]]
        0 <= i < j < entries.len() ==> text_before(entries[i].0@, entries[j].0@)
}

spec fn has_key<V>(entries: Seq<(String, V)>, key: Seq<char>) -> bool {
    exists|i: int| 0 <= i < entries.len() && (#[trigger] entries[i]).0@ == key
}

spec fn key_position<V>(entries: Seq<(String, V)>, key: Seq<char>) -> int {
    choose|i: int| 0 <= i < entries.len() && (#[trigger] entries[i]).0@ == key
}

spec fn entries_map<V>(entries: Seq<(String, V)>) -> Map<Seq<char>, V> {
    Map::new(
        |key: Seq<char>| has_key(entries, key),
        |key: Seq<char>| entries[key_position(entries, key)].1,
    )
}

proof fn lemma_entry<V>(entries: Seq<(String, V)>, i: int)
    requires
        keys_ascend(entries),
        0 <= i < entries.len(),
    ensures
        entries_map(entries).contains_key(entries[i].0@),
        entries_map(entries)[entries[i].0@] == entries[i].1,
{
    let key = entries[i].0@;
    assert(has_key(entries, key));
    let j = key_position(entries, key);
    assert(entries[j].0@ == key);
    if i < j {
        lemma_text_order(entries[i].0@, entries[j].0@);
    } else if j < i {
        lemma_text_order(entries[j].0@, entries[i].0@);
    }
}

impl<V> View for TextMap<V> {
    type V = Map<Seq<char>, V>;

    closed spec fn view(&self) -> Map<Seq<char>, V> {
        entries_map(self.entries@)
    }
}

impl<V> TextMap<V> {
    #[verifier::type_invariant]
    spec fn sorted(self) -> bool {
        keys_ascend(self.entries@)
    }

    /// The keys, in order.
    pub closed spec fn keys(&self) -> Seq<Seq<char>> {
        self.entries@.map_values(|entry: (String, V)| entry.0@)
    }

    /// An empty map.
    pub fn new() -> (map: Self)
        ensures
            map@ == Map::<Seq<char>, V>::empty(),
    {
        let map = TextMap { entries: Vec::new() };
        proof {
            assert(map@ =~= Map::<Seq<char>, V>::empty());
        }
        map
    }

    /// The number of keys.
    pub fn len(&self) -> (len: usize)
        ensures
            len == self.keys().len(),
            are_sorted_keys(self.keys(), self@.dom()),
            self@.dom().finite(),
            self@.dom().len() == len,
    {
        proof {
            use_type_invariant(self);
            let keys = self.keys();
            assert forall|i: int| 0 <= i < keys.len() implies self@.contains_key(
                #[trigger] keys[i],
            ) by {
                lemma_entry(self.entries@, i);
            }
            assert forall|key: Seq<char>| self@.contains_key(key) implies keys.contains(key) by {
                let i = key_position(self.entries@, key);
                assert(self.entries@[i].0@ == key);
                assert(keys[i] == key);
            }
            assert forall|i: int, j: int|
                #![trigger keys[i], keys[j]]
                0 <= i < j < keys.len() implies text_before(keys[i], keys[j]) by {
                assert(text_before(self.entries@[i].0@, self.entries@[j].0@));
            }
            lemma_sorted_keys_are_all(keys, self@.dom());
        }
        self.entries.len()
    }

    /// The key and the value at a position.
    pub fn entry_at(&self, index: usize) -> (entry: (&String, &V))
        requires
            index < self.keys().len(),
        ensures
            entry.0@ == self.keys()[index as int],
            self@.contains_key(entry.0@),
            *entry.1 == self@[entry.0@],
    {
        proof {
            use_type_invariant(self);
            lemma_entry(self.entries@, index as int);
        }
        (&self.entries[index].0, &self.entries[index].1)
    }

    /// Whether the map has no key.
    pub fn is_empty(&self) -> (empty: bool)
        ensures
            empty == (self@ =~= Map::<Seq<char>, V>::empty()),
    {
        proof {
            use_type_invariant(self);
            if self.entries@.len() > 0 {
                lemma_entry(self.entries@, 0);
            }
        }
        self.entries.len() == 0
    }

    /// Position of the first key that is not before `key`.
    fn position(&self, key: &str) -> (at: usize)
        ensures
            at <= self.entries@.len(),
            forall|i: int| 0 <= i < at ==> text_before((#[trigger] self.entries@[i]).0@, key@),
            forall|i: int|
                at <= i < self.entries@.len() ==> !text_before(
                    (#[trigger] self.entries@[i]).0@,
                    key@,
                ),
    {
        proof {
            use_type_invariant(self);
        }
        let mut low: usize = 0;
        let mut high: usize = self.entries.len();
        while low < high
            invariant
                low <= high <= self.entries@.len(),
                keys_ascend(self.entries@),
                forall|i: int|
                    0 <= i < low ==> text_before((#[trigger] self.entries@[i]).0@, key@),
                forall|i: int|
                    high <= i < self.entries@.len() ==> !text_before(
                        (#[trigger] self.entries@[i]).0@,
                        key@,
                    ),
            decreases high - low,
        {
            let middle: usize = low + (high - low) / 2;
            if is_text_before(self.entries[middle].0.as_str(), key) {
                proof {
                    assert forall|i: int| 0 <= i < middle + 1 implies text_before(
                        (#[trigger] self.entries@[i]).0@,
                        key@,
                    ) by {
                        if i < middle {
                            lemma_text_transitive(
                                self.entries@[i].0@,
                                self.entries@[middle as int].0@,
                                key@,
                            );
                        }
                    }
                }
                low = middle + 1;
            } else {
                proof {
                    assert forall|i: int| middle <= i < self.entries@.len() implies !text_before(
                        (#[trigger] self.entries@[i]).0@,
                        key@,
                    ) by {
                        if i > middle && text_before(self.entries@[i].0@, key@) {
                            lemma_text_transitive(
                                self.entries@[middle as int].0@,
                                self.entries@[i].0@,
                                key@,
                            );
                        }
                    }
                }
                high = middle;
            }
        }
        low
    }

    /// The value of a key.
    pub fn get(&self, key: &str) -> (value: Option<&V>)
        ensures
            match value {
                Some(value) => self@.contains_key(key@) && *value == self@[key@],
                None => !self@.contains_key(key@),
            },
    {
        proof {
            use_type_invariant(self);
        }
        let at = self.position(key);
        if at < self.entries.len() && !is_text_before(key, self.entries[at].0.as_str()) {
            proof {
                lemma_text_order(self.entries@[at as int].0@, key@);
                lemma_entry(self.entries@, at as int);
            }
            Some(&self.entries[at].1)
        } else {
            proof {
                if has_key(self.entries@, key@) {
                    let i = choose|i: int|
                        0 <= i < self.entries@.len() && (#[trigger] self.entries@[i]).0@ == key@;
                    lemma_text_order(key@, key@);
                    assert(i >= at);
                    if i > at {
                        assert(text_before(self.entries@[at as int].0@, self.entries@[i].0@));
                    }
                }
            }
            None
        }
    }

    /// Whether the map has the key.
    pub fn contains_key(&self, key: &str) -> (found: bool)
        ensures
            found == self@.contains_key(key@),
    {
        self.get(key).is_some()
    }

    /// Sets the value of a key.
    pub fn insert(&mut self, key: String, value: V)
        ensures
            final(self)@ == old(self)@.insert(key@, value),
    {
        proof {
            use_type_invariant(&*self);
        }
        let at = self.position(key.as_str());
        let present = at < self.entries.len() && !is_text_before(
            key.as_str(),
            self.entries[at].0.as_str(),
        );
        let mut entries: Vec<(String, V)> = Vec::new();
        core::mem::swap(&mut entries, &mut self.entries);
        let ghost before = entries@;
        if present {
            let ghost wanted = before.update(at as int, (key, value));
            entries.remove(at);
            entries.insert(at, (key, value));
            proof {
                assert(entries@ =~= wanted);
                lemma_text_order(before[at as int].0@, key@);
                assert(before[at as int].0@ == key@);
            }
        } else {
            entries.insert(at, (key, value));
        }
        proof {
            assert(entries@[at as int] == (key, value));
            assert(keys_ascend(entries@)) by {
                assert forall|i: int, j: int|
                    #![trigger entries@[i], entries@[j]]
                    0 <= i < j < entries@.len() implies text_before(
                    entries@[i].0@,
                    entries@[j].0@,
                ) by {
                    if !present {
                        if at < before.len() {
                            lemma_text_order(key@, before[at as int].0@);
                        }
                        if i == at {
                            assert(entries@[j] == before[j - 1]);
                            if j - 1 > at {
                                lemma_text_transitive(
                                    key@,
                                    before[at as int].0@,
                                    before[j - 1].0@,
                                );
                            }
                        } else if j == at {
                            assert(entries@[i] == before[i]);
                        } else {
                            let p = if i < at {
                                i
                            } else {
                                i - 1
                            };
                            let q = if j < at {
                                j
                            } else {
                                j - 1
                            };
                            assert(entries@[i] == before[p] && entries@[j] == before[q]);
                        }
                    } else {
                        assert(text_before(before[i].0@, before[j].0@));
                    }
                }
            }
            assert forall|k: Seq<char>| has_key(entries@, k) <==> (has_key(before, k) || k
                == key@) by {
                if has_key(entries@, k) && k != key@ {
                    let i = choose|i: int|
                        0 <= i < entries@.len() && (#[trigger] entries@[i]).0@ == k;
                    let p = if present || i < at {
                        i
                    } else {
                        i - 1
                    };
                    assert(before[p].0@ == k);
                }
                if has_key(before, k) && k != key@ {
                    let p = choose|p: int| 0 <= p < before.len() && (#[trigger] before[p]).0@ == k;
                    let i = if present || p < at {
                        p
                    } else {
                        p + 1
                    };
                    assert(entries@[i].0@ == k);
                }
            }
            assert forall|k: Seq<char>| has_key(entries@, k) implies entries_map(entries@)[k]
                == entries_map(before).insert(key@, value)[k] by {
                let i = choose|i: int|
                    0 <= i < entries@.len() && (#[trigger] entries@[i]).0@ == k;
                lemma_entry(entries@, i);
                lemma_entry(entries@, at as int);
                if k != key@ {
                    let p = if present || i < at {
                        i
                    } else {
                        i - 1
                    };
                    assert(before[p] == entries@[i]);
                    lemma_entry(before, p);
                }
            }
            assert(entries_map(entries@) =~= entries_map(before).insert(key@, value));
        }
        core::mem::swap(&mut entries, &mut self.entries);
    }

    /// Takes a key and its value out.
    pub fn remove(&mut self, key: &str) -> (value: Option<V>)
        ensures
            final(self)@ == old(self)@.remove(key@),
            match value {
                Some(value) => old(self)@.contains_key(key@) && value == old(self)@[key@],
                None => !old(self)@.contains_key(key@),
            },
    {
        proof {
            use_type_invariant(&*self);
        }
        if !self.contains_key(key) {
            proof {
                assert(self@.remove(key@) =~= self@);
            }
            return None;
        }
        let at = self.position(key);
        let mut entries: Vec<(String, V)> = Vec::new();
        core::mem::swap(&mut entries, &mut self.entries);
        let ghost before = entries@;
        proof {
            let i = key_position(before, key@);
            assert(before[i].0@ == key@);
            lemma_text_order(key@, key@);
            if i > at {
                assert(text_before(before[at as int].0@, before[i].0@));
            }
            assert(i == at);
            lemma_entry(before, at as int);
        }
        let removed = entries.remove(at);
        proof {
            assert(keys_ascend(entries@)) by {
                assert forall|i: int, j: int|
                    #![trigger entries@[i], entries@[j]]
                    0 <= i < j < entries@.len() implies text_before(
                    entries@[i].0@,
                    entries@[j].0@,
                ) by {
                    let p = if i < at {
                        i
                    } else {
                        i + 1
                    };
                    let q = if j < at {
                        j
                    } else {
                        j + 1
                    };
                    assert(entries@[i] == before[p] && entries@[j] == before[q]);
                }
            }
            assert forall|k: Seq<char>| has_key(entries@, k) <==> (has_key(before, k) && k
                != key@) by {
                if has_key(entries@, k) {
                    let i = choose|i: int|
                        0 <= i < entries@.len() && (#[trigger] entries@[i]).0@ == k;
                    let p = if i < at {
                        i
                    } else {
                        i + 1
                    };
                    assert(before[p].0@ == k);
                    if k == key@ {
                        lemma_text_order(before[p].0@, before[at as int].0@);
                        lemma_text_order(before[at as int].0@, before[p].0@);
                    }
                }
                if has_key(before, k) && k != key@ {
                    let p = choose|p: int| 0 <= p < before.len() && (#[trigger] before[p]).0@ == k;
                    let i = if p < at {
                        p
                    } else {
                        p - 1
                    };
                    assert(entries@[i].0@ == k);
                }
            }
            assert forall|k: Seq<char>| has_key(entries@, k) implies entries_map(entries@)[k]
                == entries_map(before)[k] by {
                let i = choose|i: int|
                    0 <= i < entries@.len() && (#[trigger] entries@[i]).0@ == k;
                lemma_entry(entries@, i);
                let p = if i < at {
                    i
                } else {
                    i + 1
                };
                assert(before[p] == entries@[i]);
                lemma_entry(before, p);
            }
            assert(entries_map(entries@) =~= entries_map(before).remove(key@));
        }
        core::mem::swap(&mut entries, &mut self.entries);
        Some(removed.1)
    }
}

/// The two agree on the first `n` bytes, and then the first one ends or has the lower byte.
pub open spec fn falls_behind(a: Seq<u8>, b: Seq<u8>, n: int) -> bool {
    &&& 0 <= n <= a.len()
    &&& n < b.len()
    &&& forall|i: int| 0 <= i < n ==> a[i] == #[trigger] b[i]
    &&& n == a.len() || a[n] < b[n]
}

proof fn lemma_falls_behind(a: Seq<u8>, b: Seq<u8>)
    ensures
        bytes_before(a, b) <==> exists|n: int| #[trigger] falls_behind(a, b, n),
    decreases a.len(),
{
    if b.len() > 0 && a.len() == 0 {
        assert(falls_behind(a, b, 0));
    } else if b.len() > 0 && a[0] != b[0] {
        if a[0] < b[0] {
            assert(falls_behind(a, b, 0));
        } else {
            assert forall|n: int| !#[trigger] falls_behind(a, b, n) by {
                if falls_behind(a, b, n) && n > 0 {
                    assert(a[0] == b[0]);
                }
            }
        }
    } else if b.len() > 0 {
        let x = a.drop_first();
        let y = b.drop_first();
        lemma_falls_behind(x, y);
        if bytes_before(x, y) {
            let n = choose|n: int| #[trigger] falls_behind(x, y, n);
            assert forall|i: int| 0 <= i < n + 1 implies a[i] == #[trigger] b[i] by {
                if i > 0 {
                    assert(x[i - 1] == y[i - 1]);
                }
            }
            assert(falls_behind(a, b, n + 1));
        }
        if exists|n: int| #[trigger] falls_behind(a, b, n) {
            let n = choose|n: int| #[trigger] falls_behind(a, b, n);
            assert(n > 0);
            assert forall|i: int| 0 <= i < n - 1 implies x[i] == #[trigger] y[i] by {
                assert(a[i + 1] == b[i + 1]);
            }
            assert(falls_behind(x, y, n - 1));
        }
    }
}

/// One text comes before another one exactly where its bytes agree with those of the other up to
/// a place where it ends, or has the lower byte. So no text comes before itself.
pub proof fn law_texts_are_ordered_by_their_first_difference(a: Seq<char>, b: Seq<char>)
    ensures
        text_before(a, b) <==> exists|n: int| #[trigger]
            falls_behind(encode_utf8(a), encode_utf8(b), n),
        text_before(a, b) ==> a != b,
{
    lemma_falls_behind(encode_utf8(a), encode_utf8(b));
}

} // verus!
