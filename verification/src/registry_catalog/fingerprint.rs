//! Fingerprints of series lists.
use crate::series::{
    labels_view, series_view, KeyView, Label, LabelView, PersistedSeries, SeriesKey, SeriesView,
};
use crate::text_map::lemma_utf8_injective;
use vstd::bytes::{
    lemma_auto_spec_u64_to_from_le_bytes, spec_u64_to_le_bytes, u64_to_le_bytes,
};
use vstd::prelude::*;
use vstd::utf8::encode_utf8;
use xxhash_rust::xxh64::Xxh64;

verus! {

/// The streaming hasher of `xxhash_rust`.
#[verifier::external_type_specification]
#[verifier::external_body]
pub struct ExXxh64(Xxh64);

/// The bytes that were fed to a hasher so far, in order.
pub uninterp spec fn hashed_bytes(hasher: Xxh64) -> Seq<u8>;

/// The seed that a hasher was made with.
pub uninterp spec fn hasher_seed(hasher: Xxh64) -> u64;

/// The 64-bit xxHash of `bytes` under `seed`.
pub uninterp spec fn xxh64_of(seed: u64, bytes: Seq<u8>) -> u64;

/// `Xxh64::new`: a hasher with that seed that was fed nothing.
#[verifier::external_body]
fn new_hasher(seed: u64) -> (hasher: Xxh64)
    ensures
        hasher_seed(hasher) == seed,
        hashed_bytes(hasher) == Seq::<u8>::empty(),
{
    Xxh64::new(seed)
}

/// `Xxh64::update`: feeds more bytes and keeps the seed.
#[verifier::external_body]
fn feed_bytes(hasher: &mut Xxh64, bytes: &[u8])
    ensures
        hasher_seed(*final(hasher)) == hasher_seed(*old(hasher)),
        hashed_bytes(*final(hasher)) == hashed_bytes(*old(hasher)) + bytes@,
{
    hasher.update(bytes)
}

/// `Xxh64::digest`: the hash of all bytes fed, however they were split into pieces.
#[verifier::external_body]
fn digest(hasher: &Xxh64) -> (hash: u64)
    ensures
        hash == xxh64_of(hasher_seed(*hasher), hashed_bytes(*hasher)),
{
    hasher.digest()
}

/// How many series, and a hash over all of them.
#[derive(Debug, Clone, Copy, PartialEq, Eq, Structural)]
pub struct PersistedRegistrySeriesFingerprint {
    pub series_count: usize,
    pub series_hash64: u64,
}

/// Bytes preceded by their number, as eight little-endian bytes.
pub open spec fn len_prefixed(bytes: Seq<u8>) -> Seq<u8> {
    spec_u64_to_le_bytes(bytes.len() as u64) + bytes
}

/// The bytes of a label.
pub open spec fn label_bytes(label: LabelView) -> Seq<u8> {
    len_prefixed(encode_utf8(label.name)) + len_prefixed(encode_utf8(label.value))
}

/// The bytes of labels, one after another.
pub open spec fn labels_bytes(labels: Seq<LabelView>) -> Seq<u8>
    decreases labels.len(),
{
    if labels.len() == 0 {
        Seq::empty()
    } else {
        labels_bytes(labels.drop_last()) + label_bytes(labels.last())
    }
}

/// The bytes of a series key: metric, number of labels, labels.
pub open spec fn key_bytes(key: KeyView) -> Seq<u8> {
    len_prefixed(encode_utf8(key.metric)) + (spec_u64_to_le_bytes(key.labels.len() as u64)
        + labels_bytes(key.labels))
}

/// The bytes of a series: its id, then its key.
pub open spec fn one_series_bytes(series: SeriesView) -> Seq<u8> {
    spec_u64_to_le_bytes(series.id) + key_bytes(series.key)
}

/// The bytes of a list of series.
pub open spec fn series_bytes(series: Seq<SeriesView>) -> Seq<u8>
    decreases series.len(),
{
    if series.len() == 0 {
        Seq::empty()
    } else {
        series_bytes(series.drop_last()) + one_series_bytes(series.last())
    }
}

/// The fingerprint of a list of series.
pub open spec fn fingerprint_of(
    series: Seq<SeriesView>,
) -> PersistedRegistrySeriesFingerprint {
    PersistedRegistrySeriesFingerprint {
        series_count: if series.len() <= usize::MAX {
            series.len() as usize
        } else {
            usize::MAX
        },
        series_hash64: xxh64_of(0, series_bytes(series)),
    }
}

/// Feeds bytes preceded by their number.
fn update_len_prefixed_bytes(hasher: &mut Xxh64, bytes: &[u8])
    ensures
        hasher_seed(*final(hasher)) == hasher_seed(*old(hasher)),
        hashed_bytes(*final(hasher)) == hashed_bytes(*old(hasher)) + len_prefixed(bytes@),
{
    let prefix = u64_to_le_bytes(bytes.len() as u64);
    feed_bytes(hasher, prefix.as_slice());
    feed_bytes(hasher, bytes);
    proof {
        assert(hashed_bytes(*hasher) =~= hashed_bytes(*old(hasher)) + len_prefixed(bytes@));
    }
}

fn feed_key(hasher: &mut Xxh64, key: &SeriesKey)
    ensures
        hasher_seed(*final(hasher)) == hasher_seed(*old(hasher)),
        hashed_bytes(*final(hasher)) == hashed_bytes(*old(hasher)) + key_bytes(key@),
{
    update_len_prefixed_bytes(hasher, key.metric.as_str().as_bytes());
    let count = u64_to_le_bytes(key.labels.len() as u64);
    feed_bytes(hasher, count.as_slice());
    let ghost seed = hasher_seed(*old(hasher));
    let ghost start = hashed_bytes(*hasher);
    let ghost views = labels_view(key.labels@);
    let mut at: usize = 0;
    while at < key.labels.len()
        invariant
            at <= key.labels@.len(),
            views == labels_view(key.labels@),
            hasher_seed(*hasher) == seed,
            hashed_bytes(*hasher) == start + labels_bytes(views.take(at as int)),
        decreases key.labels@.len() - at,
    {
        let label: &Label = &key.labels[at];
        let ghost before = hashed_bytes(*hasher);
        update_len_prefixed_bytes(hasher, label.name.as_str().as_bytes());
        update_len_prefixed_bytes(hasher, label.value.as_str().as_bytes());
        proof {
            assert(views.take(at + 1).drop_last() =~= views.take(at as int));
            assert(views.take(at + 1).last() == label@);
            assert(hashed_bytes(*hasher) =~= before + label_bytes(label@));
            assert(before + label_bytes(label@) =~= start + labels_bytes(views.take(at + 1)));
        }
        at = at + 1;
    }
    proof {
        assert(views.take(at as int) =~= views);
        assert(hashed_bytes(*hasher) =~= hashed_bytes(*old(hasher)) + key_bytes(key@));
    }
}

/// The hash of a series key.
pub fn key_hash(key: &SeriesKey) -> (hash: u64)
    ensures
        hash == xxh64_of(0, key_bytes(key@)),
{
    let mut hasher = new_hasher(0);
    feed_key(&mut hasher, key);
    proof {
        assert(Seq::<u8>::empty() + key_bytes(key@) =~= key_bytes(key@));
    }
    digest(&hasher)
}

/// A fingerprint in the making.
pub struct SeriesHasher {
    hasher: Xxh64,
    count: usize,
    added: Ghost<Seq<SeriesView>>,
}

impl SeriesHasher {
    /// The series added so far.
    pub closed spec fn added(&self) -> Seq<SeriesView> {
        self.added@
    }

    #[verifier::type_invariant]
    spec fn tracks_what_was_added(self) -> bool {
        &&& hasher_seed(self.hasher) == 0
        &&& hashed_bytes(self.hasher) == series_bytes(self.added@)
        &&& self.count == fingerprint_of(self.added@).series_count
    }

    /// Starts without a series.
    pub fn new() -> (made: Self)
        ensures
            made.added() == Seq::<SeriesView>::empty(),
    {
        SeriesHasher { hasher: new_hasher(0), count: 0, added: Ghost(Seq::empty()) }
    }

    /// Adds a series.
    pub fn add(self, series_id: u64, key: &SeriesKey) -> (next: Self)
        ensures
            next.added() == self.added().push(SeriesView { id: series_id, key: key@ }),
    {
        proof {
            use_type_invariant(&self);
        }
        let ghost one = SeriesView { id: series_id, key: key@ };
        let ghost before = self.added@;
        let SeriesHasher { mut hasher, count, added: _ } = self;
        let id_bytes = u64_to_le_bytes(series_id);
        feed_bytes(&mut hasher, id_bytes.as_slice());
        feed_key(&mut hasher, key);
        proof {
            assert(before.push(one).drop_last() =~= before);
            assert(hashed_bytes(hasher) =~= series_bytes(before.push(one)));
        }
        SeriesHasher { hasher, count: count.saturating_add(1), added: Ghost(before.push(one)) }
    }

    /// The fingerprint of the series added.
    pub fn finish(&self) -> (fingerprint: PersistedRegistrySeriesFingerprint)
        ensures
            fingerprint == fingerprint_of(self.added()),
    {
        proof {
            use_type_invariant(self);
        }
        PersistedRegistrySeriesFingerprint {
            series_count: self.count,
            series_hash64: digest(&self.hasher),
        }
    }
}

/// The fingerprint of a list of series.
pub fn fingerprint_series(
    series: &Vec<PersistedSeries>,
) -> (fingerprint: PersistedRegistrySeriesFingerprint)
    ensures
        fingerprint == fingerprint_of(series_view(series@)),
{
    let mut hasher = SeriesHasher::new();
    let mut at: usize = 0;
    while at < series.len()
        invariant
            at <= series@.len(),
            hasher.added() == series_view(series@).take(at as int),
        decreases series@.len() - at,
    {
        hasher = hasher.add(series[at].series_id, &series[at].key);
        at = at + 1;
        proof {
            assert(hasher.added() =~= series_view(series@).take(at as int));
        }
    }
    proof {
        assert(series_view(series@).take(at as int) =~= series_view(series@));
    }
    hasher.finish()
}

/// The texts of a key are short enough for their lengths to be written down.
pub open spec fn key_fits(key: KeyView) -> bool {
    &&& encode_utf8(key.metric).len() <= u64::MAX
    &&& key.labels.len() <= u64::MAX
    &&& labels_fit(key.labels)
}

/// The texts of the labels are short enough for their lengths to be written down.
pub open spec fn labels_fit(labels: Seq<LabelView>) -> bool {
    forall|i: int|
        0 <= i < labels.len() ==> encode_utf8((#[trigger] labels[i]).name).len() <= u64::MAX
            && encode_utf8(labels[i].value).len() <= u64::MAX
}

/// Every key in the list is short enough for its lengths to be written down.
pub open spec fn series_fit(series: Seq<SeriesView>) -> bool {
    forall|i: int| 0 <= i < series.len() ==> key_fits((#[trigger] series[i]).key)
}

proof fn lemma_same_halves(a: Seq<u8>, x: Seq<u8>, b: Seq<u8>, y: Seq<u8>)
    requires
        a + x == b + y,
        a.len() == b.len(),
    ensures
        a == b,
        x == y,
{
    assert((a + x).take(a.len() as int) =~= a);
    assert((b + y).take(b.len() as int) =~= b);
    assert((a + x).skip(a.len() as int) =~= x);
    assert((b + y).skip(b.len() as int) =~= y);
}

proof fn lemma_number_first(a: u64, x: Seq<u8>, b: u64, y: Seq<u8>)
    requires
        spec_u64_to_le_bytes(a) + x == spec_u64_to_le_bytes(b) + y,
    ensures
        a == b,
        x == y,
{
    lemma_auto_spec_u64_to_from_le_bytes();
    lemma_same_halves(spec_u64_to_le_bytes(a), x, spec_u64_to_le_bytes(b), y);
}

proof fn lemma_text_first(a: Seq<char>, x: Seq<u8>, b: Seq<char>, y: Seq<u8>)
    requires
        len_prefixed(encode_utf8(a)) + x == len_prefixed(encode_utf8(b)) + y,
        encode_utf8(a).len() <= u64::MAX,
        encode_utf8(b).len() <= u64::MAX,
    ensures
        a == b,
        x == y,
{
    let p = encode_utf8(a);
    let q = encode_utf8(b);
    assert(len_prefixed(p) + x =~= spec_u64_to_le_bytes(p.len() as u64) + (p + x));
    assert(len_prefixed(q) + y =~= spec_u64_to_le_bytes(q.len() as u64) + (q + y));
    lemma_number_first(p.len() as u64, p + x, q.len() as u64, q + y);
    lemma_same_halves(p, x, q, y);
    lemma_utf8_injective(a, b);
}

proof fn lemma_labels_from_the_front(labels: Seq<LabelView>)
    requires
        labels.len() > 0,
    ensures
        labels_bytes(labels) == label_bytes(labels[0]) + labels_bytes(labels.drop_first()),
    decreases labels.len(),
{
    if labels.len() == 1 {
        assert(labels.drop_last() =~= Seq::<LabelView>::empty());
        assert(labels.drop_first() =~= Seq::<LabelView>::empty());
        assert(Seq::<u8>::empty() + label_bytes(labels[0]) =~= label_bytes(labels[0]));
        assert(label_bytes(labels[0]) + Seq::<u8>::empty() =~= label_bytes(labels[0]));
    } else {
        lemma_labels_from_the_front(labels.drop_last());
        assert(labels.drop_last().drop_first() =~= labels.drop_first().drop_last());
        assert(labels_bytes(labels) =~= label_bytes(labels[0]) + labels_bytes(
            labels.drop_first(),
        ));
    }
}

proof fn lemma_label_first(a: LabelView, x: Seq<u8>, b: LabelView, y: Seq<u8>)
    requires
        label_bytes(a) + x == label_bytes(b) + y,
        labels_fit(seq![a]),
        labels_fit(seq![b]),
    ensures
        a == b,
        x == y,
{
    assert(seq![a][0] == a && seq![b][0] == b);
    let value_a = len_prefixed(encode_utf8(a.value)) + x;
    let value_b = len_prefixed(encode_utf8(b.value)) + y;
    assert(label_bytes(a) + x =~= len_prefixed(encode_utf8(a.name)) + value_a);
    assert(label_bytes(b) + y =~= len_prefixed(encode_utf8(b.name)) + value_b);
    lemma_text_first(a.name, value_a, b.name, value_b);
    lemma_text_first(a.value, x, b.value, y);
}

proof fn lemma_labels_first(a: Seq<LabelView>, x: Seq<u8>, b: Seq<LabelView>, y: Seq<u8>)
    requires
        a.len() == b.len(),
        labels_bytes(a) + x == labels_bytes(b) + y,
        labels_fit(a),
        labels_fit(b),
    ensures
        a == b,
        x == y,
    decreases a.len(),
{
    if a.len() == 0 {
        assert(a =~= b);
        assert(Seq::<u8>::empty() + x =~= x);
        assert(Seq::<u8>::empty() + y =~= y);
    } else {
        lemma_labels_from_the_front(a);
        lemma_labels_from_the_front(b);
        let rest_a = labels_bytes(a.drop_first()) + x;
        let rest_b = labels_bytes(b.drop_first()) + y;
        assert(labels_bytes(a) + x =~= label_bytes(a[0]) + rest_a);
        assert(labels_bytes(b) + y =~= label_bytes(b[0]) + rest_b);
        lemma_label_first(a[0], rest_a, b[0], rest_b);
        lemma_labels_first(a.drop_first(), x, b.drop_first(), y);
        assert(a =~= seq![a[0]] + a.drop_first());
        assert(b =~= seq![b[0]] + b.drop_first());
    }
}

proof fn lemma_key_first(a: KeyView, x: Seq<u8>, b: KeyView, y: Seq<u8>)
    requires
        key_bytes(a) + x == key_bytes(b) + y,
        key_fits(a),
        key_fits(b),
    ensures
        a == b,
        x == y,
{
    let labels_a = labels_bytes(a.labels) + x;
    let labels_b = labels_bytes(b.labels) + y;
    let rest_a = spec_u64_to_le_bytes(a.labels.len() as u64) + labels_a;
    let rest_b = spec_u64_to_le_bytes(b.labels.len() as u64) + labels_b;
    assert(key_bytes(a) + x =~= len_prefixed(encode_utf8(a.metric)) + rest_a);
    assert(key_bytes(b) + y =~= len_prefixed(encode_utf8(b.metric)) + rest_b);
    lemma_text_first(a.metric, rest_a, b.metric, rest_b);
    lemma_number_first(a.labels.len() as u64, labels_a, b.labels.len() as u64, labels_b);
    lemma_labels_first(a.labels, x, b.labels, y);
}

proof fn lemma_series_from_the_front(series: Seq<SeriesView>)
    requires
        series.len() > 0,
    ensures
        series_bytes(series) == one_series_bytes(series[0]) + series_bytes(series.drop_first()),
    decreases series.len(),
{
    if series.len() == 1 {
        assert(series.drop_last() =~= Seq::<SeriesView>::empty());
        assert(series.drop_first() =~= Seq::<SeriesView>::empty());
        let one = one_series_bytes(series[0]);
        assert(Seq::<u8>::empty() + one =~= one);
        assert(one + Seq::<u8>::empty() =~= one);
    } else {
        lemma_series_from_the_front(series.drop_last());
        assert(series.drop_last().drop_first() =~= series.drop_first().drop_last());
        assert(series_bytes(series) =~= one_series_bytes(series[0]) + series_bytes(
            series.drop_first(),
        ));
    }
}

/// The bytes under a fingerprint tell series lists apart: two lists with the same bytes
/// have the same ids, metrics and labels in the same order.
pub proof fn law_series_bytes_tell_lists_apart(a: Seq<SeriesView>, b: Seq<SeriesView>)
    requires
        series_bytes(a) == series_bytes(b),
        series_fit(a),
        series_fit(b),
    ensures
        a == b,
    decreases a.len(),
{
    lemma_auto_spec_u64_to_from_le_bytes();
    if a.len() == 0 && b.len() == 0 {
        assert(a =~= b);
    } else if a.len() == 0 {
        lemma_series_from_the_front(b);
        assert(series_bytes(b).len() >= spec_u64_to_le_bytes(b[0].id).len());
    } else if b.len() == 0 {
        lemma_series_from_the_front(a);
        assert(series_bytes(a).len() >= spec_u64_to_le_bytes(a[0].id).len());
    } else {
        lemma_series_from_the_front(a);
        lemma_series_from_the_front(b);
        let rest_a = series_bytes(a.drop_first());
        let rest_b = series_bytes(b.drop_first());
        assert(series_bytes(a) =~= spec_u64_to_le_bytes(a[0].id) + (key_bytes(a[0].key) + rest_a));
        assert(series_bytes(b) =~= spec_u64_to_le_bytes(b[0].id) + (key_bytes(b[0].key) + rest_b));
        lemma_number_first(
            a[0].id,
            key_bytes(a[0].key) + rest_a,
            b[0].id,
            key_bytes(b[0].key) + rest_b,
        );
        lemma_key_first(a[0].key, rest_a, b[0].key, rest_b);
        law_series_bytes_tell_lists_apart(a.drop_first(), b.drop_first());
        assert(a =~= seq![a[0]] + a.drop_first());
        assert(b =~= seq![b[0]] + b.drop_first());
    }
}

/// What a fingerprint is made of: how many series there are, and the hash, under the seed 0, of
/// their bytes one after another. The bytes of a series are its id, its metric, the number of its
/// labels, and name and value of each label, in this order; ids and numbers as eight
/// little-endian bytes, texts as their UTF-8 bytes preceded by the number of these.
pub proof fn law_fingerprint_covers_id_metric_and_labels(
    series: Seq<SeriesView>,
    one: SeriesView,
    labels: Seq<LabelView>,
    label: LabelView,
)
    ensures
        fingerprint_of(series).series_hash64 == xxh64_of(0, series_bytes(series)),
        series.len() <= usize::MAX ==> fingerprint_of(series).series_count == series.len(),
        series_bytes(Seq::<SeriesView>::empty()).len() == 0,
        series_bytes(series.push(one)) == series_bytes(series) + spec_u64_to_le_bytes(one.id)
            + spec_u64_to_le_bytes(encode_utf8(one.key.metric).len() as u64) + encode_utf8(
            one.key.metric,
        ) + spec_u64_to_le_bytes(one.key.labels.len() as u64) + labels_bytes(one.key.labels),
        labels_bytes(Seq::<LabelView>::empty()).len() == 0,
        labels_bytes(labels.push(label)) == labels_bytes(labels) + spec_u64_to_le_bytes(
            encode_utf8(label.name).len() as u64,
        ) + encode_utf8(label.name) + spec_u64_to_le_bytes(
            encode_utf8(label.value).len() as u64,
        ) + encode_utf8(label.value),
{
    assert(series.push(one).drop_last() =~= series);
    assert(labels.push(label).drop_last() =~= labels);
    assert(series_bytes(series.push(one)) =~= series_bytes(series) + spec_u64_to_le_bytes(one.id)
        + spec_u64_to_le_bytes(encode_utf8(one.key.metric).len() as u64) + encode_utf8(
        one.key.metric,
    ) + spec_u64_to_le_bytes(one.key.labels.len() as u64) + labels_bytes(one.key.labels));
    assert(labels_bytes(labels.push(label)) =~= labels_bytes(labels) + spec_u64_to_le_bytes(
        encode_utf8(label.name).len() as u64,
    ) + encode_utf8(label.name) + spec_u64_to_le_bytes(encode_utf8(label.value).len() as u64)
        + encode_utf8(label.value));
}

} // verus!
