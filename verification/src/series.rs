//! Series and what identifies them.
use crate::text::{copied, same_text};
use vstd::prelude::*;
use vstd::string::StringExecFns;

verus! {

/// A name and a value that tell series of one metric apart.
#[derive(Debug)]
pub struct Label {
    pub name: String,
    pub value: String,
}

/// A label as mathematics.
pub struct LabelView {
    pub name: Seq<char>,
    pub value: Seq<char>,
}

impl View for Label {
    type V = LabelView;

    open spec fn view(&self) -> LabelView {
        LabelView { name: self.name@, value: self.value@ }
    }
}

/// What identifies a series: its metric and its labels.
#[derive(Debug)]
pub struct SeriesKey {
    pub metric: String,
    pub labels: Vec<Label>,
}

/// A series key as mathematics.
#[verifier::ext_equal]
pub struct KeyView {
    pub metric: Seq<char>,
    pub labels: Seq<LabelView>,
}

/// Labels as mathematics.
pub open spec fn labels_view(labels: Seq<Label>) -> Seq<LabelView> {
    labels.map_values(|label: Label| label@)
}

impl View for SeriesKey {
    type V = KeyView;

    open spec fn view(&self) -> KeyView {
        KeyView { metric: self.metric@, labels: labels_view(self.labels@) }
    }
}

/// A series as a segment file lists it.
#[derive(Debug)]
pub struct PersistedSeries {
    pub series_id: u64,
    pub key: SeriesKey,
}

/// A listed series as mathematics.
#[verifier::ext_equal]
pub struct SeriesView {
    pub id: u64,
    pub key: KeyView,
}

impl View for PersistedSeries {
    type V = SeriesView;

    open spec fn view(&self) -> SeriesView {
        SeriesView { id: self.series_id, key: self.key@ }
    }
}

/// A list of series as mathematics.
pub open spec fn series_view(series: Seq<PersistedSeries>) -> Seq<SeriesView> {
    series.map_values(|one: PersistedSeries| one@)
}

impl Label {
    /// A label.
    pub fn new(name: &str, value: &str) -> (label: Self)
        ensures
            label@ == (LabelView { name: name@, value: value@ }),
    {
        Label { name: String::from_str(name), value: String::from_str(value) }
    }
}

fn same_labels(left: &Vec<Label>, right: &Vec<Label>) -> (same: bool)
    ensures
        same == (labels_view(left@) == labels_view(right@)),
{
    if left.len() != right.len() {
        proof {
            assert(labels_view(left@).len() != labels_view(right@).len());
        }
        return false;
    }
    let mut at: usize = 0;
    while at < left.len()
        invariant
            at <= left@.len(),
            left@.len() == right@.len(),
            forall|i: int| 0 <= i < at ==> (#[trigger] left@[i])@ == right@[i]@,
        decreases left@.len() - at,
    {
        if !same_text(&left[at].name, &right[at].name) || !same_text(
            &left[at].value,
            &right[at].value,
        ) {
            proof {
                assert(labels_view(left@)[at as int] != labels_view(right@)[at as int]);
            }
            return false;
        }
        at = at + 1;
    }
    proof {
        assert(labels_view(left@) =~= labels_view(right@));
    }
    true
}

impl SeriesKey {
    /// Whether two keys are the same.
    pub fn same(&self, other: &SeriesKey) -> (same: bool)
        ensures
            same == (self@ == other@),
    {
        same_text(&self.metric, &other.metric) && same_labels(&self.labels, &other.labels)
    }

    /// A copy of the key.
    pub fn duplicate(&self) -> (copy: Self)
        ensures
            copy@ == self@,
    {
        SeriesKey { metric: copied(&self.metric), labels: copied_labels(&self.labels) }
    }
}

/// A copy of labels.
pub fn copied_labels(labels: &Vec<Label>) -> (copy: Vec<Label>)
    ensures
        labels_view(copy@) == labels_view(labels@),
{
    let mut copy: Vec<Label> = Vec::new();
    let mut at: usize = 0;
    while at < labels.len()
        invariant
            at <= labels@.len(),
            copy@.len() == at,
            forall|i: int| 0 <= i < at ==> (#[trigger] copy@[i])@ == labels@[i]@,
        decreases labels@.len() - at,
    {
        copy.push(Label { name: copied(&labels[at].name), value: copied(&labels[at].value) });
        at = at + 1;
    }
    proof {
        assert(labels_view(copy@) =~= labels_view(labels@));
    }
    copy
}

} // verus!
