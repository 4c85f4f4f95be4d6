//! Which series a rollup policy reads.
use crate::error::TsinkError;
use crate::series::{copied_labels, labels_view, Label, LabelView};
use crate::text::copied;
use std::collections::BTreeMap;
use vstd::prelude::*;

verus! {

/// A series that a policy rolls up.
#[derive(Debug)]
pub struct RollupSourceSeries {
    pub series_id: u64,
    pub source_key: String,
    pub labels: Vec<Label>,
}

/// A source series as mathematics.
#[verifier::ext_equal]
pub struct SourceSeriesView {
    pub series_id: u64,
    pub source_key: Seq<char>,
    pub labels: Seq<LabelView>,
}

impl View for RollupSourceSeries {
    type V = SourceSeriesView;

    open spec fn view(&self) -> SourceSeriesView {
        SourceSeriesView {
            series_id: self.series_id,
            source_key: self.source_key@,
            labels: labels_view(self.labels@),
        }
    }
}

/// Source series as mathematics.
pub open spec fn source_series_view(sources: Seq<RollupSourceSeries>) -> Seq<SourceSeriesView> {
    sources.map_values(|source: RollupSourceSeries| source@)
}

/// What the registry and the policy say of a series: its source key and labels, and
/// whether the policy matches it.
#[derive(Debug)]
pub struct DecodedSeries {
    pub matches_policy: bool,
    pub source_key: String,
    pub labels: Vec<Label>,
}

/// A decoded series as mathematics.
pub struct DecodedView {
    pub matches_policy: bool,
    pub source_key: Seq<char>,
    pub labels: Seq<LabelView>,
}

impl View for DecodedSeries {
    type V = DecodedView;

    open spec fn view(&self) -> DecodedView {
        DecodedView {
            matches_policy: self.matches_policy,
            source_key: self.source_key@,
            labels: labels_view(self.labels@),
        }
    }
}

/// The series that the registry knows, decoded for one policy, by id.
pub struct RollupSourceReadContext {
    decoded: BTreeMap<u64, DecodedSeries>,
}

impl View for RollupSourceReadContext {
    type V = Map<u64, DecodedView>;

    closed spec fn view(&self) -> Map<u64, DecodedView> {
        self.decoded@.map_values(|series: DecodedSeries| series@)
    }
}

/// The sources among the series with these ids, in the order of the ids: those that the
/// registry knows and the policy matches.
pub open spec fn sources_among(decoded: Map<u64, DecodedView>, ids: Seq<u64>) -> Seq<
    SourceSeriesView,
>
    decreases ids.len(),
{
    if ids.len() == 0 {
        Seq::empty()
    } else {
        let before = sources_among(decoded, ids.drop_last());
        let id = ids.last();
        if decoded.contains_key(id) && decoded[id].matches_policy {
            before.push(
                SourceSeriesView {
                    series_id: id,
                    source_key: decoded[id].source_key,
                    labels: decoded[id].labels,
                },
            )
        } else {
            before
        }
    }
}

impl RollupSourceReadContext {
    /// No series is known.
    pub fn new() -> (context: Self)
        ensures
            context@ == Map::<u64, DecodedView>::empty(),
    {
        let context = RollupSourceReadContext { decoded: BTreeMap::new() };
        proof {
            assert(context@ =~= Map::<u64, DecodedView>::empty());
        }
        context
    }

    /// Adds a series that the registry knows.
    pub fn insert(&mut self, series_id: u64, series: DecodedSeries)
        ensures
            final(self)@ == old(self)@.insert(series_id, series@),
    {
        broadcast use vstd::std_specs::btree::group_btree_axioms;

        let ghost view = series@;
        self.decoded.insert(series_id, series);
        proof {
            assert(self@ =~= old(self)@.insert(series_id, view));
        }
    }

    /// The sources among the series with these ids.
    pub fn rollup_sources_for_series_ids(&self, series_ids: &Vec<u64>) -> (sources: Vec<
        RollupSourceSeries,
    >)
        ensures
            source_series_view(sources@) == sources_among(self@, series_ids@),
    {
        broadcast use vstd::std_specs::btree::group_btree_axioms;

        let mut sources: Vec<RollupSourceSeries> = Vec::new();
        let mut at: usize = 0;
        proof {
            assert(series_ids@.take(0) =~= Seq::<u64>::empty());
            assert(source_series_view(sources@) =~= Seq::<SourceSeriesView>::empty());
        }
        while at < series_ids.len()
            invariant
                at <= series_ids@.len(),
                source_series_view(sources@) == sources_among(
                    self@,
                    series_ids@.take(at as int),
                ),
            decreases series_ids@.len() - at,
        {
            let id: u64 = series_ids[at];
            let ghost before = sources@;
            proof {
                assert(series_ids@.take(at + 1).drop_last() =~= series_ids@.take(at as int));
                assert(series_ids@.take(at + 1).last() == id);
            }
            match self.decoded.get(&id) {
                Some(series) => {
                    if series.matches_policy {
                        let source = RollupSourceSeries {
                            series_id: id,
                            source_key: copied(&series.source_key),
                            labels: copied_labels(&series.labels),
                        };
                        let ghost view = source@;
                        sources.push(source);
                        proof {
                            assert(source_series_view(sources@) =~= source_series_view(
                                before,
                            ).push(view));
                        }
                    }
                },
                None => {},
            }
            at = at + 1;
        }
        proof {
            assert(series_ids@.take(at as int) =~= series_ids@);
        }
        sources
    }

    /// The sources among the live series, or why those are not known.
    pub fn matching_rollup_sources(&self, live_series_ids: Result<Vec<u64>, TsinkError>) -> (sources:
        Result<Vec<RollupSourceSeries>, TsinkError>)
        ensures
            match live_series_ids {
                Ok(ids) => sources is Ok && source_series_view(sources->Ok_0@) == sources_among(
                    self@,
                    ids@,
                ),
                Err(error) => sources == Err::<Vec<RollupSourceSeries>, TsinkError>(error),
            },
    {
        match live_series_ids {
            Ok(ids) => Ok(self.rollup_sources_for_series_ids(&ids)),
            Err(error) => Err(error),
        }
    }

    /// The sources among the live series or, where those are not known, among all
    /// candidates.
    pub fn matching_rollup_sources_best_effort(
        &self,
        candidate_series_ids: &Vec<u64>,
        live_series_ids: Result<Vec<u64>, TsinkError>,
    ) -> (sources: Vec<RollupSourceSeries>)
        ensures
            source_series_view(sources@) == sources_among(
                self@,
                match live_series_ids {
                    Ok(ids) => ids@,
                    Err(_) => candidate_series_ids@,
                },
            ),
    {
        match self.matching_rollup_sources(live_series_ids) {
            Ok(sources) => sources,
            Err(_) => self.rollup_sources_for_series_ids(candidate_series_ids),
        }
    }
}

/// A source is a series among the ids that the registry knows and the policy matches, and
/// every such series is a source.
pub proof fn law_sources_are_the_matching_series(
    decoded: Map<u64, DecodedView>,
    ids: Seq<u64>,
    id: u64,
)
    ensures
        (exists|i: int|
            0 <= i < sources_among(decoded, ids).len() && (#[trigger] sources_among(
                decoded,
                ids,
            )[i]).series_id == id) <==> ids.contains(id) && decoded.contains_key(id)
            && decoded[id].matches_policy,
    decreases ids.len(),
{
    let sources = sources_among(decoded, ids);
    if ids.len() > 0 {
        let shorter = ids.drop_last();
        let before = sources_among(decoded, shorter);
        law_sources_are_the_matching_series(decoded, shorter, id);
        assert(ids[ids.len() - 1] == ids.last());
        assert(ids.contains(id) <==> shorter.contains(id) || id == ids.last()) by {
            if shorter.contains(id) {
                assert(ids[shorter.index_of(id)] == id);
            }
            if ids.contains(id) && id != ids.last() {
                assert(shorter[ids.index_of(id)] == id);
            }
        }
        if exists|i: int| 0 <= i < before.len() && (#[trigger] before[i]).series_id == id {
            let i = choose|i: int| 0 <= i < before.len() && (#[trigger] before[i]).series_id == id;
            assert(sources[i].series_id == id);
        }
        if exists|i: int| 0 <= i < sources.len() && (#[trigger] sources[i]).series_id == id {
            let i = choose|i: int|
                0 <= i < sources.len() && (#[trigger] sources[i]).series_id == id;
            if i < before.len() {
                assert(before[i].series_id == id);
            }
        }
        if id == ids.last() && decoded.contains_key(id) && decoded[id].matches_policy {
            assert(sources[before.len() as int].series_id == id);
        }
    }
}

/// The sources are made of the series at ascending positions of the ids, each with the key and
/// the labels that the registry has for it.
pub open spec fn are_taken_from(
    decoded: Map<u64, DecodedView>,
    ids: Seq<u64>,
    sources: Seq<SourceSeriesView>,
    positions: Seq<int>,
) -> bool {
    &&& positions.len() == sources.len()
    &&& forall|k: int|
        0 <= k < positions.len() ==> {
            &&& 0 <= #[trigger] positions[k] < ids.len()
            &&& sources[k].series_id == ids[positions[k]]
            &&& decoded.contains_key(ids[positions[k]])
            &&& decoded[ids[positions[k]]].matches_policy
            &&& sources[k].source_key == decoded[ids[positions[k]]].source_key
            &&& sources[k].labels == decoded[ids[positions[k]]].labels
        }
    &&& forall|k: int, l: int|
        #![trigger positions[k], positions[l]]
        0 <= k < l < positions.len() ==> positions[k] < positions[l]
    &&& forall|i: int|
        0 <= i < ids.len() && decoded.contains_key(#[trigger] ids[i]) && decoded[ids[i]].matches_policy
            ==> positions.contains(i)
}

/// The sources are those of the ids, in their order, that the registry knows and the policy
/// matches, with their keys and labels.
pub proof fn law_sources_keep_their_order(decoded: Map<u64, DecodedView>, ids: Seq<u64>) -> (positions:
    Seq<int>)
    ensures
        are_taken_from(decoded, ids, sources_among(decoded, ids), positions),
    decreases ids.len(),
{
    let sources = sources_among(decoded, ids);
    if ids.len() == 0 {
        Seq::empty()
    } else {
        let shorter = ids.drop_last();
        let before = law_sources_keep_their_order(decoded, shorter);
        let known = sources_among(decoded, shorter);
        let last = ids.len() - 1;
        let wanted = decoded.contains_key(ids[last]) && decoded[ids[last]].matches_policy;
        let positions = if wanted {
            before.push(last)
        } else {
            before
        };
        assert forall|k: int| 0 <= k < before.len() implies #[trigger] positions[k] == before[k]
            && sources[k] == known[k] && shorter[before[k]] == ids[before[k]] by {}
        assert forall|i: int|
            0 <= i < ids.len() && decoded.contains_key(#[trigger] ids[i])
                && decoded[ids[i]].matches_policy implies positions.contains(i) by {
            if i < last {
                assert(shorter[i] == ids[i]);
                assert(before.contains(i));
                assert(positions[before.index_of(i)] == i);
            } else {
                assert(positions[before.len() as int] == i);
            }
        }
        positions
    }
}

} // verus!
