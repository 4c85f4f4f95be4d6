//! One pass of the rollup worker over every policy.
//!
//! Sources are planned policy by policy; their buckets are staged together, so that every
//! source in a batch is covered by one persisted pending materialization before any of its
//! buckets is written, and written afterwards. The pass itself only decides: whoever runs
//! it performs what [`RollupPass::stage`] asks for and hands the outcome back.
use crate::error::{error_text, ErrorView, TsinkError};
use crate::rollups::nested::{at_keys, drop_at, put_at};
use crate::rollups::sources::{source_series_view, RollupSourceSeries, SourceSeriesView};
use crate::rollups::state::{
    checkpoint_through, empty_report, generation_of, pending_materialized_through,
    pending_through, staged_onto, staged_view, text_view, PendingRollupMaterialization,
    PolicyRunReport, RollupStateStoreContext, RunStateView, StagedMaterialization, StagedView,
    StoreView,
};
use crate::text::copied;
use std::collections::BTreeSet;
use vstd::prelude::*;

verus! {

/// Upper bound on the rollup buckets that a pass stages together. One staging write of the
/// rollup state covers every source in the batch, so a pass rewrites the state once per batch
/// rather than once per source, while a large backfill stages only one batch of buckets (or
/// one source's, when a single source has more). A source that does not fit into the batch at
/// hand is held aside until that batch is done, and begins the next one.
pub const ROLLUP_STAGING_BATCH_POINTS: usize = 65_536;

/// A timestamp with a value of whatever kind the store holds.
#[derive(Debug)]
pub struct DataPoint<P> {
    pub timestamp: i64,
    pub value: P,
}

/// A source whose buckets have to be computed, from `checkpoint` up to `target_end`.
#[derive(Debug)]
pub struct PlannedRead {
    pub source: RollupSourceSeries,
    pub checkpoint: i64,
    pub target_end: i64,
}

/// A planned read as mathematics.
#[verifier::ext_equal]
pub struct ReadView {
    pub source: SourceSeriesView,
    pub checkpoint: i64,
    pub target_end: i64,
}

impl View for PlannedRead {
    type V = ReadView;

    open spec fn view(&self) -> ReadView {
        ReadView {
            source: self.source@,
            checkpoint: self.checkpoint,
            target_end: self.target_end,
        }
    }
}

/// Buckets computed for one source, waiting to be staged and written.
#[derive(Debug)]
pub struct PlannedRollupSource<P> {
    pub policy: usize,
    pub source: RollupSourceSeries,
    pub pending: PendingRollupMaterialization,
    pub points: Vec<DataPoint<P>>,
}

/// Computed buckets as mathematics.
#[verifier::ext_equal]
pub struct PlannedView<P> {
    pub policy: usize,
    pub source: SourceSeriesView,
    pub pending: PendingRollupMaterialization,
    pub points: Seq<DataPoint<P>>,
}

impl<P> View for PlannedRollupSource<P> {
    type V = PlannedView<P>;

    open spec fn view(&self) -> PlannedView<P> {
        PlannedView {
            policy: self.policy,
            source: self.source@,
            pending: self.pending,
            points: self.points@,
        }
    }
}

/// How far a policy has come in the pass. Times are in nanoseconds of a clock that never
/// goes back.
#[derive(Debug)]
pub struct PolicyRun {
    pub started_nanos: u128,
    pub started_at_ms: u64,
    pub finished_nanos: u128,
    pub report: PolicyRunReport,
    pub source_keys: Vec<String>,
    pub error: Option<String>,
}

/// A policy's run as mathematics.
#[verifier::ext_equal]
pub struct RunView {
    pub started_nanos: u128,
    pub started_at_ms: u64,
    pub finished_nanos: u128,
    pub report: PolicyRunReport,
    pub source_keys: Seq<Seq<char>>,
    pub error: Option<Seq<char>>,
}

/// Texts as mathematics.
pub open spec fn texts_view(texts: Seq<String>) -> Seq<Seq<char>> {
    texts.map_values(|text: String| text@)
}

impl View for PolicyRun {
    type V = RunView;

    open spec fn view(&self) -> RunView {
        RunView {
            started_nanos: self.started_nanos,
            started_at_ms: self.started_at_ms,
            finished_nanos: self.finished_nanos,
            report: self.report,
            source_keys: texts_view(self.source_keys@),
            error: text_view(self.error),
        }
    }
}

/// What a pass waits for. `resume` is the policy whose planning a batch interrupted, or
/// `None` for the batch that ends the pass.
#[derive(Debug, Clone, Copy, PartialEq, Eq, Structural)]
pub enum PassStage {
    /// The sources of a policy are to be found.
    Matching { policy: usize },
    /// The buckets of the next planned read of a policy are to be computed.
    Reading { policy: usize },
    /// The staged materializations are to be persisted.
    Staging { resume: Option<usize> },
    /// The buckets that the next item has in the store already are to be found.
    Checking { resume: Option<usize> },
    /// The buckets of the next item are to be inserted.
    Inserting { resume: Option<usize> },
    /// The item held aside is to begin the next batch. Nothing has to be done for that.
    Resuming { policy: usize },
    /// Nothing is left to do.
    Finished,
}

/// A pass over every policy.
pub struct RollupPass<P> {
    policies: Vec<String>,
    runs: Vec<PolicyRun>,
    generation: u64,
    /// The planned reads of the policy at hand, last one first.
    reads: Vec<PlannedRead>,
    staged: Vec<PlannedRollupSource<P>>,
    staged_points: usize,
    /// The item that did not fit into the batch at hand.
    held: Option<PlannedRollupSource<P>>,
    /// The items of a persisted batch that are still to be written, last one first.
    writing: Vec<PlannedRollupSource<P>>,
    first_error: Option<TsinkError>,
    stage: PassStage,
}

/// A pass as mathematics.
#[verifier::ext_equal]
pub struct PassView<P> {
    pub policies: Seq<Seq<char>>,
    pub runs: Seq<RunView>,
    pub generation: u64,
    pub reads: Seq<ReadView>,
    pub staged: Seq<PlannedView<P>>,
    pub staged_points: usize,
    pub held: Option<PlannedView<P>>,
    pub writing: Seq<PlannedView<P>>,
    pub first_error: Option<ErrorView>,
    pub stage: PassStage,
}

/// Runs as mathematics.
pub open spec fn runs_view(runs: Seq<PolicyRun>) -> Seq<RunView> {
    runs.map_values(|run: PolicyRun| run@)
}

/// Planned reads as mathematics.
pub open spec fn reads_view(reads: Seq<PlannedRead>) -> Seq<ReadView> {
    reads.map_values(|read: PlannedRead| read@)
}

/// Computed buckets as mathematics.
pub open spec fn planned_view<P>(items: Seq<PlannedRollupSource<P>>) -> Seq<PlannedView<P>> {
    items.map_values(|item: PlannedRollupSource<P>| item@)
}

/// An item that may be missing, as mathematics.
pub open spec fn held_view<P>(item: Option<PlannedRollupSource<P>>) -> Option<PlannedView<P>> {
    match item {
        Some(item) => Some(item@),
        None => None,
    }
}

/// An error that may be missing, as mathematics.
pub open spec fn error_view(error: Option<TsinkError>) -> Option<ErrorView> {
    match error {
        Some(error) => Some(error@),
        None => None,
    }
}

impl<P> View for RollupPass<P> {
    type V = PassView<P>;

    closed spec fn view(&self) -> PassView<P> {
        PassView {
            policies: texts_view(self.policies@),
            runs: runs_view(self.runs@),
            generation: self.generation,
            reads: reads_view(self.reads@).reverse(),
            staged: planned_view(self.staged@),
            staged_points: self.staged_points,
            held: held_view(self.held),
            writing: planned_view(self.writing@).reverse(),
            first_error: error_view(self.first_error),
            stage: self.stage,
        }
    }
}

/// How many points the items hold, or the largest number there is.
pub open spec fn points_total<P>(items: Seq<PlannedView<P>>) -> nat
    decreases items.len(),
{
    if items.len() == 0 {
        0
    } else {
        let total = points_total(items.drop_last()) + items.last().points.len();
        if total <= usize::MAX {
            total
        } else {
            usize::MAX as nat
        }
    }
}

/// The item belongs to a policy of the pass, and its range ends after it starts.
pub open spec fn is_item<P>(policies: nat, item: PlannedView<P>) -> bool {
    &&& item.policy < policies
    &&& item.pending.checkpoint < item.pending.materialized_through
}

/// The policy that the pass is planning or will go on planning.
pub open spec fn planning(stage: PassStage) -> Option<usize> {
    match stage {
        PassStage::Matching { policy } => Some(policy),
        PassStage::Reading { policy } => Some(policy),
        PassStage::Staging { resume } => resume,
        PassStage::Checking { resume } => resume,
        PassStage::Inserting { resume } => resume,
        PassStage::Resuming { policy } => Some(policy),
        PassStage::Finished => None,
    }
}

/// Whether a persisted batch is being written.
pub open spec fn is_writing(stage: PassStage) -> bool {
    stage is Checking || stage is Inserting
}

/// What holds of a pass between any two events.
pub open spec fn is_valid<P>(pass: PassView<P>) -> bool {
    &&& pass.runs.len() == pass.policies.len()
    &&& pass.policies.len() <= usize::MAX
    &&& planning(pass.stage) is Some ==> planning(pass.stage)->Some_0 < pass.policies.len()
    &&& forall|i: int|
        0 <= i < pass.staged.len() ==> is_item(pass.policies.len(), #[trigger] pass.staged[i])
            && pass.staged[i].points.len() > 0
    &&& forall|i: int|
        0 <= i < pass.writing.len() ==> is_item(pass.policies.len(), #[trigger] pass.writing[i])
    &&& forall|i: int|
        0 <= i < pass.reads.len() ==> (#[trigger] pass.reads[i]).checkpoint
            < pass.reads[i].target_end
    &&& pass.staged_points == points_total(pass.staged)
    &&& pass.stage is Matching ==> pass.reads.len() == 0
    &&& pass.stage is Matching || pass.stage is Reading ==> pass.staged_points
        < ROLLUP_STAGING_BATCH_POINTS
    &&& pass.stage is Reading ==> pass.reads.len() > 0
        && pass.runs[pass.stage->Reading_policy as int].error is None
    &&& pass.stage is Staging ==> pass.staged.len() > 0 && (points_total(pass.staged)
        <= ROLLUP_STAGING_BATCH_POINTS || pass.staged.len() == 1)
    &&& pass.stage is Resuming ==> pass.held is Some && pass.staged.len() == 0
        && pass.runs[pass.stage->Resuming_policy as int].error is None
    &&& pass.held is Some ==> {
        &&& pass.stage is Staging || is_writing(pass.stage) || pass.stage is Resuming
        &&& planning(pass.stage) == Some(pass.held->Some_0.policy)
        &&& is_item(pass.policies.len(), pass.held->Some_0)
        &&& pass.held->Some_0.points.len() > 0
    }
    &&& is_writing(pass.stage) <==> pass.writing.len() > 0
    &&& is_writing(pass.stage) ==> pass.staged.len() == 0
        && pass.runs[pass.writing[0].policy as int].error is None
    &&& pass.stage is Finished ==> pass.staged.len() == 0 && pass.reads.len() == 0
    &&& planning(pass.stage) is None ==> pass.reads.len() == 0
}

/// The pass after a policy failed. The first message of a policy and the first error of
/// the pass are kept.
pub open spec fn with_failure<P>(pass: PassView<P>, policy: int, error: ErrorView) -> PassView<P> {
    let run = pass.runs[policy];
    PassView {
        runs: pass.runs.update(
            policy,
            RunView {
                error: if run.error is None {
                    Some(error_text(error))
                } else {
                    run.error
                },
                ..run
            },
        ),
        first_error: if pass.first_error is None {
            Some(error)
        } else {
            pass.first_error
        },
        ..pass
    }
}

/// The pass after work on a policy ended.
pub open spec fn ended<P>(pass: PassView<P>, policy: int, now: u128) -> PassView<P> {
    PassView {
        runs: pass.runs.update(policy, RunView { finished_nanos: now, ..pass.runs[policy] }),
        ..pass
    }
}

/// The pass after a policy was planned: the next one is up or, after the last, what is
/// still staged.
pub open spec fn to_next_policy<P>(pass: PassView<P>, policy: int) -> PassView<P> {
    if policy + 1 < pass.policies.len() {
        PassView { stage: PassStage::Matching { policy: (policy + 1) as usize }, ..pass }
    } else if pass.staged.len() > 0 {
        PassView { stage: PassStage::Staging { resume: None }, ..pass }
    } else {
        PassView { stage: PassStage::Finished, ..pass }
    }
}

/// The pass going on with the planned reads of a policy. A policy that failed, or has no
/// reads left, is done.
pub open spec fn to_next_read<P>(pass: PassView<P>, policy: int, now: u128) -> PassView<P> {
    if pass.runs[policy].error is Some || pass.reads.len() == 0 {
        to_next_policy(
            ended(PassView { reads: Seq::empty(), ..pass }, policy, now),
            policy,
        )
    } else {
        PassView { stage: PassStage::Reading { policy: policy as usize }, ..pass }
    }
}

impl<P> RollupPass<P> {
    /// Notes the failure of a policy.
    pub fn fail(&mut self, policy: usize, err: TsinkError)
        requires
            policy < old(self)@.runs.len(),
        ensures
            final(self)@ == with_failure(old(self)@, policy as int, err@),
    {
        let ghost before = self@;
        if self.runs[policy].error.is_none() {
            self.runs[policy].error = Some(err.message());
        }
        if self.first_error.is_none() {
            self.first_error = Some(err);
        }
        proof {
            assert(self@ =~= with_failure(before, policy as int, err@));
        }
    }
}

/// Where the buckets of a source start and end: from its checkpoint up to the stable end
/// or, if that is later, the end of what was pending in the current generation. A source
/// that has come so far already is not read.
pub open spec fn planned_read(
    store: StoreView,
    policy_id: Seq<char>,
    source: SourceSeriesView,
    stable_end: i64,
) -> Option<ReadView> {
    let checkpoint = match at_keys(store.checkpoints, policy_id, source.source_key) {
        Some(checkpoint) => checkpoint,
        None => i64::MIN,
    };
    let target_end = match pending_through(store, policy_id, source.source_key) {
        Some(through) => if through > stable_end {
            through
        } else {
            stable_end
        },
        None => stable_end,
    };
    if checkpoint >= target_end {
        None
    } else {
        Some(ReadView { source, checkpoint, target_end })
    }
}

/// The reads of a policy, in the order of its sources.
pub open spec fn planned_reads(
    store: StoreView,
    policy_id: Seq<char>,
    sources: Seq<SourceSeriesView>,
    stable_end: i64,
) -> Seq<ReadView>
    decreases sources.len(),
{
    if sources.len() == 0 {
        Seq::empty()
    } else {
        let rest = planned_reads(store, policy_id, sources.drop_first(), stable_end);
        match planned_read(store, policy_id, sources[0], stable_end) {
            Some(read) => seq![read] + rest,
            None => rest,
        }
    }
}

/// The sources of a policy, and the end of the newest bucket that is complete, where
/// there is one.
#[derive(Debug)]
pub struct MatchedSources {
    pub sources: Vec<RollupSourceSeries>,
    pub stable_end: Option<i64>,
}

/// Matched sources as mathematics.
pub struct MatchedView {
    pub sources: Seq<SourceSeriesView>,
    pub stable_end: Option<i64>,
}

/// The outcome of matching, as mathematics.
pub open spec fn matched_view(matched: Result<MatchedSources, TsinkError>) -> Result<
    MatchedView,
    ErrorView,
> {
    match matched {
        Ok(matched) => Ok(
            MatchedView {
                sources: source_series_view(matched.sources@),
                stable_end: matched.stable_end,
            },
        ),
        Err(error) => Err(error@),
    }
}

/// The source keys of sources.
pub open spec fn source_keys(sources: Seq<SourceSeriesView>) -> Seq<Seq<char>> {
    sources.map_values(|source: SourceSeriesView| source.source_key)
}

/// The pass with the reads of a policy planned.
pub open spec fn with_plan<P>(
    pass: PassView<P>,
    store: StoreView,
    policy: int,
    matched: MatchedView,
) -> PassView<P> {
    let run = pass.runs[policy];
    let id = pass.policies[policy];
    PassView {
        runs: pass.runs.update(
            policy,
            RunView {
                report: PolicyRunReport {
                    matched_series: matched.sources.len() as u64,
                    ..run.report
                },
                source_keys: source_keys(matched.sources),
                ..run
            },
        ),
        generation: generation_of(store, id),
        reads: match matched.stable_end {
            Some(stable_end) => planned_reads(store, id, matched.sources, stable_end),
            None => Seq::empty(),
        },
        ..pass
    }
}

/// The pass after a policy was matched.
pub open spec fn after_matching<P>(
    pass: PassView<P>,
    store: StoreView,
    policy: int,
    started_nanos: u128,
    started_at_ms: u64,
    matched: Result<MatchedView, ErrorView>,
    now: u128,
) -> PassView<P> {
    let started = PassView {
        runs: pass.runs.update(
            policy,
            RunView { started_nanos, started_at_ms, ..pass.runs[policy] },
        ),
        ..pass
    };
    match matched {
        Ok(matched) => to_next_read(with_plan(started, store, policy, matched), policy, now),
        Err(error) => to_next_policy(
            ended(with_failure(started, policy, error), policy, now),
            policy,
        ),
    }
}

/// The outcome of computing buckets, as mathematics.
pub open spec fn buckets_view<P>(buckets: Result<Vec<DataPoint<P>>, TsinkError>) -> Result<
    Seq<DataPoint<P>>,
    ErrorView,
> {
    match buckets {
        Ok(points) => Ok(points@),
        Err(error) => Err(error@),
    }
}

/// The state after a source came up to its end.
pub open spec fn with_checkpoint(
    store: StoreView,
    policy_id: Seq<char>,
    source_key: Seq<char>,
    through: i64,
) -> StoreView {
    StoreView {
        checkpoints: put_at(store.checkpoints, policy_id, source_key, through),
        pending: drop_at(store.pending, policy_id, source_key),
        ..store
    }
}

/// The sum, or the largest number there is.
pub open spec fn capped_sum(a: int, b: int) -> usize {
    if a + b <= usize::MAX {
        (a + b) as usize
    } else {
        usize::MAX
    }
}

/// The item that the buckets of the next read make.
pub open spec fn computed_item<P>(
    pass: PassView<P>,
    policy: int,
    points: Seq<DataPoint<P>>,
) -> PlannedView<P> {
    let read = pass.reads[0];
    PlannedView {
        policy: policy as usize,
        source: read.source,
        pending: PendingRollupMaterialization {
            checkpoint: read.checkpoint,
            materialized_through: read.target_end,
            generation: pass.generation,
        },
        points,
    }
}

/// The pass going on after an item joined the batch. A full batch is persisted first.
pub open spec fn with_item<P>(
    pass: PassView<P>,
    item: PlannedView<P>,
    policy: int,
    now: u128,
) -> PassView<P> {
    let grown = PassView {
        staged: pass.staged.push(item),
        staged_points: capped_sum(pass.staged_points as int, item.points.len() as int),
        ..pass
    };
    if grown.staged_points >= ROLLUP_STAGING_BATCH_POINTS {
        PassView { stage: PassStage::Staging { resume: Some(policy as usize) }, ..grown }
    } else {
        to_next_read(grown, policy, now)
    }
}

/// The item would take the batch at hand over its bound.
pub open spec fn is_too_much<P>(pass: PassView<P>, points: nat) -> bool {
    pass.staged.len() > 0 && pass.staged_points + points > ROLLUP_STAGING_BATCH_POINTS
}

/// The pass and the state after the buckets of a source were computed. A source without
/// buckets is done; others are staged. One that does not fit into the batch at hand is held
/// aside until that batch is done, and a full batch is persisted before going on.
pub open spec fn after_reading<P>(
    pass: PassView<P>,
    store: StoreView,
    policy: int,
    buckets: Result<Seq<DataPoint<P>>, ErrorView>,
    now: u128,
) -> (PassView<P>, StoreView) {
    let read = pass.reads[0];
    let id = pass.policies[policy];
    let rest = PassView { reads: pass.reads.drop_first(), ..pass };
    match buckets {
        Err(error) => (
            to_next_policy(
                ended(
                    with_failure(PassView { reads: Seq::empty(), ..pass }, policy, error),
                    policy,
                    now,
                ),
                policy,
            ),
            store,
        ),
        Ok(points) => if points.len() == 0 {
            let run = rest.runs[policy];
            let changed = PassView {
                runs: rest.runs.update(
                    policy,
                    RunView {
                        report: PolicyRunReport { checkpoint_changed: true, ..run.report },
                        ..run
                    },
                ),
                ..rest
            };
            (
                to_next_read(changed, policy, now),
                with_checkpoint(store, id, read.source.source_key, read.target_end),
            )
        } else {
            let item = computed_item(pass, policy, points);
            if is_too_much(rest, points.len()) {
                (
                    PassView {
                        held: Some(item),
                        stage: PassStage::Staging { resume: Some(policy as usize) },
                        ..rest
                    },
                    store,
                )
            } else {
                (with_item(rest, item, policy, now), store)
            }
        },
    }
}

/// A run that has not begun.
pub open spec fn fresh_run(now: u128) -> RunView {
    RunView {
        started_nanos: now,
        started_at_ms: 0,
        finished_nanos: now,
        report: empty_report(),
        source_keys: Seq::empty(),
        error: None,
    }
}

impl<P> RollupPass<P> {
    /// A pass that begins with the first policy.
    pub fn new(policies: Vec<String>, now: u128) -> (pass: Self)
        ensures
            is_valid(pass@),
            pass@.policies == texts_view(policies@),
            pass@.generation == 0,
            pass@.runs == Seq::new(policies@.len(), |i: int| fresh_run(now)),
            pass@.reads == Seq::<ReadView>::empty(),
            pass@.staged == Seq::<PlannedView<P>>::empty(),
            pass@.held is None,
            pass@.writing == Seq::<PlannedView<P>>::empty(),
            pass@.first_error is None,
            pass@.stage == (if policies@.len() > 0 {
                PassStage::Matching { policy: 0 }
            } else {
                PassStage::Finished
            }),
    {
        let ghost fresh = fresh_run(now);
        let mut runs: Vec<PolicyRun> = Vec::new();
        while runs.len() < policies.len()
            invariant
                runs@.len() <= policies@.len(),
                fresh == fresh_run(now),
                forall|i: int| 0 <= i < runs@.len() ==> (#[trigger] runs@[i])@ == fresh,
            decreases policies@.len() - runs@.len(),
        {
            let run = PolicyRun {
                started_nanos: now,
                started_at_ms: 0,
                finished_nanos: now,
                report: PolicyRunReport::default(),
                source_keys: Vec::new(),
                error: None,
            };
            proof {
                assert(run@ =~= fresh);
            }
            runs.push(run);
        }
        let stage = if policies.len() > 0 {
            PassStage::Matching { policy: 0 }
        } else {
            PassStage::Finished
        };
        let pass = RollupPass {
            policies,
            runs,
            generation: 0,
            reads: Vec::new(),
            staged: Vec::new(),
            staged_points: 0,
            held: None,
            writing: Vec::new(),
            first_error: None,
            stage,
        };
        proof {
            assert(pass@.runs =~= Seq::new(policies@.len(), |i: int| fresh));
            assert(pass@.reads =~= Seq::<ReadView>::empty());
            assert(pass@.staged =~= Seq::<PlannedView<P>>::empty());
            assert(pass@.writing =~= Seq::<PlannedView<P>>::empty());
        }
        pass
    }

    /// What the pass waits for.
    pub fn stage(&self) -> (stage: PassStage)
        ensures
            stage == self@.stage,
    {
        self.stage
    }

    /// The read whose buckets the pass waits for.
    pub fn next_read(&self) -> (read: &PlannedRead)
        requires
            is_valid(self@),
            self@.stage is Reading,
        ensures
            read@ == self@.reads[0],
    {
        proof {
            assert(self@.reads.len() == self.reads@.len());
        }
        &self.reads[self.reads.len() - 1]
    }

    /// The item that the pass waits for to be checked or inserted.
    pub fn next_write(&self) -> (item: &PlannedRollupSource<P>)
        requires
            is_valid(self@),
            is_writing(self@.stage),
        ensures
            item@ == self@.writing[0],
    {
        proof {
            assert(self@.writing.len() == self.writing@.len());
        }
        &self.writing[self.writing.len() - 1]
    }

    fn end(&mut self, policy: usize, now: u128)
        requires
            policy < old(self)@.runs.len(),
        ensures
            final(self)@ == ended(old(self)@, policy as int, now),
    {
        let ghost before = self@;
        self.runs[policy].finished_nanos = now;
        proof {
            assert(self@ =~= ended(before, policy as int, now));
        }
    }

    fn go_to_next_policy(&mut self, policy: usize)
        requires
            policy < old(self)@.policies.len(),
        ensures
            final(self)@ == to_next_policy(old(self)@, policy as int),
    {
        let ghost before = self@;
        let count = self.policies.len();
        if count - policy > 1 {
            self.stage = PassStage::Matching { policy: policy + 1 };
        } else if self.staged.len() > 0 {
            self.stage = PassStage::Staging { resume: None };
        } else {
            self.stage = PassStage::Finished;
        }
        proof {
            assert(self@ =~= to_next_policy(before, policy as int));
        }
    }

    fn go_to_next_read(&mut self, policy: usize, now: u128)
        requires
            policy < old(self)@.policies.len(),
            old(self)@.runs.len() == old(self)@.policies.len(),
        ensures
            final(self)@ == to_next_read(old(self)@, policy as int, now),
    {
        let ghost before = self@;
        proof {
            assert(self@.reads.len() == self.reads@.len());
        }
        if self.runs[policy].error.is_some() || self.reads.len() == 0 {
            self.reads = Vec::new();
            proof {
                assert(self@ =~= PassView { reads: Seq::empty(), ..before });
            }
            self.end(policy, now);
            self.go_to_next_policy(policy);
        } else {
            self.stage = PassStage::Reading { policy };
            proof {
                assert(self@ =~= to_next_read(before, policy as int, now));
            }
        }
    }
}

/// The last reads of the sources, added one by one from the end.
proof fn lemma_reads_from_the_end(
    store: StoreView,
    policy_id: Seq<char>,
    sources: Seq<SourceSeriesView>,
    stable_end: i64,
    n: int,
)
    requires
        0 <= n < sources.len(),
    ensures
        planned_reads(store, policy_id, sources.skip(n), stable_end) == (match planned_read(
            store,
            policy_id,
            sources[n],
            stable_end,
        ) {
            Some(read) => seq![read] + planned_reads(
                store,
                policy_id,
                sources.skip(n + 1),
                stable_end,
            ),
            None => planned_reads(store, policy_id, sources.skip(n + 1), stable_end),
        }),
{
    assert(sources.skip(n).drop_first() =~= sources.skip(n + 1));
    assert(sources.skip(n)[0] == sources[n]);
}

impl<P> RollupPass<P> {
    /// Plans the reads of a policy from the sources that match it.
    pub fn plan_policy(
        &mut self,
        store: &RollupStateStoreContext,
        index: usize,
        matched: MatchedSources,
    )
        requires
            index < old(self)@.policies.len(),
            old(self)@.runs.len() == old(self)@.policies.len(),
        ensures
            final(self)@ == with_plan(
                old(self)@,
                store@,
                index as int,
                MatchedView {
                    sources: source_series_view(matched.sources@),
                    stable_end: matched.stable_end,
                },
            ),
    {
        let ghost before = self@;
        let ghost views = source_series_view(matched.sources@);
        let ghost id = self@.policies[index as int];
        let MatchedSources { sources, stable_end } = matched;
        let matched_series: u64 = sources.len() as u64;
        let mut keys: Vec<String> = Vec::new();
        let mut at: usize = 0;
        while at < sources.len()
            invariant
                at <= sources@.len(),
                views == source_series_view(sources@),
                keys@.len() == at,
                forall|i: int| 0 <= i < at ==> (#[trigger] keys@[i])@ == views[i].source_key,
            decreases sources@.len() - at,
        {
            keys.push(copied(&sources[at].source_key));
            at = at + 1;
        }
        proof {
            assert(texts_view(keys@) =~= source_keys(views));
        }
        self.runs[index].report.matched_series = matched_series;
        self.runs[index].source_keys = keys;
        self.generation = store.policy_generation(self.policies[index].as_str());
        let mut reads: Vec<PlannedRead> = Vec::new();
        match stable_end {
            None => {
                proof {
                    assert(reads_view(reads@).reverse() =~= Seq::<ReadView>::empty());
                }
            },
            Some(stable_end) => {
                let mut sources = sources;
                let policy_id = self.policies[index].as_str();
                proof {
                    assert(views.skip(sources@.len() as int) =~= Seq::<SourceSeriesView>::empty());
                    assert(reads_view(reads@).reverse() =~= Seq::<ReadView>::empty());
                }
                while sources.len() > 0
                    invariant
                        sources@.len() <= views.len(),
                        policy_id@ == id,
                        source_series_view(sources@) == views.take(sources@.len() as int),
                        reads_view(reads@).reverse() == planned_reads(
                            store@,
                            id,
                            views.skip(sources@.len() as int),
                            stable_end,
                        ),
                    decreases sources@.len(),
                {
                    let ghost n = sources@.len() - 1;
                    let ghost old_reads = reads_view(reads@);
                    proof {
                        lemma_reads_from_the_end(store@, id, views, stable_end, n);
                        assert(source_series_view(sources@)[n] == views[n]);
                    }
                    match sources.pop() {
                        Some(source) => {
                            proof {
                                assert(source@ == views[n]);
                                assert(source_series_view(sources@) =~= views.take(n));
                            }
                            let checkpoint = match checkpoint_through(
                                store,
                                policy_id,
                                source.source_key.as_str(),
                            ) {
                                Some(checkpoint) => checkpoint,
                                None => i64::MIN,
                            };
                            let target_end = match pending_materialized_through(
                                store,
                                policy_id,
                                source.source_key.as_str(),
                            ) {
                                Some(through) => {
                                    if through > stable_end {
                                        through
                                    } else {
                                        stable_end
                                    }
                                },
                                None => stable_end,
                            };
                            if checkpoint < target_end {
                                let read = PlannedRead { source, checkpoint, target_end };
                                let ghost view = read@;
                                reads.push(read);
                                proof {
                                    assert(reads_view(reads@) =~= old_reads.push(view));
                                    assert(reads_view(reads@).reverse() =~= seq![view]
                                        + old_reads.reverse());
                                }
                            }
                        },
                        None => {},
                    }
                }
                proof {
                    assert(views.skip(0) =~= views);
                }
            },
        }
        self.reads = reads;
        proof {
            assert(self@ =~= with_plan(
                before,
                store@,
                index as int,
                MatchedView { sources: views, stable_end },
            ));
        }
    }

    /// Starts a policy: takes what matching its sources gave, and plans its reads.
    pub fn run_policy(
        &mut self,
        store: &RollupStateStoreContext,
        started_nanos: u128,
        started_at_ms: u64,
        matched: Result<MatchedSources, TsinkError>,
        now: u128,
    )
        requires
            is_valid(old(self)@),
            old(self)@.stage is Matching,
        ensures
            is_valid(final(self)@),
            final(self)@ == after_matching(
                old(self)@,
                store@,
                old(self)@.stage->Matching_policy as int,
                started_nanos,
                started_at_ms,
                matched_view(matched),
                now,
            ),
    {
        let ghost before = self@;
        let policy = match self.stage {
            PassStage::Matching { policy } => policy,
            _ => 0,
        };
        self.runs[policy].started_nanos = started_nanos;
        self.runs[policy].started_at_ms = started_at_ms;
        let ghost started = PassView {
            runs: before.runs.update(
                policy as int,
                RunView { started_nanos, started_at_ms, ..before.runs[policy as int] },
            ),
            ..before
        };
        proof {
            assert(self@ =~= started);
        }
        match matched {
            Ok(matched) => {
                proof {
                    if matched.stable_end is Some {
                        lemma_reads_have_room(
                            store@,
                            before.policies[policy as int],
                            source_series_view(matched.sources@),
                            matched.stable_end->Some_0,
                        );
                    }
                }
                self.plan_policy(store, policy, matched);
                self.go_to_next_read(policy, now);
            },
            Err(error) => {
                self.fail(policy, error);
                self.end(policy, now);
                self.go_to_next_policy(policy);
            },
        }
    }
}

/// Every planned read has buckets between its ends.
proof fn lemma_reads_have_room(
    store: StoreView,
    policy_id: Seq<char>,
    sources: Seq<SourceSeriesView>,
    stable_end: i64,
)
    ensures
        forall|i: int|
            0 <= i < planned_reads(store, policy_id, sources, stable_end).len()
                ==> (#[trigger] planned_reads(store, policy_id, sources, stable_end)[i]).checkpoint
                < planned_reads(store, policy_id, sources, stable_end)[i].target_end,
    decreases sources.len(),
{
    if sources.len() > 0 {
        let all = planned_reads(store, policy_id, sources, stable_end);
        let rest = planned_reads(store, policy_id, sources.drop_first(), stable_end);
        lemma_reads_have_room(store, policy_id, sources.drop_first(), stable_end);
        assert forall|i: int| 0 <= i < all.len() implies (#[trigger] all[i]).checkpoint
            < all[i].target_end by {
            if planned_read(store, policy_id, sources[0], stable_end) is Some {
                if i > 0 {
                    assert(all[i] == rest[i - 1]);
                }
            } else {
                assert(all[i] == rest[i]);
            }
        }
    }
}

/// The items that go before the first whose policy has not failed are skipped.
pub open spec fn skip_failed<P>(runs: Seq<RunView>, writing: Seq<PlannedView<P>>) -> Seq<
    PlannedView<P>,
>
    decreases writing.len(),
{
    if writing.len() > 0 && runs[writing[0].policy as int].error is Some {
        skip_failed(runs, writing.drop_first())
    } else {
        writing
    }
}

/// The pass going on with a persisted batch: the next item whose policy has not failed is
/// up and, after the last one, what the batch interrupted.
pub open spec fn to_next_write<P>(
    pass: PassView<P>,
    resume: Option<usize>,
    now: u128,
) -> PassView<P> {
    let left = PassView { writing: skip_failed(pass.runs, pass.writing), ..pass };
    if left.writing.len() > 0 {
        PassView { stage: PassStage::Checking { resume }, ..left }
    } else {
        after_batch(left, resume, now)
    }
}

/// The pass going on with what a batch interrupted. An item that was held aside is up next,
/// unless its policy has failed: then it is dropped like everything else of the policy.
pub open spec fn after_batch<P>(
    pass: PassView<P>,
    resume: Option<usize>,
    now: u128,
) -> PassView<P> {
    match resume {
        Some(policy) => if pass.held is Some && pass.runs[policy as int].error is None {
            PassView { stage: PassStage::Resuming { policy }, ..pass }
        } else {
            to_next_read(PassView { held: None, ..pass }, policy as int, now)
        },
        None => PassView { stage: PassStage::Finished, ..pass },
    }
}

/// The pass after the item held aside began a batch.
pub open spec fn after_resuming<P>(pass: PassView<P>, policy: int, now: u128) -> PassView<P> {
    with_item(PassView { held: None, ..pass }, pass.held->Some_0, policy, now)
}

/// The staged items as they are persisted.
pub open spec fn as_staged<P>(policies: Seq<Seq<char>>, items: Seq<PlannedView<P>>) -> Seq<
    StagedView,
> {
    items.map_values(
        |item: PlannedView<P>|
            StagedView {
                policy_id: policies[item.policy as int],
                source_key: item.source.source_key,
                pending: item.pending,
            },
    )
}

/// Some item belongs to the policy.
pub open spec fn has_item_of<P>(items: Seq<PlannedView<P>>, policy: int) -> bool {
    exists|k: int| 0 <= k < items.len() && (#[trigger] items[k]).policy == policy
}

/// The runs after the policies of some items failed together. Their first messages are
/// kept, and their work ended.
pub open spec fn fail_all<P>(
    runs: Seq<RunView>,
    items: Seq<PlannedView<P>>,
    message: Seq<char>,
    now: u128,
) -> Seq<RunView> {
    Seq::new(
        runs.len(),
        |i: int|
            if has_item_of(items, i) {
                RunView {
                    error: if runs[i].error is None {
                        Some(message)
                    } else {
                        runs[i].error
                    },
                    finished_nanos: now,
                    ..runs[i]
                }
            } else {
                runs[i]
            },
    )
}

/// The pass and the state after a batch was persisted, or could not be.
pub open spec fn after_staging<P>(
    pass: PassView<P>,
    store: StoreView,
    resume: Option<usize>,
    persisted: Result<(), ErrorView>,
    now: u128,
) -> (PassView<P>, StoreView) {
    let emptied = PassView { staged: Seq::empty(), staged_points: 0, ..pass };
    match persisted {
        Ok(()) => (
            to_next_write(PassView { writing: pass.staged, ..emptied }, resume, now),
            StoreView {
                pending: staged_onto(store.pending, as_staged(pass.policies, pass.staged)),
                ..store
            },
        ),
        Err(error) => (
            after_batch(
                PassView {
                    runs: fail_all(pass.runs, pass.staged, error_text(error), now),
                    first_error: if pass.first_error is None {
                        Some(error)
                    } else {
                        pass.first_error
                    },
                    ..emptied
                },
                resume,
                now,
            ),
            store,
        ),
    }
}

/// The pass after its next item failed.
pub open spec fn item_failed<P>(
    pass: PassView<P>,
    resume: Option<usize>,
    error: ErrorView,
    now: u128,
) -> PassView<P> {
    let policy = pass.writing[0].policy as int;
    let rest = PassView { writing: pass.writing.drop_first(), ..pass };
    to_next_write(ended(with_failure(rest, policy, error), policy, now), resume, now)
}

/// The sum, or the largest number there is.
pub open spec fn capped_total(a: u64, b: nat) -> u64 {
    if a + b <= u64::MAX {
        (a + b) as u64
    } else {
        u64::MAX
    }
}

/// The pass and the state after its next item was written.
pub open spec fn item_written<P>(
    pass: PassView<P>,
    store: StoreView,
    resume: Option<usize>,
    written: nat,
    now: u128,
) -> (PassView<P>, StoreView) {
    let item = pass.writing[0];
    let policy = item.policy as int;
    let run = pass.runs[policy];
    let counted = PassView {
        runs: pass.runs.update(
            policy,
            RunView {
                report: PolicyRunReport {
                    buckets_materialized: capped_total(run.report.buckets_materialized, written),
                    points_materialized: capped_total(run.report.points_materialized, written),
                    checkpoint_changed: true,
                    ..run.report
                },
                finished_nanos: now,
                ..run
            },
        ),
        writing: pass.writing.drop_first(),
        ..pass
    };
    (
        to_next_write(counted, resume, now),
        with_checkpoint(
            store,
            pass.policies[policy],
            item.source.source_key,
            item.pending.materialized_through,
        ),
    )
}

/// The points whose timestamps are not among `existing`, in order.
pub open spec fn new_points<P>(points: Seq<DataPoint<P>>, existing: Seq<i64>) -> Seq<DataPoint<P>>
    decreases points.len(),
{
    if points.len() == 0 {
        Seq::empty()
    } else {
        let before = new_points(points.drop_last(), existing);
        if existing.contains(points.last().timestamp) {
            before
        } else {
            before.push(points.last())
        }
    }
}

/// The outcome of looking for existing buckets, as mathematics.
pub open spec fn existing_view(existing: Result<Vec<i64>, TsinkError>) -> Result<
    Seq<i64>,
    ErrorView,
> {
    match existing {
        Ok(timestamps) => Ok(timestamps@),
        Err(error) => Err(error@),
    }
}

/// The pass and the state after the existing buckets of its next item were looked up. What
/// is new goes on to be inserted; an item without anything new is written already.
pub open spec fn after_checking<P>(
    pass: PassView<P>,
    store: StoreView,
    resume: Option<usize>,
    existing: Result<Seq<i64>, ErrorView>,
    now: u128,
) -> (PassView<P>, StoreView) {
    match existing {
        Err(error) => (item_failed(pass, resume, error, now), store),
        Ok(timestamps) => {
            let points = new_points(pass.writing[0].points, timestamps);
            let narrowed = PassView {
                writing: pass.writing.update(0, PlannedView { points, ..pass.writing[0] }),
                ..pass
            };
            if points.len() == 0 {
                item_written(narrowed, store, resume, 0, now)
            } else {
                (PassView { stage: PassStage::Inserting { resume }, ..narrowed }, store)
            }
        },
    }
}

/// The pass and the state after the buckets of its next item were inserted, or could not
/// be.
pub open spec fn after_inserting<P>(
    pass: PassView<P>,
    store: StoreView,
    resume: Option<usize>,
    inserted: Result<(), ErrorView>,
    now: u128,
) -> (PassView<P>, StoreView) {
    match inserted {
        Ok(()) => item_written(pass, store, resume, pass.writing[0].points.len(), now),
        Err(error) => (item_failed(pass, resume, error, now), store),
    }
}

/// An outcome as mathematics.
pub open spec fn unit_view(outcome: Result<(), TsinkError>) -> Result<(), ErrorView> {
    match outcome {
        Ok(()) => Ok(()),
        Err(error) => Err(error@),
    }
}

/// `existing` as a quick lookup.
fn timestamp_set(existing: &Vec<i64>) -> (set: BTreeSet<i64>)
    ensures
        forall|timestamp: i64| #[trigger]
            set@.contains(timestamp) <==> existing@.contains(timestamp),
{
    broadcast use vstd::std_specs::btree::group_btree_axioms;

    let mut set: BTreeSet<i64> = BTreeSet::new();
    let mut at: usize = 0;
    while at < existing.len()
        invariant
            at <= existing@.len(),
            forall|timestamp: i64| #[trigger]
                set@.contains(timestamp) <==> existing@.take(at as int).contains(timestamp),
        decreases existing@.len() - at,
    {
        let ghost before = set@;
        set.insert(existing[at]);
        proof {
            let grown = existing@.take(at + 1);
            assert forall|timestamp: i64| #[trigger] set@.contains(timestamp) <==> grown.contains(
                timestamp,
            ) by {
                assert(before.contains(timestamp) <==> existing@.take(at as int).contains(
                    timestamp,
                ));
                if existing@.take(at as int).contains(timestamp) {
                    assert(grown[existing@.take(at as int).index_of(timestamp)] == timestamp);
                }
                assert(grown[at as int] == existing@[at as int]);
                if grown.contains(timestamp) && timestamp != existing@[at as int] {
                    assert(existing@.take(at as int)[grown.index_of(timestamp)] == timestamp);
                }
            }
        }
        at = at + 1;
    }
    proof {
        assert(existing@.take(at as int) =~= existing@);
    }
    set
}

/// Keeps the points whose timestamps are not among `existing`.
pub fn keep_new_points<P>(points: Vec<DataPoint<P>>, existing: &Vec<i64>) -> (kept: Vec<
    DataPoint<P>,
>)
    ensures
        kept@ == new_points(points@, existing@),
{
    broadcast use vstd::std_specs::btree::group_btree_axioms;

    let set = timestamp_set(existing);
    let ghost all = points@;
    let mut points = points;
    let mut reversed: Vec<DataPoint<P>> = Vec::new();
    proof {
        assert(all.take(all.len() as int) =~= all);
        assert(reversed@.reverse() =~= Seq::<DataPoint<P>>::empty());
        assert(new_points(all, existing@) + Seq::<DataPoint<P>>::empty() =~= new_points(
            all,
            existing@,
        ));
    }
    while points.len() > 0
        invariant
            points@.len() <= all.len(),
            points@ == all.take(points@.len() as int),
            forall|timestamp: i64| #[trigger]
                set@.contains(timestamp) <==> existing@.contains(timestamp),
            new_points(points@, existing@) + reversed@.reverse() == new_points(all, existing@),
        decreases points@.len(),
    {
        let ghost before = points@;
        let ghost tail = reversed@;
        match points.pop() {
            Some(point) => {
                proof {
                    assert(before.last() == point);
                    assert(points@ =~= before.drop_last());
                    assert(points@ =~= all.take(points@.len() as int));
                }
                if !set.contains(&point.timestamp) {
                    reversed.push(point);
                    proof {
                        assert(reversed@.reverse() =~= seq![point] + tail.reverse());
                        assert(new_points(points@, existing@) + reversed@.reverse()
                            =~= new_points(before, existing@) + tail.reverse());
                    }
                }
            },
            None => {},
        }
    }
    let mut kept: Vec<DataPoint<P>> = Vec::new();
    let ghost wanted = reversed@.reverse();
    proof {
        assert(Seq::<DataPoint<P>>::empty() + wanted =~= wanted);
    }
    while reversed.len() > 0
        invariant
            kept@ + reversed@.reverse() == wanted,
        decreases reversed@.len(),
    {
        let ghost tail = reversed@;
        let ghost front = kept@;
        match reversed.pop() {
            Some(point) => {
                proof {
                    assert(tail.reverse() =~= seq![point] + reversed@.reverse());
                }
                kept.push(point);
                proof {
                    assert(kept@ + reversed@.reverse() =~= front + tail.reverse());
                }
            },
            None => {},
        }
    }
    proof {
        assert(reversed@.reverse() =~= Seq::<DataPoint<P>>::empty());
        assert(kept@ =~= wanted);
    }
    kept
}

proof fn lemma_skip_failed<P>(runs: Seq<RunView>, writing: Seq<PlannedView<P>>, policies: nat)
    requires
        forall|i: int|
            0 <= i < writing.len() ==> is_item(policies, #[trigger] writing[i]),
    ensures
        skip_failed(runs, writing).len() <= writing.len(),
        forall|i: int|
            0 <= i < skip_failed(runs, writing).len() ==> is_item(
                policies,
                #[trigger] skip_failed(runs, writing)[i],
            ),
        skip_failed(runs, writing).len() > 0 ==> runs[skip_failed(
            runs,
            writing,
        )[0].policy as int].error is None,
    decreases writing.len(),
{
    if writing.len() > 0 && runs[writing[0].policy as int].error is Some {
        let rest = writing.drop_first();
        assert forall|i: int| 0 <= i < rest.len() implies is_item(policies, #[trigger] rest[i]) by {
            assert(rest[i] == writing[i + 1]);
        }
        lemma_skip_failed(runs, rest, policies);
    }
}

/// What holds of a pass that goes on writing.
spec fn is_between_writes<P>(pass: PassView<P>, resume: Option<usize>) -> bool {
    &&& pass.runs.len() == pass.policies.len()
    &&& pass.policies.len() <= usize::MAX
    &&& resume is Some ==> resume->Some_0 < pass.policies.len()
    &&& resume is None ==> pass.reads.len() == 0
    &&& pass.staged.len() == 0
    &&& pass.staged_points == 0
    &&& forall|i: int|
        0 <= i < pass.writing.len() ==> is_item(pass.policies.len(), #[trigger] pass.writing[i])
    &&& forall|i: int|
        0 <= i < pass.reads.len() ==> (#[trigger] pass.reads[i]).checkpoint
            < pass.reads[i].target_end
    &&& pass.held is Some ==> {
        &&& resume == Some(pass.held->Some_0.policy)
        &&& is_item(pass.policies.len(), pass.held->Some_0)
        &&& pass.held->Some_0.points.len() > 0
    }
}

/// What holds of a pass that plans a policy, and of an item that fits into its batch.
spec fn has_room<P>(pass: PassView<P>, item: PlannedView<P>, policy: int) -> bool {
    &&& pass.runs.len() == pass.policies.len()
    &&& pass.policies.len() <= usize::MAX
    &&& 0 <= policy < pass.policies.len()
    &&& forall|i: int|
        0 <= i < pass.staged.len() ==> is_item(pass.policies.len(), #[trigger] pass.staged[i])
            && pass.staged[i].points.len() > 0
    &&& pass.staged_points == points_total(pass.staged)
    &&& pass.staged_points < ROLLUP_STAGING_BATCH_POINTS
    &&& !is_too_much(pass, item.points.len())
    &&& pass.held is None
    &&& pass.writing.len() == 0
    &&& forall|i: int|
        0 <= i < pass.reads.len() ==> (#[trigger] pass.reads[i]).checkpoint
            < pass.reads[i].target_end
    &&& is_item(pass.policies.len(), item)
    &&& item.points.len() > 0
}

proof fn lemma_with_item_valid<P>(
    pass: PassView<P>,
    item: PlannedView<P>,
    policy: int,
    now: u128,
)
    requires
        has_room(pass, item, policy),
    ensures
        is_valid(with_item(pass, item, policy, now)),
{
    let staged = pass.staged.push(item);
    assert(staged.drop_last() =~= pass.staged);
    assert(staged.last() == item);
    assert forall|i: int| 0 <= i < staged.len() implies is_item(
        pass.policies.len(),
        #[trigger] staged[i],
    ) && staged[i].points.len() > 0 by {
        if i < pass.staged.len() {
            assert(staged[i] == pass.staged[i]);
        }
    }
}

proof fn lemma_next_write_valid<P>(pass: PassView<P>, resume: Option<usize>, now: u128)
    requires
        is_between_writes(pass, resume),
    ensures
        is_valid(to_next_write(pass, resume, now)),
{
    lemma_skip_failed(pass.runs, pass.writing, pass.policies.len());
}

impl<P> RollupPass<P> {
    /// Adds an item to the batch at hand.
    fn stage_item(&mut self, item: PlannedRollupSource<P>, policy: usize, now: u128)
        requires
            has_room(old(self)@, item@, policy as int),
        ensures
            is_valid(final(self)@),
            final(self)@ == with_item(old(self)@, item@, policy as int, now),
    {
        let ghost before = self@;
        let ghost view = item@;
        let ghost grown = PassView {
            staged: before.staged.push(view),
            staged_points: capped_sum(before.staged_points as int, view.points.len() as int),
            ..before
        };
        proof {
            lemma_with_item_valid(before, view, policy as int, now);
        }
        self.staged_points = self.staged_points.saturating_add(item.points.len());
        self.staged.push(item);
        proof {
            assert(self@.staged =~= grown.staged);
            assert(self@ =~= grown);
        }
        if self.staged_points >= ROLLUP_STAGING_BATCH_POINTS {
            self.stage = PassStage::Staging { resume: Some(policy) };
            proof {
                assert(self@ =~= PassView {
                    stage: PassStage::Staging { resume: Some(policy) },
                    ..grown
                });
            }
        } else {
            self.go_to_next_read(policy, now);
        }
    }

    fn go_on_after_batch(&mut self, resume: Option<usize>, now: u128)
        requires
            is_between_writes(old(self)@, resume),
            old(self)@.writing.len() == 0,
        ensures
            is_valid(final(self)@),
            final(self)@ == after_batch(old(self)@, resume, now),
    {
        let ghost before = self@;
        match resume {
            Some(policy) => {
                if self.held.is_some() && self.runs[policy].error.is_none() {
                    self.stage = PassStage::Resuming { policy };
                    proof {
                        assert(self@ =~= after_batch(before, resume, now));
                    }
                } else {
                    self.held = None;
                    proof {
                        assert(self@ =~= PassView { held: None, ..before });
                    }
                    self.go_to_next_read(policy, now);
                }
            },
            None => {
                self.stage = PassStage::Finished;
                proof {
                    assert(self@ =~= after_batch(before, resume, now));
                }
            },
        }
    }

    fn go_to_next_write(&mut self, resume: Option<usize>, now: u128)
        requires
            is_between_writes(old(self)@, resume),
        ensures
            final(self)@ == to_next_write(old(self)@, resume, now),
            is_valid(final(self)@),
    {
        let ghost before = self@;
        proof {
            lemma_next_write_valid(before, resume, now);
        }
        while self.writing.len() > 0 && self.runs[self.writing[self.writing.len()
            - 1].policy].error.is_some()
            invariant
                is_between_writes(self@, resume),
                self@ == (PassView { writing: self@.writing, ..before }),
                skip_failed(before.runs, self@.writing) == skip_failed(
                    before.runs,
                    before.writing,
                ),
            decreases self.writing@.len(),
        {
            let ghost current = self@;
            proof {
                assert(current.writing.len() == self.writing@.len());
            }
            self.writing.pop();
            proof {
                assert(self@.writing =~= current.writing.drop_first());
                assert(self@ =~= PassView { writing: self@.writing, ..before });
                assert(self@.reads == current.reads && self@.policies == current.policies);
                assert forall|i: int| 0 <= i < self@.writing.len() implies is_item(
                    self@.policies.len(),
                    #[trigger] self@.writing[i],
                ) by {
                    assert(self@.writing[i] == current.writing[i + 1]);
                }
            }
        }
        proof {
            assert(self@.writing.len() == self.writing@.len());
            if self.writing@.len() > 0 {
                assert(self@.writing[0] == self.writing@[self.writing@.len() - 1]@);
            }
            assert(self@.writing == skip_failed(before.runs, before.writing));
        }
        if self.writing.len() > 0 {
            self.stage = PassStage::Checking { resume };
            proof {
                assert(self@ =~= to_next_write(before, resume, now));
            }
        } else {
            self.go_on_after_batch(resume, now);
        }
    }

    /// Takes the buckets computed for the next read. A source without buckets is done;
    /// others are staged.
    pub fn take_buckets(
        &mut self,
        store: &mut RollupStateStoreContext,
        buckets: Result<Vec<DataPoint<P>>, TsinkError>,
        now: u128,
    )
        requires
            is_valid(old(self)@),
            old(self)@.stage is Reading,
        ensures
            is_valid(final(self)@),
            (final(self)@, final(store)@) == after_reading(
                old(self)@,
                old(store)@,
                old(self)@.stage->Reading_policy as int,
                buckets_view(buckets),
                now,
            ),
    {
        let ghost before = self@;
        let ghost store_before = store@;
        let policy = match self.stage {
            PassStage::Reading { policy } => policy,
            _ => 0,
        };
        proof {
            assert(before.reads.len() == self.reads@.len());
        }
        let points = match buckets {
            Ok(points) => points,
            Err(error) => {
                self.reads = Vec::new();
                proof {
                    assert(self@ =~= PassView { reads: Seq::empty(), ..before });
                }
                self.fail(policy, error);
                self.end(policy, now);
                self.go_to_next_policy(policy);
                return;
            },
        };
        let read = match self.reads.pop() {
            Some(read) => read,
            None => {
                return;
            },
        };
        let ghost rest = PassView { reads: before.reads.drop_first(), ..before };
        proof {
            assert(read@ == before.reads[0]);
            assert(self@.reads =~= rest.reads);
            assert(self@ =~= rest);
            assert forall|i: int| 0 <= i < rest.reads.len() implies (
            #[trigger] rest.reads[i]).checkpoint < rest.reads[i].target_end by {
                assert(rest.reads[i] == before.reads[i + 1]);
            }
        }
        if points.len() == 0 {
            let policy_id = self.policies[policy].as_str();
            store.mark_rollup_checkpoint_in_memory(
                policy_id,
                read.source.source_key.as_str(),
                read.target_end,
            );
            store.clear_pending_rollup_materialization_in_memory(
                policy_id,
                read.source.source_key.as_str(),
            );
            proof {
                assert(store@ =~= with_checkpoint(
                    store_before,
                    before.policies[policy as int],
                    read.source.source_key@,
                    read.target_end,
                ));
            }
            self.runs[policy].report.checkpoint_changed = true;
            proof {
                let run = rest.runs[policy as int];
                let changed = PassView {
                    runs: rest.runs.update(
                        policy as int,
                        RunView {
                            report: PolicyRunReport { checkpoint_changed: true, ..run.report },
                            ..run
                        },
                    ),
                    ..rest
                };
                assert(self@ =~= changed);
            }
            self.go_to_next_read(policy, now);
            return;
        }
        let count = points.len();
        let item = PlannedRollupSource {
            policy,
            source: read.source,
            pending: PendingRollupMaterialization {
                checkpoint: read.checkpoint,
                materialized_through: read.target_end,
                generation: self.generation,
            },
            points,
        };
        if self.staged.len() > 0 && self.staged_points.saturating_add(count)
            > ROLLUP_STAGING_BATCH_POINTS {
            let ghost view = item@;
            self.held = Some(item);
            self.stage = PassStage::Staging { resume: Some(policy) };
            proof {
                assert(self@ =~= PassView {
                    held: Some(view),
                    stage: PassStage::Staging { resume: Some(policy) },
                    ..rest
                });
            }
        } else {
            self.stage_item(item, policy, now);
        }
    }

    /// Lets the item held aside begin the next batch.
    pub fn stage_held(&mut self, now: u128)
        requires
            is_valid(old(self)@),
            old(self)@.stage is Resuming,
        ensures
            is_valid(final(self)@),
            final(self)@ == after_resuming(
                old(self)@,
                old(self)@.stage->Resuming_policy as int,
                now,
            ),
    {
        let ghost before = self@;
        let policy = match self.stage {
            PassStage::Resuming { policy } => policy,
            _ => 0,
        };
        let mut held: Option<PlannedRollupSource<P>> = None;
        core::mem::swap(&mut held, &mut self.held);
        proof {
            assert(self@ =~= PassView { held: None, ..before });
        }
        match held {
            Some(item) => {
                self.stage_item(item, policy, now);
            },
            None => {},
        }
    }

    /// The staged materializations, as they are to be persisted.
    pub fn staged_materializations(&self) -> (staged: Vec<StagedMaterialization>)
        requires
            is_valid(self@),
        ensures
            staged_view(staged@) == as_staged(self@.policies, self@.staged),
    {
        let mut staged: Vec<StagedMaterialization> = Vec::new();
        let mut at: usize = 0;
        while at < self.staged.len()
            invariant
                is_valid(self@),
                at <= self.staged@.len(),
                staged@.len() == at,
                forall|i: int|
                    0 <= i < at ==> (#[trigger] staged@[i])@ == as_staged(
                        self@.policies,
                        self@.staged,
                    )[i],
            decreases self.staged@.len() - at,
        {
            let item = &self.staged[at];
            proof {
                assert(self@.staged[at as int] == item@);
                assert(is_item(self@.policies.len(), self@.staged[at as int]));
            }
            staged.push(
                StagedMaterialization {
                    policy_id: copied(&self.policies[item.policy]),
                    source_key: copied(&item.source.source_key),
                    pending: item.pending,
                },
            );
            at = at + 1;
        }
        proof {
            assert(staged_view(staged@) =~= as_staged(self@.policies, self@.staged));
        }
        staged
    }

    /// Takes the outcome of persisting the staged batch. Once it is persisted its items
    /// are written one after another; otherwise all their policies fail.
    pub fn write_staged(
        &mut self,
        store: &mut RollupStateStoreContext,
        persisted: Result<(), TsinkError>,
        now: u128,
    )
        requires
            is_valid(old(self)@),
            old(self)@.stage is Staging,
        ensures
            is_valid(final(self)@),
            final(self)@.staged == Seq::<PlannedView<P>>::empty(),
            final(self)@.staged_points == 0,
            (final(self)@, final(store)@) == after_staging(
                old(self)@,
                old(store)@,
                old(self)@.stage->Staging_resume,
                unit_view(persisted),
                now,
            ),
    {
        let ghost before = self@;
        let resume = match self.stage {
            PassStage::Staging { resume } => resume,
            _ => None,
        };
        let staged = self.staged_materializations();
        let pending = store.pending_with(&staged);
        let outcome = store.stage_pending_rollup_materializations(pending, persisted);
        let mut items: Vec<PlannedRollupSource<P>> = Vec::new();
        core::mem::swap(&mut items, &mut self.staged);
        self.staged_points = 0;
        let ghost emptied = PassView { staged: Seq::empty(), staged_points: 0, ..before };
        proof {
            assert(planned_view(items@) == before.staged);
            assert(self@.staged =~= Seq::<PlannedView<P>>::empty());
            assert(self@ =~= emptied);
        }
        match outcome {
            Err(error) => {
                let message = error.message();
                let ghost text = error_text(error@);
                let mut at: usize = 0;
                proof {
                    assert(self@.runs =~= fail_all(
                        before.runs,
                        before.staged.take(0),
                        text,
                        now,
                    ));
                }
                while at < items.len()
                    invariant
                        at <= items@.len(),
                        planned_view(items@) == before.staged,
                        message@ == text,
                        before.runs.len() == before.policies.len(),
                        forall|i: int|
                            0 <= i < before.staged.len() ==> is_item(
                                before.policies.len(),
                                #[trigger] before.staged[i],
                            ),
                        emptied == (PassView { staged: Seq::empty(), staged_points: 0, ..before }),
                        self@ == (PassView { runs: self@.runs, ..emptied }),
                        self@.runs == fail_all(
                            before.runs,
                            before.staged.take(at as int),
                            text,
                            now,
                        ),
                    decreases items@.len() - at,
                {
                    let policy = items[at].policy;
                    let ghost runs = self@.runs;
                    let ghost shorter = before.staged.take(at as int);
                    let ghost longer = before.staged.take(at + 1);
                    proof {
                        assert(before.staged[at as int] == items@[at as int]@);
                        assert(is_item(before.policies.len(), before.staged[at as int]));
                        assert(self@.runs.len() == self.runs@.len());
                    }
                    if self.runs[policy].error.is_none() {
                        self.runs[policy].error = Some(copied(&message));
                    }
                    self.runs[policy].finished_nanos = now;
                    proof {
                        assert(longer[at as int].policy == policy);
                        assert forall|i: int| 0 <= i < runs.len() implies self@.runs[i] == fail_all(
                            before.runs,
                            longer,
                            text,
                            now,
                        )[i] by {
                            assert(has_item_of(longer, i) <==> has_item_of(shorter, i) || i
                                == policy) by {
                                if has_item_of(shorter, i) {
                                    let k = choose|k: int|
                                        0 <= k < shorter.len() && (#[trigger] shorter[k]).policy
                                            == i;
                                    assert(longer[k].policy == i);
                                }
                                if has_item_of(longer, i) {
                                    let k = choose|k: int|
                                        0 <= k < longer.len() && (#[trigger] longer[k]).policy == i;
                                    if k < at {
                                        assert(shorter[k].policy == i);
                                    }
                                }
                            }
                            assert(runs[i] == fail_all(before.runs, shorter, text, now)[i]);
                            assert(self@.runs[i] =~= fail_all(before.runs, longer, text, now)[i]);
                        }
                        assert(self@.runs =~= fail_all(before.runs, longer, text, now));
                        assert(self@ =~= PassView { runs: self@.runs, ..emptied });
                    }
                    at = at + 1;
                }
                proof {
                    assert(before.staged.take(at as int) =~= before.staged);
                }
                if self.first_error.is_none() {
                    self.first_error = Some(error);
                }
                proof {
                    assert(self@ =~= PassView {
                        runs: fail_all(before.runs, before.staged, text, now),
                        first_error: if before.first_error is None {
                            Some(error@)
                        } else {
                            before.first_error
                        },
                        ..emptied
                    });
                }
                self.go_on_after_batch(resume, now);
            },
            Ok(()) => {
                let ghost batch = items@;
                while items.len() > 0
                    invariant
                        planned_view(batch) == before.staged,
                        items@.len() <= batch.len(),
                        items@ == batch.take(items@.len() as int),
                        self@ == (PassView { writing: self@.writing, ..emptied }),
                        self@.writing == planned_view(batch.skip(items@.len() as int)),
                        self.writing@.len() + items@.len() == batch.len(),
                    decreases items@.len(),
                {
                    let ghost n = items@.len() - 1;
                    let ghost writing = self@.writing;
                    match items.pop() {
                        Some(item) => {
                            let ghost view = item@;
                            proof {
                                assert(item == batch[n]);
                                assert(items@ =~= batch.take(n));
                            }
                            self.writing.push(item);
                            proof {
                                assert(self@.writing =~= seq![view] + writing);
                                assert(batch.skip(n) =~= seq![item] + batch.skip(n + 1));
                                assert(self@.writing =~= planned_view(batch.skip(n)));
                                assert(self@ =~= PassView { writing: self@.writing, ..emptied });
                            }
                        },
                        None => {},
                    }
                }
                proof {
                    assert(batch.skip(0) =~= batch);
                    assert(self@ =~= PassView { writing: before.staged, ..emptied });
                }
                self.go_to_next_write(resume, now);
            },
        }
    }
}

impl<P> RollupPass<P> {
    /// Takes the next item of the batch out.
    fn take_item(&mut self) -> (item: Option<PlannedRollupSource<P>>)
        requires
            is_valid(old(self)@),
            is_writing(old(self)@.stage),
        ensures
            item is Some,
            item->Some_0@ == old(self)@.writing[0],
            final(self)@ == (PassView { writing: old(self)@.writing.drop_first(), ..old(self)@ }),
    {
        let ghost before = self@;
        proof {
            assert(before.writing.len() == self.writing@.len());
        }
        let item = self.writing.pop();
        proof {
            assert(self@.writing =~= before.writing.drop_first());
            assert(self@ =~= PassView { writing: before.writing.drop_first(), ..before });
        }
        item
    }

    /// Notes that an item was written, which is out of the batch already.
    fn complete_item(
        &mut self,
        store: &mut RollupStateStoreContext,
        item: &PlannedRollupSource<P>,
        resume: Option<usize>,
        written: usize,
        now: u128,
        pass: Ghost<PassView<P>>,
    )
        requires
            is_valid(pass@),
            is_writing(pass@.stage),
            planning(pass@.stage) == resume,
            pass@.writing[0] == item@,
            old(self)@ == (PassView { writing: pass@.writing.drop_first(), ..pass@ }),
        ensures
            is_valid(final(self)@),
            (final(self)@, final(store)@) == item_written(
                pass@,
                old(store)@,
                resume,
                written as nat,
                now,
            ),
    {
        let ghost before = self@;
        let ghost store_before = store@;
        let policy = item.policy;
        let ghost run = before.runs[policy as int];
        proof {
            assert(is_item(pass@.policies.len(), pass@.writing[0]));
            assert(before.runs.len() == self.runs@.len());
            assert(before.policies.len() == self.policies@.len());
        }
        let report = self.runs[policy].report;
        self.runs[policy].report = PolicyRunReport {
            matched_series: report.matched_series,
            materialized_series: report.materialized_series,
            materialized_through: report.materialized_through,
            buckets_materialized: report.buckets_materialized.saturating_add(written as u64),
            points_materialized: report.points_materialized.saturating_add(written as u64),
            checkpoint_changed: true,
        };
        self.runs[policy].finished_nanos = now;
        let policy_id = self.policies[policy].as_str();
        store.mark_rollup_checkpoint_in_memory(
            policy_id,
            item.source.source_key.as_str(),
            item.pending.materialized_through,
        );
        store.clear_pending_rollup_materialization_in_memory(
            policy_id,
            item.source.source_key.as_str(),
        );
        proof {
            let counted = PassView {
                runs: before.runs.update(
                    policy as int,
                    RunView {
                        report: PolicyRunReport {
                            buckets_materialized: capped_total(
                                run.report.buckets_materialized,
                                written as nat,
                            ),
                            points_materialized: capped_total(
                                run.report.points_materialized,
                                written as nat,
                            ),
                            checkpoint_changed: true,
                            ..run.report
                        },
                        finished_nanos: now,
                        ..run
                    },
                ),
                ..before
            };
            assert(self@.runs =~= counted.runs);
            assert(self@ =~= counted);
            assert(store@ =~= with_checkpoint(
                store_before,
                before.policies[policy as int],
                item.source.source_key@,
                item.pending.materialized_through,
            ));
            lemma_rest_is_between(pass@, resume);
        }
        self.go_to_next_write(resume, now);
    }

    /// Notes that an item failed, which is out of the batch already.
    fn drop_item(
        &mut self,
        policy: usize,
        resume: Option<usize>,
        error: TsinkError,
        now: u128,
        pass: Ghost<PassView<P>>,
    )
        requires
            is_valid(pass@),
            is_writing(pass@.stage),
            planning(pass@.stage) == resume,
            pass@.writing[0].policy == policy,
            old(self)@ == (PassView { writing: pass@.writing.drop_first(), ..pass@ }),
        ensures
            is_valid(final(self)@),
            final(self)@ == item_failed(pass@, resume, error@, now),
    {
        proof {
            assert(is_item(pass@.policies.len(), pass@.writing[0]));
            lemma_rest_is_between(pass@, resume);
        }
        self.fail(policy, error);
        self.end(policy, now);
        self.go_to_next_write(resume, now);
    }

    /// Takes the timestamps of the buckets that the store has of the next item already.
    /// Only the others are inserted; an item without others counts as written.
    pub fn write_planned(
        &mut self,
        store: &mut RollupStateStoreContext,
        existing: Result<Vec<i64>, TsinkError>,
        now: u128,
    )
        requires
            is_valid(old(self)@),
            old(self)@.stage is Checking,
        ensures
            is_valid(final(self)@),
            (final(self)@, final(store)@) == after_checking(
                old(self)@,
                old(store)@,
                old(self)@.stage->Checking_resume,
                existing_view(existing),
                now,
            ),
    {
        let ghost before = self@;
        let resume = match self.stage {
            PassStage::Checking { resume } => resume,
            _ => None,
        };
        let item = match self.take_item() {
            Some(item) => item,
            None => {
                return;
            },
        };
        let timestamps = match existing {
            Ok(timestamps) => timestamps,
            Err(error) => {
                self.drop_item(item.policy, resume, error, now, Ghost(before));
                return;
            },
        };
        let PlannedRollupSource { policy, source, pending, points } = item;
        let points = keep_new_points(points, &timestamps);
        let item = PlannedRollupSource { policy, source, pending, points };
        let ghost narrowed = PassView {
            writing: before.writing.update(
                0,
                PlannedView { points: points@, ..before.writing[0] },
            ),
            ..before
        };
        proof {
            assert(item@ =~= narrowed.writing[0]);
            assert(narrowed.writing.drop_first() =~= before.writing.drop_first());
            assert(is_valid(narrowed)) by {
                assert forall|i: int| 0 <= i < narrowed.writing.len() implies is_item(
                    narrowed.policies.len(),
                    #[trigger] narrowed.writing[i],
                ) by {
                    assert(is_item(before.policies.len(), before.writing[i]));
                }
            }
        }
        if item.points.len() == 0 {
            self.complete_item(store, &item, resume, 0, now, Ghost(narrowed));
        } else {
            let ghost rest = self@;
            self.writing.push(item);
            self.stage = PassStage::Inserting { resume };
            proof {
                assert(self@.writing =~= seq![item@] + rest.writing);
                assert(self@.writing =~= narrowed.writing);
                assert(self@ =~= PassView {
                    stage: PassStage::Inserting { resume },
                    ..narrowed
                });
            }
        }
    }

    /// Takes the outcome of inserting the buckets of the next item.
    pub fn rows_inserted(
        &mut self,
        store: &mut RollupStateStoreContext,
        inserted: Result<(), TsinkError>,
        now: u128,
    )
        requires
            is_valid(old(self)@),
            old(self)@.stage is Inserting,
        ensures
            is_valid(final(self)@),
            (final(self)@, final(store)@) == after_inserting(
                old(self)@,
                old(store)@,
                old(self)@.stage->Inserting_resume,
                unit_view(inserted),
                now,
            ),
    {
        let ghost before = self@;
        let resume = match self.stage {
            PassStage::Inserting { resume } => resume,
            _ => None,
        };
        let item = match self.take_item() {
            Some(item) => item,
            None => {
                return;
            },
        };
        match inserted {
            Ok(()) => {
                let written = item.points.len();
                self.complete_item(store, &item, resume, written, now, Ghost(before));
            },
            Err(error) => {
                self.drop_item(item.policy, resume, error, now, Ghost(before));
            },
        }
    }
}

/// Taking an item out of a batch leaves the rest in order.
proof fn lemma_rest_is_between<P>(pass: PassView<P>, resume: Option<usize>)
    requires
        is_valid(pass),
        is_writing(pass.stage),
        planning(pass.stage) == resume,
    ensures
        is_between_writes(PassView { writing: pass.writing.drop_first(), ..pass }, resume),
{
    let rest = pass.writing.drop_first();
    assert forall|i: int| 0 <= i < rest.len() implies is_item(
        pass.policies.len(),
        #[trigger] rest[i],
    ) by {
        assert(rest[i] == pass.writing[i + 1]);
    }
}

/// Counters that the rollup worker keeps. They start over when they overflow.
#[derive(Debug, Clone, Copy, PartialEq, Eq, Structural)]
pub struct RollupObservabilityCounters {
    pub worker_runs_total: u64,
    pub worker_success_total: u64,
    pub worker_errors_total: u64,
    pub policy_runs_total: u64,
    pub buckets_materialized_total: u64,
    pub points_materialized_total: u64,
    pub last_run_duration_nanos: u64,
}

/// A sum that starts over when it overflows.
pub open spec fn wrapped_sum(a: u64, b: u64) -> u64 {
    if a + b <= u64::MAX {
        (a + b) as u64
    } else {
        (a + b - 0x1_0000_0000_0000_0000) as u64
    }
}

/// Up to where each of the sources is written, for those that are at all.
pub open spec fn written_through(
    checkpoints: Map<Seq<char>, Map<Seq<char>, i64>>,
    policy_id: Seq<char>,
    keys: Seq<Seq<char>>,
) -> Seq<i64>
    decreases keys.len(),
{
    if keys.len() == 0 {
        Seq::empty()
    } else {
        let before = written_through(checkpoints, policy_id, keys.drop_last());
        match at_keys(checkpoints, policy_id, keys.last()) {
            Some(through) => before.push(through),
            None => before,
        }
    }
}

/// The least of some numbers.
pub open spec fn least(values: Seq<i64>) -> Option<i64>
    decreases values.len(),
{
    if values.len() == 0 {
        None
    } else {
        match least(values.drop_last()) {
            Some(least) => if least <= values.last() {
                Some(least)
            } else {
                Some(values.last())
            },
            None => Some(values.last()),
        }
    }
}

/// How long a policy ran, in nanoseconds.
pub open spec fn run_nanos(run: RunView) -> u64 {
    if run.finished_nanos <= run.started_nanos {
        0
    } else if run.finished_nanos - run.started_nanos <= u64::MAX {
        (run.finished_nanos - run.started_nanos) as u64
    } else {
        u64::MAX
    }
}

/// What is recorded of a policy's run: its report with how far its sources are written, or
/// an empty report with the message of its failure.
pub open spec fn recorded_run(
    run: RunView,
    policy_id: Seq<char>,
    checkpoints: Map<Seq<char>, Map<Seq<char>, i64>>,
) -> RunStateView {
    let written = written_through(checkpoints, policy_id, run.source_keys);
    RunStateView {
        matched_series: if run.error is None {
            run.report.matched_series
        } else {
            0
        },
        materialized_series: if run.error is None {
            capped_total(0, written.len())
        } else {
            0
        },
        materialized_through: if run.error is None {
            least(written)
        } else {
            None
        },
        last_run_started_at_ms: Some(run.started_at_ms),
        last_run_completed_at_ms: Some(
            capped_total(run.started_at_ms, (run_nanos(run) / 1_000_000) as nat),
        ),
        last_run_duration_nanos: run_nanos(run),
        last_error: run.error,
    }
}

/// The run states with those of the first `n` policies recorded.
pub open spec fn recorded_runs<P>(
    pass: PassView<P>,
    store: StoreView,
    n: nat,
) -> Map<Seq<char>, RunStateView>
    decreases n,
{
    if n == 0 {
        store.stats
    } else {
        let at = (n - 1) as int;
        recorded_runs(pass, store, (n - 1) as nat).insert(
            pass.policies[at],
            recorded_run(pass.runs[at], pass.policies[at], store.checkpoints),
        )
    }
}

/// The counters with the buckets and points of the first `n` policies added.
pub open spec fn counted_runs(
    runs: Seq<RunView>,
    counters: RollupObservabilityCounters,
    n: nat,
) -> RollupObservabilityCounters
    decreases n,
{
    if n == 0 {
        counters
    } else {
        let before = counted_runs(runs, counters, (n - 1) as nat);
        let report = runs[n - 1].report;
        RollupObservabilityCounters {
            buckets_materialized_total: wrapped_sum(
                before.buckets_materialized_total,
                report.buckets_materialized,
            ),
            points_materialized_total: wrapped_sum(
                before.points_materialized_total,
                report.points_materialized,
            ),
            ..before
        }
    }
}

/// Some checkpoint moved in the pass.
pub open spec fn moved_checkpoints<P>(pass: PassView<P>) -> bool {
    exists|i: int| 0 <= i < pass.runs.len() && (#[trigger] pass.runs[i]).report.checkpoint_changed
}

/// How many of the sources are written at all, and up to where all of those are.
fn progress(store: &RollupStateStoreContext, policy_id: &str, keys: &Vec<String>) -> (result: (
    u64,
    Option<i64>,
))
    ensures
        result.0 == capped_total(
            0,
            written_through(store@.checkpoints, policy_id@, texts_view(keys@)).len(),
        ),
        result.1 == least(written_through(store@.checkpoints, policy_id@, texts_view(keys@))),
{
    let ghost views = texts_view(keys@);
    let mut count: u64 = 0;
    let mut min_through: Option<i64> = None;
    let mut at: usize = 0;
    while at < keys.len()
        invariant
            at <= keys@.len(),
            views == texts_view(keys@),
            count == capped_total(
                0,
                written_through(store@.checkpoints, policy_id@, views.take(at as int)).len(),
            ),
            min_through == least(
                written_through(store@.checkpoints, policy_id@, views.take(at as int)),
            ),
        decreases keys@.len() - at,
    {
        let ghost before = written_through(store@.checkpoints, policy_id@, views.take(at as int));
        proof {
            assert(views.take(at + 1).drop_last() =~= views.take(at as int));
            assert(views.take(at + 1).last() == keys@[at as int]@);
        }
        match checkpoint_through(store, policy_id, keys[at].as_str()) {
            Some(through) => {
                proof {
                    assert(before.push(through).drop_last() =~= before);
                }
                count = count.saturating_add(1);
                min_through = match min_through {
                    Some(current) => {
                        if current <= through {
                            Some(current)
                        } else {
                            Some(through)
                        }
                    },
                    None => Some(through),
                };
            },
            None => {},
        }
        at = at + 1;
    }
    proof {
        assert(views.take(at as int) =~= views);
    }
    (count, min_through)
}

/// How long something took, in nanoseconds.
pub fn nanos_between(started: u128, finished: u128) -> (nanos: u64)
    ensures
        nanos == (if finished <= started {
            0
        } else if finished - started <= u64::MAX {
            finished - started
        } else {
            u64::MAX as int
        }),
{
    if finished <= started {
        0
    } else if finished - started <= 0xffff_ffff_ffff_ffff {
        (finished - started) as u64
    } else {
        0xffff_ffff_ffff_ffff
    }
}

/// A sum that starts over when it overflows.
pub fn wrapping_sum(a: u64, b: u64) -> (sum: u64)
    ensures
        sum == wrapped_sum(a, b),
{
    a.wrapping_add(b)
}

impl<P> RollupPass<P> {
    /// Records how every policy's run went. Tells whether any checkpoint moved, and the
    /// first error of the pass.
    pub fn finish(
        self,
        store: &mut RollupStateStoreContext,
        observability: &mut RollupObservabilityCounters,
    ) -> (result: (bool, Option<TsinkError>))
        requires
            is_valid(self@),
            self@.stage is Finished,
        ensures
            result.0 == moved_checkpoints(self@),
            error_view(result.1) == self@.first_error,
            final(store)@ == (StoreView {
                stats: recorded_runs(self@, old(store)@, self@.policies.len()),
                ..old(store)@
            }),
            *final(observability) == counted_runs(
                self@.runs,
                *old(observability),
                self@.policies.len(),
            ),
    {
        let ghost pass = self@;
        let ghost before = store@;
        let mut dirty = false;
        let mut at: usize = 0;
        proof {
            assert(self.policies@.len() == pass.policies.len());
            assert(self.runs@.len() == pass.runs.len());
            assert(store@ =~= StoreView { stats: recorded_runs(pass, before, 0), ..before });
        }
        while at < self.policies.len()
            invariant
                pass == self@,
                self.policies@.len() == pass.policies.len(),
                self.runs@.len() == pass.runs.len(),
                pass.runs.len() == pass.policies.len(),
                at <= self.policies@.len(),
                dirty == (exists|i: int|
                    0 <= i < at && (#[trigger] pass.runs[i]).report.checkpoint_changed),
                store@ == (StoreView { stats: recorded_runs(pass, before, at as nat), ..before }),
                *observability == counted_runs(pass.runs, *old(observability), at as nat),
            decreases self.policies@.len() - at,
        {
            let run = &self.runs[at];
            let policy_id = self.policies[at].as_str();
            proof {
                assert(run@ == pass.runs[at as int]);
                assert(policy_id@ == pass.policies[at as int]);
            }
            dirty = dirty || run.report.checkpoint_changed;
            observability.buckets_materialized_total =
                wrapping_sum(
                observability.buckets_materialized_total,
                run.report.buckets_materialized,
            );
            observability.points_materialized_total =
                wrapping_sum(
                observability.points_materialized_total,
                run.report.points_materialized,
            );
            let (materialized_series, materialized_through) = progress(
                store,
                policy_id,
                &run.source_keys,
            );
            let duration_nanos = nanos_between(run.started_nanos, run.finished_nanos);
            let completed_at_ms = run.started_at_ms.saturating_add(duration_nanos / 1_000_000);
            match &run.error {
                None => {
                    let report = PolicyRunReport {
                        matched_series: run.report.matched_series,
                        materialized_series,
                        materialized_through,
                        buckets_materialized: run.report.buckets_materialized,
                        points_materialized: run.report.points_materialized,
                        checkpoint_changed: run.report.checkpoint_changed,
                    };
                    store.set_rollup_policy_run_state(
                        policy_id,
                        &report,
                        run.started_at_ms,
                        completed_at_ms,
                        duration_nanos,
                        None,
                    );
                },
                Some(error) => {
                    store.set_rollup_policy_run_state(
                        policy_id,
                        &PolicyRunReport::default(),
                        run.started_at_ms,
                        completed_at_ms,
                        duration_nanos,
                        Some(copied(error)),
                    );
                },
            }
            proof {
                assert(store@ =~= StoreView {
                    stats: recorded_runs(pass, before, (at + 1) as nat),
                    ..before
                });
            }
            at = at + 1;
        }
        (dirty, self.first_error)
    }
}

} // verus!
