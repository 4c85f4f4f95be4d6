//! The state that rollups keep between passes.
use crate::error::TsinkError;
use crate::rollups::nested::{
    at_keys, copied_nested, drop_at, drop_nested, get_nested, nested, put_at, put_nested,
};
use crate::text_map::TextMap;
use vstd::prelude::*;
use vstd::string::StringExecFns;

verus! {

/// Buckets of a source that are about to be written: those from `checkpoint` up to
/// `materialized_through`.
#[derive(Debug, Clone, Copy, PartialEq, Eq, Structural)]
pub struct PendingRollupMaterialization {
    pub checkpoint: i64,
    pub materialized_through: i64,
    pub generation: u64,
}

/// What one policy did in a pass.
#[derive(Debug, Clone, Copy, PartialEq, Eq, Structural)]
pub struct PolicyRunReport {
    pub matched_series: u64,
    pub materialized_series: u64,
    pub materialized_through: Option<i64>,
    pub buckets_materialized: u64,
    pub points_materialized: u64,
    pub checkpoint_changed: bool,
}

/// The report of a policy that did nothing.
pub open spec fn empty_report() -> PolicyRunReport {
    PolicyRunReport {
        matched_series: 0,
        materialized_series: 0,
        materialized_through: None,
        buckets_materialized: 0,
        points_materialized: 0,
        checkpoint_changed: false,
    }
}

impl Default for PolicyRunReport {
    fn default() -> (report: Self)
        ensures
            report == empty_report(),
    {
        PolicyRunReport {
            matched_series: 0,
            materialized_series: 0,
            materialized_through: None,
            buckets_materialized: 0,
            points_materialized: 0,
            checkpoint_changed: false,
        }
    }
}

/// How the last run of a policy went.
#[derive(Debug)]
pub struct RollupPolicyRunState {
    pub matched_series: u64,
    pub materialized_series: u64,
    pub materialized_through: Option<i64>,
    pub last_run_started_at_ms: Option<u64>,
    pub last_run_completed_at_ms: Option<u64>,
    pub last_run_duration_nanos: u64,
    pub last_error: Option<String>,
}

/// How the last run of a policy went, as mathematics.
pub struct RunStateView {
    pub matched_series: u64,
    pub materialized_series: u64,
    pub materialized_through: Option<i64>,
    pub last_run_started_at_ms: Option<u64>,
    pub last_run_completed_at_ms: Option<u64>,
    pub last_run_duration_nanos: u64,
    pub last_error: Option<Seq<char>>,
}

/// A text that may be missing, as mathematics.
pub open spec fn text_view(text: Option<String>) -> Option<Seq<char>> {
    match text {
        Some(text) => Some(text@),
        None => None,
    }
}

impl View for RollupPolicyRunState {
    type V = RunStateView;

    open spec fn view(&self) -> RunStateView {
        RunStateView {
            matched_series: self.matched_series,
            materialized_series: self.materialized_series,
            materialized_through: self.materialized_through,
            last_run_started_at_ms: self.last_run_started_at_ms,
            last_run_completed_at_ms: self.last_run_completed_at_ms,
            last_run_duration_nanos: self.last_run_duration_nanos,
            last_error: text_view(self.last_error),
        }
    }
}

/// Checkpoints, generations, pending materializations and run states of all policies.
pub struct RollupStateStoreContext {
    /// Per policy and source: up to where buckets are written.
    pub checkpoints: TextMap<TextMap<i64>>,
    /// Per policy: the generation of its rollup series.
    pub generations: TextMap<u64>,
    /// Per policy and source: the buckets that are about to be written.
    pub pending_materializations: TextMap<TextMap<PendingRollupMaterialization>>,
    /// Per policy: how its last run went.
    pub policy_stats: TextMap<RollupPolicyRunState>,
}

/// The state as mathematics.
#[verifier::ext_equal]
pub struct StoreView {
    pub checkpoints: Map<Seq<char>, Map<Seq<char>, i64>>,
    pub generations: Map<Seq<char>, u64>,
    pub pending: Map<Seq<char>, Map<Seq<char>, PendingRollupMaterialization>>,
    pub stats: Map<Seq<char>, RunStateView>,
}

impl View for RollupStateStoreContext {
    type V = StoreView;

    open spec fn view(&self) -> StoreView {
        StoreView {
            checkpoints: nested(self.checkpoints@),
            generations: self.generations@,
            pending: nested(self.pending_materializations@),
            stats: self.policy_stats@.map_values(|state: RollupPolicyRunState| state@),
        }
    }
}

/// A materialization to stage, with its policy and its source.
pub struct StagedMaterialization {
    pub policy_id: String,
    pub source_key: String,
    pub pending: PendingRollupMaterialization,
}

/// A materialization to stage, as mathematics.
pub struct StagedView {
    pub policy_id: Seq<char>,
    pub source_key: Seq<char>,
    pub pending: PendingRollupMaterialization,
}

impl View for StagedMaterialization {
    type V = StagedView;

    open spec fn view(&self) -> StagedView {
        StagedView {
            policy_id: self.policy_id@,
            source_key: self.source_key@,
            pending: self.pending,
        }
    }
}

/// Materializations to stage, as mathematics.
pub open spec fn staged_view(staged: Seq<StagedMaterialization>) -> Seq<StagedView> {
    staged.map_values(|one: StagedMaterialization| one@)
}

/// The pending materializations with a batch put in, one after another.
pub open spec fn staged_onto(
    pending: Map<Seq<char>, Map<Seq<char>, PendingRollupMaterialization>>,
    batch: Seq<StagedView>,
) -> Map<Seq<char>, Map<Seq<char>, PendingRollupMaterialization>>
    decreases batch.len(),
{
    if batch.len() == 0 {
        pending
    } else {
        let last = batch.last();
        put_at(
            staged_onto(pending, batch.drop_last()),
            last.policy_id,
            last.source_key,
            last.pending,
        )
    }
}

impl RollupStateStoreContext {
    /// State without any policy.
    pub fn new() -> (store: Self)
        ensures
            store@.checkpoints == Map::<Seq<char>, Map<Seq<char>, i64>>::empty(),
            store@.generations == Map::<Seq<char>, u64>::empty(),
            store@.pending == Map::<
                Seq<char>,
                Map<Seq<char>, PendingRollupMaterialization>,
            >::empty(),
            store@.stats == Map::<Seq<char>, RunStateView>::empty(),
    {
        let store = RollupStateStoreContext {
            checkpoints: TextMap::new(),
            generations: TextMap::new(),
            pending_materializations: TextMap::new(),
            policy_stats: TextMap::new(),
        };
        proof {
            assert(store@.checkpoints =~= Map::empty());
            assert(store@.pending =~= Map::empty());
            assert(store@.stats =~= Map::empty());
        }
        store
    }

    /// The pending materializations as they are to be persisted for a batch.
    pub fn pending_with(&self, staged: &Vec<StagedMaterialization>) -> (pending: TextMap<
        TextMap<PendingRollupMaterialization>,
    >)
        ensures
            nested(pending@) == staged_onto(self@.pending, staged_view(staged@)),
    {
        let ghost views = staged_view(staged@);
        let mut pending = copied_nested(&self.pending_materializations);
        let mut at: usize = 0;
        proof {
            assert(views.take(0) =~= Seq::<StagedView>::empty());
        }
        while at < staged.len()
            invariant
                at <= staged@.len(),
                views == staged_view(staged@),
                nested(pending@) == staged_onto(self@.pending, views.take(at as int)),
            decreases staged@.len() - at,
        {
            put_nested(
                &mut pending,
                staged[at].policy_id.as_str(),
                staged[at].source_key.as_str(),
                staged[at].pending,
            );
            proof {
                assert(views.take(at + 1).drop_last() =~= views.take(at as int));
                assert(views.take(at + 1).last() == staged@[at as int]@);
            }
            at = at + 1;
        }
        proof {
            assert(views.take(at as int) =~= views);
        }
        pending
    }

    /// Takes the pending materializations of a batch over once they are persisted. Where
    /// persisting failed, nothing changes.
    pub fn stage_pending_rollup_materializations(
        &mut self,
        pending: TextMap<TextMap<PendingRollupMaterialization>>,
        persisted: Result<(), TsinkError>,
    ) -> (outcome: Result<(), TsinkError>)
        ensures
            outcome == persisted,
            final(self)@ == (match persisted {
                Ok(()) => StoreView { pending: nested(pending@), ..old(self)@ },
                Err(_) => old(self)@,
            }),
    {
        if persisted.is_ok() {
            self.pending_materializations = pending;
        }
        persisted
    }

    /// Notes up to where the buckets of a source are written.
    pub fn mark_rollup_checkpoint_in_memory(
        &mut self,
        policy_id: &str,
        source_key: &str,
        materialized_through: i64,
    )
        ensures
            final(self)@ == (StoreView {
                checkpoints: put_at(
                    old(self)@.checkpoints,
                    policy_id@,
                    source_key@,
                    materialized_through,
                ),
                ..old(self)@
            }),
    {
        put_nested(&mut self.checkpoints, policy_id, source_key, materialized_through);
    }

    /// Forgets the pending materialization of a source.
    pub fn clear_pending_rollup_materialization_in_memory(
        &mut self,
        policy_id: &str,
        source_key: &str,
    )
        ensures
            final(self)@ == (StoreView {
                pending: drop_at(old(self)@.pending, policy_id@, source_key@),
                ..old(self)@
            }),
    {
        drop_nested(&mut self.pending_materializations, policy_id, source_key);
    }

    /// The generation of a policy.
    pub fn policy_generation(&self, policy_id: &str) -> (generation: u64)
        ensures
            generation == generation_of(self@, policy_id@),
    {
        match self.generations.get(policy_id) {
            Some(generation) => *generation,
            None => 0,
        }
    }

    /// Records how a run of a policy went.
    pub fn set_rollup_policy_run_state(
        &mut self,
        policy_id: &str,
        report: &PolicyRunReport,
        started_at_ms: u64,
        completed_at_ms: u64,
        duration_nanos: u64,
        error: Option<String>,
    )
        ensures
            final(self)@ == (StoreView {
                stats: old(self)@.stats.insert(
                    policy_id@,
                    RunStateView {
                        matched_series: report.matched_series,
                        materialized_series: report.materialized_series,
                        materialized_through: report.materialized_through,
                        last_run_started_at_ms: Some(started_at_ms),
                        last_run_completed_at_ms: Some(completed_at_ms),
                        last_run_duration_nanos: duration_nanos,
                        last_error: text_view(error),
                    },
                ),
                ..old(self)@
            }),
    {
        let state = RollupPolicyRunState {
            matched_series: report.matched_series,
            materialized_series: report.materialized_series,
            materialized_through: report.materialized_through,
            last_run_started_at_ms: Some(started_at_ms),
            last_run_completed_at_ms: Some(completed_at_ms),
            last_run_duration_nanos: duration_nanos,
            last_error: error,
        };
        let ghost view = state@;
        self.policy_stats.insert(String::from_str(policy_id), state);
        proof {
            assert(self@.stats =~= old(self)@.stats.insert(policy_id@, view));
        }
    }
}

/// The generation of a policy: 0 until one is set.
pub open spec fn generation_of(store: StoreView, policy_id: Seq<char>) -> u64 {
    if store.generations.contains_key(policy_id) {
        store.generations[policy_id]
    } else {
        0
    }
}

/// Up to where a pending materialization of the current generation reaches.
pub open spec fn pending_through(
    store: StoreView,
    policy_id: Seq<char>,
    source_key: Seq<char>,
) -> Option<i64> {
    match at_keys(store.pending, policy_id, source_key) {
        Some(pending) => if pending.generation == generation_of(store, policy_id) {
            Some(pending.materialized_through)
        } else {
            None
        },
        None => None,
    }
}

/// Up to where a pending materialization of the current generation reaches.
pub fn pending_materialized_through(
    store: &RollupStateStoreContext,
    policy_id: &str,
    source_key: &str,
) -> (through: Option<i64>)
    ensures
        through == pending_through(store@, policy_id@, source_key@),
{
    match get_nested(&store.pending_materializations, policy_id, source_key) {
        Some(pending) => {
            if pending.generation == store.policy_generation(policy_id) {
                Some(pending.materialized_through)
            } else {
                None
            }
        },
        None => None,
    }
}

/// Up to where the buckets of a source are written.
pub fn checkpoint_through(
    store: &RollupStateStoreContext,
    policy_id: &str,
    source_key: &str,
) -> (through: Option<i64>)
    ensures
        through == at_keys(store@.checkpoints, policy_id@, source_key@),
{
    match get_nested(&store.checkpoints, policy_id, source_key) {
        Some(through) => Some(*through),
        None => None,
    }
}

/// Staging a batch covers every item of it: each source has the pending materialization
/// that the batch has last for it.
pub proof fn law_batch_is_covered(
    pending: Map<Seq<char>, Map<Seq<char>, PendingRollupMaterialization>>,
    batch: Seq<StagedView>,
    at: int,
)
    requires
        0 <= at < batch.len(),
        forall|later: int|
            at < later < batch.len() ==> (#[trigger] batch[later]).policy_id != batch[at].policy_id
                || batch[later].source_key != batch[at].source_key,
    ensures
        at_keys(staged_onto(pending, batch), batch[at].policy_id, batch[at].source_key) == Some(
            batch[at].pending,
        ),
    decreases batch.len(),
{
    let shorter = batch.drop_last();
    if at < batch.len() - 1 {
        assert(shorter[at] == batch[at]);
        assert forall|later: int| at < later < shorter.len() implies (
        #[trigger] shorter[later]).policy_id != shorter[at].policy_id || shorter[later].source_key
            != shorter[at].source_key by {
            assert(shorter[later] == batch[later]);
        }
        law_batch_is_covered(pending, shorter, at);
        assert(batch[batch.len() - 1] == batch.last());
    }
}

/// Staging a batch leaves the pending materializations of all other sources alone.
pub proof fn law_staging_touches_only_the_batch(
    pending: Map<Seq<char>, Map<Seq<char>, PendingRollupMaterialization>>,
    batch: Seq<StagedView>,
    policy_id: Seq<char>,
    source_key: Seq<char>,
)
    requires
        forall|at: int|
            0 <= at < batch.len() ==> (#[trigger] batch[at]).policy_id != policy_id
                || batch[at].source_key != source_key,
    ensures
        at_keys(staged_onto(pending, batch), policy_id, source_key) == at_keys(
            pending,
            policy_id,
            source_key,
        ),
    decreases batch.len(),
{
    if batch.len() > 0 {
        let shorter = batch.drop_last();
        assert forall|at: int| 0 <= at < shorter.len() implies (#[trigger] shorter[at]).policy_id
            != policy_id || shorter[at].source_key != source_key by {
            assert(shorter[at] == batch[at]);
        }
        law_staging_touches_only_the_batch(pending, shorter, policy_id, source_key);
        assert(batch[batch.len() - 1] == batch.last());
    }
}

/// Clearing a pending materialization removes it and no other, and no policy is left
/// without entries by it.
pub proof fn law_clearing_removes_one(
    pending: Map<Seq<char>, Map<Seq<char>, PendingRollupMaterialization>>,
    policy_id: Seq<char>,
    source_key: Seq<char>,
    other_policy: Seq<char>,
    other_source: Seq<char>,
)
    ensures
        at_keys(drop_at(pending, policy_id, source_key), policy_id, source_key) is None,
        other_policy != policy_id || other_source != source_key ==> at_keys(
            drop_at(pending, policy_id, source_key),
            other_policy,
            other_source,
        ) == at_keys(pending, other_policy, other_source),
        drop_at(pending, policy_id, source_key).contains_key(policy_id) ==> exists|left: Seq<char>|
            #[trigger] drop_at(pending, policy_id, source_key)[policy_id].contains_key(left),
{
    let after = drop_at(pending, policy_id, source_key);
    if pending.contains_key(policy_id) {
        let entries = pending[policy_id].remove(source_key);
        if entries =~= Map::<Seq<char>, PendingRollupMaterialization>::empty() {
            if other_policy == policy_id && other_source != source_key {
                assert(entries.contains_key(other_source) == pending[policy_id].contains_key(
                    other_source,
                ));
            }
        } else {
            assert(exists|left: Seq<char>| #[trigger] entries.contains_key(left)) by {
                if forall|left: Seq<char>| !(#[trigger] entries.contains_key(left)) {
                    assert(entries =~= Map::<Seq<char>, PendingRollupMaterialization>::empty());
                }
            }
        }
    }
}

} // verus!
