//! Which policies have to be rebuilt because of late rows.
use crate::rollups::event_laws::is_pending_through;
use crate::rollups::nested::at_keys;
use crate::rollups::pass_laws::{is_at, is_missing};
use crate::rollups::state::{
    checkpoint_through, pending_materialized_through, pending_through, RollupStateStoreContext,
    StoreView,
};
use crate::text::copied;
use crate::text_map::{law_texts_are_ordered_by_their_first_difference, text_before, TextMap};
use vstd::prelude::*;

verus! {

/// What matters of a written row: whether its metric is one that rollups write, its source
/// key and timestamp, and which of the policies match it.
#[derive(Debug)]
pub struct WrittenRow {
    pub is_internal: bool,
    pub source_key: String,
    pub timestamp: i64,
    pub matching_policies: Vec<usize>,
}

/// Up to where the buckets of a source are written or about to be.
pub open spec fn covered_through(
    store: StoreView,
    policy_id: Seq<char>,
    source_key: Seq<char>,
) -> Option<i64> {
    match at_keys(store.checkpoints, policy_id, source_key) {
        Some(through) => Some(through),
        None => pending_through(store, policy_id, source_key),
    }
}

/// The row falls into buckets that the policy has written or is about to write.
pub open spec fn is_late(
    store: StoreView,
    policies: Seq<String>,
    row: WrittenRow,
    k: int,
) -> bool {
    let policy = row.matching_policies@[k];
    &&& !row.is_internal
    &&& policy < policies.len()
    &&& covered_through(store, policies[policy as int]@, row.source_key@) is Some
    &&& row.timestamp < covered_through(
        store,
        policies[policy as int]@,
        row.source_key@,
    )->Some_0
}

/// Row `i` is late for the policy with that id.
pub open spec fn row_affects(
    store: StoreView,
    policies: Seq<String>,
    row: WrittenRow,
    policy_id: Seq<char>,
) -> bool {
    exists|k: int|
        0 <= k < row.matching_policies@.len() && #[trigger] is_late(store, policies, row, k)
            && policies[row.matching_policies@[k] as int]@ == policy_id
}

/// Some row is late for the policy with that id.
pub open spec fn is_affected(
    store: StoreView,
    policies: Seq<String>,
    rows: Seq<WrittenRow>,
    policy_id: Seq<char>,
) -> bool {
    exists|i: int| 0 <= i < rows.len() && #[trigger] row_affects(store, policies, rows[i], policy_id)
}

/// `ids` are the affected policies, each once, in the order of their ids.
pub open spec fn are_affected_ids(
    store: StoreView,
    policies: Seq<String>,
    rows: Seq<WrittenRow>,
    ids: Seq<String>,
) -> bool {
    &&& forall|i: int|
        0 <= i < ids.len() ==> is_affected(store, policies, rows, (#[trigger] ids[i])@)
    &&& forall|policy_id: Seq<char>| #[trigger]
        is_affected(store, policies, rows, policy_id) ==> exists|i: int|
            0 <= i < ids.len() && (#[trigger] ids[i])@ == policy_id
    &&& forall|i: int, j: int|
        #![trigger ids[i], ids[j]]
        0 <= i < j < ids.len() ==> text_before(ids[i]@, ids[j]@)
}

/// The policies whose rollups late rows may invalidate.
pub struct RollupInvalidationContext<'a> {
    pub store: &'a RollupStateStoreContext,
    pub policies: &'a Vec<String>,
}

impl<'a> RollupInvalidationContext<'a> {
    fn note_row(&self, row: &WrittenRow, affected: &mut TextMap<()>)
        ensures
            forall|policy_id: Seq<char>| #[trigger]
                final(affected)@.contains_key(policy_id) <==> (old(affected)@.contains_key(
                    policy_id,
                ) || row_affects(self.store@, self.policies@, *row, policy_id)),
    {
        let ghost before = affected@;
        if row.is_internal {
            return;
        }
        let mut at: usize = 0;
        while at < row.matching_policies.len()
            invariant
                at <= row.matching_policies@.len(),
                !row.is_internal,
                before == old(affected)@,
                forall|policy_id: Seq<char>| #[trigger]
                    affected@.contains_key(policy_id) <==> (before.contains_key(policy_id)
                        || exists|k: int|
                        0 <= k < at && #[trigger] is_late(
                            self.store@,
                            self.policies@,
                            *row,
                            k,
                        ) && self.policies@[row.matching_policies@[k] as int]@ == policy_id),
            decreases row.matching_policies@.len() - at,
        {
            let policy: usize = row.matching_policies[at];
            let ghost so_far = affected@;
            let ghost late = is_late(self.store@, self.policies@, *row, at as int);
            if policy < self.policies.len() {
                let id = &self.policies[policy];
                let through = match checkpoint_through(
                    self.store,
                    id.as_str(),
                    row.source_key.as_str(),
                ) {
                    Some(through) => Some(through),
                    None => pending_materialized_through(
                        self.store,
                        id.as_str(),
                        row.source_key.as_str(),
                    ),
                };
                match through {
                    Some(through) => {
                        if row.timestamp < through {
                            affected.insert(copied(id), ());
                        }
                    },
                    None => {},
                }
            }
            proof {
                assert forall|policy_id: Seq<char>| #[trigger]
                    affected@.contains_key(policy_id) <==> (before.contains_key(policy_id)
                        || exists|k: int|
                        0 <= k < at + 1 && #[trigger] is_late(
                            self.store@,
                            self.policies@,
                            *row,
                            k,
                        ) && self.policies@[row.matching_policies@[k] as int]@ == policy_id) by {
                    assert(so_far.contains_key(policy_id) <==> (before.contains_key(policy_id)
                        || exists|k: int|
                        0 <= k < at && #[trigger] is_late(
                            self.store@,
                            self.policies@,
                            *row,
                            k,
                        ) && self.policies@[row.matching_policies@[k] as int]@ == policy_id));
                    if late && self.policies@[policy as int]@ == policy_id {
                        assert(is_late(self.store@, self.policies@, *row, at as int));
                    }
                }
            }
            at = at + 1;
        }
    }

    /// The policies that rows written late make wrong: a row is late for a policy that
    /// matches it when it lies before the end of what the policy has written for its
    /// source, or, where nothing is written yet, of what it is about to write.
    pub fn rollup_policy_ids_needing_rebuild_for_rows(&self, rows: &[WrittenRow]) -> (ids: Vec<
        String,
    >)
        ensures
            are_affected_ids(self.store@, self.policies@, rows@, ids@),
    {
        let mut affected: TextMap<()> = TextMap::new();
        let mut at: usize = 0;
        while at < rows.len()
            invariant
                at <= rows@.len(),
                forall|policy_id: Seq<char>| #[trigger]
                    affected@.contains_key(policy_id) <==> is_affected(
                        self.store@,
                        self.policies@,
                        rows@.take(at as int),
                        policy_id,
                    ),
            decreases rows@.len() - at,
        {
            let ghost before = affected@;
            self.note_row(&rows[at], &mut affected);
            proof {
                let shorter = rows@.take(at as int);
                let longer = rows@.take(at + 1);
                assert(longer[at as int] == rows@[at as int]);
                assert forall|policy_id: Seq<char>| #[trigger]
                    affected@.contains_key(policy_id) <==> is_affected(
                        self.store@,
                        self.policies@,
                        longer,
                        policy_id,
                    ) by {
                    assert(before.contains_key(policy_id) <==> is_affected(
                        self.store@,
                        self.policies@,
                        shorter,
                        policy_id,
                    ));
                    if is_affected(self.store@, self.policies@, shorter, policy_id) {
                        let i = choose|i: int|
                            0 <= i < shorter.len() && #[trigger] row_affects(
                                self.store@,
                                self.policies@,
                                shorter[i],
                                policy_id,
                            );
                        assert(row_affects(self.store@, self.policies@, longer[i], policy_id));
                    }
                    if row_affects(self.store@, self.policies@, rows@[at as int], policy_id) {
                        assert(row_affects(
                            self.store@,
                            self.policies@,
                            longer[at as int],
                            policy_id,
                        ));
                    }
                    if is_affected(self.store@, self.policies@, longer, policy_id) {
                        let i = choose|i: int|
                            0 <= i < longer.len() && #[trigger] row_affects(
                                self.store@,
                                self.policies@,
                                longer[i],
                                policy_id,
                            );
                        if i < at {
                            assert(row_affects(
                                self.store@,
                                self.policies@,
                                shorter[i],
                                policy_id,
                            ));
                        }
                    }
                }
            }
            at = at + 1;
        }
        proof {
            assert(rows@.take(at as int) =~= rows@);
        }
        let count = affected.len();
        let ghost keys = affected.keys();
        let mut ids: Vec<String> = Vec::new();
        let mut next: usize = 0;
        while next < count
            invariant
                next <= count,
                count == keys.len(),
                keys == affected.keys(),
                ids@.len() == next,
                forall|i: int| 0 <= i < next ==> (#[trigger] ids@[i])@ == keys[i],
            decreases count - next,
        {
            ids.push(copied(affected.entry_at(next).0));
            next = next + 1;
        }
        proof {
            assert forall|i: int| 0 <= i < ids@.len() implies is_affected(
                self.store@,
                self.policies@,
                rows@,
                (#[trigger] ids@[i])@,
            ) by {
                assert(affected@.dom().contains(keys[i]));
                assert(affected@.contains_key(keys[i]));
            }
            assert forall|policy_id: Seq<char>| #[trigger]
                is_affected(self.store@, self.policies@, rows@, policy_id) implies exists|i: int|
                0 <= i < ids@.len() && (#[trigger] ids@[i])@ == policy_id by {
                assert(affected@.contains_key(policy_id));
                assert(affected@.dom().contains(policy_id));
                assert(keys.contains(policy_id));
                let i = keys.index_of(policy_id);
                assert(ids@[i]@ == policy_id);
            }
            assert forall|i: int, j: int|
                #![trigger ids@[i], ids@[j]]
                0 <= i < j < ids@.len() implies text_before(ids@[i]@, ids@[j]@) by {
                assert(text_before(keys[i], keys[j]));
            }
        }
        ids
    }
}

/// The row makes what a policy has for its source wrong: it is not one that rollups write, the
/// policy is one of those that match it, and it lies before the end of what is written for its
/// source or, where nothing is written yet, of what is pending in the current generation.
pub open spec fn makes_wrong(
    store: StoreView,
    policies: Seq<String>,
    row: WrittenRow,
    policy_id: Seq<char>,
    k: int,
    through: i64,
) -> bool {
    &&& !row.is_internal
    &&& 0 <= k < row.matching_policies@.len()
    &&& row.matching_policies@[k] < policies.len()
    &&& policies[row.matching_policies@[k] as int]@ == policy_id
    &&& row.timestamp < through
    &&& is_at(store.checkpoints, policy_id, row.source_key@, through) || is_missing(
        store.checkpoints,
        policy_id,
        row.source_key@,
    ) && is_pending_through(store, policy_id, row.source_key@, through)
}

/// A policy is listed exactly where some row makes what it has wrong, and it is listed once.
pub proof fn law_listed_policies_are_those_made_wrong(
    store: StoreView,
    policies: Seq<String>,
    rows: Seq<WrittenRow>,
    ids: Seq<String>,
    policy_id: Seq<char>,
)
    requires
        are_affected_ids(store, policies, rows, ids),
    ensures
        (exists|i: int| 0 <= i < ids.len() && (#[trigger] ids[i])@ == policy_id) <==> exists|
            r: int,
            k: int,
            through: i64,
        |
            0 <= r < rows.len() && #[trigger] makes_wrong(
                store,
                policies,
                rows[r],
                policy_id,
                k,
                through,
            ),
        forall|i: int, j: int|
            #![trigger ids[i], ids[j]]
            0 <= i < j < ids.len() ==> ids[i]@ != ids[j]@,
{
    assert forall|i: int, j: int|
        #![trigger ids[i], ids[j]]
        0 <= i < j < ids.len() implies ids[i]@ != ids[j]@ by {
        assert(text_before(ids[i]@, ids[j]@));
        law_texts_are_ordered_by_their_first_difference(ids[i]@, ids[j]@);
    }
    if exists|i: int| 0 <= i < ids.len() && (#[trigger] ids[i])@ == policy_id {
        let i = choose|i: int| 0 <= i < ids.len() && (#[trigger] ids[i])@ == policy_id;
        assert(is_affected(store, policies, rows, ids[i]@));
        let r = choose|r: int|
            0 <= r < rows.len() && #[trigger] row_affects(store, policies, rows[r], policy_id);
        let row = rows[r];
        let k = choose|k: int|
            0 <= k < row.matching_policies@.len() && #[trigger] is_late(store, policies, row, k)
                && policies[row.matching_policies@[k] as int]@ == policy_id;
        let through = covered_through(store, policy_id, row.source_key@)->Some_0;
        assert(makes_wrong(store, policies, rows[r], policy_id, k, through));
    }
    if exists|r: int, k: int, through: i64|
        0 <= r < rows.len() && #[trigger] makes_wrong(
            store,
            policies,
            rows[r],
            policy_id,
            k,
            through,
        ) {
        let (r, k, through) = choose|r: int, k: int, through: i64|
            0 <= r < rows.len() && #[trigger] makes_wrong(
                store,
                policies,
                rows[r],
                policy_id,
                k,
                through,
            );
        assert(covered_through(store, policy_id, rows[r].source_key@) == Some(through));
        assert(is_late(store, policies, rows[r], k));
        assert(row_affects(store, policies, rows[r], policy_id));
        assert(is_affected(store, policies, rows, policy_id));
    }
}

} // verus!
