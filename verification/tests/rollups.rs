use tsink::error::TsinkError;
use tsink::rollups::invalidation::{RollupInvalidationContext, WrittenRow};
use tsink::rollups::nested::{get_nested, put_nested};
use tsink::rollups::pass::{
    keep_new_points, DataPoint, MatchedSources, PassStage, RollupObservabilityCounters, RollupPass,
    ROLLUP_STAGING_BATCH_POINTS,
};
use tsink::rollups::pipeline::{
    begin_rollup_run, close_rollup_pass, conclude_rollup_run, count_policy_run, now_unix_ms,
    run_next_policy, ClosingStep,
};
use tsink::rollups::sources::{DecodedSeries, RollupSourceReadContext, RollupSourceSeries};
use tsink::rollups::state::{
    pending_materialized_through, PendingRollupMaterialization, PolicyRunReport,
    RollupStateStoreContext, StagedMaterialization,
};
use tsink::series::Label;

fn storage(text: &str) -> TsinkError {
    TsinkError::Storage(text.to_string())
}

fn source(series_id: u64, key: &str) -> RollupSourceSeries {
    RollupSourceSeries {
        series_id,
        source_key: key.to_string(),
        labels: vec![Label::new("host", key)],
    }
}

fn points(timestamps: &[i64]) -> Vec<DataPoint<u32>> {
    timestamps
        .iter()
        .map(|timestamp| DataPoint {
            timestamp: *timestamp,
            value: 1,
        })
        .collect()
}

fn pending(checkpoint: i64, through: i64, generation: u64) -> PendingRollupMaterialization {
    PendingRollupMaterialization {
        checkpoint,
        materialized_through: through,
        generation,
    }
}

fn checkpoint(store: &RollupStateStoreContext, policy: &str, source: &str) -> Option<i64> {
    get_nested(&store.checkpoints, policy, source).copied()
}

fn no_counters() -> RollupObservabilityCounters {
    RollupObservabilityCounters {
        worker_runs_total: 0,
        worker_success_total: 0,
        worker_errors_total: 0,
        policy_runs_total: 0,
        buckets_materialized_total: 0,
        points_materialized_total: 0,
        last_run_duration_nanos: 0,
    }
}

fn policies(ids: &[&str]) -> Vec<String> {
    ids.iter().map(|id| id.to_string()).collect()
}

fn matched(sources: Vec<RollupSourceSeries>, stable_end: i64) -> Result<MatchedSources, TsinkError> {
    Ok(MatchedSources {
        sources,
        stable_end: Some(stable_end),
    })
}

#[test]
fn a_pass_stages_before_it_writes_and_moves_the_checkpoints() {
    let mut store = RollupStateStoreContext::new();
    let mut pass: RollupPass<u32> = RollupPass::new(policies(&["p"]), 5);
    assert_eq!(pass.stage(), PassStage::Matching { policy: 0 });
    pass.run_policy(
        &store,
        10,
        1_000,
        matched(vec![source(1, "a"), source(2, "b")], 100),
        11,
    );
    assert_eq!(pass.stage(), PassStage::Reading { policy: 0 });
    assert_eq!(pass.next_read().source.series_id, 1);
    assert_eq!(pass.next_read().checkpoint, i64::MIN);
    assert_eq!(pass.next_read().target_end, 100);
    pass.take_buckets(&mut store, Ok(points(&[0, 50])), 12);
    pass.take_buckets(&mut store, Ok(points(&[])), 13);
    assert_eq!(checkpoint(&store, "p", "b"), Some(100));
    assert_eq!(checkpoint(&store, "p", "a"), None);

    assert_eq!(pass.stage(), PassStage::Staging { resume: None });
    assert_eq!(pass.staged_materializations().len(), 1);
    pass.write_staged(&mut store, Ok(()), 14);
    assert_eq!(
        pending_materialized_through(&store, "p", "a"),
        Some(100)
    );
    assert_eq!(pass.stage(), PassStage::Checking { resume: None });
    pass.write_planned(&mut store, Ok(vec![50]), 15);
    assert_eq!(pass.stage(), PassStage::Inserting { resume: None });
    let item = pass.next_write();
    assert_eq!(item.points.len(), 1);
    assert_eq!(item.points[0].timestamp, 0);
    assert_eq!(checkpoint(&store, "p", "a"), None);
    pass.rows_inserted(&mut store, Ok(()), 2_000_016);
    assert_eq!(pass.stage(), PassStage::Finished);
    assert_eq!(checkpoint(&store, "p", "a"), Some(100));
    assert_eq!(pending_materialized_through(&store, "p", "a"), None);
    assert!(store.pending_materializations.is_empty());

    let mut counters = no_counters();
    let (dirty, error) = pass.finish(&mut store, &mut counters);
    assert!(dirty);
    assert!(error.is_none());
    assert_eq!(counters.buckets_materialized_total, 1);
    assert_eq!(counters.points_materialized_total, 1);
    let state = store.policy_stats.get("p").unwrap();
    assert_eq!(state.matched_series, 2);
    assert_eq!(state.materialized_series, 2);
    assert_eq!(state.materialized_through, Some(100));
    assert_eq!(state.last_run_started_at_ms, Some(1_000));
    assert_eq!(state.last_run_completed_at_ms, Some(1_002));
    assert_eq!(state.last_run_duration_nanos, 2_000_006);
    assert!(state.last_error.is_none());
}

#[test]
fn a_failed_staging_fails_every_policy_of_the_batch_and_writes_nothing() {
    let mut store = RollupStateStoreContext::new();
    let mut pass: RollupPass<u32> = RollupPass::new(policies(&["p", "q", "r"]), 0);
    for id in 1..=2 {
        pass.run_policy(&store, 0, 0, matched(vec![source(id, "a")], 10), 1);
        pass.take_buckets(&mut store, Ok(points(&[1])), 2);
    }
    pass.run_policy(&store, 0, 0, matched(vec![], 10), 3);
    assert_eq!(pass.stage(), PassStage::Staging { resume: None });
    pass.write_staged(&mut store, Err(storage("full")), 4);
    assert_eq!(pass.stage(), PassStage::Finished);
    assert!(store.pending_materializations.is_empty());
    let mut counters = no_counters();
    let (dirty, error) = pass.finish(&mut store, &mut counters);
    assert!(!dirty);
    assert_eq!(error.unwrap().message(), "full");
    for id in ["p", "q"] {
        let state = store.policy_stats.get(id).unwrap();
        assert_eq!(state.last_error.as_deref(), Some("full"));
        assert_eq!(state.matched_series, 0);
    }
    assert!(store.policy_stats.get("r").unwrap().last_error.is_none());
}

#[test]
fn a_failed_policy_skips_its_later_items_and_keeps_its_first_error() {
    let mut store = RollupStateStoreContext::new();
    let mut pass: RollupPass<u32> = RollupPass::new(policies(&["p", "q"]), 0);
    pass.run_policy(
        &store,
        0,
        0,
        matched(vec![source(1, "a"), source(2, "b")], 10),
        1,
    );
    pass.take_buckets(&mut store, Ok(points(&[1])), 2);
    pass.take_buckets(&mut store, Ok(points(&[1])), 2);
    pass.run_policy(&store, 0, 0, matched(vec![source(3, "c")], 10), 3);
    pass.take_buckets(&mut store, Ok(points(&[1])), 4);
    pass.write_staged(&mut store, Ok(()), 5);
    pass.write_planned(&mut store, Err(storage("first")), 6);
    assert_eq!(pass.next_write().source.source_key, "c");
    pass.write_planned(&mut store, Ok(vec![]), 7);
    pass.rows_inserted(&mut store, Err(storage("second")), 8);
    assert_eq!(pass.stage(), PassStage::Finished);
    let (dirty, error) = pass.finish(&mut store, &mut no_counters());
    assert!(!dirty);
    assert_eq!(error.unwrap().message(), "first");
    assert_eq!(
        store.policy_stats.get("q").unwrap().last_error.as_deref(),
        Some("second")
    );
    assert_eq!(checkpoint(&store, "p", "b"), None);
    assert_eq!(pending_materialized_through(&store, "p", "b"), Some(10));
}

#[test]
fn a_full_batch_is_written_before_planning_goes_on() {
    let mut store = RollupStateStoreContext::new();
    let mut pass: RollupPass<u32> = RollupPass::new(policies(&["p"]), 0);
    pass.run_policy(
        &store,
        0,
        0,
        matched(vec![source(1, "a"), source(2, "b"), source(3, "c")], 10),
        1,
    );
    let many: Vec<i64> = (0..ROLLUP_STAGING_BATCH_POINTS as i64 - 1).collect();
    pass.take_buckets(&mut store, Ok(points(&many)), 2);
    assert_eq!(pass.stage(), PassStage::Reading { policy: 0 });
    pass.take_buckets(&mut store, Ok(points(&[7])), 3);
    assert_eq!(pass.stage(), PassStage::Staging { resume: Some(0) });
    pass.write_staged(&mut store, Ok(()), 4);
    pass.write_planned(&mut store, Ok(many), 5);
    assert_eq!(checkpoint(&store, "p", "a"), Some(10));
    pass.write_planned(&mut store, Ok(vec![]), 6);
    pass.rows_inserted(&mut store, Ok(()), 7);
    assert_eq!(pass.stage(), PassStage::Reading { policy: 0 });
    assert_eq!(pass.next_read().source.source_key, "c");
    pass.take_buckets(&mut store, Err(storage("read")), 8);
    assert_eq!(pass.stage(), PassStage::Finished);
}

#[test]
fn a_source_that_does_not_fit_waits_for_the_next_batch() {
    let mut store = RollupStateStoreContext::new();
    let mut pass: RollupPass<u32> = RollupPass::new(policies(&["p"]), 0);
    let sources = vec![source(1, "a"), source(2, "b"), source(3, "c")];
    pass.run_policy(&store, 0, 0, matched(sources, 10), 1);
    let many: Vec<i64> = (0..ROLLUP_STAGING_BATCH_POINTS as i64 - 1).collect();
    pass.take_buckets(&mut store, Ok(points(&many)), 2);
    assert_eq!(pass.stage(), PassStage::Reading { policy: 0 });

    let more: Vec<i64> = (0..65_000).collect();
    pass.take_buckets(&mut store, Ok(points(&more)), 3);
    assert_eq!(pass.stage(), PassStage::Staging { resume: Some(0) });
    let staged = pass.staged_materializations();
    assert_eq!(staged.len(), 1);
    assert_eq!(staged[0].source_key, "a");
    pass.write_staged(&mut store, Ok(()), 4);
    pass.write_planned(&mut store, Ok(many), 5);
    assert_eq!(checkpoint(&store, "p", "a"), Some(10));
    assert_eq!(checkpoint(&store, "p", "b"), None);

    assert_eq!(pass.stage(), PassStage::Resuming { policy: 0 });
    assert!(pass.staged_materializations().is_empty());
    pass.stage_held(5);
    assert_eq!(pass.stage(), PassStage::Reading { policy: 0 });
    assert_eq!(pass.next_read().source.source_key, "c");
    pass.take_buckets(&mut store, Ok(vec![]), 6);
    assert_eq!(pass.stage(), PassStage::Staging { resume: None });
    let staged = pass.staged_materializations();
    assert_eq!(staged.len(), 1);
    assert_eq!(staged[0].source_key, "b");
    pass.write_staged(&mut store, Ok(()), 7);
    pass.write_planned(&mut store, Ok(more), 8);
    assert_eq!(checkpoint(&store, "p", "b"), Some(10));
    assert_eq!(pass.stage(), PassStage::Finished);
}

#[test]
fn a_source_larger_than_a_batch_is_a_batch_of_its_own() {
    let mut store = RollupStateStoreContext::new();
    let mut pass: RollupPass<u32> = RollupPass::new(policies(&["p"]), 0);
    pass.run_policy(
        &store,
        0,
        0,
        matched(vec![source(1, "a"), source(2, "b")], 10),
        1,
    );
    pass.take_buckets(&mut store, Ok(points(&[1])), 2);
    let many: Vec<i64> = (0..ROLLUP_STAGING_BATCH_POINTS as i64 + 1).collect();
    pass.take_buckets(&mut store, Ok(points(&many)), 3);
    assert_eq!(pass.staged_materializations()[0].source_key, "a");
    pass.write_staged(&mut store, Ok(()), 4);
    pass.write_planned(&mut store, Ok(vec![1]), 5);
    pass.stage_held(6);
    assert_eq!(pass.stage(), PassStage::Staging { resume: Some(0) });
    let staged = pass.staged_materializations();
    assert_eq!(staged.len(), 1);
    assert_eq!(staged[0].source_key, "b");
    pass.write_staged(&mut store, Ok(()), 7);
    pass.write_planned(&mut store, Ok(many), 8);
    assert_eq!(pass.stage(), PassStage::Finished);
    assert_eq!(checkpoint(&store, "p", "b"), Some(10));
}

#[test]
fn a_source_held_aside_is_dropped_when_its_policy_fails() {
    let many: Vec<i64> = (0..ROLLUP_STAGING_BATCH_POINTS as i64).collect();
    for persisted in [Err(storage("full")), Ok(())] {
        let mut store = RollupStateStoreContext::new();
        let mut pass: RollupPass<u32> = RollupPass::new(policies(&["p", "q"]), 0);
        let sources = vec![source(1, "a"), source(2, "b"), source(3, "c")];
        pass.run_policy(&store, 0, 0, matched(sources, 10), 1);
        pass.take_buckets(&mut store, Ok(points(&[1])), 2);
        pass.take_buckets(&mut store, Ok(points(&many)), 3);
        let failed = persisted.is_err();
        pass.write_staged(&mut store, persisted, 4);
        if !failed {
            pass.write_planned(&mut store, Err(storage("check")), 5);
        }
        assert_eq!(pass.stage(), PassStage::Matching { policy: 1 });
        assert!(pass.staged_materializations().is_empty());
        assert_eq!(pending_materialized_through(&store, "p", "b"), None);
    }
}

#[test]
fn a_source_held_aside_outlives_a_batch_of_another_policy() {
    let mut store = RollupStateStoreContext::new();
    let mut pass: RollupPass<u32> = RollupPass::new(policies(&["p", "q"]), 0);
    pass.run_policy(&store, 0, 0, matched(vec![source(1, "a")], 10), 1);
    pass.take_buckets(&mut store, Ok(points(&[1])), 2);
    pass.run_policy(&store, 2, 0, matched(vec![source(2, "b")], 10), 3);
    let many: Vec<i64> = (0..ROLLUP_STAGING_BATCH_POINTS as i64).collect();
    pass.take_buckets(&mut store, Ok(points(&many)), 4);
    pass.write_staged(&mut store, Err(storage("full")), 5);
    assert!(pass.staged_materializations().is_empty());
    assert_eq!(pass.stage(), PassStage::Resuming { policy: 1 });
    pass.stage_held(6);
    assert_eq!(pass.staged_materializations()[0].source_key, "b");
}

#[test]
fn an_error_in_a_batch_ends_the_planning_it_interrupted() {
    let mut store = RollupStateStoreContext::new();
    let mut pass: RollupPass<u32> = RollupPass::new(policies(&["p", "q"]), 0);
    pass.run_policy(
        &store,
        0,
        0,
        matched(vec![source(1, "a"), source(2, "b")], 10),
        1,
    );
    let many: Vec<i64> = (0..ROLLUP_STAGING_BATCH_POINTS as i64).collect();
    pass.take_buckets(&mut store, Ok(points(&many)), 2);
    pass.write_staged(&mut store, Err(storage("full")), 3);
    assert_eq!(pass.stage(), PassStage::Matching { policy: 1 });
}

#[test]
fn reads_start_at_the_checkpoint_and_reach_pending_ends() {
    let mut store = RollupStateStoreContext::new();
    store.generations.insert("p".to_string(), 3);
    store.mark_rollup_checkpoint_in_memory("p", "done", 100);
    store.mark_rollup_checkpoint_in_memory("p", "half", 40);
    put_nested(
        &mut store.pending_materializations,
        "p",
        "half",
        pending(40, 120, 3),
    );
    put_nested(
        &mut store.pending_materializations,
        "p",
        "old",
        pending(0, 500, 2),
    );
    let mut pass: RollupPass<u32> = RollupPass::new(policies(&["p"]), 0);
    pass.run_policy(
        &store,
        0,
        0,
        matched(vec![source(1, "done"), source(2, "half"), source(3, "old")], 100),
        1,
    );
    assert_eq!(pass.next_read().source.source_key, "half");
    assert_eq!(pass.next_read().checkpoint, 40);
    assert_eq!(pass.next_read().target_end, 120);
    pass.take_buckets(&mut store, Ok(points(&[])), 2);
    assert_eq!(pass.next_read().source.source_key, "old");
    assert_eq!(pass.next_read().checkpoint, i64::MIN);
    assert_eq!(pass.next_read().target_end, 100);
    pass.take_buckets(&mut store, Ok(points(&[1])), 2);
    assert_eq!(pass.staged_materializations()[0].pending.generation, 3);
}

#[test]
fn a_policy_without_a_stable_end_or_sources_does_nothing() {
    let store = RollupStateStoreContext::new();
    let mut pass: RollupPass<u32> = RollupPass::new(policies(&["p", "q"]), 0);
    pass.run_policy(
        &store,
        0,
        0,
        Ok(MatchedSources {
            sources: vec![source(1, "a")],
            stable_end: None,
        }),
        1,
    );
    assert_eq!(pass.stage(), PassStage::Matching { policy: 1 });
    pass.run_policy(&store, 0, 0, Err(storage("registry")), 1);
    assert_eq!(pass.stage(), PassStage::Finished);
}

#[test]
fn existing_buckets_are_left_out() {
    let kept = keep_new_points(points(&[1, 2, 3, 2]), &vec![2, 9]);
    let timestamps: Vec<i64> = kept.iter().map(|point| point.timestamp).collect();
    assert_eq!(timestamps, vec![1, 3]);
}

#[test]
fn staging_a_batch_keeps_other_pending_materializations() {
    let mut store = RollupStateStoreContext::new();
    put_nested(
        &mut store.pending_materializations,
        "p",
        "x",
        pending(0, 1, 0),
    );
    let staged = |through: i64| StagedMaterialization {
        policy_id: "p".to_string(),
        source_key: "a".to_string(),
        pending: pending(0, through, 0),
    };
    let batch = store.pending_with(&vec![staged(5), staged(6)]);
    assert!(store
        .stage_pending_rollup_materializations(batch, Err(storage("full")))
        .is_err());
    assert_eq!(pending_materialized_through(&store, "p", "a"), None);
    let batch = store.pending_with(&vec![staged(5), staged(6)]);
    assert!(store
        .stage_pending_rollup_materializations(batch, Ok(()))
        .is_ok());
    assert_eq!(pending_materialized_through(&store, "p", "a"), Some(6));
    assert_eq!(pending_materialized_through(&store, "p", "x"), Some(1));
    store.clear_pending_rollup_materialization_in_memory("p", "a");
    assert!(store.pending_materializations.contains_key("p"));
    store.clear_pending_rollup_materialization_in_memory("p", "x");
    assert!(!store.pending_materializations.contains_key("p"));
}

#[test]
fn run_states_replace_one_another() {
    let mut store = RollupStateStoreContext::new();
    assert_eq!(store.policy_generation("p"), 0);
    let report = PolicyRunReport {
        matched_series: 4,
        ..PolicyRunReport::default()
    };
    store.set_rollup_policy_run_state("p", &report, 1, 2, 3, Some("bad".to_string()));
    store.set_rollup_policy_run_state("p", &report, 5, 6, 7, None);
    let state = store.policy_stats.get("p").unwrap();
    assert_eq!(state.matched_series, 4);
    assert_eq!(state.last_run_completed_at_ms, Some(6));
    assert!(state.last_error.is_none());
}

#[test]
fn sources_are_known_series_that_match_the_policy() {
    let mut context = RollupSourceReadContext::new();
    for (id, matches_policy) in [(1u64, true), (2, false), (4, true)] {
        context.insert(
            id,
            DecodedSeries {
                matches_policy,
                source_key: format!("key-{id}"),
                labels: vec![Label::new("host", "a")],
            },
        );
    }
    let ids = |sources: Vec<RollupSourceSeries>| -> Vec<u64> {
        sources.iter().map(|source| source.series_id).collect()
    };
    assert_eq!(
        ids(context.rollup_sources_for_series_ids(&vec![4, 3, 2, 1])),
        vec![4, 1]
    );
    assert_eq!(
        ids(context.matching_rollup_sources(Ok(vec![1])).unwrap()),
        vec![1]
    );
    assert!(context
        .matching_rollup_sources(Err(storage("io")))
        .is_err());
    assert_eq!(
        ids(context.matching_rollup_sources_best_effort(&vec![1, 2, 4], Err(storage("io")))),
        vec![1, 4]
    );
    assert_eq!(
        ids(context.matching_rollup_sources_best_effort(&vec![1, 2, 4], Ok(vec![4]))),
        vec![4]
    );
}

fn row(source_key: &str, timestamp: i64, matching_policies: &[usize]) -> WrittenRow {
    WrittenRow {
        is_internal: false,
        source_key: source_key.to_string(),
        timestamp,
        matching_policies: matching_policies.to_vec(),
    }
}

#[test]
fn late_rows_name_the_policies_to_rebuild() {
    let mut store = RollupStateStoreContext::new();
    store.mark_rollup_checkpoint_in_memory("b", "s", 100);
    put_nested(
        &mut store.pending_materializations,
        "a",
        "s",
        pending(0, 50, 0),
    );
    put_nested(
        &mut store.pending_materializations,
        "b",
        "s",
        pending(0, 900, 0),
    );
    put_nested(
        &mut store.pending_materializations,
        "c",
        "s",
        pending(0, 50, 7),
    );
    let ids = policies(&["b", "a", "c"]);
    let context = RollupInvalidationContext {
        store: &store,
        policies: &ids,
    };
    let affected = |rows: &[WrittenRow]| context.rollup_policy_ids_needing_rebuild_for_rows(rows);
    assert_eq!(
        affected(&[row("s", 49, &[0, 1, 2])]),
        vec!["a".to_string(), "b".to_string()]
    );
    assert_eq!(affected(&[row("s", 50, &[0, 1, 2])]), vec!["b".to_string()]);
    assert!(affected(&[row("s", 100, &[0, 1, 2])]).is_empty());
    assert!(affected(&[row("other", 0, &[0, 1, 2])]).is_empty());
    assert_eq!(
        affected(&[row("s", 0, &[1]), row("s", 0, &[1])]),
        vec!["a".to_string()]
    );
    let mut internal = row("s", 0, &[0]);
    internal.is_internal = true;
    assert!(affected(&[internal]).is_empty());
    assert!(affected(&[]).is_empty());
}

#[test]
fn a_run_without_policies_succeeds_at_once() {
    let mut counters = no_counters();
    assert!(begin_rollup_run::<u32>(Vec::new(), &mut counters, 5, 9).is_none());
    assert_eq!(counters.worker_runs_total, 1);
    assert_eq!(counters.worker_success_total, 1);
    assert_eq!(counters.last_run_duration_nanos, 4);
}

#[test]
fn runs_are_counted_by_how_they_end() {
    let mut counters = no_counters();
    let pass = begin_rollup_run::<u32>(policies(&["p"]), &mut counters, 0, 1).unwrap();
    assert_eq!(pass.stage(), PassStage::Matching { policy: 0 });
    count_policy_run(&mut counters);
    let step = ClosingStep::Conclude { first_error: None };
    assert!(conclude_rollup_run(step, None, &mut counters, 0, 8).is_ok());
    assert_eq!(counters.worker_success_total, 1);
    assert_eq!(counters.last_run_duration_nanos, 8);
    let step = ClosingStep::PersistState {
        first_error: Some(storage("a")),
    };
    assert!(conclude_rollup_run(step, Some(Ok(())), &mut counters, 0, 9).is_err());
    assert_eq!(counters.worker_errors_total, 1);
    let step = ClosingStep::PersistState {
        first_error: Some(storage("a")),
    };
    let persisted = Some(Err(storage("persist")));
    let outcome = conclude_rollup_run(step, persisted, &mut counters, 0, 10);
    assert_eq!(outcome.unwrap_err().message(), "persist");
    assert_eq!(counters.worker_errors_total, 1);
    assert_eq!(counters.last_run_duration_nanos, 9);
    assert_eq!(counters.policy_runs_total, 1);
}

#[test]
fn every_policy_is_started_and_counted_once_even_after_one_failed() {
    let mut store = RollupStateStoreContext::new();
    let mut counters = no_counters();
    let ids = policies(&["p", "q", "r"]);
    let mut pass = begin_rollup_run::<u32>(ids, &mut counters, 0, 1).unwrap();
    let mut started = Vec::new();
    while let PassStage::Matching { policy } = pass.stage() {
        started.push(policy);
        let outcome = if policy == 0 {
            Err(storage("match"))
        } else {
            matched(vec![], 10)
        };
        run_next_policy(&mut pass, &store, &mut counters, 1, 0, outcome, 2);
    }
    assert_eq!(started, vec![0, 1, 2]);
    assert_eq!(pass.stage(), PassStage::Finished);
    let step = close_rollup_pass(pass, &mut store, &mut counters);
    let outcome = conclude_rollup_run(step, None, &mut counters, 0, 3);
    assert_eq!(outcome.unwrap_err().message(), "match");
    assert_eq!(counters.worker_runs_total, 1);
    assert_eq!(counters.policy_runs_total, 3);
    assert_eq!(counters.worker_errors_total, 1);
    assert_eq!(counters.worker_success_total, 0);
}

#[test]
fn the_state_is_persisted_only_where_a_checkpoint_moved() {
    let mut store = RollupStateStoreContext::new();
    let mut counters = no_counters();
    let mut pass: RollupPass<u32> = RollupPass::new(policies(&["p"]), 0);
    pass.run_policy(&store, 0, 0, matched(vec![source(1, "a")], 10), 1);
    pass.take_buckets(&mut store, Ok(points(&[])), 2);
    let step = close_rollup_pass(pass, &mut store, &mut counters);
    assert!(matches!(step, ClosingStep::PersistState { first_error: None }));

    let mut pass: RollupPass<u32> = RollupPass::new(policies(&["p"]), 0);
    pass.run_policy(&store, 0, 0, Err(storage("match")), 1);
    match close_rollup_pass(pass, &mut store, &mut counters) {
        ClosingStep::Conclude {
            first_error: Some(error),
        } => assert_eq!(error.message(), "match"),
        _ => panic!("no checkpoint moved"),
    }
}

#[test]
fn counters_start_over() {
    let mut counters = no_counters();
    counters.policy_runs_total = u64::MAX;
    count_policy_run(&mut counters);
    assert_eq!(counters.policy_runs_total, 0);
}

#[test]
fn clock_readings_are_clamped() {
    assert_eq!(now_unix_ms(None), 0);
    assert_eq!(now_unix_ms(Some(12)), 12);
    assert_eq!(now_unix_ms(Some(u128::MAX)), u64::MAX);
}
