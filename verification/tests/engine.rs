use task_engine::exec::{BlockProcessingFailed, StageExecutor, TaskOutcome};
use task_engine::perf::TaskPerfAggregator;
use task_engine::plan::{build_plan, PlanError};
use task_engine::processor::{process_block, BlockContext, RunConfig, TaskRun};
use task_engine::registry::{
    ByronTaskRegistryEntry, RegistryError, TaskRegistry, TaskRegistryEntry,
};
use task_engine::store::ResourceStore;
use task_engine::task::{AccessMode, Era, TaskDescriptor};
use task_engine::txstore::TransactionalStore;

fn td(name: &str, deps: &[&str], reads: &[u64], writes: &[u64], era: Era) -> TaskDescriptor {
    TaskDescriptor::new(
        name.to_string(),
        deps.iter().map(|s| s.to_string()).collect(),
        reads.to_vec(),
        writes.to_vec(),
        era,
    )
}

fn success_run(rows: &[u64], writes: &[(u64, u64)], duration: u64) -> TaskRun<u64> {
    TaskRun {
        outcome: TaskOutcome::Success,
        rows: rows.to_vec(),
        resource_writes: writes.to_vec(),
        duration,
    }
}

fn failure_run(cause: &str, duration: u64) -> TaskRun<u64> {
    TaskRun {
        outcome: TaskOutcome::Failure { cause: cause.to_string() },
        rows: Vec::new(),
        resource_writes: Vec::new(),
        duration,
    }
}

fn config(names: &[&str]) -> RunConfig {
    RunConfig { enabled_tasks: names.iter().map(|s| s.to_string()).collect() }
}

fn early_context() -> BlockContext {
    BlockContext { raw_bytes: vec![1, 2, 3], block_id: 7, era: Era::EarlyEra }
}

#[test]
fn concrete_scenario_plan_stages() {
    // A writes R1; B reads R1; C depends on A by name and writes R2.
    let tasks = vec![
        td("A", &[], &[], &[1], Era::EarlyEra),
        td("B", &[], &[1], &[], Era::EarlyEra),
        td("C", &["A"], &[], &[2], Era::EarlyEra),
    ];
    let plan = build_plan(&tasks).unwrap_or_else(|_| panic!("plan must build"));
    assert_eq!(plan.stages, vec![vec![0], vec![1, 2]]);
}

#[test]
fn diamond_plan_layering() {
    let tasks = vec![
        td("A", &[], &[], &[1], Era::MultiEra),
        td("B", &[], &[1], &[2], Era::MultiEra),
        td("C", &[], &[1], &[3], Era::MultiEra),
        td("D", &[], &[2, 3], &[], Era::MultiEra),
    ];
    let plan = build_plan(&tasks).unwrap_or_else(|_| panic!("plan must build"));
    assert_eq!(plan.stages, vec![vec![0], vec![1, 2], vec![3]]);
}

#[test]
fn name_dependency_cycle_fails() {
    let tasks = vec![
        td("A", &["B"], &[], &[], Era::EarlyEra),
        td("B", &["A"], &[], &[], Era::EarlyEra),
    ];
    match build_plan(&tasks) {
        Err(PlanError::DependencyCycle(names)) => {
            assert!(names.contains(&"A".to_string()));
            assert!(names.contains(&"B".to_string()));
        }
        _ => panic!("expected a dependency cycle"),
    }
}

#[test]
fn mixed_resource_and_name_cycle_fails() {
    // A writes R1; B reads R1 and A depends on B by name: a two-edge cycle.
    let tasks = vec![
        td("A", &["B"], &[], &[1], Era::EarlyEra),
        td("B", &[], &[1], &[], Era::EarlyEra),
    ];
    match build_plan(&tasks) {
        Err(PlanError::DependencyCycle(_)) => {}
        _ => panic!("expected a dependency cycle"),
    }
}

#[test]
fn self_read_own_write_is_a_cycle() {
    let tasks = vec![td("A", &[], &[1], &[1], Era::EarlyEra)];
    match build_plan(&tasks) {
        Err(PlanError::DependencyCycle(names)) => assert_eq!(names, vec!["A".to_string()]),
        _ => panic!("expected a dependency cycle"),
    }
}

#[test]
fn two_writers_conflict_fails() {
    let tasks = vec![
        td("A", &[], &[], &[5], Era::EarlyEra),
        td("B", &[], &[], &[5], Era::EarlyEra),
    ];
    match build_plan(&tasks) {
        Err(PlanError::ResourceWriteConflict(rid)) => assert_eq!(rid, 5),
        _ => panic!("expected a write conflict"),
    }
}

#[test]
fn missing_dependency_fails() {
    let tasks = vec![td("A", &["Z"], &[], &[], Era::EarlyEra)];
    match build_plan(&tasks) {
        Err(PlanError::MissingDependency(nm)) => assert_eq!(nm, "Z"),
        _ => panic!("expected a missing dependency"),
    }
}

#[test]
fn registry_rejects_duplicate_name_per_era() {
    let mut registry = TaskRegistry::new();
    registry.register(td("A", &[], &[], &[], Era::EarlyEra)).unwrap();
    // Same name in another era is fine.
    registry.register(td("A", &[], &[], &[], Era::Genesis)).unwrap();
    match registry.register(td("A", &[], &[], &[], Era::EarlyEra)) {
        Err(RegistryError::DuplicateTaskName(nm)) => assert_eq!(nm, "A"),
        _ => panic!("expected a duplicate rejection"),
    }
}

#[test]
fn registry_lookup_and_list() {
    let mut registry = TaskRegistry::new();
    registry.register(td("A", &[], &[], &[], Era::EarlyEra)).unwrap();
    registry.register(td("G", &[], &[], &[], Era::Genesis)).unwrap();
    registry.register(td("B", &[], &[], &[], Era::EarlyEra)).unwrap();
    assert!(registry.lookup(Era::EarlyEra, &"A".to_string()).is_ok());
    match registry.lookup(Era::EarlyEra, &"G".to_string()) {
        Err(RegistryError::UnknownTask(nm)) => assert_eq!(nm, "G"),
        _ => panic!("G is not an early-era task"),
    }
    let early = registry.list(Era::EarlyEra);
    assert_eq!(early.len(), 2);
    assert_eq!(early[0].name, "A");
    assert_eq!(early[1].name, "B");
    assert_eq!(registry.list(Era::Genesis).len(), 1);
    assert_eq!(registry.list(Era::MultiEra).len(), 0);
}

#[test]
fn registry_entry_carries_era() {
    let mut registry = TaskRegistry::new();
    let entry = TaskRegistryEntry::Byron(ByronTaskRegistryEntry {
        builder: td("A", &[], &[], &[], Era::EarlyEra),
    });
    assert!(matches!(entry.era(), Era::EarlyEra));
    registry.register_entry(entry).unwrap();
    assert!(registry.lookup(Era::EarlyEra, &"A".to_string()).is_ok());
}

#[test]
fn commit_applies_rows_and_resources() {
    let mut registry = TaskRegistry::new();
    registry.register(td("A", &[], &[], &[1], Era::EarlyEra)).unwrap();
    registry.register(td("B", &[], &[1], &[], Era::EarlyEra)).unwrap();
    let runs = vec![
        success_run(&[100, 101], &[(1, 10)], 5),
        success_run(&[200], &[], 3),
    ];
    let mut store = TransactionalStore::new();
    let mut resources = ResourceStore::new();
    let mut perf = TaskPerfAggregator::new();
    let r = process_block(
        &registry,
        Era::EarlyEra,
        &config(&["A", "B"]),
        &early_context(),
        &runs,
        &mut store,
        &mut resources,
        &mut perf,
    );
    assert!(r.is_ok());
    assert_eq!(store.committed_rows(), &vec![100, 101, 200]);
    assert_eq!(resources.read(1), Some(&10));
    assert_eq!(perf.get(&"A".to_string()), Some((5, 1)));
    assert_eq!(perf.get(&"B".to_string()), Some((3, 1)));
}

#[test]
fn failure_rolls_back_and_names_task() {
    // A (stage 0) fails: B and C (stage 1) never run; nothing is committed.
    let mut registry = TaskRegistry::new();
    registry.register(td("A", &[], &[], &[1], Era::EarlyEra)).unwrap();
    registry.register(td("B", &[], &[1], &[], Era::EarlyEra)).unwrap();
    registry.register(td("C", &["A"], &[], &[2], Era::EarlyEra)).unwrap();
    let runs = vec![
        failure_run("boom", 9),
        success_run(&[200], &[], 3),
        success_run(&[300], &[], 4),
    ];
    let mut store = TransactionalStore::new();
    let mut resources = ResourceStore::new();
    let mut perf = TaskPerfAggregator::new();
    let r = process_block(
        &registry,
        Era::EarlyEra,
        &config(&["A", "B", "C"]),
        &early_context(),
        &runs,
        &mut store,
        &mut resources,
        &mut perf,
    );
    match r {
        Err(BlockProcessingFailed::TaskExecutionError { task_name, cause }) => {
            assert_eq!(task_name, "A");
            assert_eq!(cause, "boom");
        }
        _ => panic!("expected a task failure"),
    }
    assert_eq!(store.committed_rows().len(), 0);
    // The failing task's duration is recorded; its never-run successors are not.
    assert_eq!(perf.get(&"A".to_string()), Some((9, 1)));
    assert_eq!(perf.get(&"B".to_string()), None);
    assert_eq!(perf.get(&"C".to_string()), None);
}

#[test]
fn mid_stage_failure_keeps_earlier_commits_out() {
    let mut registry = TaskRegistry::new();
    registry.register(td("A", &[], &[], &[1], Era::EarlyEra)).unwrap();
    registry.register(td("B", &["A"], &[], &[], Era::EarlyEra)).unwrap();
    let runs = vec![success_run(&[100], &[(1, 10)], 5), failure_run("late", 2)];
    let mut store = TransactionalStore::new();
    let mut resources = ResourceStore::new();
    let mut perf = TaskPerfAggregator::new();
    let r = process_block(
        &registry,
        Era::EarlyEra,
        &config(&["A", "B"]),
        &early_context(),
        &runs,
        &mut store,
        &mut resources,
        &mut perf,
    );
    match r {
        Err(BlockProcessingFailed::TaskExecutionError { task_name, .. }) => {
            assert_eq!(task_name, "B");
        }
        _ => panic!("expected a task failure"),
    }
    // A's rows were inserted inside the transaction, then rolled back.
    assert_eq!(store.committed_rows().len(), 0);
    // Both dispatched tasks were timed.
    assert_eq!(perf.get(&"A".to_string()), Some((5, 1)));
    assert_eq!(perf.get(&"B".to_string()), Some((2, 1)));
}

#[test]
fn genesis_block_with_no_transactions_commits() {
    let mut registry = TaskRegistry::new();
    registry.register(td("genesis_init", &[], &[], &[], Era::Genesis)).unwrap();
    let runs = vec![success_run(&[], &[], 1)];
    let context = BlockContext { raw_bytes: Vec::new(), block_id: 0, era: Era::Genesis };
    let mut store = TransactionalStore::new();
    let mut resources = ResourceStore::new();
    let mut perf = TaskPerfAggregator::new();
    let r = process_block(
        &registry,
        Era::Genesis,
        &config(&["genesis_init"]),
        &context,
        &runs,
        &mut store,
        &mut resources,
        &mut perf,
    );
    assert!(r.is_ok());
    assert_eq!(store.committed_rows().len(), 0);
}

#[test]
fn unknown_enabled_task_is_rejected() {
    let registry = TaskRegistry::new();
    let runs: Vec<TaskRun<u64>> = vec![success_run(&[], &[], 1)];
    let mut store = TransactionalStore::new();
    let mut resources = ResourceStore::new();
    let mut perf = TaskPerfAggregator::new();
    let r = process_block(
        &registry,
        Era::EarlyEra,
        &config(&["nope"]),
        &early_context(),
        &runs,
        &mut store,
        &mut resources,
        &mut perf,
    );
    match r {
        Err(BlockProcessingFailed::UnknownTask(nm)) => assert_eq!(nm, "nope"),
        _ => panic!("expected an unknown task"),
    }
    assert_eq!(perf.get(&"nope".to_string()), None);
}

#[test]
fn structural_error_runs_no_task() {
    let mut registry = TaskRegistry::new();
    registry.register(td("A", &[], &[], &[5], Era::EarlyEra)).unwrap();
    registry.register(td("B", &[], &[], &[5], Era::EarlyEra)).unwrap();
    let runs = vec![success_run(&[1], &[], 1), success_run(&[2], &[], 1)];
    let mut store = TransactionalStore::new();
    let mut resources = ResourceStore::new();
    let mut perf = TaskPerfAggregator::new();
    let r = process_block(
        &registry,
        Era::EarlyEra,
        &config(&["A", "B"]),
        &early_context(),
        &runs,
        &mut store,
        &mut resources,
        &mut perf,
    );
    match r {
        Err(BlockProcessingFailed::Plan(PlanError::ResourceWriteConflict(rid))) => {
            assert_eq!(rid, 5)
        }
        _ => panic!("expected a plan error"),
    }
    assert_eq!(store.committed_rows().len(), 0);
    assert_eq!(perf.get(&"A".to_string()), None);
    assert_eq!(perf.get(&"B".to_string()), None);
}

#[test]
fn perf_totals_grow_across_blocks() {
    let mut registry = TaskRegistry::new();
    registry.register(td("A", &[], &[], &[], Era::EarlyEra)).unwrap();
    let mut store = TransactionalStore::new();
    let mut resources = ResourceStore::new();
    let mut perf = TaskPerfAggregator::new();
    let ok_runs = vec![success_run(&[1], &[], 10)];
    let fail_runs = vec![failure_run("x", 4)];
    process_block(
        &registry,
        Era::EarlyEra,
        &config(&["A"]),
        &early_context(),
        &ok_runs,
        &mut store,
        &mut resources,
        &mut perf,
    )
    .unwrap();
    assert_eq!(perf.get(&"A".to_string()), Some((10, 1)));
    let _ = process_block(
        &registry,
        Era::EarlyEra,
        &config(&["A"]),
        &early_context(),
        &fail_runs,
        &mut store,
        &mut resources,
        &mut perf,
    );
    // The total reflects the failing run too and never decreased.
    assert_eq!(perf.get(&"A".to_string()), Some((14, 2)));
    let _ = process_block(
        &registry,
        Era::EarlyEra,
        &config(&["A"]),
        &early_context(),
        &ok_runs,
        &mut store,
        &mut resources,
        &mut perf,
    );
    assert_eq!(perf.get(&"A".to_string()), Some((24, 3)));
}

#[test]
fn perf_update_saturates() {
    let mut perf = TaskPerfAggregator::new();
    let name = "A".to_string();
    perf.update(&name, u64::MAX - 1);
    perf.update(&name, 5);
    assert_eq!(perf.get(&name), Some((u64::MAX, 2)));
}

#[test]
fn perf_snapshot_reports_all_names() {
    let mut perf = TaskPerfAggregator::new();
    perf.update(&"A".to_string(), 1);
    perf.update(&"B".to_string(), 2);
    perf.update(&"A".to_string(), 3);
    let snap = perf.snapshot();
    assert_eq!(snap.len(), 2);
    assert!(snap.contains(&("A".to_string(), 4, 2)));
    assert!(snap.contains(&("B".to_string(), 2, 1)));
}

#[test]
fn resource_store_last_write_wins() {
    let mut store: ResourceStore<u64> = ResourceStore::new();
    assert_eq!(store.read(1), None);
    assert!(!store.contains(1));
    store.write(1, 10);
    store.write(2, 20);
    assert_eq!(store.read(1), Some(&10));
    store.write(1, 11);
    assert_eq!(store.read(1), Some(&11));
    assert_eq!(store.read(2), Some(&20));
    assert!(store.contains(2));
}

#[test]
fn transactional_store_commit_and_rollback() {
    let mut store: TransactionalStore<u64> = TransactionalStore::new();
    store.begin_transaction();
    store.insert(1);
    store.insert(2);
    store.rollback();
    assert_eq!(store.committed_rows().len(), 0);
    store.begin_transaction();
    store.insert(3);
    store.commit();
    assert_eq!(store.committed_rows(), &vec![3]);
}

#[test]
fn stage_executor_halts_after_failure() {
    let tasks = vec![
        td("A", &[], &[], &[1], Era::EarlyEra),
        td("B", &[], &[1], &[], Era::EarlyEra),
    ];
    let plan = build_plan(&tasks).unwrap_or_else(|_| panic!("plan must build"));
    let mut executor = StageExecutor::new(plan);
    let first = executor.current_stage().expect("one stage to run").clone();
    assert_eq!(first, vec![0]);
    executor.complete_stage(&vec![TaskOutcome::Failure { cause: "down".to_string() }]);
    // No further stage is ever dispatched.
    assert!(executor.current_stage().is_none());
    match executor.result(&tasks) {
        Err(BlockProcessingFailed::TaskExecutionError { task_name, cause }) => {
            assert_eq!(task_name, "A");
            assert_eq!(cause, "down");
        }
        _ => panic!("expected the failure to be named"),
    }
}

#[test]
fn stage_executor_runs_all_stages_on_success() {
    let tasks = vec![
        td("A", &[], &[], &[1], Era::EarlyEra),
        td("B", &[], &[1], &[], Era::EarlyEra),
    ];
    let plan = build_plan(&tasks).unwrap_or_else(|_| panic!("plan must build"));
    let mut executor = StageExecutor::new(plan);
    let mut dispatched: Vec<usize> = Vec::new();
    while let Some(stage) = executor.current_stage() {
        let stage = stage.clone();
        dispatched.extend(stage.iter().copied());
        let mut outcomes = Vec::new();
        for _ in 0..stage.len() {
            outcomes.push(TaskOutcome::Success);
        }
        executor.complete_stage(&outcomes);
    }
    assert_eq!(dispatched, vec![0, 1]);
    assert!(executor.result(&tasks).is_ok());
}

#[test]
fn declared_resources_lists_reads_then_writes() {
    let task = td("A", &[], &[1, 2], &[3], Era::EarlyEra);
    let declared = task.declared_resources();
    assert_eq!(
        declared,
        vec![(1, AccessMode::Read), (2, AccessMode::Read), (3, AccessMode::Write)]
    );
}
