//! The transactional block processor: one block in, one atomic outcome out.
//!
//! The processor resolves the enabled task set for the block's era from the
//! configuration and the registry, builds the execution plan, opens a
//! transactional scope, runs the plan stage by stage against a fresh
//! resource store, records every task's duration, and commits on full
//! success or rolls back on the first failure — no partial block is ever
//! left committed. Task bodies are supplied here as data (their outcome,
//! their data-store rows and their resource writes): the host that actually
//! runs task code drives the same engine through [`crate::exec`].

use vstd::prelude::*;

use crate::exec::TaskOutcome;
use crate::exec::BlockProcessingFailed;
use crate::perf::TaskPerfAggregator;
use crate::plan::{build_plan, placed_before, in_stage, plan_valid, write_conflict_free};
use crate::registry::{RegistryError, TaskRegistry};
use crate::store::ResourceStore;
use crate::task::{Era, ResourceId, TaskDescriptor, TaskView};
use crate::txstore::TransactionalStore;

verus! {

/// The immutable bundle a block's tasks share: the raw encoded bytes
/// (empty for synthetic genesis blocks), the persisted block row's id, and
/// the block's era tag. The era-specific decoded structure travels beside
/// it (see [`crate::byron::ByronBlock`] for the early era).
pub struct BlockContext {
    pub raw_bytes: Vec<u8>,
    pub block_id: i64,
    pub era: Era,
}

/// Which tasks the caller enables for a run, by name.
pub struct RunConfig {
    pub enabled_tasks: Vec<String>,
}

/// What one enabled task does when run against this block: its outcome,
/// the data-store rows it inserts, the resource values it writes on
/// success, and its wall-clock duration.
pub struct TaskRun<V> {
    pub outcome: TaskOutcome,
    pub rows: Vec<V>,
    pub resource_writes: Vec<(ResourceId, V)>,
    pub duration: u64,
}

/// The cause carried by a failing outcome.
pub open spec fn fail_cause(o: TaskOutcome) -> Seq<char> {
    match o {
        TaskOutcome::Failure { cause } => cause@,
        TaskOutcome::Success => Seq::empty(),
    }
}

/// The task writes only resources it declares, each at most once.
pub open spec fn run_writes_ok<V>(run: TaskRun<V>, d: TaskView) -> bool {
    &&& forall|k: int|
        0 <= k < run.resource_writes@.len() ==> exists|w: int|
            0 <= w < d.writes.len() && d.writes[w] == (#[trigger] run.resource_writes@[k]).0
    &&& forall|k1: int, k2: int|
        #![trigger run.resource_writes@[k1], run.resource_writes@[k2]]
        0 <= k1 < k2 < run.resource_writes@.len() ==> run.resource_writes@[k1].0
            != run.resource_writes@[k2].0
}

/// Every task's run succeeded.
pub open spec fn all_succeeded<V>(runs: Seq<TaskRun<V>>) -> bool {
    forall|i: int| 0 <= i < runs.len() ==> (#[trigger] runs[i]).outcome.spec_is_success()
}

/// The data-store rows of the listed tasks, concatenated in list order.
pub open spec fn concat_rows<V>(runs: Seq<TaskRun<V>>, order: Seq<usize>) -> Seq<V>
    decreases order.len(),
{
    if order.len() == 0 {
        Seq::empty()
    } else {
        concat_rows(runs, order.drop_last()) + runs[order.last() as int].rows@
    }
}

/// `order` lists each of the `n` task indices exactly once.
pub open spec fn lists_each_once(order: Seq<usize>, n: nat) -> bool {
    &&& forall|k: int| 0 <= k < order.len() ==> (#[trigger] order[k]) < n
    &&& forall|k1: int, k2: int|
        #![trigger order[k1], order[k2]]
        0 <= k1 < k2 < order.len() ==> order[k1] != order[k2]
    &&& forall|i: int| 0 <= i < n ==> #[trigger] order.contains(i as usize)
}

/// `sel` is the selected set the configuration names, resolved against the
/// registry: the `i`-th selected task is a registered task of the era
/// bearing the `i`-th enabled name.
pub open spec fn selected_matches(
    reg: Seq<TaskView>,
    era: Era,
    names: Seq<Seq<char>>,
    sel: Seq<TaskView>,
) -> bool {
    &&& sel.len() == names.len()
    &&& forall|i: int|
        0 <= i < sel.len() ==> (#[trigger] sel[i]).era == era && sel[i].name == names[i]
            && exists|j: int| 0 <= j < reg.len() && (#[trigger] reg[j]) == sel[i]
}

/// Every resource value written by a listed successful task is observable
/// in the store with the writer's final value.
pub open spec fn resources_hold<V>(
    rs: Map<ResourceId, V>,
    runs: Seq<TaskRun<V>>,
    order: Seq<usize>,
) -> bool {
    forall|k: int, k2: int|
        0 <= k < order.len() && runs[order[k] as int].outcome.spec_is_success() && 0 <= k2
            < runs[order[k] as int].resource_writes@.len() ==> {
            let p = (#[trigger] runs[order[k] as int].resource_writes@[k2]);
            rs.contains_key(p.0) && rs[p.0] == p.1
        }
}

/// Processes one block: resolves the enabled task set, builds the plan,
/// opens a transaction, runs the plan stage by stage against the fresh
/// resource store, and commits on full success or rolls back on the first
/// failure. Every dispatched task's duration is recorded, succeeding or
/// failing; no aggregator total ever decreases. On any error the committed
/// rows are exactly what they were before the call.
#[verifier::loop_isolation(false)]
pub fn process_block<V: Copy>(
    registry: &TaskRegistry,
    era: Era,
    config: &RunConfig,
    context: &BlockContext,
    runs: &Vec<TaskRun<V>>,
    store: &mut TransactionalStore<V>,
    resources: &mut ResourceStore<V>,
    perf: &mut TaskPerfAggregator,
) -> (r: Result<(), BlockProcessingFailed>)
    requires
        context.era == era,
        !old(store).is_active(),
        old(perf).wf(),
        runs@.len() == config.enabled_tasks@.len(),
        forall|i: int, j: int|
            0 <= i < runs@.len() && 0 <= j < registry@.len() && (#[trigger] registry@[j]).era == era
                && registry@[j].name == (#[trigger] config.enabled_tasks.deep_view()[i])
                ==> run_writes_ok(runs@[i], registry@[j]),
    ensures
        final(perf).wf(),
        forall|nm: Seq<char>| final(perf).spec_total(nm) >= old(perf).spec_total(nm),
        forall|nm: Seq<char>| final(perf).spec_count(nm) >= old(perf).spec_count(nm),
        !final(store).is_active(),
        match r {
            Ok(()) => {
                &&& all_succeeded(runs@)
                &&& exists|order: Seq<usize>|
                    lists_each_once(order, runs@.len()) && final(store).committed() == old(
                        store,
                    ).committed() + concat_rows(runs@, order)
                &&& forall|i: int, k2: int|
                    0 <= i < runs@.len() && 0 <= k2 < runs@[i].resource_writes@.len() ==> {
                        let p = (#[trigger] runs@[i].resource_writes@[k2]);
                        final(resources)@.contains_key(p.0) && final(resources)@[p.0] == p.1
                    }
            },
            Err(BlockProcessingFailed::UnknownTask(nm)) => {
                &&& !registry.spec_contains(era, nm@)
                &&& exists|i: int|
                    0 <= i < config.enabled_tasks@.len() && (
                    #[trigger] config.enabled_tasks.deep_view()[i]) == nm@
                &&& final(store).committed() == old(store).committed()
                &&& final(perf)@ == old(perf)@
            },
            Err(BlockProcessingFailed::Plan(pe)) => {
                &&& exists|sel: Seq<TaskView>|
                    #[trigger] selected_matches(registry@, era, config.enabled_tasks.deep_view(), sel)
                        && match pe {
                        crate::plan::PlanError::MissingDependency(nm) => crate::plan::missing_dep(
                            sel,
                            nm@,
                        ),
                        crate::plan::PlanError::ResourceWriteConflict(rid) => crate::plan::write_conflict_at(
                            sel,
                            rid,
                        ),
                        crate::plan::PlanError::DependencyCycle(_) => !crate::plan::acyclic(sel),
                    }
                &&& final(store).committed() == old(store).committed()
                &&& final(perf)@ == old(perf)@
            },
            Err(BlockProcessingFailed::TaskExecutionError { task_name, cause }) => {
                &&& exists|i: int|
                    0 <= i < runs@.len() && (#[trigger] config.enabled_tasks.deep_view()[i])
                        == task_name@ && !runs@[i].outcome.spec_is_success() && cause@ == fail_cause(
                        runs@[i].outcome,
                    )
                &&& final(perf).spec_count(task_name@) >= 1
                &&& final(store).committed() == old(store).committed()
            },
        },
{
    let ghost reg = registry@;
    let ghost names = config.enabled_tasks.deep_view();

    // Resolve the enabled task set against the era's registry.
    let mut selected: Vec<TaskDescriptor> = Vec::new();
    let mut i: usize = 0;
    while i < config.enabled_tasks.len()
        invariant
            i <= names.len(),
            selected.deep_view().len() == i,
            selected_matches(reg, era, names.take(i as int), selected.deep_view()),
        decreases names.len() - i,
    {
        match registry.lookup(era, &config.enabled_tasks[i]) {
            Ok(idx) => {
                let ghost pre_sel = selected.deep_view();
                let d = registry.get(idx).duplicate();
                selected.push(d);
                proof {
                    assert(selected.deep_view() =~= pre_sel.push(reg[idx as int]));
                    assert(names.take(i as int + 1).drop_last() =~= names.take(i as int));
                }
            },
            Err(e) => {
                match e {
                    RegistryError::UnknownTask(nm) => {
                        assert(names[i as int] == nm@);
                        return Err(BlockProcessingFailed::UnknownTask(nm));
                    },
                    RegistryError::DuplicateTaskName(nm) => {
                        proof {
                            assert(false);
                        }
                        return Err(BlockProcessingFailed::UnknownTask(nm));
                    },
                }
            },
        }
        i = i + 1;
    }
    let ghost sel = selected.deep_view();
    proof {
        assert(names.take(names.len() as int) =~= names);
        assert(selected_matches(reg, era, names, sel));
        assert forall|i1: int| 0 <= i1 < runs@.len() implies run_writes_ok(
            runs@[i1],
            #[trigger] sel[i1],
        ) by {
            let j = choose|j: int| 0 <= j < reg.len() && (#[trigger] reg[j]) == sel[i1];
            assert(reg[j].era == era && reg[j].name == names[i1]);
            assert(run_writes_ok(runs@[i1], reg[j]));
        }
    }

    // Build (and validate) the execution plan.
    let plan = match build_plan(&selected) {
        Ok(p) => p,
        Err(pe) => {
            return Err(BlockProcessingFailed::Plan(pe));
        },
    };
    proof {
        assert(plan_valid(sel, plan@));
    }

    // Open the block's transactional scope and run the plan.
    store.begin_transaction();
    let ghost committed0 = store.committed();
    let ghost mut order: Seq<usize> = Seq::empty();
    let mut failure: Option<(usize, String)> = None;
    let mut s: usize = 0;
    while s < plan.stages.len() && failure.is_none()
        invariant
            s <= plan@.len(),
            store.is_active(),
            store.committed() == committed0,
            store.pending() == concat_rows(runs@, order),
            forall|k: int| 0 <= k < order.len() ==> (#[trigger] order[k]) < runs@.len(),
            forall|k1: int, k2: int|
                #![trigger order[k1], order[k2]]
                0 <= k1 < k2 < order.len() ==> order[k1] != order[k2],
            forall|i2: int|
                #![trigger order.contains(i2 as usize)]
                0 <= i2 < runs@.len() ==> (placed_before(plan@, i2, s as int) <==> order.contains(
                    i2 as usize,
                )),
            match failure {
                Some((fi, c)) => {
                    &&& fi < runs@.len()
                    &&& !runs@[fi as int].outcome.spec_is_success()
                    &&& c@ == fail_cause(runs@[fi as int].outcome)
                    &&& perf.spec_count(names[fi as int]) >= 1
                },
                None => forall|k: int|
                    0 <= k < order.len() ==> runs@[(#[trigger] order[k]) as int].outcome.spec_is_success(),
            },
            perf.wf(),
            forall|nm: Seq<char>| perf.spec_total(nm) >= old(perf).spec_total(nm),
            forall|nm: Seq<char>| perf.spec_count(nm) >= old(perf).spec_count(nm),
            resources_hold(resources@, runs@, order),
        decreases plan@.len() - s,
    {
        let ghost stv = plan@[s as int];
        let ghost order_stage0 = order;
        let stage_len = plan.stages[s].len();
        let mut p: usize = 0;
        while p < stage_len
            invariant
                s < plan@.len(),
                stv == plan@[s as int],
                stage_len == stv.len(),
                p <= stv.len(),
                store.is_active(),
                store.committed() == committed0,
                store.pending() == concat_rows(runs@, order),
                forall|k: int| 0 <= k < order.len() ==> (#[trigger] order[k]) < runs@.len(),
                forall|k1: int, k2: int|
                    #![trigger order[k1], order[k2]]
                    0 <= k1 < k2 < order.len() ==> order[k1] != order[k2],
                forall|i2: int|
                    #![trigger order.contains(i2 as usize)]
                    0 <= i2 < runs@.len() ==> ((placed_before(plan@, i2, s as int) || stv.take(
                        p as int,
                    ).contains(i2 as usize)) <==> order.contains(i2 as usize)),
                match failure {
                    Some((fi, c)) => {
                        &&& fi < runs@.len()
                        &&& !runs@[fi as int].outcome.spec_is_success()
                        &&& c@ == fail_cause(runs@[fi as int].outcome)
                        &&& perf.spec_count(names[fi as int]) >= 1
                    },
                    None => forall|k: int|
                        0 <= k < order.len() ==> runs@[(#[trigger] order[k]) as int].outcome.spec_is_success(),
                },
                perf.wf(),
                forall|nm: Seq<char>| perf.spec_total(nm) >= old(perf).spec_total(nm),
                forall|nm: Seq<char>| perf.spec_count(nm) >= old(perf).spec_count(nm),
                resources_hold(resources@, runs@, order),
            decreases stv.len() - p,
        {
            let ti = plan.stages[s][p];
            proof {
                assert(plan@[s as int][p as int] == ti as int);
                assert(in_stage(plan@, s as int, ti as int));
                let tii: int = ti as int;
                assert(ti == tii as usize);
                assert(!order.contains(tii as usize)) by {
                    if order.contains(tii as usize) {
                        if placed_before(plan@, tii, s as int) {
                            let s1 = choose|s1: int|
                                0 <= s1 < s && #[trigger] in_stage(plan@, s1, tii);
                            let p1 = choose|p1: int|
                                0 <= p1 < plan@[s1].len() && #[trigger] plan@[s1][p1] == tii;
                            assert(plan@[s1][p1] == plan@[s as int][p as int]);
                        } else {
                            assert(stv.take(p as int).contains(tii as usize));
                            let p1 = choose|p1: int|
                                0 <= p1 < stv.take(p as int).len() && #[trigger] stv.take(
                                    p as int,
                                )[p1] == ti;
                            assert(plan@[s as int][p1] == plan@[s as int][p as int]);
                        }
                    }
                }
            }
            let run = &runs[ti];
            // Insert the task's data-store rows inside the transaction.
            let ghost pending0 = store.pending();
            let mut k: usize = 0;
            while k < run.rows.len()
                invariant
                    ti < runs@.len(),
                    run == &runs[ti as int],
                    k <= run.rows@.len(),
                    store.is_active(),
                    store.committed() == committed0,
                    store.pending() == pending0 + run.rows@.take(k as int),
                decreases run.rows@.len() - k,
            {
                store.insert(run.rows[k]);
                proof {
                    assert(run.rows@.take(k as int + 1) =~= run.rows@.take(k as int).push(
                        run.rows@[k as int],
                    ));
                    assert(store.pending() =~= pending0 + run.rows@.take(k as int + 1));
                }
                k = k + 1;
            }
            let ghost order_pre = order;
            proof {
                order = order.push(ti);
                assert(run.rows@.take(run.rows@.len() as int) =~= run.rows@);
                assert(order.drop_last() =~= order_pre);
                assert(order.last() == ti);
                assert(concat_rows(runs@, order) =~= concat_rows(runs@, order_pre) + runs@[
                    ti as int
                ].rows@);
                assert(store.pending() =~= concat_rows(runs@, order));
            }
            // Record the task's duration, succeeding or failing.
            perf.update(&selected[ti].name, run.duration);
            if run.outcome.is_success() {
                // Publish the task's declared resource values.
                let ghost rw = run.resource_writes@;
                let mut k2: usize = 0;
                while k2 < run.resource_writes.len()
                    invariant
                        ti < runs@.len(),
                        run == &runs[ti as int],
                        order.last() == ti,
                        order.drop_last() == order_pre,
                        rw == run.resource_writes@,
                        k2 <= rw.len(),
                        resources_hold(resources@, runs@, order_pre),
                        forall|k3: int|
                            0 <= k3 < k2 ==> resources@.contains_key(
                                (#[trigger] rw[k3]).0,
                            ) && resources@[rw[k3].0] == rw[k3].1,
                    decreases rw.len() - k2,
                {
                    let pair = run.resource_writes[k2];
                    proof {
                        // The new key collides with no earlier write: other
                        // tasks' declared writes are disjoint (one writer
                        // per resource), and a writer declares each of its
                        // own resources once.
                        assert forall|k: int, k3: int|
                            0 <= k < order_pre.len() && runs@[order_pre[k] as int].outcome.spec_is_success()
                                && 0 <= k3 < runs@[order_pre[k] as int].resource_writes@.len()
                            implies (#[trigger] runs@[order_pre[k] as int].resource_writes@[k3]).0
                            != pair.0 by {
                            let tj = order_pre[k] as int;
                            assert(run_writes_ok(runs@[tj], sel[tj]));
                            assert(run_writes_ok(runs@[ti as int], sel[ti as int]));
                            assert(tj != ti as int) by {
                                assert(order_pre[k] != order.last());
                            }
                            let w1 = choose|w: int|
                                0 <= w < sel[tj].writes.len() && #[trigger] sel[tj].writes[w]
                                    == runs@[tj].resource_writes@[k3].0;
                            let tii = ti as int;
                            let w2 = choose|w: int|
                                0 <= w < sel[tii].writes.len() && #[trigger] sel[tii].writes[w]
                                    == rw[k2 as int].0;
                            assert(write_conflict_free(sel));
                            assert(sel[tj].writes[w1] != sel[ti as int].writes[w2]);
                        }
                    }
                    resources.write(pair.0, pair.1);
                    k2 = k2 + 1;
                }
                proof {
                    assert(resources_hold(resources@, runs@, order)) by {
                        assert forall|k: int, k3: int|
                            0 <= k < order.len() && runs@[order[k] as int].outcome.spec_is_success()
                                && 0 <= k3 < runs@[order[k] as int].resource_writes@.len()
                            implies {
                            let q = (#[trigger] runs@[order[k] as int].resource_writes@[k3]);
                            resources@.contains_key(q.0) && resources@[q.0] == q.1
                        } by {
                            if k < order.len() - 1 {
                                assert(order_pre[k] == order[k]);
                            } else {
                                assert(order[k] == ti);
                            }
                        }
                    }
                }
            } else {
                if failure.is_none() {
                    match &run.outcome {
                        TaskOutcome::Failure { cause } => {
                            proof {
                                assert(names[ti as int] == sel[ti as int].name);
                                assert(perf.spec_count(names[ti as int]) >= 1);
                            }
                            failure = Some((ti, cause.clone()));
                        },
                        TaskOutcome::Success => {
                            proof {
                                assert(false);
                            }
                        },
                    }
                }
                proof {
                    assert(resources_hold(resources@, runs@, order)) by {
                        assert forall|k: int, k3: int|
                            0 <= k < order.len() && runs@[order[k] as int].outcome.spec_is_success()
                                && 0 <= k3 < runs@[order[k] as int].resource_writes@.len()
                            implies {
                            let q = (#[trigger] runs@[order[k] as int].resource_writes@[k3]);
                            resources@.contains_key(q.0) && resources@[q.0] == q.1
                        } by {
                            if k < order.len() - 1 {
                                assert(order_pre[k] == order[k]);
                            } else {
                                assert(order[k] == ti);
                            }
                        }
                    }
                }
            }
            proof {
                assert forall|i2: int|
                    #![trigger order.contains(i2 as usize)]
                    0 <= i2 < runs@.len() implies ((placed_before(plan@, i2, s as int)
                    || stv.take(p as int + 1).contains(i2 as usize)) <==> order.contains(
                    i2 as usize,
                )) by {
                    assert(stv.take(p as int + 1) =~= stv.take(p as int).push(stv[p as int]));
                    if i2 == ti as int {
                        assert(order.last() == ti);
                        assert(order.contains(ti));
                        assert(stv.take(p as int + 1)[p as int] == ti);
                        assert(stv.take(p as int + 1).contains(ti));
                    } else {
                        assert(order.contains(i2 as usize) <==> order_pre.contains(i2 as usize))
                            by {
                            if order.contains(i2 as usize) {
                                let k = choose|k: int|
                                    0 <= k < order.len() && #[trigger] order[k] == i2 as usize;
                                assert(order_pre[k] == i2 as usize);
                            }
                            if order_pre.contains(i2 as usize) {
                                let k = choose|k: int|
                                    0 <= k < order_pre.len() && #[trigger] order_pre[k]
                                        == i2 as usize;
                                assert(order[k] == i2 as usize);
                            }
                        }
                        assert(stv.take(p as int + 1).contains(i2 as usize) <==> stv.take(
                            p as int,
                        ).contains(i2 as usize)) by {
                            if stv.take(p as int + 1).contains(i2 as usize) {
                                let k = choose|k: int|
                                    0 <= k < stv.take(p as int + 1).len() && #[trigger] stv.take(
                                        p as int + 1,
                                    )[k] == i2 as usize;
                                if k < p {
                                    assert(stv.take(p as int)[k] == i2 as usize);
                                }
                            }
                            if stv.take(p as int).contains(i2 as usize) {
                                let k = choose|k: int|
                                    0 <= k < stv.take(p as int).len() && #[trigger] stv.take(
                                        p as int,
                                    )[k] == i2 as usize;
                                assert(stv.take(p as int + 1)[k] == i2 as usize);
                            }
                        }
                    }
                }
            }
            p = p + 1;
        }
        proof {
            assert forall|i2: int|
                #![trigger order.contains(i2 as usize)]
                0 <= i2 < runs@.len() implies (placed_before(plan@, i2, s as int + 1)
                <==> order.contains(i2 as usize)) by {
                assert(stv.take(stage_len as int) =~= stv);
                if placed_before(plan@, i2, s as int + 1) {
                    let s1 = choose|s1: int|
                        0 <= s1 < s + 1 && #[trigger] in_stage(plan@, s1, i2);
                    if s1 < s {
                        assert(placed_before(plan@, i2, s as int));
                    } else {
                        let p1 = choose|p1: int|
                            0 <= p1 < plan@[s1].len() && #[trigger] plan@[s1][p1] == i2;
                        assert(stv[p1] == i2 as usize);
                        assert(stv.contains(i2 as usize));
                    }
                }
                if order.contains(i2 as usize) {
                    if placed_before(plan@, i2, s as int) {
                        let s1 = choose|s1: int|
                            0 <= s1 < s && #[trigger] in_stage(plan@, s1, i2);
                        assert(in_stage(plan@, s1, i2));
                        assert(placed_before(plan@, i2, s as int + 1));
                    } else {
                        assert(stv.contains(i2 as usize));
                        let p1 = choose|p1: int|
                            0 <= p1 < stv.len() && #[trigger] stv[p1] == i2 as usize;
                        assert(plan@[s as int][p1] == i2);
                        assert(in_stage(plan@, s as int, i2));
                        assert(placed_before(plan@, i2, s as int + 1));
                    }
                }
            }
        }
        s = s + 1;
    }

    // Commit on full success; roll back on the first failure.
    match failure {
        None => {
            proof {
                assert(s == plan@.len());
                assert forall|i2: int|
                    #![trigger order.contains(i2 as usize)]
                    0 <= i2 < runs@.len() implies order.contains(i2 as usize) by {
                    assert(crate::plan::placed_in(plan@, i2));
                    let s1 = choose|s1: int| #[trigger] in_stage(plan@, s1, i2);
                    assert(placed_before(plan@, i2, s as int));
                }
                assert(lists_each_once(order, runs@.len()));
                assert forall|i2: int| 0 <= i2 < runs@.len() implies (
                #[trigger] runs@[i2]).outcome.spec_is_success() by {
                    assert(order.contains(i2 as usize));
                    let k = choose|k: int| 0 <= k < order.len() && #[trigger] order[k]
                        == i2 as usize;
                }
            }
            store.commit();
            proof {
                assert forall|i2: int, k2: int|
                    0 <= i2 < runs@.len() && 0 <= k2 < runs@[i2].resource_writes@.len() implies {
                    let q = (#[trigger] runs@[i2].resource_writes@[k2]);
                    resources@.contains_key(q.0) && resources@[q.0] == q.1
                } by {
                    assert(order.contains(i2 as usize));
                    let k = choose|k: int| 0 <= k < order.len() && #[trigger] order[k]
                        == i2 as usize;
                    assert(runs@[order[k] as int].resource_writes@[k2] == runs@[
                        i2
                    ].resource_writes@[k2]);
                }
            }
            Ok(())
        },
        Some((fi, cause)) => {
            store.rollback();
            proof {
                assert(sel[fi as int].name == names[fi as int]);
            }
            Err(
                BlockProcessingFailed::TaskExecutionError {
                    task_name: selected[fi].name.clone(),
                    cause,
                },
            )
        },
    }
}

} // verus!
