//! Execution-plan construction: the scheduler's front half.
//!
//! Given a selected set of task descriptors, `build_plan` validates the set
//! (every name dependency resolves, no resource has two writers), builds the
//! induced dependency graph, and layers it into stages by repeatedly
//! extracting the tasks whose every predecessor is already placed. A stage is
//! a set of tasks that may run concurrently; stage `k + 1` may only begin
//! once every task of stage `k` has finished.

use vstd::prelude::*;

use crate::task::{ResourceId, TaskDescriptor, TaskView};

verus! {

/// Why plan construction failed.
#[derive(Debug)]
pub enum PlanError {
    /// A selected task names a dependency that is not in the selected set.
    MissingDependency(String),
    /// Two selected tasks declare write access to the same resource.
    ResourceWriteConflict(ResourceId),
    /// The induced graph over the selected set is not acyclic; the payload
    /// names the tasks that could not be placed (each lies on a cycle or
    /// downstream of one).
    DependencyCycle(Vec<String>),
}

/// Task `j` names task `i` among its dependencies.
pub open spec fn dep_edge(ts: Seq<TaskView>, i: int, j: int) -> bool {
    exists|d: int|
        0 <= d < ts[j].dependencies.len() && ts[j].dependencies[d] == ts[i].name
}

/// Task `j` reads a resource that task `i` writes.
pub open spec fn res_edge(ts: Seq<TaskView>, i: int, j: int) -> bool {
    exists|w: int, r: int|
        0 <= w < ts[i].writes.len() && 0 <= r < ts[j].reads.len() && ts[i].writes[w]
            == ts[j].reads[r]
}

/// Task `j` must run strictly after task `i`: either `j` depends on `i` by
/// name, or `j` reads a resource that `i` writes.
pub open spec fn edge(ts: Seq<TaskView>, i: int, j: int) -> bool {
    dep_edge(ts, i, j) || res_edge(ts, i, j)
}

/// Every dependency name of every task resolves to a task in the set.
pub open spec fn deps_resolved(ts: Seq<TaskView>) -> bool {
    forall|j: int, d: int|
        0 <= j < ts.len() && 0 <= d < ts[j].dependencies.len() ==> exists|i: int|
            0 <= i < ts.len() && ts[i].name == #[trigger] ts[j].dependencies[d]
}

/// The name `nm` is named as a dependency by some task but is not the name
/// of any task in the set.
pub open spec fn missing_dep(ts: Seq<TaskView>, nm: Seq<char>) -> bool {
    &&& exists|j: int, d: int|
        0 <= j < ts.len() && 0 <= d < ts[j].dependencies.len() && #[trigger] ts[j].dependencies[d]
            == nm
    &&& forall|i: int| 0 <= i < ts.len() ==> (#[trigger] ts[i].name) != nm
}

/// Two distinct tasks both declare write access to resource `rid`.
pub open spec fn write_conflict_at(ts: Seq<TaskView>, rid: ResourceId) -> bool {
    exists|i: int, j: int, wi: int, wj: int|
        0 <= i < ts.len() && 0 <= j < ts.len() && i != j && 0 <= wi < ts[i].writes.len() && 0 <= wj
            < ts[j].writes.len() && #[trigger] ts[i].writes[wi] == rid && #[trigger] ts[j].writes[wj]
            == rid
}

/// No resource has two distinct declared writers in the set.
pub open spec fn write_conflict_free(ts: Seq<TaskView>) -> bool {
    forall|i: int, j: int, wi: int, wj: int|
        0 <= i < ts.len() && 0 <= j < ts.len() && i != j && 0 <= wi < ts[i].writes.len() && 0 <= wj
            < ts[j].writes.len() ==> #[trigger] ts[i].writes[wi] != #[trigger] ts[j].writes[wj]
}

/// `rank` witnesses that the task graph is acyclic: every edge strictly
/// increases the rank.
pub open spec fn is_ranking(rank: Seq<nat>, ts: Seq<TaskView>) -> bool {
    &&& rank.len() == ts.len()
    &&& forall|i: int, j: int|
        0 <= i < ts.len() && 0 <= j < ts.len() && #[trigger] edge(ts, i, j) ==> rank[i] < rank[j]
}

/// The induced graph over the selected set has no cycle.
pub open spec fn acyclic(ts: Seq<TaskView>) -> bool {
    exists|rank: Seq<nat>| is_ranking(rank, ts)
}

/// `path` is a cycle in the task graph: a non-empty sequence of task indices
/// with an edge between each consecutive pair and from the last back to the
/// first.
pub open spec fn is_cycle(ts: Seq<TaskView>, path: Seq<int>) -> bool {
    &&& path.len() >= 1
    &&& forall|k: int| 0 <= k < path.len() ==> 0 <= #[trigger] path[k] < ts.len()
    &&& forall|k: int| 0 <= k < path.len() - 1 ==> edge(ts, #[trigger] path[k], path[k + 1])
    &&& edge(ts, path[path.len() - 1], path[0])
}

proof fn lemma_ranking_along_path(ts: Seq<TaskView>, path: Seq<int>, rank: Seq<nat>, k: int)
    requires
        is_cycle(ts, path),
        is_ranking(rank, ts),
        0 <= k < path.len(),
    ensures
        rank[path[0]] + k <= rank[path[k]],
    decreases k,
{
    if k > 0 {
        lemma_ranking_along_path(ts, path, rank, k - 1);
        assert(edge(ts, path[k - 1], path[k]));
    }
}

/// A set containing a cycle admits no ranking, so it is not acyclic.
pub proof fn lemma_cycle_not_acyclic(ts: Seq<TaskView>, path: Seq<int>)
    requires
        is_cycle(ts, path),
    ensures
        !acyclic(ts),
{
    if acyclic(ts) {
        let rank = choose|rank: Seq<nat>| is_ranking(rank, ts);
        let last = path.len() - 1;
        lemma_ranking_along_path(ts, path, rank, last);
        assert(edge(ts, path[last], path[0]));
    }
}

/// Task index `i` stands somewhere in stage `s` of the plan.
pub open spec fn in_stage(plan: Seq<Seq<usize>>, s: int, i: int) -> bool {
    &&& 0 <= s < plan.len()
    &&& exists|p: int| 0 <= p < plan[s].len() && #[trigger] plan[s][p] == i
}

/// Task index `i` stands somewhere in the plan.
pub open spec fn placed_in(plan: Seq<Seq<usize>>, i: int) -> bool {
    exists|s: int| #[trigger] in_stage(plan, s, i)
}

/// The plan lists every task index exactly once, lists nothing else, and has
/// no empty stage.
pub open spec fn plan_partitions(ts: Seq<TaskView>, plan: Seq<Seq<usize>>) -> bool {
    &&& forall|s: int, p: int|
        0 <= s < plan.len() && 0 <= p < plan[s].len() ==> #[trigger] plan[s][p] < ts.len()
    &&& forall|i: int| 0 <= i < ts.len() ==> placed_in(plan, i)
    &&& forall|s1: int, p1: int, s2: int, p2: int|
        0 <= s1 < plan.len() && 0 <= p1 < plan[s1].len() && 0 <= s2 < plan.len() && 0 <= p2
            < plan[s2].len() && #[trigger] plan[s1][p1] == #[trigger] plan[s2][p2] ==> s1 == s2
            && p1 == p2
    &&& forall|s: int| 0 <= s < plan.len() ==> #[trigger] plan[s].len() > 0
}

/// Every edge of the task graph points from an earlier stage to a strictly
/// later one; members of one stage are mutually independent.
pub open spec fn plan_respects_edges(ts: Seq<TaskView>, plan: Seq<Seq<usize>>) -> bool {
    forall|s1: int, p1: int, s2: int, p2: int|
        #![trigger plan[s1][p1], plan[s2][p2]]
        0 <= s1 < plan.len() && 0 <= p1 < plan[s1].len() && 0 <= s2 < plan.len() && 0 <= p2
            < plan[s2].len() && edge(ts, plan[s1][p1] as int, plan[s2][p2] as int) ==> s1 < s2
}

/// The plan is a valid topological layering of the selected set.
pub open spec fn plan_valid(ts: Seq<TaskView>, plan: Seq<Seq<usize>>) -> bool {
    plan_partitions(ts, plan) && plan_respects_edges(ts, plan)
}

/// An ordered sequence of stages; each stage is a set of task indices (into
/// the selected set the plan was built from) that may run concurrently.
pub struct ExecutionPlan {
    pub stages: Vec<Vec<usize>>,
}

impl ExecutionPlan {
    /// The stages as a mathematical sequence of sequences of indices.
    pub open spec fn view(&self) -> Seq<Seq<usize>> {
        self.stages.deep_view()
    }
}

/// A valid plan yields a ranking (the stage index of each task), so the
/// task graph is acyclic.
pub proof fn lemma_plan_valid_acyclic(ts: Seq<TaskView>, plan: Seq<Seq<usize>>)
    requires
        plan_valid(ts, plan),
    ensures
        acyclic(ts),
{
    let rank = Seq::<nat>::new(
        ts.len(),
        |i: int| (choose|s: int| #[trigger] in_stage(plan, s, i)) as nat,
    );
    assert forall|i: int, j: int|
        0 <= i < ts.len() && 0 <= j < ts.len() && #[trigger] edge(ts, i, j) implies rank[i]
        < rank[j] by {
        assert(placed_in(plan, i));
        assert(placed_in(plan, j));
        let si = choose|s: int| #[trigger] in_stage(plan, s, i);
        let sj = choose|s: int| #[trigger] in_stage(plan, s, j);
        let pi = choose|p: int| 0 <= p < plan[si].len() && #[trigger] plan[si][p] == i;
        let pj = choose|p: int| 0 <= p < plan[sj].len() && #[trigger] plan[sj][p] == j;
        assert(edge(ts, plan[si][pi] as int, plan[sj][pj] as int));
        assert(si < sj);
        assert(rank[i] == si as nat && rank[j] == sj as nat);
    }
    assert(is_ranking(rank, ts));
}

/// Task `m` has no predecessor among the unplaced tasks: every task that
/// must run before `m` is already placed.
pub open spec fn ready(ts: Seq<TaskView>, placed: Seq<bool>, m: int) -> bool {
    forall|u: int| 0 <= u < ts.len() && !placed[u] ==> !(#[trigger] edge(ts, u, m))
}

/// How many entries of `s` are true.
pub open spec fn count_true(s: Seq<bool>) -> nat
    decreases s.len(),
{
    if s.len() == 0 {
        0
    } else {
        count_true(s.drop_last()) + if s.last() {
            1nat
        } else {
            0nat
        }
    }
}

proof fn lemma_count_true_le(s: Seq<bool>)
    ensures
        count_true(s) <= s.len(),
    decreases s.len(),
{
    if s.len() > 0 {
        lemma_count_true_le(s.drop_last());
    }
}

proof fn lemma_count_true_update_true(s: Seq<bool>, i: int)
    requires
        0 <= i < s.len(),
        !s[i],
    ensures
        count_true(s.update(i, true)) == count_true(s) + 1,
    decreases s.len(),
{
    let t = s.update(i, true);
    if i == s.len() - 1 {
        assert(t.drop_last() =~= s.drop_last());
    } else {
        assert(t.drop_last() =~= s.drop_last().update(i, true));
        lemma_count_true_update_true(s.drop_last(), i);
        assert(t.last() == s.last());
    }
}

proof fn lemma_all_true_count(s: Seq<bool>)
    requires
        forall|k: int| 0 <= k < s.len() ==> s[k],
    ensures
        count_true(s) == s.len(),
    decreases s.len(),
{
    if s.len() > 0 {
        lemma_all_true_count(s.drop_last());
    }
}

proof fn lemma_count_lt_exists_false(s: Seq<bool>)
    requires
        count_true(s) < s.len(),
    ensures
        exists|k: int| 0 <= k < s.len() && !s[k],
{
    if forall|k: int| 0 <= k < s.len() ==> s[k] {
        lemma_all_true_count(s);
    }
}

/// If the graph has a ranking and some task is unplaced, then some unplaced
/// task is ready: follow unplaced predecessors downward in rank.
proof fn lemma_exists_ready(ts: Seq<TaskView>, placed: Seq<bool>, rank: Seq<nat>, j: int)
    requires
        is_ranking(rank, ts),
        placed.len() == ts.len(),
        0 <= j < ts.len(),
        !placed[j],
    ensures
        exists|m: int| 0 <= m < ts.len() && !placed[m] && #[trigger] ready(ts, placed, m),
    decreases rank[j],
{
    if exists|u: int| 0 <= u < ts.len() && !placed[u] && #[trigger] edge(ts, u, j) {
        let u = choose|u: int| 0 <= u < ts.len() && !placed[u] && #[trigger] edge(ts, u, j);
        assert(rank[u] < rank[j]);
        lemma_exists_ready(ts, placed, rank, u);
    } else {
        assert(ready(ts, placed, j));
    }
}

/// True iff some task in the set bears the name `name`.
fn name_exists(tasks: &Vec<TaskDescriptor>, name: &String) -> (r: bool)
    ensures
        r == exists|i: int|
            0 <= i < tasks.deep_view().len() && (#[trigger] tasks.deep_view()[i].name) == name@,
{
    let ghost ts = tasks.deep_view();
    let mut i: usize = 0;
    while i < tasks.len()
        invariant
            i <= tasks.len(),
            ts == tasks.deep_view(),
            forall|k: int| 0 <= k < i ==> (#[trigger] ts[k].name) != name@,
        decreases tasks.len() - i,
    {
        if tasks[i].name == *name {
            assert(ts[i as int].name == name@);
            return true;
        }
        i = i + 1;
    }
    false
}

/// No write set of `a` shares a resource with the write set of `b`.
pub open spec fn no_shared_write(a: TaskView, b: TaskView) -> bool {
    forall|wi: int, wj: int|
        0 <= wi < a.writes.len() && 0 <= wj < b.writes.len() ==> (#[trigger] a.writes[wi])
            != (#[trigger] b.writes[wj])
}

/// A resource both `a` and `b` declare write access to, if any.
fn shared_write(a: &TaskDescriptor, b: &TaskDescriptor) -> (r: Option<ResourceId>)
    ensures
        match r {
            Some(rid) => exists|wi: int, wj: int|
                0 <= wi < a@.writes.len() && 0 <= wj < b@.writes.len() && (#[trigger] a@.writes[wi])
                    == rid && (#[trigger] b@.writes[wj]) == rid,
            None => no_shared_write(a@, b@),
        },
{
    let mut wi: usize = 0;
    while wi < a.writes.len()
        invariant
            wi <= a.writes.len(),
            forall|k: int, wj: int|
                0 <= k < wi && 0 <= wj < b@.writes.len() ==> (#[trigger] a@.writes[k])
                    != (#[trigger] b@.writes[wj]),
        decreases a.writes.len() - wi,
    {
        let mut wj: usize = 0;
        while wj < b.writes.len()
            invariant
                wi < a.writes.len(),
                wj <= b.writes.len(),
                forall|k: int| 0 <= k < wj ==> a@.writes[wi as int] != (#[trigger] b@.writes[k]),
            decreases b.writes.len() - wj,
        {
            if a.writes[wi] == b.writes[wj] {
                let rid = a.writes[wi];
                assert(a@.writes[wi as int] == rid && b@.writes[wj as int] == rid);
                return Some(rid);
            }
            wj = wj + 1;
        }
        wi = wi + 1;
    }
    None
}

/// True iff the task graph has an edge from `u` to `v`.
fn is_edge(tasks: &Vec<TaskDescriptor>, u: usize, v: usize) -> (r: bool)
    requires
        u < tasks.len(),
        v < tasks.len(),
    ensures
        r == edge(tasks.deep_view(), u as int, v as int),
{
    let ghost ts = tasks.deep_view();
    let mut d: usize = 0;
    while d < tasks[v].dependencies.len()
        invariant
            u < tasks.len(),
            v < tasks.len(),
            ts == tasks.deep_view(),
            d <= tasks[v as int].dependencies.len(),
            forall|k: int| 0 <= k < d ==> (#[trigger] ts[v as int].dependencies[k]) != ts[u as int].name,
        decreases tasks[v as int].dependencies.len() - d,
    {
        if tasks[v].dependencies[d] == tasks[u].name {
            assert(ts[v as int].dependencies[d as int] == ts[u as int].name);
            assert(dep_edge(ts, u as int, v as int));
            return true;
        }
        d = d + 1;
    }
    assert(!dep_edge(ts, u as int, v as int));
    let mut w: usize = 0;
    while w < tasks[u].writes.len()
        invariant
            u < tasks.len(),
            v < tasks.len(),
            ts == tasks.deep_view(),
            w <= tasks[u as int].writes.len(),
            forall|k: int, rr: int|
                0 <= k < w && 0 <= rr < ts[v as int].reads.len() ==> (#[trigger] ts[u as int].writes[k])
                    != (#[trigger] ts[v as int].reads[rr]),
        decreases tasks[u as int].writes.len() - w,
    {
        let mut rr: usize = 0;
        while rr < tasks[v].reads.len()
            invariant
                u < tasks.len(),
                v < tasks.len(),
                ts == tasks.deep_view(),
                w < tasks[u as int].writes.len(),
                rr <= tasks[v as int].reads.len(),
                forall|k: int|
                    0 <= k < rr ==> ts[u as int].writes[w as int] != (#[trigger] ts[v as int].reads[k]),
            decreases tasks[v as int].reads.len() - rr,
        {
            if tasks[u].writes[w] == tasks[v].reads[rr] {
                assert(ts[u as int].writes[w as int] == ts[v as int].reads[rr as int]);
                assert(res_edge(ts, u as int, v as int));
                return true;
            }
            rr = rr + 1;
        }
        w = w + 1;
    }
    assert(!res_edge(ts, u as int, v as int));
    false
}

/// True iff some unplaced task must run before task `v`.
fn has_unplaced_pred(tasks: &Vec<TaskDescriptor>, placed: &Vec<bool>, v: usize) -> (r: bool)
    requires
        placed.len() == tasks.len(),
        v < tasks.len(),
    ensures
        r == !ready(tasks.deep_view(), placed@, v as int),
{
    let ghost ts = tasks.deep_view();
    let mut u: usize = 0;
    while u < tasks.len()
        invariant
            placed.len() == tasks.len(),
            v < tasks.len(),
            u <= tasks.len(),
            ts == tasks.deep_view(),
            forall|k: int| 0 <= k < u && !placed@[k] ==> !(#[trigger] edge(ts, k, v as int)),
        decreases tasks.len() - u,
    {
        if !placed[u] && is_edge(tasks, u, v) {
            assert(!ready(ts, placed@, v as int));
            return true;
        }
        u = u + 1;
    }
    assert(ready(ts, placed@, v as int));
    false
}

/// Task `u` stands in some stage strictly before stage `s2`.
pub open spec fn placed_before(pl: Seq<Seq<usize>>, u: int, s2: int) -> bool {
    exists|s1: int| 0 <= s1 < s2 && #[trigger] in_stage(pl, s1, u)
}

/// Every predecessor of task `v` stands in a stage strictly before `s2`.
pub open spec fn preds_before(ts: Seq<TaskView>, pl: Seq<Seq<usize>>, s2: int, v: int) -> bool {
    forall|u: int| 0 <= u < ts.len() && #[trigger] edge(ts, u, v) ==> placed_before(pl, u, s2)
}

/// The layering loop's invariant: the stages built so far list distinct
/// in-range tasks, `placed` marks exactly the listed tasks, and every
/// predecessor of a listed task stands in an earlier stage.
pub open spec fn kahn_inv(ts: Seq<TaskView>, pl: Seq<Seq<usize>>, placed: Seq<bool>) -> bool {
    &&& placed.len() == ts.len()
    &&& forall|s: int, p: int|
        0 <= s < pl.len() && 0 <= p < pl[s].len() ==> (#[trigger] pl[s][p]) < ts.len()
    &&& forall|s: int| 0 <= s < pl.len() ==> (#[trigger] pl[s]).len() > 0
    &&& forall|i: int| #![trigger placed[i]] #![trigger placed_in(pl, i)]
        0 <= i < ts.len() ==> (placed[i] <==> placed_in(pl, i))
    &&& forall|s1: int, p1: int, s2: int, p2: int|
        #![trigger pl[s1][p1], pl[s2][p2]]
        0 <= s1 < pl.len() && 0 <= p1 < pl[s1].len() && 0 <= s2 < pl.len() && 0 <= p2
            < pl[s2].len() && pl[s1][p1] == pl[s2][p2] ==> s1 == s2 && p1 == p2
    &&& forall|s2: int, p2: int|
        0 <= s2 < pl.len() && 0 <= p2 < pl[s2].len() ==> preds_before(
            ts,
            pl,
            s2,
            (#[trigger] pl[s2][p2]) as int,
        )
}

proof fn lemma_count_eq_all_true(s: Seq<bool>)
    requires
        count_true(s) == s.len(),
    ensures
        forall|k: int| 0 <= k < s.len() ==> s[k],
    decreases s.len(),
{
    if s.len() > 0 {
        lemma_count_true_le(s.drop_last());
        lemma_count_eq_all_true(s.drop_last());
        assert forall|k: int| 0 <= k < s.len() implies s[k] by {
            if k < s.len() - 1 {
                assert(s.drop_last()[k]);
            }
        }
    }
}

proof fn lemma_count_all_false(s: Seq<bool>)
    requires
        forall|k: int| 0 <= k < s.len() ==> !s[k],
    ensures
        count_true(s) == 0,
    decreases s.len(),
{
    if s.len() > 0 {
        lemma_count_all_false(s.drop_last());
    }
}

/// Builds the execution plan for a selected set of task descriptors.
///
/// Validation order: every name dependency must resolve within the set, then
/// no resource may have two declared writers, then the induced graph must be
/// acyclic. On success the returned stages are a valid topological layering
/// of the set. Within a stage, tasks stand in ascending selected-set order,
/// so the plan is deterministic for a given selected set.
#[verifier::loop_isolation(false)]
pub fn build_plan(tasks: &Vec<TaskDescriptor>) -> (r: Result<ExecutionPlan, PlanError>)
    ensures
        match r {
            Ok(plan) => {
                &&& deps_resolved(tasks.deep_view())
                &&& write_conflict_free(tasks.deep_view())
                &&& acyclic(tasks.deep_view())
                &&& plan_valid(tasks.deep_view(), plan@)
            },
            Err(PlanError::MissingDependency(nm)) => missing_dep(tasks.deep_view(), nm@),
            Err(PlanError::ResourceWriteConflict(rid)) => {
                &&& deps_resolved(tasks.deep_view())
                &&& write_conflict_at(tasks.deep_view(), rid)
            },
            Err(PlanError::DependencyCycle(names)) => {
                &&& deps_resolved(tasks.deep_view())
                &&& write_conflict_free(tasks.deep_view())
                &&& !acyclic(tasks.deep_view())
                &&& names@.len() >= 1
            },
        },
{
    let ghost ts = tasks.deep_view();
    let n = tasks.len();

    // Step 1: every dependency name must resolve within the set.
    let mut j: usize = 0;
    while j < n
        invariant
            n == tasks.len(),
            ts == tasks.deep_view(),
            j <= n,
            forall|j1: int, d: int|
                0 <= j1 < j && 0 <= d < ts[j1].dependencies.len() ==> exists|i: int|
                    0 <= i < ts.len() && ts[i].name == #[trigger] ts[j1].dependencies[d],
        decreases n - j,
    {
        let mut d: usize = 0;
        while d < tasks[j].dependencies.len()
            invariant
                n == tasks.len(),
                ts == tasks.deep_view(),
                j < n,
                d <= tasks[j as int].dependencies.len(),
                forall|j1: int, d1: int|
                    0 <= j1 < j && 0 <= d1 < ts[j1].dependencies.len() ==> exists|i: int|
                        0 <= i < ts.len() && ts[i].name == #[trigger] ts[j1].dependencies[d1],
                forall|d1: int|
                    0 <= d1 < d ==> exists|i: int|
                        0 <= i < ts.len() && ts[i].name == #[trigger] ts[j as int].dependencies[d1],
            decreases tasks[j as int].dependencies.len() - d,
        {
            if !name_exists(tasks, &tasks[j].dependencies[d]) {
                let nm = tasks[j].dependencies[d].clone();
                assert(ts[j as int].dependencies[d as int] == nm@);
                assert(missing_dep(ts, nm@));
                return Err(PlanError::MissingDependency(nm));
            }
            d = d + 1;
        }
        j = j + 1;
    }
    assert(deps_resolved(ts));

    // Step 2: no resource may have two declared writers.
    let mut i: usize = 0;
    while i < n
        invariant
            n == tasks.len(),
            ts == tasks.deep_view(),
            i <= n,
            deps_resolved(ts),
            forall|i1: int, j1: int|
                0 <= i1 < i && i1 < j1 < n ==> no_shared_write(#[trigger] ts[i1], #[trigger] ts[j1]),
        decreases n - i,
    {
        let mut j2: usize = i + 1;
        while j2 < n
            invariant
                n == tasks.len(),
                ts == tasks.deep_view(),
                i < n,
                i < j2,
                j2 <= n,
                forall|i1: int, j1: int|
                    0 <= i1 < i && i1 < j1 < n ==> no_shared_write(
                        #[trigger] ts[i1],
                        #[trigger] ts[j1],
                    ),
                forall|j1: int| i < j1 < j2 ==> no_shared_write(ts[i as int], #[trigger] ts[j1]),
            decreases n - j2,
        {
            match shared_write(&tasks[i], &tasks[j2]) {
                Some(rid) => {
                    proof {
                        let (wi, wj) = choose|wi: int, wj: int|
                            0 <= wi < ts[i as int].writes.len()
                            && 0 <= wj < ts[j2 as int].writes.len()
                            && (#[trigger] ts[i as int].writes[wi]) == rid
                            && (#[trigger] ts[j2 as int].writes[wj]) == rid;
                        assert(ts[i as int].writes[wi] == rid && ts[j2 as int].writes[wj] == rid);
                        assert(write_conflict_at(ts, rid));
                    }
                    return Err(PlanError::ResourceWriteConflict(rid));
                },
                None => {},
            }
            j2 = j2 + 1;
        }
        i = i + 1;
    }
    assert(write_conflict_free(ts)) by {
        assert forall|i1: int, j1: int, wi: int, wj: int|
            0 <= i1 < ts.len() && 0 <= j1 < ts.len() && i1 != j1 && 0 <= wi < ts[i1].writes.len()
                && 0 <= wj < ts[j1].writes.len() implies (#[trigger] ts[i1].writes[wi]) != (
        #[trigger] ts[j1].writes[wj]) by {
            if i1 < j1 {
                assert(no_shared_write(ts[i1], ts[j1]));
            } else {
                assert(no_shared_write(ts[j1], ts[i1]));
            }
        }
    };

    // Step 3: layer the graph by repeatedly extracting every task whose
    // predecessors are all placed.
    let mut placed: Vec<bool> = Vec::new();
    let mut q: usize = 0;
    while q < n
        invariant
            q <= n,
            placed@.len() == q,
            forall|k: int| 0 <= k < q ==> !(#[trigger] placed@[k]),
        decreases n - q,
    {
        placed.push(false);
        q = q + 1;
    }
    proof {
        lemma_count_all_false(placed@);
    }
    let mut plan_stages: Vec<Vec<usize>> = Vec::new();
    let mut placed_count: usize = 0;

    while placed_count < n
        invariant
            n == tasks.len(),
            ts == tasks.deep_view(),
            deps_resolved(ts),
            write_conflict_free(ts),
            placed@.len() == n,
            placed_count == count_true(placed@),
            placed_count <= n,
            kahn_inv(ts, plan_stages.deep_view(), placed@),
        decreases n - placed_count,
    {
        let ghost pl_old = plan_stages.deep_view();
        // Collect every unplaced task whose predecessors are all placed.
        let mut stage: Vec<usize> = Vec::new();
        let mut v: usize = 0;
        while v < n
            invariant
                n == tasks.len(),
                ts == tasks.deep_view(),
                placed@.len() == n,
                v <= n,
                forall|k: int| 0 <= k < stage@.len() ==> (#[trigger] stage@[k]) < v,
                forall|k1: int, k2: int|
                    #![trigger stage@[k1], stage@[k2]]
                    0 <= k1 < k2 < stage@.len() ==> stage@[k1] < stage@[k2],
                forall|k: int|
                    0 <= k < stage@.len() ==> !placed@[(#[trigger] stage@[k]) as int] && ready(
                        ts,
                        placed@,
                        stage@[k] as int,
                    ),
                forall|m: int|
                    0 <= m < v && !placed@[m] && #[trigger] ready(ts, placed@, m) ==> exists|k: int|
                        0 <= k < stage@.len() && stage@[k] == m as usize,
            decreases n - v,
        {
            if !placed[v] && !has_unplaced_pred(tasks, &placed, v) {
                let ghost st_old = stage@;
                stage.push(v);
                proof {
                    assert forall|m: int|
                        0 <= m < v + 1 && !placed@[m] && #[trigger] ready(ts, placed@, m)
                        implies exists|k: int|
                        0 <= k < stage@.len() && stage@[k] == m as usize by {
                        if m == v {
                            assert(stage@[stage@.len() - 1] == m as usize);
                        } else {
                            let k0 = choose|k: int|
                                0 <= k < st_old.len() && st_old[k] == m as usize;
                            assert(stage@[k0] == m as usize);
                        }
                    }
                }
            }
            v = v + 1;
        }

        if stage.len() == 0 {
            // No task is extractable though some remain: the graph cannot be
            // acyclic.
            proof {
                lemma_count_lt_exists_false(placed@);
                if acyclic(ts) {
                    let rank = choose|rank: Seq<nat>| is_ranking(rank, ts);
                    let j0 = choose|k: int| 0 <= k < placed@.len() && !placed@[k];
                    lemma_exists_ready(ts, placed@, rank, j0);
                    let m = choose|m: int|
                        0 <= m < ts.len() && !placed@[m] && #[trigger] ready(ts, placed@, m);
                    assert(false);
                }
            }
            let mut names: Vec<String> = Vec::new();
            let mut w: usize = 0;
            while w < n
                invariant
                    n == tasks.len(),
                    placed@.len() == n,
                    w <= n,
                    (exists|k: int| 0 <= k < w && !placed@[k]) ==> names@.len() >= 1,
                decreases n - w,
            {
                if !placed[w] {
                    names.push(tasks[w].name.clone());
                }
                w = w + 1;
            }
            proof {
                lemma_count_lt_exists_false(placed@);
            }
            return Err(PlanError::DependencyCycle(names));
        }

        // Mark the stage's tasks as placed.
        let ghost placed_pre = placed@;
        let ghost pc0 = placed_count;
        let mut k: usize = 0;
        while k < stage.len()
            invariant
                n == tasks.len(),
                placed@.len() == n,
                k <= stage.len(),
                placed_count == pc0 + k,
                placed_count == count_true(placed@),
                placed_count <= n,
                forall|kk: int| 0 <= kk < stage@.len() ==> (#[trigger] stage@[kk]) < n,
                forall|k1: int, k2: int|
                    #![trigger stage@[k1], stage@[k2]]
                    0 <= k1 < k2 < stage@.len() ==> stage@[k1] < stage@[k2],
                forall|kk: int|
                    0 <= kk < stage@.len() ==> !placed_pre[(#[trigger] stage@[kk]) as int] && ready(
                        ts,
                        placed_pre,
                        stage@[kk] as int,
                    ),
                forall|m: int|
                    #![trigger placed@[m]]
                    0 <= m < n ==> (placed@[m] <==> (placed_pre[m] || exists|kk: int|
                        0 <= kk < k && stage@[kk] == m as usize)),
        decreases stage.len() - k,
        {
            let idx = stage[k];
            proof {
                assert(!placed@[idx as int]);
                lemma_count_true_update_true(placed@, idx as int);
                lemma_count_true_le(placed@.update(idx as int, true));
            }
            placed[idx] = true;
            placed_count = placed_count + 1;
            k = k + 1;
        }
        let ghost st = stage@;
        plan_stages.push(stage);

        // Re-establish the invariant for the extended plan.
        proof {
            let ghost pl_new = plan_stages.deep_view();
            assert(pl_new.len() == pl_old.len() + 1);
            assert(forall|s: int| 0 <= s < pl_old.len() ==> pl_new[s] == #[trigger] pl_old[s]);
            let ghost w = pl_old.len() as int;
            assert(pl_new[w] =~= st);
            assert forall|s: int, p: int|
                0 <= s < pl_new.len() && 0 <= p < pl_new[s].len() implies (#[trigger] pl_new[s][p])
                < ts.len() by {
                if s < w {
                    assert(pl_new[s] == pl_old[s]);
                } else {
                    assert(pl_new[s] == st);
                }
            }
            assert forall|s: int| 0 <= s < pl_new.len() implies (#[trigger] pl_new[s]).len()
                > 0 by {
                if s < w {
                    assert(pl_new[s] == pl_old[s]);
                } else {
                    assert(pl_new[s] == st);
                }
            }
            assert forall|i: int| 0 <= i < n implies (placed@[i] <==> placed_in(pl_new, i)) by {
                if placed@[i] {
                    if placed_pre[i] {
                        assert(placed_in(pl_old, i));
                        let s = choose|s: int| #[trigger] in_stage(pl_old, s, i);
                        assert(pl_new[s] == pl_old[s]);
                        assert(in_stage(pl_new, s, i));
                    } else {
                        let kk = choose|kk: int|
                            0 <= kk < st.len() && #[trigger] st[kk] == i as usize;
                        assert(pl_new[w][kk] == i);
                        assert(in_stage(pl_new, w, i));
                    }
                    assert(placed_in(pl_new, i));
                } else {
                    if placed_in(pl_new, i) {
                        let s = choose|s: int| #[trigger] in_stage(pl_new, s, i);
                        if s < w {
                            assert(pl_new[s] == pl_old[s]);
                            assert(in_stage(pl_old, s, i));
                            assert(placed_in(pl_old, i));
                            assert(placed_pre[i]);
                        } else {
                            assert(pl_new[s] == st);
                            let p = choose|p: int|
                                0 <= p < pl_new[s].len() && #[trigger] pl_new[s][p] == i;
                            assert(st[p] == i as usize);
                            assert(placed@[i]);
                        }
                        assert(false);
                    }
                }
            }
            assert forall|s1: int, p1: int, s2: int, p2: int|
                0 <= s1 < pl_new.len() && 0 <= p1 < pl_new[s1].len() && 0 <= s2 < pl_new.len()
                    && 0 <= p2 < pl_new[s2].len() && #[trigger] pl_new[s1][p1] == #[trigger] pl_new[s2][p2]
                implies s1 == s2 && p1 == p2 by {
                let x = pl_new[s1][p1];
                if s1 < w && s2 < w {
                    assert(pl_new[s1] == pl_old[s1]);
                    assert(pl_new[s2] == pl_old[s2]);
                    assert(pl_old[s1][p1] == pl_old[s2][p2]);
                } else if s1 == w && s2 == w {
                    assert(pl_new[s1] == st);
                    if p1 < p2 {
                        assert(st[p1] < st[p2]);
                    } else if p2 < p1 {
                        assert(st[p2] < st[p1]);
                    }
                } else if s1 < w && s2 == w {
                    assert(pl_new[s1] == pl_old[s1]);
                    assert(pl_new[s2] == st);
                    assert(in_stage(pl_old, s1, x as int));
                    assert(placed_in(pl_old, x as int));
                    assert(placed_pre[x as int]);
                    assert(!placed_pre[st[p2] as int]);
                    assert(false);
                } else {
                    assert(pl_new[s2] == pl_old[s2]);
                    assert(pl_new[s1] == st);
                    assert(in_stage(pl_old, s2, x as int));
                    assert(placed_in(pl_old, x as int));
                    assert(placed_pre[x as int]);
                    assert(!placed_pre[st[p1] as int]);
                    assert(false);
                }
            }
            assert forall|s2: int, p2: int|
                0 <= s2 < pl_new.len() && 0 <= p2 < pl_new[s2].len() implies preds_before(
                ts,
                pl_new,
                s2,
                (#[trigger] pl_new[s2][p2]) as int,
            ) by {
                let v2 = pl_new[s2][p2] as int;
                if s2 < w {
                    assert(pl_new[s2] == pl_old[s2]);
                    assert(preds_before(ts, pl_old, s2, v2));
                    assert forall|u: int|
                        0 <= u < ts.len() && #[trigger] edge(ts, u, v2) implies placed_before(
                        pl_new,
                        u,
                        s2,
                    ) by {
                        let s1 = choose|s1: int| 0 <= s1 < s2 && #[trigger] in_stage(pl_old, s1, u);
                        assert(pl_new[s1] == pl_old[s1]);
                        assert(in_stage(pl_new, s1, u));
                    }
                } else {
                    assert(pl_new[s2] == st);
                    assert(ready(ts, placed_pre, v2));
                    assert forall|u: int|
                        0 <= u < ts.len() && #[trigger] edge(ts, u, v2) implies placed_before(
                        pl_new,
                        u,
                        s2,
                    ) by {
                        if !placed_pre[u] {
                            assert(!ready(ts, placed_pre, v2));
                        }
                        assert(placed_pre[u]);
                        assert(placed_in(pl_old, u));
                        let s1 = choose|s1: int| #[trigger] in_stage(pl_old, s1, u);
                        assert(pl_new[s1] == pl_old[s1]);
                        assert(in_stage(pl_new, s1, u));
                        assert(0 <= s1 < w);
                    }
                }
            }
            assert(kahn_inv(ts, pl_new, placed@));
        }
    }

    // Every task is placed: the layering is a valid plan.
    proof {
        lemma_count_eq_all_true(placed@);
    }
    let ghost pl = plan_stages.deep_view();
    proof {
        assert(plan_partitions(ts, pl));
        assert forall|s1: int, p1: int, s2: int, p2: int|
            0 <= s1 < pl.len() && 0 <= p1 < pl[s1].len() && 0 <= s2 < pl.len() && 0 <= p2
                < pl[s2].len() && edge(ts, pl[s1][p1] as int, pl[s2][p2] as int) implies s1
            < s2 by {
            let u = pl[s1][p1];
            let v2 = pl[s2][p2];
            assert(preds_before(ts, pl, s2, v2 as int));
            assert(placed_before(pl, u as int, s2));
            let s1b = choose|s: int| 0 <= s < s2 && #[trigger] in_stage(pl, s, u as int);
            let p1b = choose|p: int| 0 <= p < pl[s1b].len() && #[trigger] pl[s1b][p] == u as int;
            assert(pl[s1b][p1b] == pl[s1][p1]);
        }
        assert(plan_valid(ts, pl));
        lemma_plan_valid_acyclic(ts, pl);
    }
    Ok(ExecutionPlan { stages: plan_stages })
}

} // verus!
