//! The performance aggregator: a run-wide accumulator of per-task elapsed
//! time. Every task execution adds its wall-clock duration (in nanoseconds)
//! and one invocation to its name's record, whether the task succeeded or
//! failed; totals never decrease. Reading a snapshot never resets anything.

use vstd::prelude::*;

verus! {

/// Saturating addition on durations.
pub open spec fn sat_add(a: u64, b: u64) -> u64 {
    if a + b <= u64::MAX {
        (a + b) as u64
    } else {
        u64::MAX
    }
}

/// The mapping the aggregator's three parallel columns denote: task name to
/// (total duration, invocation count); later rows win.
pub open spec fn perf_map(names: Seq<Seq<char>>, totals: Seq<u64>, counts: Seq<u64>) -> Map<
    Seq<char>,
    (u64, u64),
>
    decreases names.len(),
{
    if names.len() == 0 {
        Map::empty()
    } else {
        perf_map(names.drop_last(), totals.drop_last(), counts.drop_last()).insert(
            names.last(),
            (totals.last(), counts.last()),
        )
    }
}

proof fn lemma_perf_map_dom(names: Seq<Seq<char>>, totals: Seq<u64>, counts: Seq<u64>, nm: Seq<char>)
    requires
        totals.len() == names.len(),
        counts.len() == names.len(),
    ensures
        perf_map(names, totals, counts).contains_key(nm) <==> exists|i: int|
            0 <= i < names.len() && #[trigger] names[i] == nm,
    decreases names.len(),
{
    if names.len() > 0 {
        let dn = names.drop_last();
        let dt = totals.drop_last();
        let dc = counts.drop_last();
        lemma_perf_map_dom(dn, dt, dc, nm);
        let last = names.len() - 1;
        if nm == names[last] {
            assert(names[last] == nm);
            assert(perf_map(names, totals, counts).contains_key(nm));
        } else {
            if perf_map(dn, dt, dc).contains_key(nm) {
                let i = choose|i: int| 0 <= i < dn.len() && #[trigger] dn[i] == nm;
                assert(names[i] == nm);
            }
            if exists|i: int| 0 <= i < names.len() && #[trigger] names[i] == nm {
                let i = choose|i: int| 0 <= i < names.len() && #[trigger] names[i] == nm;
                assert(dn[i] == nm);
                assert(perf_map(dn, dt, dc).contains_key(nm));
            }
        }
    }
}

proof fn lemma_perf_map_update(names: Seq<Seq<char>>, totals: Seq<u64>, counts: Seq<u64>, i: int, t: u64, c: u64)
    requires
        totals.len() == names.len(),
        counts.len() == names.len(),
        0 <= i < names.len(),
        forall|k1: int, k2: int|
            #![trigger names[k1], names[k2]]
            0 <= k1 < k2 < names.len() ==> names[k1] != names[k2],
    ensures
        perf_map(names, totals.update(i, t), counts.update(i, c)) == perf_map(
            names,
            totals,
            counts,
        ).insert(names[i], (t, c)),
    decreases names.len(),
{
    let last = names.len() - 1;
    let dn = names.drop_last();
    let dt = totals.drop_last();
    let dc = counts.drop_last();
    if i == last {
        assert(totals.update(i, t).drop_last() =~= dt);
        assert(counts.update(i, c).drop_last() =~= dc);
        assert(perf_map(names, totals.update(i, t), counts.update(i, c)) =~= perf_map(
            names,
            totals,
            counts,
        ).insert(names[i], (t, c)));
    } else {
        assert(totals.update(i, t).drop_last() =~= dt.update(i, t));
        assert(counts.update(i, c).drop_last() =~= dc.update(i, c));
        lemma_perf_map_update(dn, dt, dc, i, t, c);
        assert(dn[i] == names[i]);
        assert(names[i] != names[last]);
        assert(perf_map(names, totals.update(i, t), counts.update(i, c)) =~= perf_map(
            names,
            totals,
            counts,
        ).insert(names[i], (t, c)));
    }
}

/// The run-wide accumulator of per-task elapsed time.
pub struct TaskPerfAggregator {
    names: Vec<String>,
    totals: Vec<u64>,
    counts: Vec<u64>,
}

impl TaskPerfAggregator {
    /// The aggregator as a map from task name to (total nanoseconds,
    /// invocation count).
    pub closed spec fn view(&self) -> Map<Seq<char>, (u64, u64)> {
        perf_map(self.names.deep_view(), self.totals@, self.counts@)
    }

    /// The columns are parallel and no task name repeats.
    pub closed spec fn wf(&self) -> bool {
        &&& self.totals@.len() == self.names@.len()
        &&& self.counts@.len() == self.names@.len()
        &&& forall|k1: int, k2: int|
            #![trigger self.names.deep_view()[k1], self.names.deep_view()[k2]]
            0 <= k1 < k2 < self.names@.len() ==> self.names.deep_view()[k1]
                != self.names.deep_view()[k2]
    }

    /// The accumulated total for a name; zero before its first update.
    pub open spec fn spec_total(&self, nm: Seq<char>) -> u64 {
        if self@.contains_key(nm) {
            self@[nm].0
        } else {
            0
        }
    }

    /// The accumulated invocation count for a name.
    pub open spec fn spec_count(&self, nm: Seq<char>) -> u64 {
        if self@.contains_key(nm) {
            self@[nm].1
        } else {
            0
        }
    }

    /// An empty aggregator.
    pub fn new() -> (r: TaskPerfAggregator)
        ensures
            r.wf(),
            r@ == Map::<Seq<char>, (u64, u64)>::empty(),
    {
        TaskPerfAggregator { names: Vec::new(), totals: Vec::new(), counts: Vec::new() }
    }

    /// Adds one execution's duration to the name's running total and
    /// increments its invocation count, saturating at the maximum. Safe to
    /// call for succeeding and failing tasks alike; no other name's record
    /// moves, and no total ever decreases.
    pub fn update(&mut self, task_name: &String, duration: u64)
        requires
            old(self).wf(),
        ensures
            final(self).wf(),
            final(self)@ == old(self)@.insert(
                task_name@,
                (
                    sat_add(old(self).spec_total(task_name@), duration),
                    sat_add(old(self).spec_count(task_name@), 1),
                ),
            ),
            forall|nm: Seq<char>| final(self).spec_total(nm) >= old(self).spec_total(nm),
            forall|nm: Seq<char>| final(self).spec_count(nm) >= old(self).spec_count(nm),
            forall|nm: Seq<char>|
                nm != task_name@ ==> final(self).spec_total(nm) == old(self).spec_total(nm)
                    && final(self).spec_count(nm) == old(self).spec_count(nm),
    {
        let ghost pre = *self;
        proof {
            lemma_perf_map_dom(self.names.deep_view(), self.totals@, self.counts@, task_name@);
        }
        let mut i: usize = 0;
        while i < self.names.len()
            invariant
                *self == pre,
                pre == *old(self),
                self.wf(),
                i <= self.names.len(),
                forall|k: int|
                    0 <= k < i ==> (#[trigger] self.names.deep_view()[k]) != task_name@,
            decreases self.names.len() - i,
        {
            if self.names[i] == *task_name {
                assert(self.names.deep_view()[i as int] == task_name@);
                let t0 = self.totals[i];
                let c0 = self.counts[i];
                let t1 = if t0 <= u64::MAX - duration {
                    t0 + duration
                } else {
                    u64::MAX
                };
                let c1 = if c0 < u64::MAX {
                    c0 + 1
                } else {
                    u64::MAX
                };
                proof {
                    lemma_perf_map_update(
                        self.names.deep_view(),
                        self.totals@,
                        self.counts@,
                        i as int,
                        t1,
                        c1,
                    );
                    lemma_perf_map_dom(self.names.deep_view(), self.totals@, self.counts@, task_name@);
                    assert(self@.contains_key(task_name@));
                    assert(self@[task_name@] == (t0, c0)) by {
                        lemma_perf_map_at(self.names.deep_view(), self.totals@, self.counts@, i as int);
                    }
                }
                self.totals[i] = t1;
                self.counts[i] = c1;
                proof {
                    assert(self.names.deep_view() =~= pre.names.deep_view());
                }
                return ;
            }
            i = i + 1;
        }
        proof {
            assert(forall|k: int|
                0 <= k < self.names@.len() ==> (#[trigger] self.names.deep_view()[k])
                    != task_name@);
            lemma_perf_map_dom(self.names.deep_view(), self.totals@, self.counts@, task_name@);
            assert(!self@.contains_key(task_name@));
        }
        let ghost n0 = self.names.deep_view();
        self.names.push(task_name.clone());
        self.totals.push(duration);
        self.counts.push(1);
        proof {
            assert(self.names.deep_view() =~= n0.push(task_name@));
            assert(self.names.deep_view().drop_last() =~= n0);
            assert(self.totals@.drop_last() =~= pre.totals@);
            assert(self.counts@.drop_last() =~= pre.counts@);
        }
    }

    /// The record for one task name: (total nanoseconds, invocation count).
    pub fn get(&self, task_name: &String) -> (r: Option<(u64, u64)>)
        requires
            self.wf(),
        ensures
            match r {
                Some(p) => self@.contains_key(task_name@) && p == self@[task_name@],
                None => !self@.contains_key(task_name@),
            },
    {
        proof {
            lemma_perf_map_dom(self.names.deep_view(), self.totals@, self.counts@, task_name@);
        }
        let mut i: usize = 0;
        while i < self.names.len()
            invariant
                self.wf(),
                i <= self.names.len(),
                forall|k: int|
                    0 <= k < i ==> (#[trigger] self.names.deep_view()[k]) != task_name@,
            decreases self.names.len() - i,
        {
            if self.names[i] == *task_name {
                assert(self.names.deep_view()[i as int] == task_name@);
                proof {
                    lemma_perf_map_dom(self.names.deep_view(), self.totals@, self.counts@, task_name@);
                    lemma_perf_map_at(self.names.deep_view(), self.totals@, self.counts@, i as int);
                }
                return Some((self.totals[i], self.counts[i]));
            }
            i = i + 1;
        }
        proof {
            lemma_perf_map_dom(self.names.deep_view(), self.totals@, self.counts@, task_name@);
        }
        None
    }

    /// A read-only snapshot: every task name with its total and count, in
    /// first-update order. Resets nothing.
    pub fn snapshot(&self) -> (r: Vec<(String, u64, u64)>)
        requires
            self.wf(),
        ensures
            forall|k: int|
                0 <= k < r@.len() ==> self@.contains_key((#[trigger] r@[k]).0@) && self@[r@[k].0@]
                    == (r@[k].1, r@[k].2),
            forall|nm: Seq<char>|
                #[trigger] self@.contains_key(nm) ==> exists|k: int|
                    0 <= k < r@.len() && (#[trigger] r@[k]).0@ == nm,
    {
        let mut out: Vec<(String, u64, u64)> = Vec::new();
        let mut i: usize = 0;
        while i < self.names.len()
            invariant
                self.wf(),
                i <= self.names.len(),
                out@.len() == i,
                forall|k: int|
                    0 <= k < i ==> (#[trigger] out@[k]).0@ == self.names.deep_view()[k] && out@[k].1
                        == self.totals@[k] && out@[k].2 == self.counts@[k],
            decreases self.names.len() - i,
        {
            out.push((self.names[i].clone(), self.totals[i], self.counts[i]));
            i = i + 1;
        }
        proof {
            assert forall|k: int|
                0 <= k < out@.len() implies self@.contains_key((#[trigger] out@[k]).0@)
                && self@[out@[k].0@] == (out@[k].1, out@[k].2) by {
                lemma_perf_map_at(self.names.deep_view(), self.totals@, self.counts@, k);
            }
            assert forall|nm: Seq<char>| #[trigger] self@.contains_key(nm) implies exists|k: int|
                0 <= k < out@.len() && (#[trigger] out@[k]).0@ == nm by {
                lemma_perf_map_dom(self.names.deep_view(), self.totals@, self.counts@, nm);
                let i0 = choose|i0: int|
                    0 <= i0 < self.names.deep_view().len() && #[trigger] self.names.deep_view()[i0]
                        == nm;
                assert(out@[i0].0@ == nm);
            }
        }
        out
    }
}

proof fn lemma_perf_map_at(names: Seq<Seq<char>>, totals: Seq<u64>, counts: Seq<u64>, i: int)
    requires
        totals.len() == names.len(),
        counts.len() == names.len(),
        0 <= i < names.len(),
        forall|k1: int, k2: int|
            #![trigger names[k1], names[k2]]
            0 <= k1 < k2 < names.len() ==> names[k1] != names[k2],
    ensures
        perf_map(names, totals, counts).contains_key(names[i]),
        perf_map(names, totals, counts)[names[i]] == (totals[i], counts[i]),
    decreases names.len(),
{
    let last = names.len() - 1;
    if i == last {
    } else {
        lemma_perf_map_at(names.drop_last(), totals.drop_last(), counts.drop_last(), i);
        assert(names.drop_last()[i] == names[i]);
        assert(names[i] != names[last]);
    }
}

} // verus!
