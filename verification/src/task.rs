//! Task descriptors: the static description of one extraction task.
//!
//! A task has a stable name, a set of upstream task names it depends on, and
//! a declared set of resources it reads or writes. The scheduler consumes
//! these descriptors; the task bodies themselves run outside the engine.

use vstd::prelude::*;

verus! {

/// The protocol eras of the chain, each with its own block wire format and
/// its own set of applicable tasks.
#[derive(Clone, Copy, PartialEq, Eq, Structural, Debug)]
pub enum Era {
    /// The synthetic genesis block (no raw bytes, no transactions).
    Genesis,
    /// The early protocol era.
    EarlyEra,
    /// The later multi-feature eras.
    MultiEra,
}

/// Identifies one typed slot of intermediate per-block state.
pub type ResourceId = u64;

/// The access a task declares on a resource.
#[derive(Clone, Copy, PartialEq, Eq, Structural, Debug)]
pub enum AccessMode {
    Read,
    Write,
}

/// The mathematical model of a [`TaskDescriptor`].
#[verifier::ext_equal]
pub struct TaskView {
    pub name: Seq<char>,
    pub dependencies: Seq<Seq<char>>,
    pub reads: Seq<ResourceId>,
    pub writes: Seq<ResourceId>,
    pub era: Era,
}

/// The static description of one task: its name, the names of the tasks that
/// must complete before it, and the resources it reads and writes.
pub struct TaskDescriptor {
    pub name: String,
    pub dependencies: Vec<String>,
    pub reads: Vec<ResourceId>,
    pub writes: Vec<ResourceId>,
    pub era: Era,
}

impl View for TaskDescriptor {
    type V = TaskView;

    open spec fn view(&self) -> TaskView {
        TaskView {
            name: self.name@,
            dependencies: self.dependencies.deep_view(),
            reads: self.reads@,
            writes: self.writes@,
            era: self.era,
        }
    }
}

impl DeepView for TaskDescriptor {
    type V = TaskView;

    open spec fn deep_view(&self) -> TaskView {
        self.view()
    }
}

impl TaskDescriptor {
    /// Builds a descriptor from its parts.
    pub fn new(
        name: String,
        dependencies: Vec<String>,
        reads: Vec<ResourceId>,
        writes: Vec<ResourceId>,
        era: Era,
    ) -> (r: TaskDescriptor)
        ensures
            r@ == (TaskView {
                name: name@,
                dependencies: dependencies.deep_view(),
                reads: reads@,
                writes: writes@,
                era: era,
            }),
    {
        TaskDescriptor { name, dependencies, reads, writes, era }
    }

    /// Every resource the task touches, with its declared access mode:
    /// first the reads, then the writes. Used for concurrency inference
    /// only; the resource store is the actual data channel.
    pub fn declared_resources(&self) -> (r: Vec<(ResourceId, AccessMode)>)
        ensures
            r@.len() == self.reads@.len() + self.writes@.len(),
            forall|k: int|
                0 <= k < self.reads@.len() ==> (#[trigger] r@[k]) == (
                    self.reads@[k],
                    AccessMode::Read,
                ),
            forall|k: int|
                self.reads@.len() <= k < r@.len() ==> (#[trigger] r@[k]) == (
                    self.writes@[k - self.reads@.len()],
                    AccessMode::Write,
                ),
    {
        let mut out: Vec<(ResourceId, AccessMode)> = Vec::new();
        let mut k: usize = 0;
        while k < self.reads.len()
            invariant
                k <= self.reads@.len(),
                out@.len() == k,
                forall|i: int|
                    0 <= i < k ==> (#[trigger] out@[i]) == (self.reads@[i], AccessMode::Read),
            decreases self.reads.len() - k,
        {
            out.push((self.reads[k], AccessMode::Read));
            k = k + 1;
        }
        k = 0;
        while k < self.writes.len()
            invariant
                k <= self.writes@.len(),
                out@.len() == self.reads@.len() + k,
                forall|i: int|
                    0 <= i < self.reads@.len() ==> (#[trigger] out@[i]) == (
                        self.reads@[i],
                        AccessMode::Read,
                    ),
                forall|i: int|
                    self.reads@.len() <= i < out@.len() ==> (#[trigger] out@[i]) == (
                        self.writes@[i - self.reads@.len()],
                        AccessMode::Write,
                    ),
            decreases self.writes.len() - k,
        {
            out.push((self.writes[k], AccessMode::Write));
            k = k + 1;
        }
        out
    }

    /// An equal copy of this descriptor.
    pub fn duplicate(&self) -> (r: TaskDescriptor)
        ensures
            r@ == self@,
    {
        let mut deps: Vec<String> = Vec::new();
        let mut k: usize = 0;
        while k < self.dependencies.len()
            invariant
                k <= self.dependencies.len(),
                deps@.len() == k,
                forall|i: int| 0 <= i < k ==> (#[trigger] deps@[i])@ == self.dependencies@[i]@,
            decreases self.dependencies.len() - k,
        {
            deps.push(self.dependencies[k].clone());
            k = k + 1;
        }
        proof {
            assert(deps.deep_view() =~= self.dependencies.deep_view());
        }
        let mut reads: Vec<ResourceId> = Vec::new();
        k = 0;
        while k < self.reads.len()
            invariant
                k <= self.reads.len(),
                reads@ =~= self.reads@.take(k as int),
            decreases self.reads.len() - k,
        {
            reads.push(self.reads[k]);
            k = k + 1;
        }
        let mut writes: Vec<ResourceId> = Vec::new();
        k = 0;
        while k < self.writes.len()
            invariant
                k <= self.writes.len(),
                writes@ =~= self.writes@.take(k as int),
            decreases self.writes.len() - k,
        {
            writes.push(self.writes[k]);
            k = k + 1;
        }
        let r = TaskDescriptor {
            name: self.name.clone(),
            dependencies: deps,
            reads,
            writes,
            era: self.era,
        };
        proof {
            assert(r.dependencies.deep_view() =~= self.dependencies.deep_view());
            assert(r.reads@ =~= self.reads@);
            assert(r.writes@ =~= self.writes@);
            assert(r@ =~= self@);
        }
        r
    }
}

/// The capability every task implementation exposes to the scheduler: its
/// stable name and the names of the tasks it depends on.
pub trait TaskBuilder {
    fn get_name(&self) -> String;

    fn get_dependencies(&self) -> Vec<String>;
}

} // verus!
