//! The task registry: the catalogue of available tasks, partitioned by era.
//!
//! Extension modules register their task descriptors once at startup, before
//! any scheduling begins; afterwards the registry is only read. Within one
//! era no two registered tasks share a name.

use vstd::prelude::*;

use crate::task::{Era, TaskDescriptor, TaskView};

verus! {

/// Why a registry operation failed.
#[derive(Debug)]
pub enum RegistryError {
    /// The name does not resolve to a registered task for the era.
    UnknownTask(String),
    /// A task with this name is already registered for the era.
    DuplicateTaskName(String),
}

/// The catalogue of available task descriptors.
pub struct TaskRegistry {
    entries: Vec<TaskDescriptor>,
}

impl TaskRegistry {
    /// The registered descriptors, in registration order.
    pub closed spec fn view(&self) -> Seq<TaskView> {
        self.entries.deep_view()
    }

    /// No two entries of one era share a name.
    pub open spec fn wf(&self) -> bool {
        forall|i: int, j: int|
            #![trigger self@[i], self@[j]]
            0 <= i < j < self@.len() && self@[i].era == self@[j].era ==> self@[i].name
                != self@[j].name
    }

    /// Some entry of `era` bears the name `name`.
    pub open spec fn spec_contains(&self, era: Era, name: Seq<char>) -> bool {
        exists|i: int|
            0 <= i < self@.len() && (#[trigger] self@[i]).era == era && self@[i].name == name
    }

    /// An empty registry.
    pub fn new() -> (r: TaskRegistry)
        ensures
            r.wf(),
            r@.len() == 0,
    {
        TaskRegistry { entries: Vec::new() }
    }

    /// Adds one task descriptor to its era's catalogue. Rejects a second
    /// task of the same name within the era: registration is append-only
    /// and names are unique per era.
    pub fn register(&mut self, descriptor: TaskDescriptor) -> (r: Result<(), RegistryError>)
        requires
            old(self).wf(),
        ensures
            final(self).wf(),
            match r {
                Ok(()) => {
                    &&& !old(self).spec_contains(descriptor@.era, descriptor@.name)
                    &&& final(self)@ == old(self)@.push(descriptor@)
                },
                Err(RegistryError::DuplicateTaskName(nm)) => {
                    &&& nm@ == descriptor@.name
                    &&& old(self).spec_contains(descriptor@.era, descriptor@.name)
                    &&& final(self)@ == old(self)@
                },
                Err(RegistryError::UnknownTask(_)) => false,
            },
    {
        let mut i: usize = 0;
        while i < self.entries.len()
            invariant
                i <= self.entries.len(),
                self == old(self),
                self.wf(),
                forall|k: int|
                    0 <= k < i ==> !((#[trigger] self@[k]).era == descriptor@.era && self@[k].name
                        == descriptor@.name),
            decreases self.entries.len() - i,
        {
            if self.entries[i].era == descriptor.era && self.entries[i].name == descriptor.name {
                assert(self@[i as int].era == descriptor@.era && self@[i as int].name
                    == descriptor@.name);
                return Err(RegistryError::DuplicateTaskName(descriptor.name));
            }
            i = i + 1;
        }
        let ghost pre = self@;
        self.entries.push(descriptor);
        proof {
            assert(self@ =~= pre.push(descriptor@));
        }
        Ok(())
    }

    /// The position of the era's task bearing `name`, or `UnknownTask`.
    pub fn lookup(&self, era: Era, name: &String) -> (r: Result<usize, RegistryError>)
        ensures
            match r {
                Ok(i) => {
                    &&& i < self@.len()
                    &&& self@[i as int].era == era
                    &&& self@[i as int].name == name@
                },
                Err(RegistryError::UnknownTask(nm)) => {
                    &&& nm@ == name@
                    &&& !self.spec_contains(era, name@)
                },
                Err(RegistryError::DuplicateTaskName(_)) => false,
            },
    {
        let mut i: usize = 0;
        while i < self.entries.len()
            invariant
                i <= self.entries.len(),
                forall|k: int|
                    0 <= k < i ==> !((#[trigger] self@[k]).era == era && self@[k].name == name@),
            decreases self.entries.len() - i,
        {
            if self.entries[i].era == era && self.entries[i].name == *name {
                assert(self@[i as int].era == era && self@[i as int].name == name@);
                return Ok(i);
            }
            i = i + 1;
        }
        Err(RegistryError::UnknownTask(name.clone()))
    }

    /// The descriptor at position `i`.
    pub fn get(&self, i: usize) -> (r: &TaskDescriptor)
        requires
            i < self@.len(),
        ensures
            r@ == self@[i as int],
    {
        &self.entries[i]
    }

    /// The number of registered descriptors, over all eras.
    pub fn len(&self) -> (r: usize)
        ensures
            r == self@.len(),
    {
        self.entries.len()
    }

    /// Clones of every descriptor registered for `era`, in registration
    /// order.
    pub fn list(&self, era: Era) -> (r: Vec<TaskDescriptor>)
        ensures
            r.deep_view() == era_tasks(self@, era),
    {
        let mut out: Vec<TaskDescriptor> = Vec::new();
        let mut i: usize = 0;
        while i < self.entries.len()
            invariant
                i <= self.entries.len(),
                out.deep_view() =~= era_tasks(self@.take(i as int), era),
            decreases self.entries.len() - i,
        {
            proof {
                assert(self@.take(i as int + 1).drop_last() =~= self@.take(i as int));
                assert(self@.take(i as int + 1).last() == self@[i as int]);
            }
            if self.entries[i].era == era {
                out.push(self.entries[i].duplicate());
                proof {
                    assert(out.deep_view() =~= era_tasks(self@.take(i as int + 1), era));
                }
            }
            i = i + 1;
        }
        proof {
            assert(self@.take(self@.len() as int) =~= self@);
        }
        out
    }
}

/// The sub-sequence of `ts` whose era is `era`, in order.
pub open spec fn era_tasks(ts: Seq<TaskView>, era: Era) -> Seq<TaskView>
    decreases ts.len(),
{
    if ts.len() == 0 {
        Seq::empty()
    } else if ts.last().era == era {
        era_tasks(ts.drop_last(), era).push(ts.last())
    } else {
        era_tasks(ts.drop_last(), era)
    }
}

/// A genesis-era entry of the registry.
pub struct GenesisTaskRegistryEntry {
    pub builder: TaskDescriptor,
}

/// An early-era entry of the registry.
pub struct ByronTaskRegistryEntry {
    pub builder: TaskDescriptor,
}

/// A multi-feature-era entry of the registry.
pub struct MultieraTaskRegistryEntry {
    pub builder: TaskDescriptor,
}

/// One registry entry, tagged by the era its task applies to.
pub enum TaskRegistryEntry {
    Genesis(GenesisTaskRegistryEntry),
    Byron(ByronTaskRegistryEntry),
    Multiera(MultieraTaskRegistryEntry),
}

impl TaskRegistryEntry {
    /// The era this entry's variant stands for.
    pub open spec fn spec_era(&self) -> Era {
        match self {
            TaskRegistryEntry::Genesis(_) => Era::Genesis,
            TaskRegistryEntry::Byron(_) => Era::EarlyEra,
            TaskRegistryEntry::Multiera(_) => Era::MultiEra,
        }
    }

    /// The descriptor this entry carries.
    pub open spec fn spec_descriptor(&self) -> TaskView {
        match self {
            TaskRegistryEntry::Genesis(e) => e.builder@,
            TaskRegistryEntry::Byron(e) => e.builder@,
            TaskRegistryEntry::Multiera(e) => e.builder@,
        }
    }

    /// The era this entry's variant stands for.
    pub fn era(&self) -> (r: Era)
        ensures
            r == self.spec_era(),
    {
        match self {
            TaskRegistryEntry::Genesis(_) => Era::Genesis,
            TaskRegistryEntry::Byron(_) => Era::EarlyEra,
            TaskRegistryEntry::Multiera(_) => Era::MultiEra,
        }
    }
}

impl TaskRegistry {
    /// Registers a tagged entry; the descriptor must be declared for the
    /// era its variant stands for.
    pub fn register_entry(&mut self, entry: TaskRegistryEntry) -> (r: Result<(), RegistryError>)
        requires
            old(self).wf(),
            entry.spec_descriptor().era == entry.spec_era(),
        ensures
            final(self).wf(),
            match r {
                Ok(()) => {
                    &&& !old(self).spec_contains(
                        entry.spec_descriptor().era,
                        entry.spec_descriptor().name,
                    )
                    &&& final(self)@ == old(self)@.push(entry.spec_descriptor())
                },
                Err(RegistryError::DuplicateTaskName(nm)) => {
                    &&& nm@ == entry.spec_descriptor().name
                    &&& old(self).spec_contains(
                        entry.spec_descriptor().era,
                        entry.spec_descriptor().name,
                    )
                    &&& final(self)@ == old(self)@
                },
                Err(RegistryError::UnknownTask(_)) => false,
            },
    {
        match entry {
            TaskRegistryEntry::Genesis(e) => self.register(e.builder),
            TaskRegistryEntry::Byron(e) => self.register(e.builder),
            TaskRegistryEntry::Multiera(e) => self.register(e.builder),
        }
    }
}

} // verus!
