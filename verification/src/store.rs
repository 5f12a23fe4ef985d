//! The resource store: the typed, per-block container of intermediate
//! results. One task writes a resource's value, its declared readers read
//! it; a reader only ever observes the writer's final value, because the
//! writer's completion (enforced by the stage barrier) is the only signal
//! that makes the slot readable.

use vstd::prelude::*;

use crate::task::ResourceId;

verus! {

/// The mapping an association list denotes: later entries win.
pub open spec fn entries_map<V>(s: Seq<(ResourceId, V)>) -> Map<ResourceId, V>
    decreases s.len(),
{
    if s.len() == 0 {
        Map::empty()
    } else {
        entries_map(s.drop_last()).insert(s.last().0, s.last().1)
    }
}

/// A fresh-per-block store of resource slots, abstracted as a map from
/// resource identifier to the value its writer produced.
pub struct ResourceStore<V> {
    entries: Vec<(ResourceId, V)>,
}

impl<V> ResourceStore<V> {
    /// The store as a mathematical map.
    pub closed spec fn view(&self) -> Map<ResourceId, V> {
        entries_map(self.entries@)
    }

    /// An empty store.
    pub fn new() -> (r: ResourceStore<V>)
        ensures
            r@ == Map::<ResourceId, V>::empty(),
    {
        ResourceStore { entries: Vec::new() }
    }

    /// Writes the resource's value: the slot now holds `value`, every other
    /// slot is unchanged.
    pub fn write(&mut self, id: ResourceId, value: V)
        ensures
            final(self)@ == old(self)@.insert(id, value),
    {
        let ghost pre = self.entries@;
        self.entries.push((id, value));
        proof {
            assert(self.entries@.drop_last() =~= pre);
        }
    }

    /// Reads the resource's value, if its writer has produced one.
    pub fn read(&self, id: ResourceId) -> (r: Option<&V>)
        ensures
            match r {
                Some(v) => self@.contains_key(id) && *v == self@[id],
                None => !self@.contains_key(id),
            },
    {
        let ghost s = self.entries@;
        proof {
            assert(s.take(s.len() as int) =~= s);
        }
        let mut k: usize = self.entries.len();
        while k > 0
            invariant
                k <= s.len(),
                s == self.entries@,
                entries_map(s.take(k as int)).contains_key(id) == entries_map(s).contains_key(id),
                entries_map(s).contains_key(id) ==> entries_map(s.take(k as int))[id] == entries_map(
                    s,
                )[id],
            decreases k,
        {
            proof {
                assert(s.take(k as int).drop_last() =~= s.take(k as int - 1));
                assert(s.take(k as int).last() == s[k as int - 1]);
            }
            if self.entries[k - 1].0 == id {
                assert(entries_map(s.take(k as int)).contains_key(id));
                assert(entries_map(s.take(k as int))[id] == s[k as int - 1].1);
                return Some(&self.entries[k - 1].1);
            }
            k = k - 1;
        }
        proof {
            assert(s.take(0) =~= Seq::<(ResourceId, V)>::empty());
        }
        None
    }

    /// True iff the resource's slot holds a value.
    pub fn contains(&self, id: ResourceId) -> (r: bool)
        ensures
            r == self@.contains_key(id),
    {
        match self.read(id) {
            Some(_) => true,
            None => false,
        }
    }
}

} // verus!
