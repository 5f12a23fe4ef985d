//! A model of the transactional data store the block processor drives:
//! rows inserted inside an open transaction become durable only on commit,
//! and a rollback discards every one of them. This is the all-or-nothing
//! unit of mutation that makes one block's processing atomic.

use vstd::prelude::*;

verus! {

/// A data store with one transactional scope at a time.
pub struct TransactionalStore<V> {
    committed: Vec<V>,
    pending: Vec<V>,
    active: bool,
}

impl<V> TransactionalStore<V> {
    /// The durably committed rows, in insertion order.
    pub closed spec fn committed(&self) -> Seq<V> {
        self.committed@
    }

    /// The rows inserted by the open transaction, not yet durable.
    pub closed spec fn pending(&self) -> Seq<V> {
        self.pending@
    }

    /// True iff a transactional scope is open.
    pub closed spec fn is_active(&self) -> bool {
        self.active
    }

    /// An empty store with no open transaction.
    pub fn new() -> (r: TransactionalStore<V>)
        ensures
            r.committed() == Seq::<V>::empty(),
            !r.is_active(),
    {
        TransactionalStore { committed: Vec::new(), pending: Vec::new(), active: false }
    }

    /// Opens a transactional scope.
    pub fn begin_transaction(&mut self)
        requires
            !old(self).is_active(),
        ensures
            final(self).is_active(),
            final(self).pending() == Seq::<V>::empty(),
            final(self).committed() == old(self).committed(),
    {
        self.pending = Vec::new();
        self.active = true;
    }

    /// Inserts one row inside the open transaction.
    pub fn insert(&mut self, row: V)
        requires
            old(self).is_active(),
        ensures
            final(self).is_active(),
            final(self).pending() == old(self).pending().push(row),
            final(self).committed() == old(self).committed(),
    {
        self.pending.push(row);
    }

    /// Commits the open transaction: every pending row becomes durable, in
    /// insertion order.
    pub fn commit(&mut self)
        requires
            old(self).is_active(),
        ensures
            !final(self).is_active(),
            final(self).committed() == old(self).committed() + old(self).pending(),
    {
        self.committed.append(&mut self.pending);
        self.active = false;
    }

    /// Rolls the open transaction back: every pending row is discarded and
    /// the committed rows are exactly what they were.
    pub fn rollback(&mut self)
        requires
            old(self).is_active(),
        ensures
            !final(self).is_active(),
            final(self).committed() == old(self).committed(),
    {
        self.pending = Vec::new();
        self.active = false;
    }

    /// The committed rows, for inspection after the block completes.
    pub fn committed_rows(&self) -> (r: &Vec<V>)
        ensures
            r@ == self.committed(),
    {
        &self.committed
    }
}

} // verus!
