//! A component value along with its entity's id and change tracking.
use vstd::prelude::*;

verus! {

/// A component value along with its entity's id and change tracking
/// information.
///
/// `changed` is the iteration at which the value was last written, and
/// `added` says whether that write was the one that added it.
#[derive(Clone, Debug, PartialEq)]
pub struct Entry<T> {
    pub value: T,
    /// The entity id.
    pub key: usize,
    /// The last iteration at which this component was changed.
    pub changed: u64,
    /// Whether this component was added the last time it was changed.
    pub added: bool,
}

impl<T> Entry<T> {
    /// A freshly added entry, stamped with the given iteration.
    pub open spec fn spec_new(id: usize, value: T, iteration: u64) -> Entry<T> {
        Entry { value, key: id, changed: iteration, added: true }
    }

    /// The entry after its value was written at the given iteration.
    pub open spec fn spec_written(self, value: T, iteration: u64) -> Entry<T> {
        Entry { value, key: self.key, changed: iteration, added: false }
    }

    /// Create a new entry for the entity `id`, added at `iteration`.
    pub fn new(id: usize, value: T, iteration: u64) -> (e: Self)
        ensures
            e == Self::spec_new(id, value, iteration),
    {
        Entry { value, changed: iteration, added: true, key: id }
    }

    /// The entity id of this entry.
    pub fn id(&self) -> (id: usize)
        ensures
            id == self.key,
    {
        self.key
    }

    /// A reference to the component value.
    pub fn value(&self) -> (v: &T)
        ensures
            *v == self.value,
    {
        &self.value
    }

    /// Overwrite the value, marking the entry as modified at `iteration`.
    pub fn set_value(&mut self, t: T, iteration: u64)
        ensures
            *final(self) == old(self).spec_written(t, iteration),
    {
        self.mark_changed(iteration);
        self.value = t;
    }

    /// Overwrite the value, marking the entry as modified at `iteration`,
    /// and return the previous value.
    pub fn replace_value(&mut self, t: T, iteration: u64) -> (prev: T)
        ensures
            prev == old(self).value,
            *final(self) == old(self).spec_written(t, iteration),
    {
        self.mark_changed(iteration);
        let mut t = t;
        std::mem::swap(&mut self.value, &mut t);
        t
    }

    /// Unwrap the component value.
    pub fn into_inner(self) -> (t: T)
        ensures
            t == self.value,
    {
        self.value
    }

    /// Split into the entity id and the component value.
    pub fn split(self) -> (r: (usize, T))
        ensures
            r == (self.key, self.value),
    {
        (self.key, self.value)
    }

    /// Mark the entry as modified at `iteration`.
    pub fn mark_changed(&mut self, iteration: u64)
        ensures
            final(self).value == old(self).value,
            final(self).key == old(self).key,
            final(self).changed == iteration,
            !final(self).added,
    {
        self.changed = iteration;
        self.added = false;
    }

    /// Whether the entry was added or modified at or after `iteration`.
    pub fn has_changed_since(&self, iteration: u64) -> (b: bool)
        ensures
            b == (self.changed >= iteration),
    {
        self.changed >= iteration
    }

    /// Whether the entry was added at or after `iteration`.
    pub fn was_added_since(&self, iteration: u64) -> (b: bool)
        ensures
            b == (self.changed >= iteration && self.added),
    {
        self.changed >= iteration && self.added
    }

    /// Whether the entry was modified (not added) at or after `iteration`.
    pub fn was_modified_since(&self, iteration: u64) -> (b: bool)
        ensures
            b == (self.changed >= iteration && !self.added),
    {
        self.changed >= iteration && !self.added
    }

    /// The iteration at which this entry was last changed.
    pub fn last_changed(&self) -> (c: u64)
        ensures
            c == self.changed,
    {
        self.changed
    }
}

} // verus!
