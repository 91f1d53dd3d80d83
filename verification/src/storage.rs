//! Entries of the separated component storages, keyed by entity id.
use vstd::prelude::*;

verus! {

/// A component value stored at an entity id.
pub struct Entry<T> {
    pub key: usize,
    pub value: T,
}

impl<T> Entry<T> {
    /// The entity id of this entry.
    pub fn key(&self) -> (k: usize)
        ensures
            k == self.key,
    {
        self.key
    }

    /// A reference to the stored value.
    pub fn value(&self) -> (v: &T)
        ensures
            *v == self.value,
    {
        &self.value
    }
}

/// Something stored under an entity id that can be split into that id and
/// a component.
pub trait StorageComponent: Sized {
    type Component;

    /// The entity id.
    spec fn spec_id(&self) -> usize;

    /// The component.
    spec fn spec_component(self) -> Self::Component;

    /// Split into the entity id and the component.
    fn split(self) -> (r: (usize, Self::Component))
        ensures
            r.0 == self.spec_id(),
            r.1 == self.spec_component(),
    ;

    /// The entity id.
    fn id(&self) -> (id: usize)
        ensures
            id == self.spec_id(),
    ;
}

impl<A> StorageComponent for (usize, A) {
    type Component = A;

    open spec fn spec_id(&self) -> usize {
        self.0
    }

    open spec fn spec_component(self) -> A {
        self.1
    }

    fn split(self) -> (r: (usize, A)) {
        self
    }

    fn id(&self) -> (id: usize) {
        self.0
    }
}

impl StorageComponent for usize {
    type Component = usize;

    open spec fn spec_id(&self) -> usize {
        *self
    }

    open spec fn spec_component(self) -> usize {
        self
    }

    fn split(self) -> (r: (usize, usize)) {
        (self, self)
    }

    fn id(&self) -> (id: usize) {
        *self
    }
}

impl<T> StorageComponent for Entry<T> {
    type Component = T;

    open spec fn spec_id(&self) -> usize {
        self.key
    }

    open spec fn spec_component(self) -> T {
        self.value
    }

    fn split(self) -> (r: (usize, T)) {
        (self.key, self.value)
    }

    fn id(&self) -> (id: usize) {
        self.key
    }
}

} // verus!
