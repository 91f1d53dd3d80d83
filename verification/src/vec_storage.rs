//! Component storage in a vector indexed by entity id.
use vstd::prelude::*;

use crate::join::{IdIter, MaybeIter, WithoutIter};
use crate::storage::Entry;

verus! {

/// Components in a vector with one slot per entity id.
pub struct VecStorage<T>(Vec<Option<Entry<T>>>);

impl<T> View for VecStorage<T> {
    type V = Map<usize, T>;

    /// The stored component of each entity id.
    closed spec fn view(&self) -> Map<usize, T> {
        Map::new(|id: usize| id < self.0@.len() && self.0@[id as int] is Some, |id: usize| self.0@[id as int]->Some_0.value)
    }
}

impl<T> VecStorage<T> {
    /// The number of slots.
    pub closed spec fn slots(&self) -> nat {
        self.0@.len()
    }

    /// Each stored entry sits in the slot of its id.
    pub closed spec fn wf(&self) -> bool {
        forall|i: int| 0 <= i < self.0@.len() && (#[trigger] self.0@[i]) is Some ==> self.0@[i]->Some_0.key == i
    }

    /// Ids with a component are below the number of slots.
    pub proof fn lemma_slots(&self)
        ensures
            forall|id: usize| #[trigger] self@.contains_key(id) ==> id < self.slots(),
            self@.dom().finite(),
    {
        assert(self@.dom().subset_of(Set::new(|id: usize| id < self.0@.len())));
        lemma_below_finite(self.0@.len());
        vstd::set_lib::lemma_len_subset(self@.dom(), Set::new(|id: usize| id < self.0@.len()));
    }

    /// An empty storage with `cap` empty slots.
    pub fn new_with_capacity(cap: usize) -> (s: Self)
        ensures
            s.wf(),
            s@ == Map::<usize, T>::empty(),
            s.slots() == cap,
    {
        let mut store: Vec<Option<Entry<T>>> = Vec::new();
        let mut i: usize = 0;
        while i < cap
            invariant
                i <= cap,
                store@.len() == i,
                forall|j: int| 0 <= j < i ==> (#[trigger] store@[j]) is None,
            decreases cap - i,
        {
            store.push(None);
            i += 1;
        }
        let s = VecStorage(store);
        assert(s@ =~= Map::<usize, T>::empty());
        s
    }

    /// The component of entity `id`, if it has one.
    pub fn get(&self, id: usize) -> (r: Option<&T>)
        requires
            self.wf(),
        ensures
            match r {
                Some(v) => self@.contains_key(id) && *v == self@[id],
                None => !self@.contains_key(id),
            },
    {
        if id < self.0.len() {
            match &self.0[id] {
                Some(e) => Some(&e.value),
                None => None,
            }
        } else {
            None
        }
    }

    /// A mutable reference to the component of entity `id`, if it has one.
    /// What is written through it becomes the entity's component.
    pub fn get_mut(&mut self, id: usize) -> (r: Option<&mut T>)
        requires
            old(self).wf(),
        ensures
            final(self).wf(),
            match r {
                Some(v) => {
                    &&& old(self)@.contains_key(id)
                    &&& *v == old(self)@[id]
                    &&& final(self)@ == old(self)@.insert(id, *final(v))
                },
                None => !old(self)@.contains_key(id) && final(self)@ == old(self)@,
            },
    {
        if id < self.0.len() {
            match &mut self.0[id] {
                Some(e) => Some(&mut e.value),
                None => None,
            }
        } else {
            None
        }
    }

    /// Store the component of entity `id`, returning the one it replaces.
    pub fn insert(&mut self, id: usize, component: T) -> (prev: Option<T>)
        requires
            old(self).wf(),
            id < usize::MAX,
        ensures
            final(self).wf(),
            final(self)@ == old(self)@.insert(id, component),
            prev == (if old(self)@.contains_key(id) { Some(old(self)@[id]) } else { None::<T> }),
            final(self).slots() >= old(self).slots(),
            final(self).slots() > id,
    {
        let ghost pre = *self;
        while self.0.len() <= id
            invariant
                self.0@.len() >= pre.0@.len(),
                forall|j: int| 0 <= j < pre.0@.len() ==> #[trigger] self.0@[j] == pre.0@[j],
                forall|j: int| pre.0@.len() <= j < self.0@.len() ==> (#[trigger] self.0@[j]) is None,
                id < usize::MAX,
            decreases id + 1 - self.0@.len(),
        {
            self.0.push(None);
        }
        let mut slot = Some(Entry { key: id, value: component });
        std::mem::swap(&mut slot, &mut self.0[id]);
        proof {
            assert(self@ =~= pre@.insert(id, component));
        }
        match slot {
            Some(e) => Some(e.value),
            None => None,
        }
    }

    /// Remove the component of entity `id` and return it, if it has one.
    pub fn remove(&mut self, id: usize) -> (r: Option<T>)
        requires
            old(self).wf(),
        ensures
            final(self).wf(),
            final(self)@ == old(self)@.remove(id),
            r == (if old(self)@.contains_key(id) { Some(old(self)@[id]) } else { None::<T> }),
            final(self).slots() == old(self).slots(),
    {
        if id < self.0.len() {
            let ghost pre = *self;
            let mut slot: Option<Entry<T>> = None;
            std::mem::swap(&mut slot, &mut self.0[id]);
            proof {
                assert(self@ =~= pre@.remove(id));
            }
            match slot {
                Some(e) => Some(e.value),
                None => None,
            }
        } else {
            proof {
                assert(self@.remove(id) =~= self@);
            }
            None
        }
    }

    /// The entry in the last slot, if that slot holds one.
    pub fn last(&self) -> (r: Option<&Entry<T>>)
        requires
            self.wf(),
        ensures
            match r {
                Some(e) => self.slots() > 0 && self@.contains_key((self.slots() - 1) as usize) && e.key == self.slots() - 1 && e.value
                    == self@[(self.slots() - 1) as usize],
                None => self.slots() == 0 || !self@.contains_key((self.slots() - 1) as usize),
            },
    {
        let n = self.0.len();
        if n == 0 {
            return None;
        }
        match &self.0[n - 1] {
            Some(e) => Some(e),
            None => None,
        }
    }

    /// The stored components with their ids, in ascending order of id.
    pub fn iter(&self) -> (r: IdIter<(usize, &T)>)
        requires
            self.wf(),
        ensures
            forall|i: int, j: int| 0 <= i < j < r@.len() ==> (#[trigger] r@[i]).0 < (#[trigger] r@[j]).0,
            forall|i: int| 0 <= i < r@.len() ==> self@.contains_key((#[trigger] r@[i]).0) && *r@[i].1 == self@[r@[i].0],
            forall|id: usize| #[trigger] self@.contains_key(id) ==> exists|i: int| 0 <= i < r@.len() && (#[trigger] r@[i]).0 == id,
    {
        let mut items: Vec<(usize, &T)> = Vec::new();
        let n = self.0.len();
        let mut i: usize = 0;
        while i < n
            invariant
                self.wf(),
                n == self.0@.len(),
                i <= n,
                forall|p: int, q: int| 0 <= p < q < items@.len() ==> (#[trigger] items@[p]).0 < (#[trigger] items@[q]).0,
                forall|p: int| 0 <= p < items@.len() ==> (#[trigger] items@[p]).0 < i,
                forall|p: int| 0 <= p < items@.len() ==> self@.contains_key((#[trigger] items@[p]).0) && *items@[p].1 == self@[items@[p].0],
                forall|id: usize| #[trigger] self@.contains_key(id) && id < i ==> exists|p: int| 0 <= p < items@.len() && (#[trigger] items@[p]).0 == id,
            decreases n - i,
        {
            let ghost old_items = items@;
            match &self.0[i] {
                Some(e) => {
                    items.push((i, &e.value));
                },
                None => {},
            }
            proof {
                assert forall|id: usize| #[trigger] self@.contains_key(id) && id < i + 1 implies exists|p: int|
                    0 <= p < items@.len() && (#[trigger] items@[p]).0 == id by {
                    if id == i {
                        let last = items@.len() - 1;
                        assert(items@[last].0 == i);
                    } else {
                        let p = choose|p: int| 0 <= p < old_items.len() && (#[trigger] old_items[p]).0 == id;
                        assert(items@[p] == old_items[p]);
                    }
                }
            }
            i += 1;
        }
        proof {
            self.lemma_slots();
        }
        IdIter::new(items)
    }

    /// Every id from 0 on, with the component stored there, if any.
    pub fn maybe(&self) -> (m: MaybeIter<(usize, &T)>)
        requires
            self.wf(),
        ensures
            m.wf(),
            m.position() == 0,
            forall|i: int, j: int| 0 <= i < j < m.pending().len() ==> (#[trigger] m.pending()[i]).0 < (#[trigger] m.pending()[j]).0,
            forall|i: int| 0 <= i < m.pending().len() ==> self@.contains_key((#[trigger] m.pending()[i]).0) && *m.pending()[i].1
                == self@[m.pending()[i].0],
            forall|id: usize| #[trigger] self@.contains_key(id) ==> exists|i: int| 0 <= i < m.pending().len() && (#[trigger] m.pending()[i]).0 == id,
    {
        MaybeIter::new(self.iter())
    }

    /// The ids from 0 on that have no component.
    pub fn without(&self) -> (w: WithoutIter<(usize, &T)>)
        requires
            self.wf(),
        ensures
            w.wf(),
            w.position() == 0,
            forall|x: int| 0 <= x < usize::MAX ==> (#[trigger] w.excludes(x) <==> self@.contains_key(x as usize)),
    {
        let it = self.iter();
        let ghost s = it@;
        let w = WithoutIter::new(it);
        proof {
            assert forall|x: int| 0 <= x < usize::MAX implies (#[trigger] w.excludes(x) <==> self@.contains_key(x as usize)) by {
                if self@.contains_key(x as usize) {
                    let i = choose|i: int| 0 <= i < s.len() && (#[trigger] s[i]).0 == x as usize;
                    assert(crate::join::holds_id(s, x));
                }
            }
        }
        w
    }
}

proof fn lemma_below_finite(n: nat)
    ensures
        Set::new(|id: usize| id < n).finite(),
    decreases n,
{
    if n == 0 {
        assert(Set::new(|id: usize| id < n) =~= Set::<usize>::empty());
    } else {
        lemma_below_finite((n - 1) as nat);
        if n - 1 <= usize::MAX {
            assert(Set::new(|id: usize| id < n) =~= Set::new(|id: usize| id < (n - 1) as nat).insert((n - 1) as usize));
        } else {
            assert(Set::new(|id: usize| id < n) =~= Set::new(|id: usize| id < (n - 1) as nat));
        }
    }
}

impl<T> Default for VecStorage<T> {
    fn default() -> (s: Self)
        ensures
            s.wf(),
            s@ == Map::<usize, T>::empty(),
            s.slots() == 0,
    {
        VecStorage::new_with_capacity(0)
    }
}


} // verus!
