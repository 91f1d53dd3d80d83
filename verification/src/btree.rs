//! Component storage in an ordered map from entity id.
use std::collections::BTreeMap;
use vstd::prelude::*;

use crate::join::IdIter;
use crate::storage::Entry;
use vstd::std_specs::cmp::OrdSpec;
use vstd::std_specs::iter::IteratorSpec;

verus! {

broadcast use vstd::std_specs::btree::group_btree_axioms;

/// `BTreeMap::get_mut`: a mutable reference to the value at `key`, if the
/// map has one. What is written through it becomes the map's value at
/// `key`, and the map is otherwise unchanged.
#[verifier::external_body]
fn map_get_mut<T>(map: &mut BTreeMap<usize, T>, key: usize) -> (r: Option<&mut T>)
    ensures
        match r {
            Some(v) => {
                &&& old(map)@.contains_key(key)
                &&& *v == old(map)@[key]
                &&& final(map)@ == old(map)@.insert(key, *final(v))
            },
            None => !old(map)@.contains_key(key) && final(map)@ == old(map)@,
        },
{
    map.get_mut(&key)
}

/// Components in an ordered map from entity id, remembering the largest id
/// ever inserted.
pub struct BTreeStorage<T> {
    inner: BTreeMap<usize, T>,
    last_key: Option<usize>,
}

impl<T> View for BTreeStorage<T> {
    type V = Map<usize, T>;

    /// The stored component of each entity id.
    closed spec fn view(&self) -> Map<usize, T> {
        self.inner@
    }
}

impl<T> BTreeStorage<T> {
    /// The largest id ever inserted, if any; removing components does not
    /// change it.
    pub closed spec fn last_key(&self) -> Option<usize> {
        self.last_key
    }

    /// An empty storage.
    pub fn new() -> (s: Self)
        ensures
            s@ == Map::<usize, T>::empty(),
            s.last_key() is None,
    {
        BTreeStorage { inner: BTreeMap::new(), last_key: None }
    }

    /// The component of entity `id`, if it has one.
    pub fn get(&self, id: usize) -> (r: Option<&T>)
        ensures
            match r {
                Some(v) => self@.contains_key(id) && *v == self@[id],
                None => !self@.contains_key(id),
            },
    {
        proof {
            broadcast use vstd::laws_cmp::group_laws_cmp;
        }
        self.inner.get(&id)
    }

    /// A mutable reference to the component of entity `id`, if it has one.
    /// What is written through it becomes the entity's component.
    pub fn get_mut(&mut self, id: usize) -> (r: Option<&mut T>)
        ensures
            final(self).last_key() == old(self).last_key(),
            match r {
                Some(v) => {
                    &&& old(self)@.contains_key(id)
                    &&& *v == old(self)@[id]
                    &&& final(self)@ == old(self)@.insert(id, *final(v))
                },
                None => !old(self)@.contains_key(id) && final(self)@ == old(self)@,
            },
    {
        map_get_mut(&mut self.inner, id)
    }

    /// Store the component of entity `id`, returning the one it replaces.
    pub fn insert(&mut self, id: usize, component: T) -> (prev: Option<T>)
        ensures
            final(self)@ == old(self)@.insert(id, component),
            prev == (if old(self)@.contains_key(id) { Some(old(self)@[id]) } else { None::<T> }),
            final(self).last_key() == Some(
                match old(self).last_key() {
                    Some(k) => if k < id { id } else { k },
                    None => id,
                },
            ),
    {
        proof {
            broadcast use vstd::laws_cmp::group_laws_cmp;
        }
        match self.last_key {
            Some(prev_id) => {
                if prev_id < id {
                    self.last_key = Some(id);
                }
            },
            None => {
                self.last_key = Some(id);
            },
        }
        self.inner.insert(id, component)
    }

    /// Remove the component of entity `id` and return it, if it has one.
    pub fn remove(&mut self, id: usize) -> (r: Option<T>)
        ensures
            final(self)@ == old(self)@.remove(id),
            r == (if old(self)@.contains_key(id) { Some(old(self)@[id]) } else { None::<T> }),
            final(self).last_key() == old(self).last_key(),
    {
        proof {
            broadcast use vstd::laws_cmp::group_laws_cmp;
        }
        self.inner.remove(&id)
    }

    /// The entry at the largest id ever inserted, if it still has a
    /// component.
    pub fn last(&self) -> (r: Option<Entry<&T>>)
        ensures
            match r {
                Some(e) => self.last_key() == Some(e.key) && self@.contains_key(e.key) && *e.value == self@[e.key],
                None => self.last_key() is None || !self@.contains_key(self.last_key()->Some_0),
            },
    {
        proof {
            broadcast use vstd::laws_cmp::group_laws_cmp;
        }
        let key = match self.last_key {
            Some(k) => k,
            None => {
                return None;
            },
        };
        match self.inner.get(&key) {
            Some(value) => Some(Entry { key, value }),
            None => None,
        }
    }

    /// The stored components with their ids, in ascending order of id.
    pub fn iter(&self) -> (r: IdIter<(usize, &T)>)
        ensures
            r@.len() == self@.dom().len(),
            forall|i: int, j: int| 0 <= i < j < r@.len() ==> (#[trigger] r@[i]).0 < (#[trigger] r@[j]).0,
            forall|i: int| 0 <= i < r@.len() ==> self@.contains_key((#[trigger] r@[i]).0) && *r@[i].1 == self@[r@[i].0],
            forall|id: usize| #[trigger] self@.contains_key(id) ==> exists|i: int| 0 <= i < r@.len() && (#[trigger] r@[i]).0 == id,
    {
        proof {
            broadcast use vstd::laws_cmp::group_laws_cmp;
        }
        let mut items: Vec<(usize, &T)> = Vec::new();
        let entries = self.inner.iter();
        let ghost s0 = entries.remaining();
        proof {
            assert(vstd::laws_cmp::obeys_cmp::<usize>());
            assert(vstd::std_specs::btree::key_obeys_cmp_spec::<usize>());
            let s = entries.remaining();
            let ks = s.map_values(|kv: (&usize, &T)| *kv.0);
            assert(vstd::std_specs::btree::increasing_seq(ks));
            assert forall|i: int, j: int| 0 <= i < j < s.len() implies *(#[trigger] s[i]).0 < *(#[trigger] s[j]).0 by {
                assert(ks[i] == *s[i].0 && ks[j] == *s[j].0);
                assert(ks[i].cmp_spec(&ks[j]) is Less);
            }
        }
        for kv in it: entries
            invariant
                it.seq() == s0,
                items@.len() == it.index(),
                forall|i: int, j: int| 0 <= i < j < it.seq().len() ==> *(#[trigger] it.seq()[i]).0 < *(#[trigger] it.seq()[j]).0,
                forall|i: int| 0 <= i < items@.len() ==> (#[trigger] items@[i]).0 == *it.seq()[i].0 && items@[i].1 == it.seq()[i].1,
        {
            let (k, v) = kv;
            items.push((*k, v));
        }
        proof {
            assert forall|id: usize| #[trigger] self@.contains_key(id) implies exists|i: int| 0 <= i < items@.len() && (#[trigger] items@[i]).0 == id by {
                assert(s0.contains((&id, &self@[id])));
                let i = choose|i: int| 0 <= i < s0.len() && s0[i] == (&id, &self@[id]);
                assert(items@[i].0 == id);
            }
        }
        IdIter::new(items)
    }
}

impl<T> Default for BTreeStorage<T> {
    fn default() -> (s: Self)
        ensures
            s@ == Map::<usize, T>::empty(),
            s.last_key() is None,
    {
        BTreeStorage::new()
    }
}

} // verus!
