//! Component storage in a sparse set: a dense vector of entries sorted by
//! entity id, and a sparse vector from entity id to dense position.
use vstd::prelude::*;

use crate::join::IdIter;
use crate::storage::Entry;

verus! {

/// Components in a sparse set.
pub struct SparseStorage<T> {
    sparse: Vec<Option<usize>>,
    dense: Vec<Entry<T>>,
}

impl<T> View for SparseStorage<T> {
    type V = Map<usize, T>;

    /// The stored component of each entity id.
    closed spec fn view(&self) -> Map<usize, T> {
        Map::new(
            |id: usize| id < self.sparse@.len() && self.sparse@[id as int] is Some,
            |id: usize| self.dense@[self.sparse@[id as int]->Some_0 as int].value,
        )
    }
}

impl<T> SparseStorage<T> {
    /// The ids of the dense entries, in dense order.
    pub closed spec fn dense_keys(&self) -> Seq<usize> {
        Seq::new(self.dense@.len(), |p: int| self.dense@[p].key)
    }

    /// The number of sparse pointers.
    pub closed spec fn slots(&self) -> nat {
        self.sparse@.len()
    }

    /// The dense ids ascend, and the sparse pointers and the dense entries
    /// point at each other.
    pub closed spec fn wf(&self) -> bool {
        &&& forall|p: int, q: int| 0 <= p < q < self.dense@.len() ==> (#[trigger] self.dense@[p]).key < (#[trigger] self.dense@[q]).key
        &&& forall|p: int|
            0 <= p < self.dense@.len() ==> (#[trigger] self.dense@[p]).key < self.sparse@.len() && self.sparse@[self.dense@[p].key as int]
                == Some(p as usize)
        &&& forall|id: int|
            0 <= id < self.sparse@.len() && (#[trigger] self.sparse@[id]) is Some ==> self.sparse@[id]->Some_0 < self.dense@.len()
                && self.dense@[self.sparse@[id]->Some_0 as int].key == id
    }

    /// The dense ids ascend and are exactly the stored ids, and a stored
    /// id's component is the one of its dense entry.
    pub proof fn lemma_dense(&self)
        requires
            self.wf(),
        ensures
            forall|p: int, q: int| 0 <= p < q < self.dense_keys().len() ==> (#[trigger] self.dense_keys()[p]) < (#[trigger] self.dense_keys()[q]),
            forall|id: usize| #[trigger] self@.contains_key(id) <==> self.dense_keys().contains(id),
            forall|id: usize| #[trigger] self@.contains_key(id) ==> id < self.slots(),
    {
        assert forall|id: usize| #[trigger] self@.contains_key(id) <==> self.dense_keys().contains(id) by {
            if self@.contains_key(id) {
                let p = self.sparse@[id as int]->Some_0 as int;
                assert(self.dense_keys()[p] == id);
            }
            if self.dense_keys().contains(id) {
                let p = self.dense_keys().index_of(id);
                assert(self.dense@[p].key == id);
            }
        }
    }

    /// An empty storage with `cap` sparse pointers.
    pub fn new_with_capacity(cap: usize) -> (s: Self)
        ensures
            s.wf(),
            s@ == Map::<usize, T>::empty(),
            s.slots() == cap,
    {
        let mut sparse: Vec<Option<usize>> = Vec::new();
        let mut i: usize = 0;
        while i < cap
            invariant
                i <= cap,
                sparse@.len() == i,
                forall|j: int| 0 <= j < i ==> (#[trigger] sparse@[j]) is None,
            decreases cap - i,
        {
            sparse.push(None);
            i += 1;
        }
        let s = SparseStorage { sparse, dense: Vec::new() };
        assert(s@ =~= Map::<usize, T>::empty());
        s
    }

    /// The dense position of entity `id`'s entry, if it has one.
    pub(crate) fn dense_id(&self, id: usize) -> (r: Option<usize>)
        requires
            self.wf(),
        ensures
            match r {
                Some(p) => self@.contains_key(id) && p < self.dense_keys().len() && self.dense_keys()[p as int] == id,
                None => !self@.contains_key(id),
            },
    {
        if id < self.sparse.len() {
            self.sparse[id]
        } else {
            None
        }
    }

    /// The component of entity `id`, if it has one.
    pub fn get(&self, id: usize) -> (r: Option<&T>)
        requires
            self.wf(),
        ensures
            match r {
                Some(v) => self@.contains_key(id) && *v == self@[id],
                None => !self@.contains_key(id),
            },
    {
        match self.dense_id(id) {
            Some(p) => Some(&self.dense[p].value),
            None => None,
        }
    }

    /// A mutable reference to the component of entity `id`, if it has one.
    /// What is written through it becomes the entity's component.
    pub fn get_mut(&mut self, id: usize) -> (r: Option<&mut T>)
        requires
            old(self).wf(),
        ensures
            final(self).wf(),
            final(self).dense_keys() == old(self).dense_keys(),
            final(self).slots() == old(self).slots(),
            match r {
                Some(v) => {
                    &&& old(self)@.contains_key(id)
                    &&& *v == old(self)@[id]
                    &&& final(self)@ == old(self)@.insert(id, *final(v))
                },
                None => !old(self)@.contains_key(id) && final(self)@ == old(self)@,
            },
    {
        match self.dense_id(id) {
            Some(p) => {
                proof {
                    assert(self.sparse@[id as int] == Some(p));
                }
                Some(&mut self.dense[p].value)
            },
            None => None,
        }
    }

    /// Store the component of entity `index`, returning the one it
    /// replaces. A new entry is placed in the dense vector after the
    /// entries of smaller ids, shifting the larger ones up; ids may come in
    /// any order.
    pub fn insert(&mut self, index: usize, value: T) -> (prev: Option<T>)
        requires
            old(self).wf(),
            index < usize::MAX,
        ensures
            final(self).wf(),
            final(self)@ == old(self)@.insert(index, value),
            prev == (if old(self)@.contains_key(index) { Some(old(self)@[index]) } else { None::<T> }),
            old(self)@.contains_key(index) ==> final(self).dense_keys() == old(self).dense_keys(),
            !old(self)@.contains_key(index) ==> exists|p: int|
                0 <= p <= old(self).dense_keys().len() && final(self).dense_keys() == old(self).dense_keys().insert(p, index),
    {
        let ghost pre = *self;
        proof {
            self.lemma_dense();
        }
        match self.dense_id(index) {
            Some(p) => {
                let mut e = self.dense.remove(p);
                let mut value = value;
                std::mem::swap(&mut e.value, &mut value);
                self.dense.insert(p, e);
                proof {
                    assert(self.dense@ =~= pre.dense@.update(p as int, e));
                    assert(self@ =~= pre@.insert(index, e.value));
                    assert(self.dense_keys() =~= pre.dense_keys());
                }
                Some(value)
            },
            None => {
                self.insert_new(index, value);
                None
            },
        }
    }

    /// Place a new entry for entity `index`, which has none, after the
    /// entries of smaller ids.
    #[verifier::spinoff_prover]
    #[verifier::rlimit(40)]
    fn insert_new(&mut self, index: usize, value: T)
        requires
            old(self).wf(),
            index < usize::MAX,
            !old(self)@.contains_key(index),
        ensures
            final(self).wf(),
            final(self)@ == old(self)@.insert(index, value),
            exists|p: int|
                0 <= p <= old(self).dense_keys().len() && final(self).dense_keys() == old(self).dense_keys().insert(p, index),
    {
        let ghost pre = *self;
        proof {
            self.lemma_dense();
        }
        let mut dense_index = self.dense.len();
        while self.sparse.len() <= index
            invariant
                self.dense == pre.dense,
                self.sparse@.len() >= pre.sparse@.len(),
                forall|j: int| 0 <= j < pre.sparse@.len() ==> #[trigger] self.sparse@[j] == pre.sparse@[j],
                forall|j: int| pre.sparse@.len() <= j < self.sparse@.len() ==> (#[trigger] self.sparse@[j]) is None,
                index < usize::MAX,
            decreases index + 1 - self.sparse@.len(),
        {
            self.sparse.push(None);
        }
        let ghost grown = *self;
        self.shift_up(index, &mut dense_index);
        proof {
            if dense_index > 0 {
                assert(self.dense@[dense_index - 1].key != index) by {
                    if self.dense@[dense_index - 1].key == index {
                        assert(pre@.contains_key(index));
                    }
                }
            }
        }
        self.sparse.set(index, Some(dense_index));
        self.dense.insert(dense_index, Entry { key: index, value });
        proof {
            let d = self.dense@;
            let od = pre.dense@;
            assert forall|p: int| 0 <= p < d.len() implies #[trigger] d[p] == (if p < dense_index {
                od[p]
            } else if p == dense_index {
                Entry { key: index, value }
            } else {
                od[p - 1]
            }) by {
            }
            assert forall|p: int, q: int| 0 <= p < q < d.len() implies (#[trigger] d[p]).key < (#[trigger] d[q]).key by {
                if p < dense_index && q > dense_index {
                    if p < q - 1 {
                        assert(od[p].key < od[q - 1].key);
                    }
                }
                if p < dense_index && q < dense_index {
                    assert(od[p].key < od[q].key);
                }
                if p > dense_index {
                    assert(od[p - 1].key < od[q - 1].key);
                }
                if p < dense_index && q == dense_index {
                    if p < dense_index - 1 {
                        assert(od[p].key < od[dense_index - 1].key);
                    }
                }
            }
            assert forall|p: int| 0 <= p < d.len() implies (#[trigger] d[p]).key < self.sparse@.len() && self.sparse@[d[p].key as int]
                == Some(p as usize) by {
                if p < dense_index {
                    assert(od[p].key != index);
                } else if p > dense_index {
                    assert(od[p - 1].key != index);
                }
            }
            assert forall|id: int| 0 <= id < self.sparse@.len() && (#[trigger] self.sparse@[id]) is Some implies self.sparse@[id]->Some_0
                < d.len() && d[self.sparse@[id]->Some_0 as int].key == id by {
            }
            assert(self.dense_keys() =~= pre.dense_keys().insert(dense_index as int, index));
            assert(self@ =~= pre@.insert(index, value)) by {
                assert forall|id: usize| #[trigger] self@.contains_key(id) implies self@[id] == pre@.insert(index, value)[id] by {
                    if id != index {
                        assert(grown.sparse@[id as int] is Some);
                    }
                }
            }
        }
    }

    /// Find the dense position for a new entry of entity `index`, moving the
    /// sparse pointers of the entries of larger ids up by one.
    fn shift_up(&mut self, index: usize, dense_index: &mut usize)
        requires
            old(self).wf(),
            index < old(self).sparse@.len(),
            *old(dense_index) == old(self).dense@.len(),
            !old(self)@.contains_key(index),
        ensures
            final(self).dense == old(self).dense,
            final(self).sparse@.len() == old(self).sparse@.len(),
            *final(dense_index) <= old(self).dense@.len(),
            *final(dense_index) >= 1 ==> final(self).dense@[*final(dense_index) - 1].key <= index,
            forall|p: int| *final(dense_index) <= p < old(self).dense@.len() ==> index < (#[trigger] old(self).dense@[p]).key,
            forall|j: int|
                0 <= j < final(self).sparse@.len() ==> #[trigger] final(self).sparse@[j] == (if old(self).sparse@[j] is Some
                    && old(self).sparse@[j]->Some_0 >= *final(dense_index) {
                    Some((old(self).sparse@[j]->Some_0 + 1) as usize)
                } else {
                    old(self).sparse@[j]
                }),
    {
        let ghost pre = *self;
        let ghost n = self.dense@.len();
        let mut di = *dense_index;
        while di > 0 && self.dense[di - 1].key > index
            invariant
                pre.wf(),
                n == pre.dense@.len(),
                self.dense == pre.dense,
                self.sparse@.len() == pre.sparse@.len(),
                di <= n,
                forall|p: int| di <= p < n ==> index < (#[trigger] pre.dense@[p]).key,
                forall|j: int|
                    0 <= j < self.sparse@.len() ==> #[trigger] self.sparse@[j] == (if pre.sparse@[j] is Some && pre.sparse@[j]->Some_0 >= di {
                        Some((pre.sparse@[j]->Some_0 + 1) as usize)
                    } else {
                        pre.sparse@[j]
                    }),
            decreases di,
        {
            di -= 1;
            let k = self.dense[di].key;
            proof {
                assert(pre.sparse@[k as int] == Some(di));
                assert forall|j: int| 0 <= j < self.sparse@.len() && j != k implies pre.sparse@[j] != Some(di) by {
                    if pre.sparse@[j] == Some(di) {
                        assert(pre.dense@[di as int].key == j);
                    }
                }
            }
            self.sparse.set(k, Some(di + 1));
        }
        *dense_index = di;
    }

    /// Remove the component of entity `index` and return it, if it has one.
    /// The later dense entries shift down to fill its place.
    pub fn remove(&mut self, index: usize) -> (r: Option<T>)
        requires
            old(self).wf(),
        ensures
            final(self).wf(),
            final(self)@ == old(self)@.remove(index),
            r == (if old(self)@.contains_key(index) { Some(old(self)@[index]) } else { None::<T> }),
            !old(self)@.contains_key(index) ==> final(self).dense_keys() == old(self).dense_keys(),
            old(self)@.contains_key(index) ==> exists|p: int|
                0 <= p < old(self).dense_keys().len() && old(self).dense_keys()[p] == index && final(self).dense_keys()
                    == old(self).dense_keys().remove(p),
    {
        let ghost pre = *self;
        match self.dense_id(index) {
            Some(p) => {
                self.sparse.set(index, None);
                let removed = self.dense.remove(p);
                let ghost cut = *self;
                let mut dense_index = p;
                while dense_index < self.dense.len()
                    invariant
                        pre.wf(),
                        p <= dense_index <= self.dense@.len(),
                        self.dense@ == pre.dense@.remove(p as int),
                        self.dense@.len() == pre.dense@.len() - 1,
                        forall|q: int| 0 <= q < self.dense@.len() ==> #[trigger] self.dense@[q] == (if q < p { pre.dense@[q] } else { pre.dense@[q + 1] }),
                        self.sparse@.len() == pre.sparse@.len(),
                        pre.dense@[p as int].key == index,
                        forall|j: int|
                            0 <= j < self.sparse@.len() ==> #[trigger] self.sparse@[j] == (if j == index {
                                None
                            } else if pre.sparse@[j] is Some && pre.sparse@[j]->Some_0 > dense_index {
                                pre.sparse@[j]
                            } else if pre.sparse@[j] is Some && pre.sparse@[j]->Some_0 > p {
                                Some((pre.sparse@[j]->Some_0 - 1) as usize)
                            } else {
                                pre.sparse@[j]
                            }),
                    decreases self.dense@.len() - dense_index,
                {
                    let k = self.dense[dense_index].key;
                    proof {
                        assert(self.dense@[dense_index as int] == pre.dense@[dense_index + 1]);
                        assert(pre.sparse@[k as int] == Some((dense_index + 1) as usize));
                        assert forall|j: int| 0 <= j < self.sparse@.len() && j != k implies pre.sparse@[j] != Some((dense_index + 1) as usize) by {
                            if pre.sparse@[j] == Some((dense_index + 1) as usize) {
                                assert(pre.dense@[dense_index + 1].key == j);
                            }
                        }
                    }
                    self.sparse.set(k, Some(dense_index));
                    dense_index += 1;
                }
                proof {
                    let d = self.dense@;
                    let od = pre.dense@;
                    assert forall|q: int| 0 <= q < d.len() implies #[trigger] d[q] == (if q < p { od[q] } else { od[q + 1] }) by {
                    }
                    assert forall|a: int, b: int| 0 <= a < b < d.len() implies (#[trigger] d[a]).key < (#[trigger] d[b]).key by {
                        let oa = if a < p { a } else { a + 1 };
                        let ob = if b < p { b } else { b + 1 };
                        assert(od[oa].key < od[ob].key);
                    }
                    assert forall|q: int| 0 <= q < d.len() implies (#[trigger] d[q]).key < self.sparse@.len() && self.sparse@[d[q].key as int]
                        == Some(q as usize) by {
                        let oq = if q < p { q } else { q + 1 };
                        assert(od[oq].key != index) by {
                            assert(od[p as int].key == index);
                        }
                    }
                    assert forall|id: int| 0 <= id < self.sparse@.len() && (#[trigger] self.sparse@[id]) is Some implies self.sparse@[id]->Some_0
                        < d.len() && d[self.sparse@[id]->Some_0 as int].key == id by {
                        let op = pre.sparse@[id]->Some_0;
                        assert(op != p) by {
                            if op == p {
                                assert(od[p as int].key == id);
                            }
                        }
                    }
                    assert(self.dense_keys() =~= pre.dense_keys().remove(p as int));
                    assert(pre.dense_keys()[p as int] == index);
                    assert(self@ =~= pre@.remove(index)) by {
                        assert forall|id: usize| #[trigger] self@.contains_key(id) implies self@[id] == pre@.remove(index)[id] by {
                            let op = pre.sparse@[id as int]->Some_0;
                            assert(op != p) by {
                                if op == p {
                                    assert(od[p as int].key == id);
                                }
                            }
                        }
                    }
                }
                Some(removed.value)
            },
            None => {
                proof {
                    assert(self@.remove(index) =~= self@);
                }
                None
            },
        }
    }

    /// The stored ids, in dense order, which is ascending.
    pub fn keys(&self) -> (r: Vec<usize>)
        requires
            self.wf(),
        ensures
            r@ == self.dense_keys(),
    {
        let mut r: Vec<usize> = Vec::new();
        let n = self.dense.len();
        let mut p: usize = 0;
        while p < n
            invariant
                n == self.dense@.len(),
                p <= n,
                r@ == self.dense_keys().take(p as int),
            decreases n - p,
        {
            r.push(self.dense[p].key);
            p += 1;
            proof {
                assert(r@ =~= self.dense_keys().take(p as int));
            }
        }
        proof {
            assert(r@ =~= self.dense_keys());
        }
        r
    }

    /// The sparse pointers: for each id below the number of pointers, the
    /// dense position of its entry, if it has one.
    pub fn pointers(&self) -> (r: &Vec<Option<usize>>)
        requires
            self.wf(),
        ensures
            r@.len() == self.slots(),
            forall|id: usize| id < r@.len() ==> ((#[trigger] r@[id as int]) is Some <==> self@.contains_key(id)),
            forall|id: int|
                0 <= id < r@.len() && (#[trigger] r@[id]) is Some ==> r@[id]->Some_0 < self.dense_keys().len() && self.dense_keys()[r@[id]->Some_0 as int]
                    == id,
    {
        &self.sparse
    }

    /// The stored components with their ids, in dense order.
    pub fn iter(&self) -> (r: IdIter<(usize, &T)>)
        requires
            self.wf(),
        ensures
            r@.len() == self.dense_keys().len(),
            forall|p: int| 0 <= p < r@.len() ==> (#[trigger] r@[p]).0 == self.dense_keys()[p] && *r@[p].1 == self@[r@[p].0],
    {
        let mut items: Vec<(usize, &T)> = Vec::new();
        let n = self.dense.len();
        let mut p: usize = 0;
        while p < n
            invariant
                self.wf(),
                n == self.dense@.len(),
                p <= n,
                items@.len() == p,
                forall|q: int| 0 <= q < p ==> (#[trigger] items@[q]).0 == self.dense_keys()[q] && *items@[q].1 == self@[items@[q].0],
            decreases n - p,
        {
            let e = &self.dense[p];
            proof {
                assert(self.sparse@[e.key as int] == Some(p));
            }
            items.push((e.key, &e.value));
            p += 1;
        }
        IdIter::new(items)
    }
}

impl<T> Default for SparseStorage<T> {
    fn default() -> (s: Self)
        ensures
            s.wf(),
            s@ == Map::<usize, T>::empty(),
            s.slots() == 0,
    {
        SparseStorage::new_with_capacity(0)
    }
}

} // verus!
