//! A collection of entities having the same component types, stored
//! together in one column per type.
use vstd::prelude::*;

use crate::bundle::{
    bundle_view, ensure_type_info, lemma_index_of_ascending, strictly_ascending, AnyBundle,
    TypeInfoError,
};
use crate::entry::Entry;
use crate::type_list::{type_list_items, TypeList};

verus! {

/// The sequence after `Vec::swap_remove(i)`.
pub open spec fn swap_removed<A>(s: Seq<A>, i: int) -> Seq<A> {
    s.update(i, s.last()).drop_last()
}

/// A collection of entities having the same component types.
pub struct Archetype<V> {
    /// Types of the components, in ascending order, one per column.
    entry_types: TypeList,
    /// `data[c][i]` is the component of type `entry_types[c]` of the entity
    /// in row `i`.
    data: Vec<Vec<Entry<V>>>,
    /// The entity id of each row.
    index_lookup: Vec<usize>,
}

impl<V> Archetype<V> {
    /// The component types, in ascending order.
    pub closed spec fn types(&self) -> Seq<u64> {
        type_list_items(self.entry_types)
    }

    /// The entity id of each row.
    pub closed spec fn ids(&self) -> Seq<usize> {
        self.index_lookup@
    }

    /// The entries of the column at position `c`.
    pub closed spec fn column(&self, c: int) -> Seq<Entry<V>> {
        self.data@[c]@
    }

    /// The entries of row `i`, one per type, in type order.
    pub open spec fn row_entries(&self, i: int) -> Seq<Entry<V>> {
        Seq::new(self.types().len(), |c: int| self.column(c)[i])
    }

    /// The components of row `i`, by type.
    pub open spec fn row(&self, i: int) -> Map<u64, Entry<V>> {
        bundle_view(self.types(), self.row_entries(i))
    }

    /// The types ascend, there is one column per type, one entry per row
    /// in each column, and each entry carries the id of its row's entity.
    pub closed spec fn wf(&self) -> bool {
        &&& strictly_ascending(self.types())
        &&& self.types().len() <= usize::MAX
        &&& self.data@.len() == self.types().len()
        &&& forall|c: int| 0 <= c < self.data@.len() ==> (#[trigger] self.data@[c])@.len() == self.index_lookup@.len()
        &&& forall|c: int, i: int|
            0 <= c < self.data@.len() && 0 <= i < self.index_lookup@.len() ==> (#[trigger] self.data@[c]@[i]).key
                == self.index_lookup@[i]
    }

    /// The entries of a row carry the id of the row's entity, one per type,
    /// and the types ascend.
    pub proof fn lemma_row(&self, i: int)
        requires
            self.wf(),
            0 <= i < self.ids().len(),
        ensures
            strictly_ascending(self.types()),
            self.row_entries(i).len() == self.types().len(),
            forall|c: int| 0 <= c < self.types().len() ==> (#[trigger] self.row_entries(i)[c]).key == self.ids()[i],
    {
        assert forall|c: int| 0 <= c < self.types().len() implies (#[trigger] self.row_entries(i)[c]).key == self.ids()[i] by {
            assert(self.data@[c]@[i].key == self.index_lookup@[i]);
        }
    }

    /// The types of a well formed archetype ascend.
    pub proof fn lemma_types(&self)
        requires
            self.wf(),
        ensures
            strictly_ascending(self.types()),
            self.types().len() <= usize::MAX,
    {
    }

    /// An archetype that holds no entities, with the given component types.
    pub(crate) fn empty(types: TypeList) -> (a: Self)
        requires
            strictly_ascending(type_list_items(types)),
        ensures
            a.wf(),
            a.types() == type_list_items(types),
            a.ids() == Seq::<usize>::empty(),
    {
        let n = types.len();
        let mut data: Vec<Vec<Entry<V>>> = Vec::new();
        let mut c: usize = 0;
        while c < n
            invariant
                c <= n,
                data@.len() == c,
                forall|k: int| 0 <= k < c ==> (#[trigger] data@[k])@.len() == 0,
            decreases n - c,
        {
            data.push(Vec::new());
            c += 1;
        }
        Archetype { entry_types: types, data, index_lookup: Vec::new() }
    }

    /// Create an archetype with the given component types, which may be
    /// given in any order.
    ///
    /// Errs with `Duplicate` when a type occurs more than once.
    pub fn new(types: &[u64]) -> (r: Result<Self, TypeInfoError>)
        ensures
            match r {
                Ok(a) => {
                    &&& types@.no_duplicates()
                    &&& a.wf()
                    &&& strictly_ascending(a.types())
                    &&& a.types().to_set() == types@.to_set()
                    &&& a.ids() == Seq::<usize>::empty()
                },
                Err(e) => !types@.no_duplicates() && e == TypeInfoError::Duplicate,
            },
    {
        let list = crate::bundle::ordered_types(types)?;
        Ok(Archetype::empty(list))
    }

    /// Create an archetype from a bundle of entries, holding one row for the
    /// given entity when there is one.
    pub fn try_from_any_entry_bundle(may_entity_id: Option<usize>, bundle: AnyBundle<Entry<V>>) -> (a: Self)
        requires
            bundle.wf(),
        ensures
            a.types() == type_list_items(bundle.0),
            a.ids() == (match may_entity_id {
                Some(e) => seq![e],
                None => Seq::<usize>::empty(),
            }),
            forall|c: int| 0 <= c < a.types().len() ==> #[trigger] a.column(c) == seq![bundle.1@[c]],
            (match may_entity_id {
                Some(e) => forall|c: int| 0 <= c < bundle.1@.len() ==> (#[trigger] bundle.1@[c]).key == e,
                None => type_list_items(bundle.0).len() == 0,
            }) ==> a.wf(),
    {
        let AnyBundle(entry_types, values) = bundle;
        let ghost vs = values@;
        let mut values = values;
        let n = values.len();
        let mut rev: Vec<Vec<Entry<V>>> = Vec::new();
        let mut k: usize = 0;
        while k < n
            invariant
                n == vs.len(),
                k <= n,
                values@ == vs.take(n - k),
                rev@.len() == k,
                forall|j: int| 0 <= j < k ==> (#[trigger] rev@[j])@ == seq![vs[n - 1 - j]],
            decreases n - k,
        {
            let v = values.pop().unwrap();
            let mut col: Vec<Entry<V>> = Vec::new();
            col.push(v);
            rev.push(col);
            k += 1;
            proof {
                assert(values@ =~= vs.take(n - k));
            }
        }
        let mut data: Vec<Vec<Entry<V>>> = Vec::new();
        let mut j: usize = 0;
        while j < n
            invariant
                n == vs.len(),
                j <= n,
                rev@.len() == n - j,
                forall|i: int| 0 <= i < n - j ==> (#[trigger] rev@[i])@ == seq![vs[n - 1 - i]],
                data@.len() == j,
                forall|c: int| 0 <= c < j ==> (#[trigger] data@[c])@ == seq![vs[c]],
            decreases n - j,
        {
            let col = rev.pop().unwrap();
            data.push(col);
            j += 1;
        }
        let index_lookup = match may_entity_id {
            Some(e) => {
                let mut v: Vec<usize> = Vec::new();
                v.push(e);
                v
            },
            None => Vec::new(),
        };
        let a = Archetype { entry_types, data, index_lookup };
        proof {
            assert(a.ids() =~= (match may_entity_id {
                Some(e) => seq![e],
                None => Seq::<usize>::empty(),
            }));
        }
        a
    }

    /// The column of the given component type, if the archetype has it.
    pub fn column_of(&self, ty: u64) -> (r: Option<&Vec<Entry<V>>>)
        requires
            self.wf(),
        ensures
            match r {
                Some(col) => exists|c: int|
                    0 <= c < self.types().len() && self.types()[c] == ty && col@ == #[trigger] self.column(c),
                None => !self.types().contains(ty),
            },
    {
        match self.index_of(ty) {
            Some(c) => {
                proof {
                    assert(self.column(c as int) == self.data@[c as int]@);
                }
                Some(&self.data[c])
            },
            None => None,
        }
    }

    /// The entry in column `c` of row `i`.
    pub(crate) fn entry_at(&self, c: usize, i: usize) -> (e: &Entry<V>)
        requires
            self.wf(),
            c < self.types().len(),
            i < self.ids().len(),
        ensures
            *e == self.column(c as int)[i as int],
    {
        &self.data[c][i]
    }

    /// Remove row `i`, moving the last row into its place, and return the
    /// removed entries in type order.
    pub(crate) fn swap_remove_row(&mut self, i: usize) -> (r: Vec<Entry<V>>)
        requires
            old(self).wf(),
            i < old(self).ids().len(),
        ensures
            final(self).wf(),
            final(self).types() == old(self).types(),
            final(self).ids() == swap_removed(old(self).ids(), i as int),
            r@ == old(self).row_entries(i as int),
            forall|c: int| 0 <= c < old(self).types().len() ==> #[trigger] final(self).column(c) == swap_removed(old(self).column(c), i as int),
            forall|j: int| 0 <= j < final(self).ids().len() ==> #[trigger] final(self).row_entries(j) == old(self).row_entries(
                if j == i { old(self).ids().len() - 1 } else { j },
            ),
    {
        let ghost pre = *self;
        let _ = self.index_lookup.swap_remove(i);
        let n = self.data.len();
        let mut r: Vec<Entry<V>> = Vec::new();
        let mut c: usize = 0;
        while c < n
            invariant
                pre.wf(),
                n == pre.data@.len(),
                c <= n,
                i < pre.index_lookup@.len(),
                self.entry_types == pre.entry_types,
                self.index_lookup@ == swap_removed(pre.index_lookup@, i as int),
                self.data@.len() == n,
                r@.len() == c,
                forall|k: int| 0 <= k < c ==> #[trigger] r@[k] == pre.data@[k]@[i as int],
                forall|k: int| 0 <= k < c ==> (#[trigger] self.data@[k])@ == swap_removed(pre.data@[k]@, i as int),
                forall|k: int| c <= k < n ==> #[trigger] self.data@[k] == pre.data@[k],
            decreases n - c,
        {
            let mut col: Vec<Entry<V>> = Vec::new();
            std::mem::swap(&mut col, &mut self.data[c]);
            proof {
                assert(col@.len() == pre.index_lookup@.len());
            }
            let v = col.swap_remove(i);
            std::mem::swap(&mut col, &mut self.data[c]);
            r.push(v);
            c += 1;
        }
        proof {
            assert(r@ =~= pre.row_entries(i as int));
            let last = pre.ids().len() - 1;
            assert forall|k: int, j: int| 0 <= k < self.data@.len() && 0 <= j < self.index_lookup@.len() implies (#[trigger] self.data@[k]@[j]).key
                == self.index_lookup@[j] by {
                let oj = if j == i { last } else { j };
                assert(self.data@[k]@[j] == pre.data@[k]@[oj]);
                assert(self.index_lookup@[j] == pre.index_lookup@[oj]);
            }
            assert forall|j: int| 0 <= j < self.ids().len() implies #[trigger] self.row_entries(j) == pre.row_entries(
                if j == i { last } else { j },
            ) by {
                let oj = if j == i { last } else { j };
                assert forall|k: int| 0 <= k < self.types().len() implies self.row_entries(j)[k] == pre.row_entries(oj)[k] by {
                    assert(self.data@[k]@[j] == pre.data@[k]@[oj]);
                }
                assert(self.row_entries(j) =~= pre.row_entries(oj));
            }
        }
        r
    }

    /// Append a row for the entity, whose entries are given in type order.
    pub(crate) fn push_row(&mut self, entity_id: usize, entries: Vec<Entry<V>>)
        requires
            old(self).wf(),
            entries@.len() == old(self).types().len(),
            forall|c: int| 0 <= c < entries@.len() ==> (#[trigger] entries@[c]).key == entity_id,
        ensures
            final(self).wf(),
            final(self).types() == old(self).types(),
            final(self).ids() == old(self).ids().push(entity_id),
            forall|c: int| 0 <= c < old(self).types().len() ==> #[trigger] final(self).column(c) == old(self).column(c).push(entries@[c]),
            forall|j: int| 0 <= j < old(self).ids().len() ==> #[trigger] final(self).row_entries(j) == old(self).row_entries(j),
            final(self).row_entries(old(self).ids().len() as int) == entries@,
    {
        let ghost pre = *self;
        let ghost es = entries@;
        let mut entries = entries;
        let n = self.data.len();
        let mut rev: Vec<Entry<V>> = Vec::new();
        while entries.len() > 0
            invariant
                entries@ == es.take(entries@.len() as int),
                es.len() == n,
                rev@.len() + entries@.len() == n,
                forall|k: int| 0 <= k < rev@.len() ==> #[trigger] rev@[k] == es[n - 1 - k],
            decreases entries@.len(),
        {
            let v = entries.pop().unwrap();
            rev.push(v);
            proof {
                assert(entries@ =~= es.take(entries@.len() as int));
            }
        }
        let mut c: usize = 0;
        while c < n
            invariant
                pre.wf(),
                n == pre.data@.len(),
                es.len() == n,
                c <= n,
                rev@.len() == n - c,
                forall|k: int| 0 <= k < rev@.len() ==> #[trigger] rev@[k] == es[n - 1 - k],
                self.entry_types == pre.entry_types,
                self.index_lookup == pre.index_lookup,
                self.data@.len() == n,
                forall|k: int| 0 <= k < c ==> (#[trigger] self.data@[k])@ == pre.data@[k]@.push(es[k]),
                forall|k: int| c <= k < n ==> #[trigger] self.data@[k] == pre.data@[k],
            decreases n - c,
        {
            let v = rev.pop().unwrap();
            let mut col: Vec<Entry<V>> = Vec::new();
            std::mem::swap(&mut col, &mut self.data[c]);
            col.push(v);
            std::mem::swap(&mut col, &mut self.data[c]);
            c += 1;
        }
        self.index_lookup.push(entity_id);
        proof {
            let len = pre.ids().len();
            assert forall|j: int| 0 <= j < len implies #[trigger] self.row_entries(j) == pre.row_entries(j) by {
                assert forall|k: int| 0 <= k < self.types().len() implies self.row_entries(j)[k] == pre.row_entries(j)[k] by {
                    assert(self.data@[k]@[j] == pre.data@[k]@[j]);
                }
                assert(self.row_entries(j) =~= pre.row_entries(j));
            }
            assert forall|k: int| 0 <= k < self.types().len() implies self.row_entries(len as int)[k] == es[k] by {
                assert(self.data@[k]@[len as int] == es[k]);
            }
            assert(self.row_entries(len as int) =~= es);
            assert forall|k: int, j: int| 0 <= k < self.data@.len() && 0 <= j < self.index_lookup@.len() implies (#[trigger] self.data@[k]@[j]).key
                == self.index_lookup@[j] by {
                if j < len {
                    assert(self.data@[k]@[j] == pre.data@[k]@[j]);
                } else {
                    assert(self.data@[k]@[j] == es[k]);
                }
            }
        }
    }

    /// The entity id of row `i`.
    pub(crate) fn id_at(&self, i: usize) -> (e: usize)
        requires
            i < self.ids().len(),
        ensures
            e == self.ids()[i as int],
    {
        self.index_lookup[i]
    }

    /// Replace the entries of row `i` with the given ones, in type order,
    /// returning the replaced entries.
    pub(crate) fn replace_row(&mut self, i: usize, entries: Vec<Entry<V>>) -> (r: Vec<Entry<V>>)
        requires
            old(self).wf(),
            i < old(self).ids().len(),
            entries@.len() == old(self).types().len(),
            forall|c: int| 0 <= c < entries@.len() ==> (#[trigger] entries@[c]).key == old(self).ids()[i as int],
        ensures
            final(self).wf(),
            final(self).types() == old(self).types(),
            final(self).ids() == old(self).ids(),
            r@ == old(self).row_entries(i as int),
            final(self).row_entries(i as int) == entries@,
            forall|j: int| 0 <= j < old(self).ids().len() && j != i ==> #[trigger] final(self).row_entries(j) == old(self).row_entries(j),
    {
        let ghost pre = *self;
        let ghost es = entries@;
        let mut entries = entries;
        let n = self.data.len();
        let mut rev: Vec<Entry<V>> = Vec::new();
        while entries.len() > 0
            invariant
                entries@ == es.take(entries@.len() as int),
                es.len() == n,
                rev@.len() + entries@.len() == n,
                forall|k: int| 0 <= k < rev@.len() ==> #[trigger] rev@[k] == es[n - 1 - k],
            decreases entries@.len(),
        {
            let v = entries.pop().unwrap();
            rev.push(v);
            proof {
                assert(entries@ =~= es.take(entries@.len() as int));
            }
        }
        let mut r: Vec<Entry<V>> = Vec::new();
        let mut c: usize = 0;
        while c < n
            invariant
                pre.wf(),
                n == pre.data@.len(),
                es.len() == n,
                c <= n,
                i < pre.index_lookup@.len(),
                rev@.len() == n - c,
                forall|k: int| 0 <= k < rev@.len() ==> #[trigger] rev@[k] == es[n - 1 - k],
                r@.len() == c,
                forall|k: int| 0 <= k < c ==> #[trigger] r@[k] == pre.data@[k]@[i as int],
                self.entry_types == pre.entry_types,
                self.index_lookup == pre.index_lookup,
                self.data@.len() == n,
                forall|k: int| 0 <= k < c ==> (#[trigger] self.data@[k])@ == pre.data@[k]@.update(i as int, es[k]),
                forall|k: int| c <= k < n ==> #[trigger] self.data@[k] == pre.data@[k],
            decreases n - c,
        {
            let mut v = rev.pop().unwrap();
            let mut col: Vec<Entry<V>> = Vec::new();
            std::mem::swap(&mut col, &mut self.data[c]);
            proof {
                assert(col@.len() == pre.index_lookup@.len());
            }
            std::mem::swap(&mut v, &mut col[i]);
            std::mem::swap(&mut col, &mut self.data[c]);
            r.push(v);
            c += 1;
        }
        proof {
            assert(r@ =~= pre.row_entries(i as int));
            assert forall|j: int| 0 <= j < pre.ids().len() && j != i implies #[trigger] self.row_entries(j) == pre.row_entries(j) by {
                assert forall|k: int| 0 <= k < self.types().len() implies self.row_entries(j)[k] == pre.row_entries(j)[k] by {
                    assert(self.data@[k]@[j] == pre.data@[k]@[j]);
                }
                assert(self.row_entries(j) =~= pre.row_entries(j));
            }
            assert forall|k: int| 0 <= k < self.types().len() implies self.row_entries(i as int)[k] == es[k] by {
                assert(self.data@[k]@[i as int] == es[k]);
            }
            assert(self.row_entries(i as int) =~= es);
            assert forall|k: int, j: int| 0 <= k < self.data@.len() && 0 <= j < self.index_lookup@.len() implies (#[trigger] self.data@[k]@[j]).key
                == self.index_lookup@[j] by {
                if j != i {
                    assert(self.data@[k]@[j] == pre.data@[k]@[j]);
                } else {
                    assert(self.data@[k]@[j] == es[k]);
                }
            }
        }
        r
    }

    /// A mutable reference to the value in column `c` of row `i`, the entry
    /// being marked as modified at `iteration`.
    pub(crate) fn value_mut(&mut self, c: usize, i: usize, iteration: u64) -> (r: &mut V)
        requires
            old(self).wf(),
            c < old(self).types().len(),
            i < old(self).ids().len(),
        ensures
            *r == old(self).column(c as int)[i as int].value,
            final(self).wf(),
            final(self).types() == old(self).types(),
            final(self).ids() == old(self).ids(),
            final(self).row_entries(i as int) == old(self).row_entries(i as int).update(
                c as int,
                old(self).column(c as int)[i as int].spec_written(*final(r), iteration),
            ),
            forall|j: int| 0 <= j < old(self).ids().len() && j != i ==> #[trigger] final(self).row_entries(j) == old(self).row_entries(j),
    {
        proof {
            assert(self.data@[c as int]@.len() == self.index_lookup@.len());
        }
        let col = &mut self.data[c];
        let e = &mut col[i];
        e.changed = iteration;
        e.added = false;
        &mut e.value
    }


    /// The components of row `i` by type: the entry in each type's column.
    pub proof fn lemma_row_map(&self, i: int)
        requires
            self.wf(),
            0 <= i < self.ids().len(),
        ensures
            forall|c: int| 0 <= c < self.types().len() ==> #[trigger] self.row(i)[self.types()[c]] == self.row_entries(i)[c],
            forall|c: int| 0 <= c < self.types().len() ==> self.row(i).contains_key(#[trigger] self.types()[c]),
            forall|t: u64| #[trigger] self.row(i).contains_key(t) <==> self.types().contains(t),
    {
        assert forall|c: int| 0 <= c < self.types().len() implies #[trigger] self.row(i)[self.types()[c]] == self.row_entries(i)[c]
            && self.row(i).contains_key(self.types()[c]) by {
            crate::bundle::lemma_index_of_ascending(self.types(), c);
        }
    }

    /// Whether `post` differs from `pre` only in the entries of row `i`,
    /// each keeping its key.
    spec fn only_row_changed(pre: Self, post: Self, i: int) -> bool {
        &&& post.entry_types == pre.entry_types
        &&& post.index_lookup == pre.index_lookup
        &&& post.data@.len() == pre.data@.len()
        &&& forall|c: int| 0 <= c < pre.data@.len() ==> (#[trigger] post.data@[c])@.len() == pre.data@[c]@.len()
        &&& forall|c: int, j: int|
            0 <= c < pre.data@.len() && 0 <= j < pre.data@[c]@.len() && j != i ==> #[trigger] post.data@[c]@[j] == pre.data@[c]@[j]
        &&& forall|c: int| 0 <= c < pre.data@.len() ==> (#[trigger] post.data@[c]@[i]).key == pre.data@[c]@[i].key
    }

    /// Every archetype that differs from a well-formed `pre` only in the
    /// entries of row `i`, keys kept, is well formed, with the same types,
    /// ids and other rows.
    proof fn lemma_only_row_changed_any(pre: Self, i: int)
        requires
            pre.wf(),
            0 <= i < pre.ids().len(),
        ensures
            forall|post: Self|
                #![trigger post.wf()]
                Self::only_row_changed(pre, post, i) ==> {
                    &&& post.wf()
                    &&& post.types() == pre.types()
                    &&& post.ids() == pre.ids()
                    &&& forall|j: int| 0 <= j < pre.ids().len() && j != i ==> #[trigger] post.row_entries(j) == pre.row_entries(j)
                    &&& forall|c: int| 0 <= c < post.types().len() ==> #[trigger] post.row(i)[post.types()[c]] == post.row_entries(i)[c]
                    &&& post.row(i).dom() == pre.row(i).dom()
                },
    {
        assert forall|post: Self| #![trigger post.wf()] Self::only_row_changed(pre, post, i) implies {
            &&& post.wf()
            &&& post.types() == pre.types()
            &&& post.ids() == pre.ids()
            &&& forall|j: int| 0 <= j < pre.ids().len() && j != i ==> #[trigger] post.row_entries(j) == pre.row_entries(j)
            &&& forall|c: int| 0 <= c < post.types().len() ==> #[trigger] post.row(i)[post.types()[c]] == post.row_entries(i)[c]
            &&& post.row(i).dom() == pre.row(i).dom()
        } by {
            assert forall|c: int, j: int|
                0 <= c < post.data@.len() && 0 <= j < post.index_lookup@.len() implies (#[trigger] post.data@[c]@[j]).key
                == post.index_lookup@[j] by {
                assert(pre.data@[c]@[j].key == pre.index_lookup@[j]);
            }
            assert forall|j: int| 0 <= j < pre.ids().len() && j != i implies #[trigger] post.row_entries(j) == pre.row_entries(j) by {
                assert(post.row_entries(j) =~= pre.row_entries(j));
            }
            post.lemma_row_map(i);
            pre.lemma_row_map(i);
            assert(post.row(i).dom() =~= pre.row(i).dom());
        }
    }

    /// Mutable references to the values of row `i` in the columns that
    /// `marks` selects, one slot per column, `None` for the others; each
    /// selected entry is marked as modified at `iteration`, and what is
    /// written through its reference becomes its value.
    pub(crate) fn row_mut(&mut self, marks: &[bool], i: usize, iteration: u64) -> (r: Vec<Option<&mut V>>)
        requires
            old(self).wf(),
            marks@.len() == old(self).types().len(),
            i < old(self).ids().len(),
        ensures
            final(self).wf(),
            final(self).types() == old(self).types(),
            final(self).ids() == old(self).ids(),
            r@.len() == marks@.len(),
            forall|c: int| 0 <= c < r@.len() ==> ((#[trigger] r@[c]) is Some <==> marks@[c]),
            forall|c: int| 0 <= c < r@.len() && marks@[c] ==> *(#[trigger] r@[c])->Some_0 == old(self).column(c)[i as int].value,
            forall|c: int|
                0 <= c < r@.len() ==> #[trigger] final(self).row_entries(i as int)[c] == if marks@[c] {
                    old(self).column(c)[i as int].spec_written(*final(r@[c]->Some_0), iteration)
                } else {
                    old(self).column(c)[i as int]
                },
            forall|j: int| 0 <= j < old(self).ids().len() && j != i ==> #[trigger] final(self).row_entries(j) == old(self).row_entries(j),
            forall|c: int|
                0 <= c < old(self).types().len() ==> #[trigger] final(self).row(i as int)[old(self).types()[c]] == final(self).row_entries(
                    i as int,
                )[c],
            final(self).row(i as int).dom() == old(self).row(i as int).dom(),
    {
        proof {
            Self::lemma_only_row_changed_any(*self, i as int);
        }
        let cols = self.data.as_mut_slice();
        column_refs(cols, marks, i, iteration)
    }

    /// Write `value` into the entry in column `c` of row `i`, marking it as
    /// modified at `iteration`, and return the value it held.
    pub(crate) fn write_entry(&mut self, c: usize, i: usize, value: V, iteration: u64) -> (prev: V)
        requires
            old(self).wf(),
            c < old(self).types().len(),
            i < old(self).ids().len(),
        ensures
            final(self).wf(),
            final(self).types() == old(self).types(),
            final(self).ids() == old(self).ids(),
            prev == old(self).column(c as int)[i as int].value,
            final(self).row_entries(i as int) == old(self).row_entries(i as int).update(
                c as int,
                old(self).column(c as int)[i as int].spec_written(value, iteration),
            ),
            forall|j: int| 0 <= j < old(self).ids().len() && j != i ==> #[trigger] final(self).row_entries(j) == old(self).row_entries(j),
    {
        let ghost pre = *self;
        let mut col: Vec<Entry<V>> = Vec::new();
        std::mem::swap(&mut col, &mut self.data[c]);
        proof {
            assert(col@.len() == pre.index_lookup@.len());
        }
        let mut e = col.remove(i);
        let prev = e.replace_value(value, iteration);
        col.insert(i, e);
        std::mem::swap(&mut col, &mut self.data[c]);
        proof {
            let w = pre.data@[c as int]@[i as int].spec_written(value, iteration);
            assert(self.data@[c as int]@ =~= pre.data@[c as int]@.update(i as int, w));
            assert forall|k: int| 0 <= k < self.data@.len() && k != c implies #[trigger] self.data@[k] == pre.data@[k] by {
            }
            assert forall|j: int| 0 <= j < pre.ids().len() && j != i implies #[trigger] self.row_entries(j) == pre.row_entries(j) by {
                assert forall|k: int| 0 <= k < self.types().len() implies self.row_entries(j)[k] == pre.row_entries(j)[k] by {
                    assert(self.data@[k]@[j] == pre.data@[k]@[j]);
                }
                assert(self.row_entries(j) =~= pre.row_entries(j));
            }
            assert forall|k: int| 0 <= k < self.types().len() implies self.row_entries(i as int)[k] == pre.row_entries(i as int).update(c as int, w)[k] by {
                if k != c {
                    assert(self.data@[k]@[i as int] == pre.data@[k]@[i as int]);
                }
            }
            assert(self.row_entries(i as int) =~= pre.row_entries(i as int).update(c as int, w));
            assert forall|k: int, j: int| 0 <= k < self.data@.len() && 0 <= j < self.index_lookup@.len() implies (#[trigger] self.data@[k]@[j]).key
                == self.index_lookup@[j] by {
                if k != c || j != i {
                    assert(self.data@[k]@[j] == pre.data@[k]@[j]);
                }
            }
        }
        prev
    }

    /// The component types, in ascending order.
    pub fn type_list(&self) -> (t: &TypeList)
        ensures
            type_list_items(*t) == self.types(),
    {
        &self.entry_types
    }

    /// The number of entities.
    pub fn len(&self) -> (n: usize)
        ensures
            n == self.ids().len(),
    {
        self.index_lookup.len()
    }

    /// Whether the archetype holds no entities.
    pub fn is_empty(&self) -> (b: bool)
        ensures
            b == (self.ids().len() == 0),
    {
        self.index_lookup.len() == 0
    }

    /// The column position of the given component type, if the archetype has
    /// that type.
    pub fn index_of(&self, ty: u64) -> (r: Option<usize>)
        requires
            self.wf(),
        ensures
            match r {
                Some(c) => c < self.types().len() && self.types()[c as int] == ty,
                None => !self.types().contains(ty),
            },
    {
        let n = self.entry_types.len();
        let mut i: usize = 0;
        while i < n
            invariant
                n == self.types().len(),
                i <= n,
                forall|k: int| 0 <= k < i ==> #[trigger] self.types()[k] != ty,
            decreases n - i,
        {
            if self.entry_types.get(i) == ty {
                return Some(i);
            }
            i += 1;
        }
        None
    }

    /// Whether the archetype has components of the given type.
    pub fn has_component(&self, ty: u64) -> (b: bool)
        requires
            self.wf(),
        ensures
            b == self.types().contains(ty),
    {
        self.index_of(ty).is_some()
    }

    /// Whether the archetype's types are exactly the given types, once these
    /// are put in order.
    ///
    /// Errs with `Duplicate` when a type occurs more than once.
    pub fn matches_bundle(&self, types: &[u64]) -> (r: Result<bool, TypeInfoError>)
        requires
            self.wf(),
        ensures
            match r {
                Ok(b) => types@.no_duplicates() && b == (self.types().to_set() == types@.to_set()),
                Err(e) => !types@.no_duplicates() && e == TypeInfoError::Duplicate,
            },
    {
        let list = crate::bundle::ordered_types(types)?;
        let b = self.same_types(list.as_slice());
        proof {
            if b {
                assert(self.types().to_set() =~= types@.to_set());
            } else {
                if self.types().to_set() == types@.to_set() {
                    crate::bundle::lemma_ascending_set_eq(self.types(), type_list_items(list));
                }
            }
        }
        Ok(b)
    }

    /// Whether the archetype's types are exactly the given sequence.
    pub fn same_types(&self, types: &[u64]) -> (b: bool)
        ensures
            b == (self.types() == types@),
    {
        let n = self.entry_types.len();
        if n != types.len() {
            return false;
        }
        let mut i: usize = 0;
        while i < n
            invariant
                n == self.types().len(),
                n == types@.len(),
                i <= n,
                forall|k: int| 0 <= k < i ==> #[trigger] self.types()[k] == types@[k],
            decreases n - i,
        {
            if self.entry_types.get(i) != types[i] {
                return false;
            }
            i += 1;
        }
        proof {
            assert(self.types() =~= types@);
        }
        true
    }

    /// Whether the archetype's types contain all of the given types.
    ///
    /// The given types must be in ascending order.
    pub fn contains_entry_types(&self, types: &[u64]) -> (b: bool)
        requires
            self.wf(),
            strictly_ascending(types@),
        ensures
            b == (forall|k: int| 0 <= k < types@.len() ==> self.types().contains(#[trigger] types@[k])),
    {
        let n = self.entry_types.len();
        let m = types.len();
        let mut here: usize = 0;
        let mut k: usize = 0;
        while k < m
            invariant
                self.wf(),
                n == self.types().len(),
                m == types@.len(),
                strictly_ascending(types@),
                k <= m,
                here <= n,
                forall|j: int| 0 <= j < k ==> self.types().contains(#[trigger] types@[j]),
                k > 0 ==> forall|q: int| here <= q < n ==> types@[k - 1] < #[trigger] self.types()[q],
                k == 0 ==> here == 0,
                k > 0 ==> forall|q: int| 0 <= q < here ==> #[trigger] self.types()[q] <= types@[k - 1],
            decreases m - k,
        {
            let ty = types[k];
            let mut found = false;
            proof {
                if k > 0 {
                    assert(types@[k - 1] < types@[k as int]);
                }
            }
            while here < n && !found
                invariant
                    self.wf(),
                    n == self.types().len(),
                    m == types@.len(),
                    strictly_ascending(types@),
                    k < m,
                    ty == types@[k as int],
                    here <= n,
                    found ==> here > 0 && self.types()[here - 1] == ty,
                    !found ==> k > 0 ==> forall|q: int| here <= q < n ==> types@[k - 1] < #[trigger] self.types()[q],
                    !found ==> forall|q: int| 0 <= q < here ==> #[trigger] self.types()[q] != ty,
                decreases n - here,
            {
                if self.entry_types.get(here) == ty {
                    found = true;
                }
                here += 1;
            }
            if !found {
                proof {
                    assert forall|q: int| 0 <= q < n implies #[trigger] self.types()[q] != ty by {
                    }
                    assert(!self.types().contains(ty));
                }
                return false;
            }
            proof {
                assert(self.types().contains(ty));
                assert forall|q: int| here <= q < n implies ty < #[trigger] self.types()[q] by {
                    assert(self.types()[here - 1] < self.types()[q]);
                }
                assert forall|q: int| 0 <= q < here implies #[trigger] self.types()[q] <= ty by {
                    if q < here - 1 {
                        assert(self.types()[q] < self.types()[here - 1]);
                    }
                }
            }
            k += 1;
        }
        true
    }
}

/// Mutable references to entry `i` of the columns that `marks` selects,
/// one slot per column, `None` for the others; each selected entry is
/// marked as modified at `iteration`, and what is written through its
/// reference becomes its value.
fn column_refs<'a, V>(cols: &'a mut [Vec<Entry<V>>], marks: &[bool], i: usize, iteration: u64) -> (r: Vec<Option<&'a mut V>>)
    requires
        marks@.len() == old(cols)@.len(),
        forall|c: int| 0 <= c < old(cols)@.len() ==> i < (#[trigger] old(cols)@[c])@.len(),
    ensures
        r@.len() == old(cols)@.len(),
        final(cols)@.len() == old(cols)@.len(),
        forall|c: int| 0 <= c < r@.len() ==> ((#[trigger] r@[c]) is Some <==> marks@[c]),
        forall|c: int| 0 <= c < r@.len() && marks@[c] ==> *(#[trigger] r@[c])->Some_0 == old(cols)@[c]@[i as int].value,
        forall|c: int|
            0 <= c < r@.len() ==> (#[trigger] final(cols)@[c])@ == if marks@[c] {
                old(cols)@[c]@.update(i as int, old(cols)@[c]@[i as int].spec_written(*final(r@[c]->Some_0), iteration))
            } else {
                old(cols)@[c]@
            },
    decreases old(cols)@.len(),
{
    if cols.len() == 0 {
        return Vec::new();
    }
    let (h, t) = cols.split_at_mut(1);
    let (m, ms) = marks.split_at(1);
    let mut rest = column_refs(t, ms, i, iteration);
    let mut r: Vec<Option<&'a mut V>> = Vec::new();
    if m[0] {
        let col = &mut h[0];
        let e = &mut col[i];
        e.changed = iteration;
        e.added = false;
        r.push(Some(&mut e.value));
    } else {
        r.push(None);
    }
    r.append(&mut rest);
    r
}

} // verus!
