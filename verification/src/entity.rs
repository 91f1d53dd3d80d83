//! Entities: ids that group components, created, destroyed and recycled
//! with a generation count.
use std::collections::VecDeque;
use vstd::prelude::*;

use crate::bundle::AnyBundle;
use crate::components::{components_of, ids_below, lemma_ids_below, with_component, added_entries, AllArchetypes};
use crate::entry::Entry;
use crate::type_list::{type_list_items, TypeList};

verus! {

/// An entity: an id, and the generation of that id it was made for.
#[derive(Clone, Copy, Debug, PartialEq, Eq, Structural)]
pub struct Entity {
    id: usize,
    gen: usize,
}

impl Entity {
    /// The entity's id.
    pub closed spec fn spec_id(&self) -> usize {
        self.id
    }

    /// The generation of the id that the entity was made for.
    pub closed spec fn spec_gen(&self) -> usize {
        self.gen
    }

    /// The entity's id.
    pub fn id(&self) -> (id: usize)
        ensures
            id == self.spec_id(),
    {
        self.id
    }

    /// The generation of the id that the entity was made for.
    pub fn gen(&self) -> (gen: usize)
        ensures
            gen == self.spec_gen(),
    {
        self.gen
    }

    /// The change of its components that adds the bundle, to be applied to
    /// the component storage later.
    pub fn insert_bundle<V>(&self, bundle: AnyBundle<V>) -> (op: LazyOp<V>)
        ensures
            op == (LazyOp::InsertBundle { entity: self.spec_id(), bundle }),
    {
        LazyOp::InsertBundle { entity: self.id, bundle }
    }

    /// The change of its components that adds one component of type `ty`,
    /// to be applied to the component storage later.
    pub fn insert_component<V>(&self, ty: u64, component: V) -> (op: LazyOp<V>)
        ensures
            op == (LazyOp::InsertComponent { entity: self.spec_id(), ty, component }),
    {
        LazyOp::InsertComponent { entity: self.id, ty, component }
    }

    /// The change of its components that removes the one of type `ty`, to
    /// be applied to the component storage later.
    pub fn remove_component<V>(&self, ty: u64) -> (op: LazyOp<V>)
        ensures
            op == (LazyOp::<V>::RemoveComponent { entity: self.spec_id(), ty }),
    {
        LazyOp::RemoveComponent { entity: self.id, ty }
    }
}

/// A change of an entity's components, made now and applied to the
/// component storage later.
pub enum LazyOp<V> {
    InsertBundle { entity: usize, bundle: AnyBundle<V> },
    InsertComponent { entity: usize, ty: u64, component: V },
    RemoveComponent { entity: usize, ty: u64 },
}

/// The storage after a change is applied at `iteration`.
pub open spec fn applied<V>(m: Map<usize, Map<u64, Entry<V>>>, op: LazyOp<V>, iteration: u64) -> Map<usize, Map<u64, Entry<V>>> {
    match op {
        LazyOp::InsertBundle { entity, bundle } => m.insert(
            entity,
            components_of(m, entity).union_prefer_right(added_entries(entity, bundle@, iteration)),
        ),
        LazyOp::InsertComponent { entity, ty, component } => with_component(m, entity, ty, component, iteration),
        LazyOp::RemoveComponent { entity, ty } => if components_of(m, entity).contains_key(ty) {
            m.insert(entity, m[entity].remove(ty))
        } else {
            m
        },
    }
}

impl<V> LazyOp<V> {
    /// The change can be applied: a bundle is well formed and the entity id
    /// leaves room for the storage's lookup.
    pub open spec fn ok(&self) -> bool {
        match self {
            LazyOp::InsertBundle { entity, bundle } => bundle.wf() && *entity < usize::MAX,
            LazyOp::InsertComponent { entity, .. } => *entity < usize::MAX,
            LazyOp::RemoveComponent { .. } => true,
        }
    }

    /// Whether the change can be applied, as `ok` says.
    pub fn is_ok(&self) -> (b: bool)
        ensures
            b == self.ok(),
    {
        match self {
            LazyOp::InsertBundle { entity, bundle } => {
                *entity < usize::MAX && bundle.0.len() == bundle.1.len() && crate::bundle::ensure_type_info(bundle.0.as_slice()).is_ok()
            },
            LazyOp::InsertComponent { entity, .. } => *entity < usize::MAX,
            LazyOp::RemoveComponent { .. } => true,
        }
    }

    /// Apply the change to the component storage at `iteration`.
    pub fn apply(self, components: &mut AllArchetypes<V>, iteration: u64)
        requires
            old(components).wf(),
            self.ok(),
        ensures
            final(components).wf(),
            final(components)@ == applied(old(components)@, self, iteration),
    {
        match self {
            LazyOp::InsertBundle { entity, bundle } => {
                components.insert_bundle(entity, bundle, iteration);
            },
            LazyOp::InsertComponent { entity, ty, component } => {
                let _ = components.insert_component(entity, ty, component, iteration);
            },
            LazyOp::RemoveComponent { entity, ty } => {
                let _ = components.remove_component(entity, ty);
            },
        }
    }
}

/// The entries of a log of deleted entities, in log order: each batch's
/// entities that had a component of type `ty` (all of them when `ty` is
/// `None`), stamped with the batch's iteration.
pub open spec fn deleted_entries(log: Seq<(u64, Seq<(usize, Seq<u64>)>)>, ty: Option<u64>) -> Seq<Entry<()>>
    decreases log.len(),
{
    if log.len() == 0 {
        Seq::empty()
    } else {
        deleted_entries(log.drop_last(), ty) + batch_entries(log.last().0, log.last().1, ty)
    }
}

/// Whether a deleted entity with these component types is listed for `ty`.
pub open spec fn listed(types: Seq<u64>, ty: Option<u64>) -> bool {
    match ty {
        Some(t) => types.contains(t),
        None => true,
    }
}

/// The entries of one batch of deleted entities, stamped with `changed`.
pub open spec fn batch_entries(changed: u64, ids: Seq<(usize, Seq<u64>)>, ty: Option<u64>) -> Seq<Entry<()>>
    decreases ids.len(),
{
    if ids.len() == 0 {
        Seq::empty()
    } else {
        let rest = batch_entries(changed, ids.drop_last(), ty);
        if listed(ids.last().1, ty) {
            rest.push(Entry { value: (), key: ids.last().0, changed, added: true })
        } else {
            rest
        }
    }
}

/// The destroyed ids that are freed by an upkeep: those in use, each once,
/// in the order they were destroyed.
pub open spec fn fresh_dead(dead: Seq<usize>, alive: Set<usize>) -> Seq<usize>
    decreases dead.len(),
{
    if dead.len() == 0 {
        Seq::empty()
    } else {
        let f = fresh_dead(dead.drop_last(), alive);
        if alive.contains(dead.last()) && !f.contains(dead.last()) {
            f.push(dead.last())
        } else {
            f
        }
    }
}

/// Creates, destroys and recycles entities.
pub struct Entities {
    next_k: usize,
    generations: Vec<usize>,
    recycle: Vec<usize>,
    dead: Vec<usize>,
    deleted: VecDeque<(u64, Vec<(usize, TypeList)>)>,
}

/// How many batches of deleted entities are kept.
pub const DELETED_BATCHES: usize = 3;

impl Entities {
    /// The generation of each id ever created.
    pub closed spec fn generations(&self) -> Seq<usize> {
        self.generations@
    }

    /// The ids free for reuse, the last one reused first.
    pub closed spec fn recycled(&self) -> Seq<usize> {
        self.recycle@
    }

    /// The ids destroyed since the last upkeep.
    pub closed spec fn dead(&self) -> Seq<usize> {
        self.dead@
    }

    /// The recent batches of deleted entities, newest first: each with its
    /// iteration and the ids and component types of its entities.
    pub closed spec fn deleted(&self) -> Seq<(u64, Seq<(usize, Seq<u64>)>)> {
        self.deleted@.map_values(
            |b: (u64, Vec<(usize, TypeList)>)| (b.0, b.1@.map_values(|it: (usize, TypeList)| (it.0, type_list_items(it.1)))),
        )
    }

    /// The ids in use.
    pub open spec fn alive(&self) -> Set<usize> {
        Set::new(|i: usize| i < self.generations().len() && !self.recycled().contains(i))
    }

    /// Ids are handed out in order, and the recycled ones are distinct ids
    /// that were handed out before.
    pub closed spec fn wf(&self) -> bool {
        &&& self.next_k == self.generations@.len()
        &&& self.recycle@.no_duplicates()
        &&& forall|i: int| 0 <= i < self.recycle@.len() ==> (#[trigger] self.recycle@[i]) < self.generations@.len()
    }

    /// No entities.
    pub fn new() -> (s: Self)
        ensures
            s.wf(),
            s.generations() == Seq::<usize>::empty(),
            s.recycled() == Seq::<usize>::empty(),
            s.dead() == Seq::<usize>::empty(),
            s.deleted() == Seq::<(u64, Seq<(usize, Seq<u64>)>)>::empty(),
    {
        let s = Entities { next_k: 0, generations: Vec::new(), recycle: Vec::new(), dead: Vec::new(), deleted: VecDeque::new() };
        assert(s.deleted() =~= Seq::<(u64, Seq<(usize, Seq<u64>)>)>::empty());
        s
    }

    /// The number of ids in use is the number of ids made less the number
    /// free for reuse.
    proof fn lemma_alive_len(&self)
        requires
            self.wf(),
        ensures
            self.recycled().len() <= self.generations().len(),
            self.alive().finite(),
            self.alive().len() == self.generations().len() - self.recycled().len(),
    {
        let n = self.generations().len();
        lemma_ids_below(n as int);
        let r = self.recycled().to_set();
        assert(r.subset_of(ids_below(n as int)));
        self.recycled().unique_seq_to_set();
        vstd::set_lib::lemma_len_subset(r, ids_below(n as int));
        assert(self.alive() =~= ids_below(n as int).difference(r));
        vstd::set_lib::lemma_set_difference_len(ids_below(n as int), r);
        assert(ids_below(n as int).intersect(r) =~= r);
    }

    /// Take an id: the most recently freed one, one generation on, or else a
    /// new one.
    fn dequeue(&mut self) -> (id: usize)
        requires
            old(self).wf(),
            old(self).recycled().len() > 0 ==> old(self).generations()[old(self).recycled().last() as int] < usize::MAX,
            old(self).recycled().len() == 0 ==> old(self).generations().len() < usize::MAX,
        ensures
            final(self).wf(),
            final(self).dead() == old(self).dead(),
            final(self).deleted() == old(self).deleted(),
            old(self).recycled().len() > 0 ==> {
                &&& id == old(self).recycled().last()
                &&& final(self).recycled() == old(self).recycled().drop_last()
                &&& final(self).generations() == old(self).generations().update(
                    id as int,
                    (old(self).generations()[id as int] + 1) as usize,
                )
            },
            old(self).recycled().len() == 0 ==> {
                &&& id == old(self).generations().len()
                &&& final(self).recycled() == old(self).recycled()
                &&& final(self).generations() == old(self).generations().push(0)
            },
            final(self).alive() == old(self).alive().insert(id),
            !old(self).alive().contains(id),
    {
        let ghost pre = *self;
        match self.recycle.pop() {
            Some(id) => {
                let g = self.generations[id];
                self.generations.set(id, g + 1);
                proof {
                    assert(pre.recycle@.drop_last() =~= self.recycle@);
                    assert(!self.recycle@.contains(id)) by {
                        if self.recycle@.contains(id) {
                            let k = self.recycle@.index_of(id);
                            assert(pre.recycle@[k] == pre.recycle@[pre.recycle@.len() - 1]);
                        }
                    }
                    assert forall|x: usize| #[trigger] self.alive().contains(x) == pre.alive().insert(id).contains(x) by {
                        if x != id && pre.recycle@.contains(x) {
                            let k = pre.recycle@.index_of(x);
                            assert(self.recycle@[k] == x);
                        }
                        if x != id && self.recycle@.contains(x) {
                            let k = self.recycle@.index_of(x);
                            assert(pre.recycle@[k] == x);
                        }
                    }
                    assert(self.alive() =~= pre.alive().insert(id));
                    assert(pre.recycle@.contains(id)) by {
                        assert(pre.recycle@[pre.recycle@.len() - 1] == id);
                    }
                }
                id
            },
            None => {
                let id = self.next_k;
                self.generations.push(0);
                self.next_k = self.next_k + 1;
                proof {
                    assert(self.alive() =~= pre.alive().insert(id));
                }
                id
            },
        }
    }

    /// Create one entity.
    pub fn create(&mut self) -> (e: Entity)
        requires
            old(self).wf(),
            old(self).recycled().len() > 0 ==> old(self).generations()[old(self).recycled().last() as int] < usize::MAX,
            old(self).recycled().len() == 0 ==> old(self).generations().len() < usize::MAX,
        ensures
            final(self).wf(),
            final(self).dead() == old(self).dead(),
            final(self).deleted() == old(self).deleted(),
            !old(self).alive().contains(e.spec_id()),
            final(self).alive() == old(self).alive().insert(e.spec_id()),
            e.spec_gen() == final(self).generations()[e.spec_id() as int],
            old(self).recycled().len() > 0 ==> {
                &&& e.spec_id() == old(self).recycled().last()
                &&& final(self).recycled() == old(self).recycled().drop_last()
                &&& e.spec_gen() == old(self).generations()[e.spec_id() as int] + 1
                &&& final(self).generations() == old(self).generations().update(e.spec_id() as int, e.spec_gen())
            },
            old(self).recycled().len() == 0 ==> {
                &&& e.spec_id() == old(self).generations().len()
                &&& e.spec_gen() == 0
                &&& final(self).recycled() == old(self).recycled()
                &&& final(self).generations() == old(self).generations().push(0)
            },
    {
        let id = self.dequeue();
        Entity { id, gen: self.generations[id] }
    }

    /// Whether `create` can make one more entity: the id it would reuse is
    /// not at the last generation, or, with no id to reuse, a new id is left.
    pub fn can_create(&self) -> (b: bool)
        requires
            self.wf(),
        ensures
            b == (if self.recycled().len() > 0 {
                self.generations()[self.recycled().last() as int] < usize::MAX
            } else {
                self.generations().len() < usize::MAX
            }),
    {
        let n = self.recycle.len();
        if n > 0 {
            let id = self.recycle[n - 1];
            self.generations[id] < usize::MAX
        } else {
            self.generations.len() < usize::MAX
        }
    }

    /// Create `how_many` entities at once and return their ids: the freed
    /// ids first, most recently freed first, each one generation on, then
    /// new ones in ascending order.
    pub fn create_many(&mut self, how_many: usize) -> (ids: Vec<usize>)
        requires
            old(self).wf(),
            how_many > 0,
            forall|i: int|
                old(self).recycled().len() - how_many <= i < old(self).recycled().len() ==> old(self).generations()[#[trigger] old(
                    self,
                ).recycled()[i] as int] < usize::MAX,
            how_many <= old(self).recycled().len() || old(self).generations().len() + (how_many - old(self).recycled().len())
                <= usize::MAX,
        ensures
            final(self).wf(),
            final(self).dead() == old(self).dead(),
            final(self).deleted() == old(self).deleted(),
            ids@.len() == how_many,
            ids@.no_duplicates(),
            forall|i: int| 0 <= i < ids@.len() ==> !old(self).alive().contains(#[trigger] ids@[i]),
            final(self).alive() == old(self).alive().union(ids@.to_set()),
            ({
                let r = old(self).recycled();
                let k = if how_many <= r.len() { how_many as int } else { r.len() as int };
                &&& final(self).recycled() == r.take(r.len() - k)
                &&& forall|i: int| 0 <= i < k ==> ids@[i] == r[r.len() - 1 - i]
                &&& forall|i: int| k <= i < how_many ==> ids@[i] == old(self).generations().len() + (i - k)
                &&& forall|i: int| 0 <= i < k ==> #[trigger] final(self).generations()[r[r.len() - 1 - i] as int] == old(
                    self,
                ).generations()[r[r.len() - 1 - i] as int] + 1
                &&& final(self).generations().len() == old(self).generations().len() + (how_many - k)
                &&& forall|x: int|
                    old(self).generations().len() <= x < final(self).generations().len()
                        ==> #[trigger] final(self).generations()[x] == 0
            }),
            forall|x: int|
                0 <= x < old(self).generations().len() && !ids@.contains(x as usize) ==> #[trigger] final(self).generations()[x]
                    == old(self).generations()[x],
    {
        let ghost pre = *self;
        let ghost r = pre.recycle@;
        let mut ids: Vec<usize> = Vec::new();
        let mut how_many = how_many;
        let ghost total = how_many;
        while self.recycle.len() > 0
            invariant_except_break
                how_many > 0,
            invariant
                self.wf(),
                self.next_k == pre.next_k,
                self.dead == pre.dead,
                self.deleted == pre.deleted,
                self.generations@.len() == pre.generations@.len(),
                ids@.len() + how_many == total,
                ids@.len() <= r.len(),
                self.recycle@ == r.take(r.len() - ids@.len()),
                forall|i: int| 0 <= i < ids@.len() ==> ids@[i] == r[r.len() - 1 - i],
                forall|i: int| r.len() - total <= i < r.len() ==> pre.generations@[#[trigger] r[i] as int] < usize::MAX,
                forall|i: int| 0 <= i < ids@.len() ==> #[trigger] self.generations@[ids@[i] as int] == pre.generations@[ids@[i] as int] + 1,
                forall|x: int| 0 <= x < self.generations@.len() && !ids@.contains(x as usize) ==> #[trigger] self.generations@[x] == pre.generations@[x],
                ids@.no_duplicates(),
                forall|i: int| 0 <= i < ids@.len() ==> #[trigger] self.generations@[r[r.len() - 1 - i] as int] == pre.generations@[r[r.len() - 1
                    - i] as int] + 1,
                r.no_duplicates(),
                forall|i: int| 0 <= i < r.len() ==> (#[trigger] r[i]) < pre.generations@.len(),
            ensures
                how_many == 0 || self.recycle@.len() == 0,
            decreases self.recycle@.len(),
        {
            let id = self.recycle.pop().unwrap();
            proof {
                assert(id == r[r.len() - 1 - ids@.len()]);
                assert forall|i: int| 0 <= i < ids@.len() implies ids@[i] != id by {
                    assert(r[r.len() - 1 - i] != r[r.len() - 1 - ids@.len()]);
                }
            }
            let ghost before = ids@;
            let g = self.generations[id];
            self.generations.set(id, g + 1);
            ids.push(id);
            how_many = how_many - 1;
            proof {
                assert(self.recycle@ =~= r.take(r.len() - ids@.len()));
                assert(!before.contains(id));
                assert forall|x: int| 0 <= x < self.generations@.len() && !ids@.contains(x as usize) implies #[trigger] self.generations@[x]
                    == pre.generations@[x] by {
                    assert(!before.contains(x as usize)) by {
                        if before.contains(x as usize) {
                            let j = before.index_of(x as usize);
                            assert(ids@[j] == x);
                        }
                    }
                    assert(x != id) by {
                        if x == id {
                            assert(ids@[ids@.len() - 1] == id);
                        }
                    }
                }
                assert forall|i: int| 0 <= i < ids@.len() implies #[trigger] self.generations@[ids@[i] as int] == pre.generations@[ids@[i] as int] + 1 by {
                    if i < before.len() {
                        assert(ids@[i] == before[i]);
                        assert(before[i] != id);
                    } else {
                        assert(!before.contains(id));
                    }
                }
            }
            if how_many == 0 {
                break;
            }
        }
        if how_many > 0 {
            let last_id = self.next_k + (how_many - 1);
            let ghost k = ids@.len();
            let mut next = self.next_k;
            let ghost mid = *self;
            let ghost ids_mid = ids@;
            proof {
                assert forall|i: int| 0 <= i < k implies #[trigger] mid.generations@[r[r.len() - 1 - i] as int] == pre.generations@[r[r.len()
                    - 1 - i] as int] + 1 by {
                }
            }
            while next <= last_id
                invariant
                    *self == mid,
                    self.next_k == pre.next_k,
                    self.recycle@.len() == 0,
                    pre.next_k <= next <= last_id + 1,
                    last_id < usize::MAX,
                    ids@.len() == k + (next - pre.next_k),
                    forall|i: int| 0 <= i < k ==> ids@[i] == r[r.len() - 1 - i],
                    forall|i: int| k <= i < ids@.len() ==> ids@[i] == pre.next_k + (i - k),
                decreases last_id + 1 - next,
            {
                ids.push(next);
                next = next + 1;
            }
            while self.generations.len() <= last_id
                invariant
                    self.generations@.len() >= pre.generations@.len(),
                    self.generations@.len() <= last_id + 1,
                    forall|x: int| 0 <= x < mid.generations@.len() ==> #[trigger] self.generations@[x] == mid.generations@[x],
                    forall|x: int| mid.generations@.len() <= x < self.generations@.len() ==> #[trigger] self.generations@[x] == 0,
                    mid.generations@.len() == pre.generations@.len(),
                    self.recycle == mid.recycle,
                    self.dead == mid.dead,
                    self.deleted == mid.deleted,
                    self.next_k == mid.next_k,
                    last_id < usize::MAX,
                decreases last_id + 1 - self.generations@.len(),
            {
                self.generations.push(0);
            }
            self.next_k = last_id + 1;
            proof {
                assert(ids@.len() == total);
                assert forall|i: int| 0 <= i < k implies #[trigger] self.generations@[r[r.len() - 1 - i] as int] == pre.generations@[r[r.len()
                    - 1 - i] as int] + 1 by {
                    assert(mid.generations@[r[r.len() - 1 - i] as int] == pre.generations@[r[r.len() - 1 - i] as int] + 1);
                }
                assert forall|x: int| 0 <= x < pre.generations@.len() && !ids@.contains(x as usize) implies #[trigger] self.generations@[x]
                    == pre.generations@[x] by {
                    if ids_mid.contains(x as usize) {
                        let j = ids_mid.index_of(x as usize);
                        assert(ids@[j] == ids_mid[j]);
                    }
                    assert(mid.generations@[x] == pre.generations@[x]);
                }
            }
        }
        proof {
            let kk: int = if total <= r.len() { total as int } else { r.len() as int };
            assert(kk == ids@.len() || kk == r.len());
            assert(self.recycle@ == r.take(r.len() - kk));
            assert forall|i: int| 0 <= i < self.recycle@.len() implies (#[trigger] self.recycle@[i]) < self.generations@.len() by {
                assert(self.recycle@[i] == r[i]);
            }
            assert(self.recycle@.no_duplicates()) by {
                assert forall|i: int, j: int| 0 <= i < j < self.recycle@.len() implies self.recycle@[i] != self.recycle@[j] by {
                    assert(self.recycle@[i] == r[i] && self.recycle@[j] == r[j]);
                }
            }
            assert forall|x: usize| #[trigger] self.alive().contains(x) == pre.alive().union(ids@.to_set()).contains(x) by {
                if ids@.contains(x) {
                    let i = ids@.index_of(x);
                    if i < kk {
                        assert(x == r[r.len() - 1 - i]);
                        assert(!self.recycle@.contains(x)) by {
                            if self.recycle@.contains(x) {
                                let j = self.recycle@.index_of(x);
                                assert(self.recycle@[j] == r[j]);
                            }
                        }
                    }
                } else {
                    if x < pre.generations@.len() {
                        if pre.recycle@.contains(x) {
                            let j = pre.recycle@.index_of(x);
                            if j >= r.len() - kk {
                                assert(ids@[r.len() - 1 - j] == x);
                            } else {
                                assert(self.recycle@[j] == x);
                            }
                        }
                        if self.recycle@.contains(x) {
                            let j = self.recycle@.index_of(x);
                            assert(r[j] == x);
                        }
                    } else if x < self.generations@.len() {
                        assert(ids@[kk + (x - pre.generations@.len())] == x);
                    }
                }
            }
            assert(self.alive() =~= pre.alive().union(ids@.to_set()));
        }
        ids
    }
    /// The number of entities in use.
    pub fn alive_len(&self) -> (n: usize)
        requires
            self.wf(),
        ensures
            n == self.alive().len(),
    {
        proof {
            self.lemma_alive_len();
        }
        self.generations.len() - self.recycle.len()
    }

    /// Whether an id is free for reuse.
    fn is_recycled(&self, entity_id: usize) -> (b: bool)
        ensures
            b == self.recycled().contains(entity_id),
    {
        let n = self.recycle.len();
        let mut i: usize = 0;
        while i < n
            invariant
                n == self.recycle@.len(),
                i <= n,
                forall|j: int| 0 <= j < i ==> self.recycle@[j] != entity_id,
            decreases n - i,
        {
            if self.recycle[i] == entity_id {
                return true;
            }
            i += 1;
        }
        false
    }

    /// The entity with the given id, if the id is in use.
    pub fn hydrate(&self, entity_id: usize) -> (e: Option<Entity>)
        ensures
            match e {
                Some(ent) => {
                    &&& self.alive().contains(entity_id)
                    &&& ent.spec_id() == entity_id
                    &&& ent.spec_gen() == self.generations()[entity_id as int]
                },
                None => !self.alive().contains(entity_id),
            },
    {
        if self.is_recycled(entity_id) {
            return None;
        }
        if entity_id < self.generations.len() {
            Some(Entity { id: entity_id, gen: self.generations[entity_id] })
        } else {
            None
        }
    }

    /// Destroy an entity: its id is freed, and its components removed, at
    /// the next upkeep.
    pub fn destroy(&mut self, entity: Entity)
        ensures
            final(self).generations() == old(self).generations(),
            final(self).recycled() == old(self).recycled(),
            final(self).deleted() == old(self).deleted(),
            final(self).dead() == old(self).dead().push(entity.spec_id()),
            old(self).wf() ==> final(self).wf(),
    {
        self.dead.push(entity.id);
    }

    /// Destroy every entity in use, in ascending order of id.
    pub fn destroy_all(&mut self)
        requires
            old(self).wf(),
        ensures
            final(self).wf(),
            final(self).generations() == old(self).generations(),
            final(self).recycled() == old(self).recycled(),
            final(self).deleted() == old(self).deleted(),
            final(self).dead().len() >= old(self).dead().len(),
            final(self).dead().take(old(self).dead().len() as int) == old(self).dead(),
            ({
                let added = final(self).dead().skip(old(self).dead().len() as int);
                &&& forall|i: int, j: int| 0 <= i < j < added.len() ==> (#[trigger] added[i]) < (#[trigger] added[j])
                &&& forall|x: usize| #[trigger] added.contains(x) <==> old(self).alive().contains(x)
            }),
    {
        let ghost pre = *self;
        let n = self.next_k;
        let mut id: usize = 0;
        while id < n
            invariant
                self.wf(),
                n == self.generations@.len(),
                self.generations() == pre.generations(),
                self.recycled() == pre.recycled(),
                self.deleted() == pre.deleted(),
                id <= n,
                self.dead@.len() >= pre.dead@.len(),
                self.dead@.take(pre.dead@.len() as int) == pre.dead@,
                forall|i: int, j: int|
                    pre.dead@.len() <= i < j < self.dead@.len() ==> (#[trigger] self.dead@[i]) < (#[trigger] self.dead@[j]),
                forall|i: int| pre.dead@.len() <= i < self.dead@.len() ==> (#[trigger] self.dead@[i]) < id && pre.alive().contains(self.dead@[i]),
                forall|x: usize| x < id && #[trigger] pre.alive().contains(x) ==> exists|i: int| pre.dead@.len() <= i < self.dead@.len() && self.dead@[i] == x,
            decreases n - id,
        {
            let ghost before = self.dead@;
            match self.hydrate(id) {
                Some(entity) => {
                    self.destroy(entity);
                    proof {
                        assert(self.dead@.take(pre.dead@.len() as int) =~= before.take(pre.dead@.len() as int));
                        assert forall|x: usize| x < id + 1 && #[trigger] pre.alive().contains(x) implies exists|i: int|
                            pre.dead@.len() <= i < self.dead@.len() && self.dead@[i] == x by {
                            if x == id {
                                assert(self.dead@[self.dead@.len() - 1] == x);
                            } else {
                                let i = choose|i: int| pre.dead@.len() <= i < before.len() && before[i] == x;
                                assert(self.dead@[i] == x);
                            }
                        }
                    }
                },
                None => {},
            }
            id += 1;
        }
        proof {
            let added = self.dead@.skip(pre.dead@.len() as int);
            assert forall|x: usize| #[trigger] added.contains(x) <==> pre.alive().contains(x) by {
                if added.contains(x) {
                    let i = added.index_of(x);
                    assert(self.dead@[i + pre.dead@.len()] == x);
                }
                if pre.alive().contains(x) {
                    let i = choose|i: int| pre.dead@.len() <= i < self.dead@.len() && self.dead@[i] == x;
                    assert(added[i - pre.dead@.len()] == x);
                }
            }
            assert forall|i: int, j: int| 0 <= i < j < added.len() implies (#[trigger] added[i]) < (#[trigger] added[j]) by {
                assert(added[i] == self.dead@[i + pre.dead@.len()]);
                assert(added[j] == self.dead@[j + pre.dead@.len()]);
            }
        }
    }

    /// Every entity in use, in ascending order of id.
    pub fn alive_iter(&self) -> (r: Vec<Entity>)
        requires
            self.wf(),
        ensures
            forall|i: int, j: int| 0 <= i < j < r@.len() ==> (#[trigger] r@[i]).spec_id() < (#[trigger] r@[j]).spec_id(),
            forall|i: int| 0 <= i < r@.len() ==> self.alive().contains((#[trigger] r@[i]).spec_id()) && r@[i].spec_gen()
                == self.generations()[r@[i].spec_id() as int],
            forall|x: usize| #[trigger] self.alive().contains(x) ==> exists|i: int| 0 <= i < r@.len() && (#[trigger] r@[i]).spec_id() == x,
    {
        let mut r: Vec<Entity> = Vec::new();
        let n = self.generations.len();
        let mut id: usize = 0;
        while id < n
            invariant
                n == self.generations@.len(),
                id <= n,
                forall|i: int, j: int| 0 <= i < j < r@.len() ==> (#[trigger] r@[i]).spec_id() < (#[trigger] r@[j]).spec_id(),
                forall|i: int| 0 <= i < r@.len() ==> (#[trigger] r@[i]).spec_id() < id,
                forall|i: int| 0 <= i < r@.len() ==> self.alive().contains((#[trigger] r@[i]).spec_id()) && r@[i].spec_gen()
                    == self.generations()[r@[i].spec_id() as int],
                forall|x: usize| x < id && #[trigger] self.alive().contains(x) ==> exists|i: int| 0 <= i < r@.len() && (#[trigger] r@[i]).spec_id() == x,
            decreases n - id,
        {
            let ghost before = r@;
            match self.hydrate(id) {
                Some(e) => {
                    r.push(e);
                },
                None => {},
            }
            proof {
                assert forall|x: usize| x < id + 1 && #[trigger] self.alive().contains(x) implies exists|i: int|
                    0 <= i < r@.len() && (#[trigger] r@[i]).spec_id() == x by {
                    if x == id {
                        assert(r@[r@.len() - 1].spec_id() == x);
                    } else {
                        let i = choose|i: int| 0 <= i < before.len() && (#[trigger] before[i]).spec_id() == x;
                        assert(r@[i] == before[i]);
                    }
                }
            }
            id += 1;
        }
        r
    }

    /// Hydrate the entity and make the change that adds the bundle to it;
    /// `None` when the id is not in use.
    pub fn insert_bundle<V>(&self, entity_id: usize, bundle: AnyBundle<V>) -> (op: Option<LazyOp<V>>)
        ensures
            self.alive().contains(entity_id) ==> op == Some(LazyOp::InsertBundle { entity: entity_id, bundle }),
            !self.alive().contains(entity_id) ==> op is None,
    {
        match self.hydrate(entity_id) {
            Some(entity) => Some(entity.insert_bundle(bundle)),
            None => None,
        }
    }

    /// Hydrate the entity and make the change that adds the component to
    /// it; `None` when the id is not in use.
    pub fn insert_component<V>(&self, entity_id: usize, ty: u64, component: V) -> (op: Option<LazyOp<V>>)
        ensures
            self.alive().contains(entity_id) ==> op == Some(LazyOp::InsertComponent { entity: entity_id, ty, component }),
            !self.alive().contains(entity_id) ==> op is None,
    {
        match self.hydrate(entity_id) {
            Some(entity) => Some(entity.insert_component(ty, component)),
            None => None,
        }
    }

    /// Hydrate the entity and make the change that removes its component of
    /// type `ty`; `None` when the id is not in use.
    pub fn remove_component<V>(&self, entity_id: usize, ty: u64) -> (op: Option<LazyOp<V>>)
        ensures
            self.alive().contains(entity_id) ==> op == Some(LazyOp::<V>::RemoveComponent { entity: entity_id, ty }),
            !self.alive().contains(entity_id) ==> op is None,
    {
        match self.hydrate(entity_id) {
            Some(entity) => Some(entity.remove_component(ty)),
            None => None,
        }
    }
    /// Free the destroyed ids that are in use, remove the components of
    /// every destroyed id, and log the freed ids with their component types
    /// as a batch stamped with `iteration`, keeping the newest batches.
    /// Nothing changes when no id was destroyed.
    pub fn upkeep<V>(&mut self, components: &mut AllArchetypes<V>, iteration: u64)
        requires
            old(self).wf(),
            old(components).wf(),
        ensures
            final(self).wf(),
            final(components).wf(),
            final(components)@ == old(components)@.remove_keys(old(self).dead().to_set()),
            final(self).generations() == old(self).generations(),
            final(self).dead() == Seq::<usize>::empty(),
            old(self).dead().len() == 0 ==> final(self).recycled() == old(self).recycled() && final(self).deleted() == old(self).deleted(),
            old(self).dead().len() > 0 ==> {
                let freed = fresh_dead(old(self).dead(), old(self).alive());
                let batch = final(self).deleted()[0];
                &&& final(self).recycled() == old(self).recycled() + freed
                &&& final(self).deleted().len() == if old(self).deleted().len() < DELETED_BATCHES {
                    (old(self).deleted().len() + 1) as nat
                } else {
                    DELETED_BATCHES as nat
                }
                &&& forall|i: int| 1 <= i < final(self).deleted().len() ==> #[trigger] final(self).deleted()[i] == old(self).deleted()[i - 1]
                &&& batch.0 == iteration
                &&& batch.1.len() == freed.len()
                &&& forall|i: int| 0 <= i < freed.len() ==> {
                    &&& (#[trigger] batch.1[i]).0 == freed[i]
                    &&& crate::bundle::strictly_ascending(batch.1[i].1)
                    &&& batch.1[i].1.to_set() == components_of(old(components)@, freed[i]).dom()
                }
            },
    {
        let ghost pre = *self;
        let ghost comps0 = components@;
        let mut dead: Vec<usize> = Vec::new();
        std::mem::swap(&mut dead, &mut self.dead);
        let ghost ds = dead@;
        if dead.len() == 0 {
            proof {
                assert(ds.to_set() =~= Set::<usize>::empty());
                assert(comps0.remove_keys(ds.to_set()) =~= comps0);
            }
            return;
        }
        let mut batch: Vec<(usize, TypeList)> = Vec::new();
        let n = dead.len();
        let mut k: usize = 0;
        while k < n
            invariant
                self.wf(),
                components.wf(),
                components@ == comps0,
                n == ds.len(),
                dead@ == ds,
                k <= n,
                self.generations@ == pre.generations@,
                self.next_k == pre.next_k,
                self.dead@ == Seq::<usize>::empty(),
                self.deleted == pre.deleted,
                self.recycle@ == pre.recycle@ + fresh_dead(ds.take(k as int), pre.alive()),
                batch@.len() == fresh_dead(ds.take(k as int), pre.alive()).len(),
                forall|i: int| 0 <= i < batch@.len() ==> {
                    &&& (#[trigger] batch@[i]).0 == fresh_dead(ds.take(k as int), pre.alive())[i]
                    &&& crate::bundle::strictly_ascending(type_list_items(batch@[i].1))
                    &&& type_list_items(batch@[i].1).to_set() == components_of(comps0, batch@[i].0).dom()
                },
            decreases n - k,
        {
            let x = dead[k];
            let ghost f = fresh_dead(ds.take(k as int), pre.alive());
            proof {
                assert(ds.take(k + 1).drop_last() =~= ds.take(k as int));
                assert(ds.take(k + 1).last() == x);
            }
            if self.hydrate(x).is_some() {
                proof {
                    assert(!self.recycle@.contains(x));
                    assert(pre.alive().contains(x) && !f.contains(x)) by {
                        if f.contains(x) {
                            let j = f.index_of(x);
                            assert(self.recycle@[pre.recycle@.len() + j] == x);
                        }
                        if pre.recycle@.contains(x) {
                            let j = pre.recycle@.index_of(x);
                            assert(self.recycle@[j] == x);
                        }
                    }
                }
                let types = components.entity_types(x);
                let ghost old_r = self.recycle@;
                let ghost old_b = batch@;
                self.recycle.push(x);
                batch.push((x, types));
                proof {
                    assert(self.recycle@ =~= pre.recycle@ + f.push(x));
                    assert(self.recycle@.no_duplicates()) by {
                        assert forall|i: int, j: int| 0 <= i < j < self.recycle@.len() implies self.recycle@[i] != self.recycle@[j] by {
                            if j == self.recycle@.len() - 1 {
                                assert(self.recycle@[i] == old_r[i]);
                                assert(old_r[i] != x);
                            } else {
                                assert(self.recycle@[i] == old_r[i] && self.recycle@[j] == old_r[j]);
                            }
                        }
                    }
                    assert forall|i: int| 0 <= i < batch@.len() implies {
                        &&& (#[trigger] batch@[i]).0 == fresh_dead(ds.take(k + 1), pre.alive())[i]
                        &&& crate::bundle::strictly_ascending(type_list_items(batch@[i].1))
                        &&& type_list_items(batch@[i].1).to_set() == components_of(comps0, batch@[i].0).dom()
                    } by {
                        if i < old_b.len() {
                            assert(batch@[i] == old_b[i]);
                        }
                    }
                }
            } else {
                proof {
                    assert(!(pre.alive().contains(x) && !f.contains(x))) by {
                        if pre.alive().contains(x) && !f.contains(x) {
                            assert(!self.recycle@.contains(x)) by {
                                if self.recycle@.contains(x) {
                                    let j = self.recycle@.index_of(x);
                                    if j < pre.recycle@.len() {
                                        assert(pre.recycle@[j] == x);
                                    } else {
                                        assert(f[j - pre.recycle@.len()] == x);
                                    }
                                }
                            }
                        }
                    }
                }
            }
            k += 1;
        }
        components.upkeep(dead.as_slice());
        self.deleted.push_front((iteration, batch));
        let ghost d1 = self.deleted@;
        let ghost mid = *self;
        while self.deleted.len() > DELETED_BATCHES
            invariant
                self.generations == mid.generations,
                self.recycle == mid.recycle,
                self.dead == mid.dead,
                self.next_k == mid.next_k,
                self.deleted@.len() >= 1,
                self.deleted@.len() <= d1.len(),
                self.deleted@ == d1.subrange(0, self.deleted@.len() as int),
                self.deleted@.len() >= DELETED_BATCHES || self.deleted@.len() == d1.len(),
            decreases self.deleted@.len(),
        {
            let _ = self.deleted.pop_back();
        }
        proof {
            assert(ds.take(n as int) =~= ds);
            assert(d1 =~= seq![(iteration, batch)] + pre.deleted@);
        }
    }
    /// Whether a type list holds the type.
    fn list_contains(types: &TypeList, ty: u64) -> (b: bool)
        ensures
            b == type_list_items(*types).contains(ty),
    {
        let n = types.len();
        let mut i: usize = 0;
        while i < n
            invariant
                n == type_list_items(*types).len(),
                i <= n,
                forall|j: int| 0 <= j < i ==> type_list_items(*types)[j] != ty,
            decreases n - i,
        {
            if types.get(i) == ty {
                return true;
            }
            i += 1;
        }
        false
    }

    /// The deleted entities of the log listed for `ty`, as entries.
    fn deleted_entries_of(&self, ty: Option<u64>) -> (r: Vec<Entry<()>>)
        ensures
            r@ == deleted_entries(self.deleted(), ty),
    {
        let ghost log = self.deleted();
        let mut r: Vec<Entry<()>> = Vec::new();
        let nb = self.deleted.len();
        let mut b: usize = 0;
        while b < nb
            invariant
                log == self.deleted(),
                nb == log.len(),
                b <= nb,
                r@ == deleted_entries(log.take(b as int), ty),
            decreases nb - b,
        {
            let batch = &self.deleted[b];
            let changed = batch.0;
            let ids = &batch.1;
            let ghost bv = log[b as int];
            proof {
                assert(bv.1 == ids@.map_values(|it: (usize, TypeList)| (it.0, type_list_items(it.1))));
            }
            let ghost prefix = r@;
            let m = ids.len();
            let mut j: usize = 0;
            while j < m
                invariant
                    m == ids@.len(),
                    bv.1 == ids@.map_values(|it: (usize, TypeList)| (it.0, type_list_items(it.1))),
                    bv.0 == changed,
                    j <= m,
                    r@ == prefix + batch_entries(changed, bv.1.take(j as int), ty),
                decreases m - j,
            {
                let (id, types) = (ids[j].0, &ids[j].1);
                let keep = match ty {
                    Some(t) => Self::list_contains(types, t),
                    None => true,
                };
                proof {
                    assert(bv.1.take(j + 1).drop_last() =~= bv.1.take(j as int));
                    assert(bv.1.take(j + 1).last() == (id, type_list_items(*types)));
                }
                if keep {
                    r.push(Entry { value: (), key: id, changed, added: true });
                }
                j += 1;
            }
            proof {
                assert(bv.1.take(m as int) =~= bv.1);
                assert(log.take(b + 1).drop_last() =~= log.take(b as int));
                assert(log.take(b + 1).last() == bv);
            }
            b += 1;
        }
        proof {
            assert(log.take(nb as int) =~= log);
        }
        r
    }

    /// The entities of the recent batches of deleted entities, newest batch
    /// first, as entries stamped with their batch's iteration.
    pub fn deleted_iter(&self) -> (r: Vec<Entry<()>>)
        ensures
            r@ == deleted_entries(self.deleted(), None),
    {
        self.deleted_entries_of(None)
    }

    /// The entities of the recent batches of deleted entities that had a
    /// component of type `ty`, newest batch first, as entries stamped with
    /// their batch's iteration.
    pub fn deleted_iter_of(&self, ty: u64) -> (r: Vec<Entry<()>>)
        ensures
            r@ == deleted_entries(self.deleted(), Some(ty)),
    {
        self.deleted_entries_of(Some(ty))
    }
}

impl Default for Entities {
    fn default() -> (s: Self)
        ensures
            s.wf(),
            s.generations() == Seq::<usize>::empty(),
            s.recycled() == Seq::<usize>::empty(),
            s.dead() == Seq::<usize>::empty(),
            s.deleted() == Seq::<(u64, Seq<(usize, Seq<u64>)>)>::empty(),
    {
        Entities::new()
    }
}

} // verus!
