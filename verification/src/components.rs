//! All archetypes: the component storage of the world.
use vstd::prelude::*;

use crate::archetype::{swap_removed, Archetype};
use crate::bundle::{
    bundle_view, lemma_bundle_positions, lemma_bundle_view_update, lemma_index_of_ascending,
    strictly_ascending, AnyBundle,
};
use crate::entry::Entry;
use crate::query::{
    column_position, column_type, column_writes, components_match, lemma_row_components, lock_columns, writes_distinct,
    writes_type, QueryColumn,
};
use crate::type_list::{type_list_items, TypeList};

verus! {

/// The number of entity rows held by the archetypes.
pub open spec fn row_count<V>(s: Seq<Archetype<V>>) -> nat
    decreases s.len(),
{
    if s.len() == 0 {
        0
    } else {
        row_count(s.drop_last()) + s.last().ids().len()
    }
}

proof fn lemma_row_count_update<V>(s: Seq<Archetype<V>>, a: int, x: Archetype<V>)
    requires
        0 <= a < s.len(),
    ensures
        row_count(s.update(a, x)) == row_count(s) - s[a].ids().len() + x.ids().len(),
    decreases s.len(),
{
    if a == s.len() - 1 {
        assert(s.update(a, x).drop_last() =~= s.drop_last());
    } else {
        lemma_row_count_update(s.drop_last(), a, x);
        assert(s.update(a, x).drop_last() =~= s.drop_last().update(a, x));
    }
}

proof fn lemma_row_count_push<V>(s: Seq<Archetype<V>>, x: Archetype<V>)
    ensures
        row_count(s.push(x)) == row_count(s) + x.ids().len(),
{
    assert(s.push(x).drop_last() =~= s);
}

proof fn lemma_row_count_swap_remove<V>(s: Seq<Archetype<V>>, a: int)
    requires
        0 <= a < s.len(),
    ensures
        row_count(swap_removed(s, a)) == row_count(s) - s[a].ids().len(),
{
    let t = s.update(a, s.last());
    lemma_row_count_update(s, a, s.last());
}

/// The ids below `n`.
pub(crate) open spec fn ids_below(n: int) -> Set<usize> {
    Set::new(|x: usize| x < n)
}

pub(crate) proof fn lemma_ids_below(n: int)
    requires
        0 <= n <= usize::MAX + 1,
    ensures
        ids_below(n).finite(),
        ids_below(n).len() == n,
    decreases n,
{
    if n == 0 {
        assert(ids_below(0) =~= Set::<usize>::empty());
    } else {
        lemma_ids_below(n - 1);
        assert(ids_below(n) =~= ids_below(n - 1).insert((n - 1) as usize));
    }
}

proof fn lemma_row_count_take<V>(s: Seq<Archetype<V>>, k: int)
    requires
        0 <= k <= s.len(),
    ensures
        row_count(s.take(k)) <= row_count(s),
        k < s.len() ==> row_count(s.take(k + 1)) == row_count(s.take(k)) + s[k].ids().len(),
    decreases s.len() - k,
{
    if k < s.len() {
        assert(s.take(k + 1).drop_last() =~= s.take(k));
        lemma_row_count_take(s, k + 1);
    } else {
        assert(s.take(k) =~= s);
    }
}

proof fn lemma_row_count_zero<V>(s: Seq<Archetype<V>>)
    requires
        forall|i: int| 0 <= i < s.len() ==> (#[trigger] s[i]).ids().len() == 0,
    ensures
        row_count(s) == 0,
    decreases s.len(),
{
    if s.len() > 0 {
        lemma_row_count_zero(s.drop_last());
    }
}

/// The columns of component type `ty` in the archetypes that have it, in
/// archetype order.
pub open spec fn type_columns<V>(archs: Seq<Archetype<V>>, ty: u64) -> Seq<Seq<Entry<V>>>
    decreases archs.len(),
{
    if archs.len() == 0 {
        Seq::empty()
    } else {
        let rest = type_columns(archs.drop_last(), ty);
        if archs.last().types().contains(ty) {
            rest.push(archs.last().column(archs.last().types().index_of(ty)))
        } else {
            rest
        }
    }
}

/// The entity ids of bulk columns: those of the first column's entries.
pub open spec fn extension_ids<V>(columns: Seq<Vec<Entry<V>>>) -> Seq<usize> {
    Seq::new(columns[0]@.len(), |r: int| columns[0]@[r].key)
}

/// The components of row `r` of bulk columns, by type: the entry at row
/// `r` of the column at each type's position.
pub open spec fn extension_row<V>(types: Seq<u64>, columns: Seq<Vec<Entry<V>>>, r: int) -> Map<u64, Entry<V>> {
    Map::new(|t: u64| types.contains(t), |t: u64| columns[types.index_of(t)]@[r])
}

/// The entities of the first `n` rows of bulk columns, with their
/// components.
pub open spec fn extension_rows<V>(types: Seq<u64>, columns: Seq<Vec<Entry<V>>>, n: int) -> Map<usize, Map<u64, Entry<V>>> {
    Map::new(
        |e: usize| extension_ids(columns).take(n).contains(e),
        |e: usize| extension_row(types, columns, extension_ids(columns).index_of(e)),
    )
}

/// Bulk columns that can be added to a storage: one column per type, the
/// types distinct, the columns of equal length, each row's entries
/// carrying one id, and the ids distinct and below `usize::MAX`.
pub open spec fn extension_ok<V>(types: Seq<u64>, columns: Seq<Vec<Entry<V>>>) -> bool {
    &&& types.no_duplicates()
    &&& 1 <= types.len()
    &&& types.len() == columns.len()
    &&& forall|c: int| 0 <= c < columns.len() ==> (#[trigger] columns[c])@.len() == columns[0]@.len()
    &&& forall|c: int, r: int|
        0 <= c < columns.len() && 0 <= r < columns[0]@.len() ==> (#[trigger] columns[c]@[r]).key == columns[0]@[r].key
    &&& extension_ids(columns).no_duplicates()
    &&& forall|r: int| 0 <= r < columns[0]@.len() ==> #[trigger] extension_ids(columns)[r] < usize::MAX
}

/// The vector in reverse order.
fn reversed<T>(v: Vec<T>) -> (r: Vec<T>)
    ensures
        r@.len() == v@.len(),
        forall|j: int| 0 <= j < v@.len() ==> #[trigger] r@[j] == v@[v@.len() - 1 - j],
{
    let ghost vs = v@;
    let mut v = v;
    let mut r: Vec<T> = Vec::new();
    while v.len() > 0
        invariant
            v@ == vs.take(v@.len() as int),
            r@.len() + v@.len() == vs.len(),
            forall|j: int| 0 <= j < r@.len() ==> #[trigger] r@[j] == vs[vs.len() - 1 - j],
        decreases v@.len(),
    {
        let x = v.pop().unwrap();
        r.push(x);
        proof {
            assert(v@ =~= vs.take(v@.len() as int));
        }
    }
    r
}

/// The entries of a bundle of components newly added to entity `id` at
/// `iteration`.
pub open spec fn added_entries<V>(id: usize, b: Map<u64, V>, iteration: u64) -> Map<u64, Entry<V>> {
    b.map_values(|v: V| Entry::spec_new(id, v, iteration))
}

/// The components of entity `e` in a view of the storage, none if it has no
/// row.
pub open spec fn components_of<V>(m: Map<usize, Map<u64, Entry<V>>>, e: usize) -> Map<u64, Entry<V>> {
    if m.contains_key(e) {
        m[e]
    } else {
        Map::empty()
    }
}

/// The storage after `insert_component`: an existing component of the type
/// is overwritten and marked as modified, otherwise the component is added.
pub open spec fn with_component<V>(m: Map<usize, Map<u64, Entry<V>>>, e: usize, ty: u64, v: V, iteration: u64) -> Map<
    usize,
    Map<u64, Entry<V>>,
> {
    if components_of(m, e).contains_key(ty) {
        m.insert(e, m[e].insert(ty, m[e][ty].spec_written(v, iteration)))
    } else {
        m.insert(e, components_of(m, e).insert(ty, Entry::spec_new(e, v, iteration)))
    }
}

/// The archetype layout after entity `e` gets a row with component types
/// `types`: the row goes last in the first archetype of those types, or in a
/// new archetype added at the end when there is none.
pub open spec fn layout_after_append(layout: Seq<(Seq<u64>, Seq<usize>)>, types: Seq<u64>, e: usize) -> Seq<(Seq<u64>, Seq<usize>)> {
    if exists|a: int| 0 <= a < layout.len() && (#[trigger] layout[a]).0 == types {
        let a = choose|a: int|
            0 <= a < layout.len() && (#[trigger] layout[a]).0 == types && forall|b: int| 0 <= b < a ==> (#[trigger] layout[b]).0 != types;
        layout.update(a, (types, layout[a].1.push(e)))
    } else {
        layout.push((types, seq![e]))
    }
}

/// The archetype layout after row `i` of archetype `a` is removed: the last
/// row of the archetype takes its place.
pub open spec fn layout_after_removal(layout: Seq<(Seq<u64>, Seq<usize>)>, a: int, i: int) -> Seq<(Seq<u64>, Seq<usize>)> {
    layout.update(a, (layout[a].0, swap_removed(layout[a].1, i)))
}

/// Whether row `i` of archetype `a` of the layout is entity `e`'s.
pub open spec fn holds_row(layout: Seq<(Seq<u64>, Seq<usize>)>, e: usize, a: int, i: int) -> bool {
    0 <= a < layout.len() && 0 <= i < layout[a].1.len() && layout[a].1[i] == e
}

/// The layout after upkeep drops entity `e`: its row is swap-removed, and
/// its archetype too, by a swap, when that leaves the archetype empty. An
/// entity without a row changes nothing.
pub open spec fn layout_after_drop(layout: Seq<(Seq<u64>, Seq<usize>)>, e: usize) -> Seq<(Seq<u64>, Seq<usize>)> {
    if exists|a: int, i: int| #[trigger] holds_row(layout, e, a, i) {
        let (a, i) = choose|a: int, i: int| #[trigger] holds_row(layout, e, a, i);
        let l = layout_after_removal(layout, a, i);
        if l[a].1.len() == 0 {
            swap_removed(l, a)
        } else {
            l
        }
    } else {
        layout
    }
}

/// The layout after upkeep drops the entities of `dead`, in order.
pub open spec fn layout_after_upkeep(layout: Seq<(Seq<u64>, Seq<usize>)>, dead: Seq<usize>) -> Seq<(Seq<u64>, Seq<usize>)>
    decreases dead.len(),
{
    if dead.len() == 0 {
        layout
    } else {
        layout_after_drop(layout_after_upkeep(layout, dead.drop_last()), dead.last())
    }
}

/// Whether every archetype of `after` that holds no entity is one of
/// `before`, unchanged: no archetype that an operation emptied is left.
pub open spec fn no_newly_empty<V>(before: Seq<Archetype<V>>, after: Seq<Archetype<V>>) -> bool {
    forall|j: int|
        0 <= j < after.len() && (#[trigger] after[j]).ids().len() == 0 ==> exists|b: int| 0 <= b < before.len() && before[b] == after[j]
}

/// The component storage: entities grouped into archetypes by the types of
/// their components, and a lookup from entity id to archetype and row.
pub struct AllArchetypes<V> {
    archetypes: Vec<Archetype<V>>,
    /// For each entity id, its archetype index and row, if it has a row.
    entity_lookup: Vec<Option<(usize, usize)>>,
}

/// The component storage of the world.
pub type Components<V> = AllArchetypes<V>;

impl<V> View for AllArchetypes<V> {
    type V = Map<usize, Map<u64, Entry<V>>>;

    /// Each stored entity's components, by type.
    closed spec fn view(&self) -> Map<usize, Map<u64, Entry<V>>> {
        Map::new(
            |e: usize| self.lookup(e as int) is Some,
            |e: usize|
                {
                    let p = self.lookup(e as int)->Some_0;
                    self.archetypes@[p.0 as int].row(p.1 as int)
                },
        )
    }
}

impl<V> AllArchetypes<V> {
    /// The archetype index and row of an entity, if it has a row.
    pub closed spec fn lookup(&self, e: int) -> Option<(usize, usize)> {
        if 0 <= e < self.entity_lookup@.len() {
            self.entity_lookup@[e]
        } else {
            None
        }
    }

    /// The archetypes, in order.
    pub closed spec fn archs(&self) -> Seq<Archetype<V>> {
        self.archetypes@
    }

    /// Each archetype's component types and the entity id of each of its
    /// rows, in order.
    pub open spec fn layout(&self) -> Seq<(Seq<u64>, Seq<usize>)> {
        self.archs().map_values(|a: Archetype<V>| (a.types(), a.ids()))
    }

    spec fn lookup_ok(&self, e: int) -> bool {
        let p = self.entity_lookup@[e]->Some_0;
        &&& p.0 < self.archetypes@.len()
        &&& p.1 < self.archetypes@[p.0 as int].ids().len()
        &&& self.archetypes@[p.0 as int].ids()[p.1 as int] == e
    }

    /// Every archetype is well formed, the lookup and the archetypes' rows
    /// agree in both directions, and the rows are counted by the view.
    pub closed spec fn wf(&self) -> bool {
        &&& forall|a: int| 0 <= a < self.archetypes@.len() ==> (#[trigger] self.archetypes@[a]).wf()
        &&& forall|e: int|
            0 <= e < self.entity_lookup@.len() && (#[trigger] self.entity_lookup@[e]) is Some ==> self.lookup_ok(e)
        &&& forall|a: int, i: int|
            0 <= a < self.archetypes@.len() && 0 <= i < self.archetypes@[a].ids().len() ==> {
                &&& (#[trigger] self.archetypes@[a].ids()[i]) < self.entity_lookup@.len()
                &&& self.entity_lookup@[self.archetypes@[a].ids()[i] as int] is Some
                &&& self.entity_lookup@[self.archetypes@[a].ids()[i] as int]->Some_0.0 == a
                &&& self.entity_lookup@[self.archetypes@[a].ids()[i] as int]->Some_0.1 == i
            }
        &&& self@.dom().finite()
        &&& row_count(self.archetypes@) == self@.dom().len()
    }

    /// After row `i` of archetype `a` is removed, with every other archetype
    /// unchanged, the layout is `layout_after_removal`.
    proof fn lemma_layout_removal(pre: Self, post: Self, a: int, i: int)
        requires
            0 <= a < pre.archs().len(),
            post.archs().len() == pre.archs().len(),
            post.archs()[a].types() == pre.archs()[a].types(),
            post.archs()[a].ids() == swap_removed(pre.archs()[a].ids(), i),
            forall|k: int| 0 <= k < pre.archs().len() && k != a ==> #[trigger] post.archs()[k] == pre.archs()[k],
        ensures
            post.layout() == layout_after_removal(pre.layout(), a, i),
    {
        assert(post.layout() =~= layout_after_removal(pre.layout(), a, i));
    }

    /// An empty storage.
    pub fn new() -> (s: Self)
        ensures
            s.wf(),
            s@ == Map::<usize, Map<u64, Entry<V>>>::empty(),
            s.archs().len() == 0,
    {
        let s = AllArchetypes { archetypes: Vec::new(), entity_lookup: Vec::new() };
        assert(s@ =~= Map::<usize, Map<u64, Entry<V>>>::empty());
        s
    }

    /// An entity with a row is in the view, with the components of its row.
    pub proof fn lemma_lookup(&self, e: int)
        requires
            self.wf(),
            self.lookup(e) is Some,
        ensures
            ({
                let p = self.lookup(e)->Some_0;
                &&& p.0 < self.archs().len()
                &&& p.1 < self.archs()[p.0 as int].ids().len()
                &&& self.archs()[p.0 as int].ids()[p.1 as int] == e
                &&& self.archs()[p.0 as int].wf()
                &&& self@.contains_key(e as usize)
                &&& self@[e as usize] == self.archs()[p.0 as int].row(p.1 as int)
            }),
    {
        assert(self.lookup_ok(e));
        let p = self.lookup(e)->Some_0;
        assert(self.archetypes@[p.0 as int].wf());
    }

    /// An entity's row in the layout is the one its lookup names, and it
    /// has none without a lookup.
    proof fn lemma_holds_row(&self, e: usize)
        requires
            self.wf(),
        ensures
            self.lookup(e as int) matches Some((a, i)) ==> {
                &&& holds_row(self.layout(), e, a as int, i as int)
                &&& forall|b: int, j: int| #[trigger] holds_row(self.layout(), e, b, j) ==> b == a && j == i
            },
            self.lookup(e as int) is None ==> !exists|b: int, j: int| #[trigger] holds_row(self.layout(), e, b, j),
    {
        if let Some((a, i)) = self.lookup(e as int) {
            self.lemma_lookup(e as int);
            assert forall|b: int, j: int| #[trigger] holds_row(self.layout(), e, b, j) implies b == a && j == i by {
                assert(self.layout()[b].1 == self.archetypes@[b].ids());
                if b != a || j != i {
                    self.lemma_rows_distinct(a as int, i as int, b, j);
                }
            }
            assert(self.layout()[a as int].1 == self.archetypes@[a as int].ids());
        } else {
            if exists|b: int, j: int| #[trigger] holds_row(self.layout(), e, b, j) {
                let (b, j) = choose|b: int, j: int| #[trigger] holds_row(self.layout(), e, b, j);
                assert(self.layout()[b].1 == self.archetypes@[b].ids());
                assert(self.archetypes@[b].ids()[j] == e);
            }
        }
    }

    proof fn lemma_rows_distinct(&self, a: int, i: int, b: int, j: int)
        requires
            self.wf(),
            0 <= a < self.archetypes@.len(),
            0 <= i < self.archetypes@[a].ids().len(),
            0 <= b < self.archetypes@.len(),
            0 <= j < self.archetypes@[b].ids().len(),
            a != b || i != j,
        ensures
            self.archetypes@[a].ids()[i] != self.archetypes@[b].ids()[j],
    {
        let x = self.archetypes@[a].ids()[i];
        let y = self.archetypes@[b].ids()[j];
        assert(self.entity_lookup@[x as int]->Some_0.0 == a && self.entity_lookup@[x as int]->Some_0.1 == i);
        assert(self.entity_lookup@[y as int]->Some_0.0 == b && self.entity_lookup@[y as int]->Some_0.1 == j);
    }

    /// Whether `post` differs from `pre` only in the entries of row `i` of
    /// archetype `a`, that archetype staying well formed.
    spec fn row_only_changed(pre: Self, post: Self, a: int, i: int) -> bool {
        &&& post.entity_lookup == pre.entity_lookup
        &&& post.archetypes@.len() == pre.archetypes@.len()
        &&& forall|k: int| 0 <= k < pre.archetypes@.len() && k != a ==> #[trigger] post.archetypes@[k] == pre.archetypes@[k]
        &&& post.archetypes@[a].wf()
        &&& post.archetypes@[a].ids() == pre.archetypes@[a].ids()
        &&& post.archetypes@[a].types() == pre.archetypes@[a].types()
        &&& forall|j: int| 0 <= j < pre.archetypes@[a].ids().len() && j != i ==> #[trigger] post.archetypes@[a].row_entries(j)
            == pre.archetypes@[a].row_entries(j)
    }

    /// Every storage that differs from `pre` only in one row's entries is
    /// well formed, with the same layout, and its view differs only in that
    /// row's entity.
    proof fn lemma_row_changed_any(pre: Self, a: int, i: int)
        requires
            pre.wf(),
            0 <= a < pre.archetypes@.len(),
            0 <= i < pre.archetypes@[a].ids().len(),
        ensures
            forall|post: Self|
                #![trigger post.wf()]
                Self::row_only_changed(pre, post, a, i) ==> {
                    &&& post.wf()
                    &&& post@ == pre@.insert(pre.archetypes@[a].ids()[i], post.archetypes@[a].row(i))
                    &&& post.layout() == pre.layout()
                },
    {
        assert forall|post: Self| #![trigger post.wf()] Self::row_only_changed(pre, post, a, i) implies {
            &&& post.wf()
            &&& post@ == pre@.insert(pre.archetypes@[a].ids()[i], post.archetypes@[a].row(i))
            &&& post.layout() == pre.layout()
        } by {
            Self::lemma_row_changed(pre, post, a, i);
            assert(post.layout() =~= pre.layout());
        }
    }

    /// Remove the row of entity `e`, which is row `i` of archetype `a`, and
    /// return its entries as a bundle.
    fn remove_any_entry_bundle(&mut self, e: usize, a: usize, i: usize) -> (b: AnyBundle<Entry<V>>)
        requires
            old(self).wf(),
            old(self).lookup(e as int) == Some((a, i)),
        ensures
            final(self).wf(),
            final(self)@ == old(self)@.remove(e),
            old(self)@.contains_key(e),
            b.wf(),
            b@ == old(self)@[e],
            type_list_items(b.0) == old(self).archs()[a as int].types(),
            forall|c: int| 0 <= c < b.1@.len() ==> (#[trigger] b.1@[c]).key == e,
            final(self).archs().len() == old(self).archs().len(),
            final(self).archs()[a as int].types() == old(self).archs()[a as int].types(),
            final(self).archs()[a as int].ids() == swap_removed(old(self).archs()[a as int].ids(), i as int),
            forall|k: int| 0 <= k < old(self).archs().len() && k != a ==> #[trigger] final(self).archs()[k] == old(self).archs()[k],
            final(self).entity_lookup@.len() == old(self).entity_lookup@.len(),
    {
        proof {
            self.lemma_lookup(e as int);
        }
        let ghost pre = *self;
        let mut arch = Archetype::empty(TypeList::new());
        std::mem::swap(&mut arch, &mut self.archetypes[a]);
        let ghost old_arch = arch;
        let ghost mid = self.archetypes@;
        assert(old_arch == pre.archetypes@[a as int]);
        assert(forall|k: int| 0 <= k < mid.len() && k != a ==> mid[k] == pre.archetypes@[k]);
        assert(mid.len() == pre.archetypes@.len());
        let last = arch.len() - 1;
        let entries = arch.swap_remove_row(i);
        let ghost moved: usize = old_arch.ids()[last as int];
        if i != last {
            let m = arch.id_at(i);
            proof {
                assert(m == moved);
                assert(pre.entity_lookup@[m as int]->Some_0.0 == a);
            }
            self.entity_lookup.set(m, Some((a, i)));
        }
        self.entity_lookup.set(e, None);
        let types = arch.type_list().duplicate();
        let ghost fin = arch;
        std::mem::swap(&mut arch, &mut self.archetypes[a]);
        let b = AnyBundle(types, entries);
        assert(self.archetypes@ == mid.update(a as int, fin));
        proof {
            let arch = fin;
            assert(self.archetypes@ =~= pre.archetypes@.update(a as int, arch));
            assert(arch.wf());
            old_arch.lemma_row(i as int);
            assert(b.1@ == old_arch.row_entries(i as int));
            assert(type_list_items(b.0) == old_arch.types());
            // the lookup of every other entity is unchanged, but for the moved one
            assert forall|x: int| 0 <= x < self.entity_lookup@.len() && x != e && (i == last || x != moved) implies #[trigger] self.entity_lookup@[x] == pre.entity_lookup@[x] by {
            }
            assert forall|x: int|
                0 <= x < self.entity_lookup@.len() && (#[trigger] self.entity_lookup@[x]) is Some implies self.lookup_ok(x) by {
                if i != last && x == moved {
                } else {
                    assert(x != e);
                    assert(pre.lookup_ok(x));
                    let p = pre.entity_lookup@[x]->Some_0;
                    if p.0 == a {
                        assert(p.1 != i);
                        assert(p.1 != last);
                    }
                }
            }
            assert forall|k: int, j: int|
                0 <= k < self.archetypes@.len() && 0 <= j < self.archetypes@[k].ids().len() implies {
                    &&& (#[trigger] self.archetypes@[k].ids()[j]) < self.entity_lookup@.len()
                    &&& self.entity_lookup@[self.archetypes@[k].ids()[j] as int] is Some
                    &&& self.entity_lookup@[self.archetypes@[k].ids()[j] as int]->Some_0.0 == k
                    &&& self.entity_lookup@[self.archetypes@[k].ids()[j] as int]->Some_0.1 == j
                } by {
                if k != a {
                    assert(self.archetypes@[k] == pre.archetypes@[k]);
                    pre.lemma_rows_distinct(k, j, a as int, i as int);
                    pre.lemma_rows_distinct(k, j, a as int, last as int);
                } else if j == i {
                    assert(self.archetypes@[k].ids()[j] == moved);
                } else {
                    assert(self.archetypes@[k].ids()[j] == pre.archetypes@[k].ids()[j]);
                    pre.lemma_rows_distinct(k, j, a as int, i as int);
                    pre.lemma_rows_distinct(k, j, a as int, last as int);
                }
            }
            assert(self@ =~= pre@.remove(e)) by {
                assert forall|x: usize| #[trigger] self@.contains_key(x) <==> pre@.remove(e).contains_key(x) by {
                    if x != e && (i == last || x != moved) {
                        assert(self.lookup(x as int) == pre.lookup(x as int));
                    }
                    if i != last && x == moved {
                        assert(pre.lookup(x as int) == Some((a, last)));
                    }
                }
                assert forall|x: usize| #[trigger] self@.contains_key(x) implies self@[x] == pre@.remove(e)[x] by {
                    if i != last && x == moved {
                        assert(self.lookup(x as int) == Some((a, i)));
                        assert(arch.row_entries(i as int) == old_arch.row_entries(last as int));
                        pre.lemma_lookup(x as int);
                    } else {
                        assert(self.lookup(x as int) == pre.lookup(x as int));
                        pre.lemma_lookup(x as int);
                        let p = pre.lookup(x as int)->Some_0;
                        if p.0 == a {
                            assert(p.1 != i && p.1 != last);
                            assert(arch.row_entries(p.1 as int) == old_arch.row_entries(p.1 as int));
                        }
                    }
                }
            }
            lemma_row_count_update(pre.archetypes@, a as int, arch);
            assert(pre@.contains_key(e));
        }
        b
    }
    /// Changing only the entries of one row, keeping every id and type,
    /// changes only that row's entity in the view.
    proof fn lemma_row_changed(pre: Self, post: Self, a: int, i: int)
        requires
            pre.wf(),
            0 <= a < pre.archetypes@.len(),
            0 <= i < pre.archetypes@[a].ids().len(),
            post.entity_lookup == pre.entity_lookup,
            post.archetypes@.len() == pre.archetypes@.len(),
            forall|k: int| 0 <= k < pre.archetypes@.len() && k != a ==> #[trigger] post.archetypes@[k] == pre.archetypes@[k],
            post.archetypes@[a].wf(),
            post.archetypes@[a].ids() == pre.archetypes@[a].ids(),
            post.archetypes@[a].types() == pre.archetypes@[a].types(),
            forall|j: int| 0 <= j < pre.archetypes@[a].ids().len() && j != i ==> #[trigger] post.archetypes@[a].row_entries(j)
                == pre.archetypes@[a].row_entries(j),
        ensures
            post.wf(),
            pre@.contains_key(pre.archetypes@[a].ids()[i]),
            post@ == pre@.insert(pre.archetypes@[a].ids()[i], post.archetypes@[a].row(i)),
    {
        let e = pre.archetypes@[a].ids()[i];
        assert(pre.entity_lookup@[e as int] == Some((a as usize, i as usize)));
        assert(pre.lookup(e as int) == Some((a as usize, i as usize)));
        assert forall|k: int| 0 <= k < post.archetypes@.len() implies (#[trigger] post.archetypes@[k]).wf() by {
            if k != a {
                assert(pre.archetypes@[k].wf());
            }
        }
        assert forall|x: int|
            0 <= x < post.entity_lookup@.len() && (#[trigger] post.entity_lookup@[x]) is Some implies post.lookup_ok(x) by {
            assert(pre.lookup_ok(x));
        }
        assert forall|k: int, j: int|
            0 <= k < post.archetypes@.len() && 0 <= j < post.archetypes@[k].ids().len() implies {
                &&& (#[trigger] post.archetypes@[k].ids()[j]) < post.entity_lookup@.len()
                &&& post.entity_lookup@[post.archetypes@[k].ids()[j] as int] is Some
                &&& post.entity_lookup@[post.archetypes@[k].ids()[j] as int]->Some_0.0 == k
                &&& post.entity_lookup@[post.archetypes@[k].ids()[j] as int]->Some_0.1 == j
            } by {
            assert(post.archetypes@[k].ids()[j] == pre.archetypes@[k].ids()[j]);
        }
        assert(post@ =~= pre@.insert(e, post.archetypes@[a].row(i))) by {
            assert forall|x: usize| #[trigger] post@.contains_key(x) <==> pre@.insert(e, post.archetypes@[a].row(i)).contains_key(x) by {
                assert(post.lookup(x as int) == pre.lookup(x as int));
            }
            assert forall|x: usize| #[trigger] post@.contains_key(x) implies post@[x] == pre@.insert(e, post.archetypes@[a].row(i))[x] by {
                assert(post.lookup(x as int) == pre.lookup(x as int));
                if x != e {
                    pre.lemma_lookup(x as int);
                    let p = pre.lookup(x as int)->Some_0;
                    if p.0 == a {
                        assert(p.1 != i);
                    }
                }
            }
        }
        assert(post.archetypes@ =~= pre.archetypes@.update(a, post.archetypes@[a]));
        lemma_row_count_update(pre.archetypes@, a, post.archetypes@[a]);
    }

    /// An entity is in the view exactly when it has a row, and every
    /// archetype is well formed.
    pub proof fn lemma_view(&self)
        requires
            self.wf(),
        ensures
            forall|e: usize| #[trigger] self@.contains_key(e) <==> self.lookup(e as int) is Some,
            forall|a: int| 0 <= a < self.archs().len() ==> (#[trigger] self.archs()[a]).wf(),
    {
    }

    /// Every row of every archetype is the row of a distinct stored entity,
    /// with that entity's components, and every stored entity has a row.
    pub proof fn lemma_rows(&self)
        requires
            self.wf(),
        ensures
            forall|a: int| 0 <= a < self.archs().len() ==> (#[trigger] self.archs()[a]).wf(),
            forall|a: int, i: int|
                0 <= a < self.archs().len() && 0 <= i < self.archs()[a].ids().len() ==> {
                    &&& self@.contains_key(#[trigger] self.archs()[a].ids()[i])
                    &&& self@[self.archs()[a].ids()[i]] == self.archs()[a].row(i)
                },
            forall|a: int, i: int, b: int, j: int|
                0 <= a < self.archs().len() && 0 <= i < self.archs()[a].ids().len() && 0 <= b < self.archs().len() && 0 <= j
                    < self.archs()[b].ids().len() && (a != b || i != j) ==> #[trigger] self.archs()[a].ids()[i]
                    != #[trigger] self.archs()[b].ids()[j],
            forall|e: usize| #[trigger] self@.contains_key(e) ==> exists|a: int, i: int|
                0 <= a < self.archs().len() && 0 <= i < self.archs()[a].ids().len() && #[trigger] self.archs()[a].ids()[i] == e,
    {
        assert forall|a: int, i: int|
            0 <= a < self.archs().len() && 0 <= i < self.archs()[a].ids().len() implies {
                &&& self@.contains_key(#[trigger] self.archs()[a].ids()[i])
                &&& self@[self.archs()[a].ids()[i]] == self.archs()[a].row(i)
            } by {
            let e = self.archs()[a].ids()[i];
            assert(self.lookup(e as int) == Some((a as usize, i as usize)));
            self.lemma_lookup(e as int);
        }
        assert forall|a: int, i: int, b: int, j: int|
            0 <= a < self.archs().len() && 0 <= i < self.archs()[a].ids().len() && 0 <= b < self.archs().len() && 0 <= j
                < self.archs()[b].ids().len() && (a != b || i != j) implies #[trigger] self.archs()[a].ids()[i]
                != #[trigger] self.archs()[b].ids()[j] by {
            self.lemma_rows_distinct(a, i, b, j);
        }
        assert forall|e: usize| #[trigger] self@.contains_key(e) implies exists|a: int, i: int|
            0 <= a < self.archs().len() && 0 <= i < self.archs()[a].ids().len() && #[trigger] self.archs()[a].ids()[i] == e by {
            self.lemma_lookup(e as int);
        }
    }

    /// The archetype at index `a`.
    pub fn archetype(&self, a: usize) -> (r: &Archetype<V>)
        requires
            a < self.archs().len(),
        ensures
            *r == self.archs()[a as int],
    {
        &self.archetypes[a]
    }

    /// The number of archetypes.
    pub fn num_archetypes(&self) -> (n: usize)
        ensures
            n == self.archs().len(),
    {
        self.archetypes.len()
    }

    /// The archetype index and row of an entity, if it has a row.
    pub fn lookup_of(&self, e: usize) -> (r: Option<(usize, usize)>)
        ensures
            r == self.lookup(e as int),
    {
        if e < self.entity_lookup.len() {
            self.entity_lookup[e]
        } else {
            None
        }
    }

    /// Replace the entries of entity `e`'s row, which is row `i` of archetype
    /// `a`, by entries of the same types, returning the replaced entries.
    fn replace_entity_row(&mut self, e: usize, a: usize, i: usize, entries: Vec<Entry<V>>) -> (r: Vec<Entry<V>>)
        requires
            old(self).wf(),
            old(self).lookup(e as int) == Some((a, i)),
            entries@.len() == old(self).archs()[a as int].types().len(),
            forall|c: int| 0 <= c < entries@.len() ==> (#[trigger] entries@[c]).key == e,
        ensures
            final(self).wf(),
            old(self)@.contains_key(e),
            final(self)@ == old(self)@.insert(e, bundle_view(old(self).archs()[a as int].types(), entries@)),
            r@.len() == entries@.len(),
            final(self).layout() == old(self).layout(),
    {
        proof {
            self.lemma_lookup(e as int);
        }
        let ghost pre = *self;
        let mut arch = Archetype::empty(TypeList::new());
        std::mem::swap(&mut arch, &mut self.archetypes[a]);
        let ghost old_arch = arch;
        let r = arch.replace_row(i, entries);
        std::mem::swap(&mut arch, &mut self.archetypes[a]);
        proof {
            Self::lemma_row_changed(pre, *self, a as int, i as int);
            assert(self.layout() =~= pre.layout());
        }
        r
    }

    /// Write `value` into the component at column `c` of entity `e`'s row,
    /// which is row `i` of archetype `a`, returning the value it held.
    fn write_entity_entry(&mut self, e: usize, a: usize, i: usize, c: usize, value: V, iteration: u64) -> (prev: V)
        requires
            old(self).wf(),
            old(self).lookup(e as int) == Some((a, i)),
            c < old(self).archs()[a as int].types().len(),
        ensures
            final(self).wf(),
            old(self)@.contains_key(e),
            old(self)@[e].contains_key(old(self).archs()[a as int].types()[c as int]),
            prev == old(self)@[e][old(self).archs()[a as int].types()[c as int]].value,
            final(self)@ == old(self)@.insert(
                e,
                old(self)@[e].insert(
                    old(self).archs()[a as int].types()[c as int],
                    old(self)@[e][old(self).archs()[a as int].types()[c as int]].spec_written(value, iteration),
                ),
            ),
            final(self).layout() == old(self).layout(),
    {
        proof {
            self.lemma_lookup(e as int);
        }
        let ghost pre = *self;
        let ghost ty = pre.archetypes@[a as int].types()[c as int];
        let mut arch = Archetype::empty(TypeList::new());
        std::mem::swap(&mut arch, &mut self.archetypes[a]);
        let ghost old_arch = arch;
        let prev = arch.write_entry(c, i, value, iteration);
        std::mem::swap(&mut arch, &mut self.archetypes[a]);
        proof {
            Self::lemma_row_changed(pre, *self, a as int, i as int);
            assert(self.layout() =~= pre.layout());
            let ts = old_arch.types();
            old_arch.lemma_row(i as int);
            lemma_index_of_ascending(ts, c as int);
            let w = old_arch.row_entries(i as int)[c as int].spec_written(value, iteration);
            lemma_bundle_view_update(ts, old_arch.row_entries(i as int), c as int, w);
        }
        prev
    }

    /// Every entry of a bundle that the view describes as carrying the id
    /// `e` carries it at every position.
    proof fn lemma_keys_from_view(b: AnyBundle<Entry<V>>, e: usize)
        requires
            b.wf(),
            forall|t: u64| #[trigger] b@.contains_key(t) ==> b@[t].key == e,
        ensures
            forall|c: int| 0 <= c < b.1@.len() ==> (#[trigger] b.1@[c]).key == e,
    {
        lemma_bundle_positions(b);
        assert forall|c: int| 0 <= c < b.1@.len() implies (#[trigger] b.1@[c]).key == e by {
            assert(b@.contains_key(type_list_items(b.0)[c]));
        }
    }

    /// Insert the components of the bundle for entity `entity_id`, added at
    /// `iteration`. The entity keeps its other components; those of the
    /// bundle's types are replaced.
    pub fn insert_bundle(&mut self, entity_id: usize, bundle: AnyBundle<V>, iteration: u64)
        requires
            old(self).wf(),
            bundle.wf(),
            entity_id < usize::MAX,
        ensures
            final(self).wf(),
            final(self)@ == old(self)@.insert(
                entity_id,
                components_of(old(self)@, entity_id).union_prefer_right(added_entries(entity_id, bundle@, iteration)),
            ),
            old(self).lookup(entity_id as int) is None ==> final(self).layout() == layout_after_append(
                old(self).layout(),
                type_list_items(bundle.0),
                entity_id,
            ),
            old(self).lookup(entity_id as int) matches Some((a, i)) ==> if old(self).archs()[a as int].types() == type_list_items(
                bundle.0,
            ) {
                final(self).layout() == old(self).layout()
            } else {
                exists|t: Seq<u64>|
                    strictly_ascending(t) && t.to_set() == final(self)@[entity_id].dom() && final(self).layout() == layout_after_append(
                        layout_after_removal(old(self).layout(), a as int, i as int),
                        t,
                        entity_id,
                    )
            },
    {
        let ghost pre = *self;
        let entries = bundle.into_entry_bundle(entity_id, iteration);
        match self.lookup_of(entity_id) {
            Some((a, i)) => {
                proof {
                    self.lemma_lookup(entity_id as int);
                }
                if self.archetypes[a].same_types(entries.0.as_slice()) {
                    let ghost ts = type_list_items(entries.0);
                    let ghost ev = entries@;
                    let AnyBundle(_types, es) = entries;
                    let _ = self.replace_entity_row(entity_id, a, i, es);
                    proof {
                        let arch = pre.archetypes@[a as int];
                        arch.lemma_row(i as int);
                        assert(pre@[entity_id] == arch.row(i as int));
                        assert(pre@[entity_id].union_prefer_right(ev) =~= ev);
                    }
                } else {
                    let mut prev = self.remove_any_entry_bundle(entity_id, a, i);
                    proof {
                        lemma_bundle_positions(prev);
                        Self::lemma_layout_removal(pre, *self, a as int, i as int);
                    }
                    let ghost mid = *self;
                    let ghost pv = prev@;
                    let _ = prev.union(entries);
                    proof {
                        assert forall|t: u64| #[trigger] prev@.contains_key(t) implies prev@[t].key == entity_id by {
                            if !entries@.contains_key(t) {
                                assert(pv.contains_key(t));
                            }
                        }
                        Self::lemma_keys_from_view(prev, entity_id);
                    }
                    let ghost t = type_list_items(prev.0);
                    let ghost pb = prev@;
                    self.append_new_entry_bundle(entity_id, prev);
                    proof {
                        assert(pb.dom() =~= t.to_set());
                        assert(self@[entity_id] == pb);
                        assert(strictly_ascending(t) && t.to_set() == self@[entity_id].dom() && self.layout() == layout_after_append(
                            layout_after_removal(pre.layout(), a as int, i as int),
                            t,
                            entity_id,
                        ));
                    }
                }
            },
            None => {
                proof {
                    assert(components_of(pre@, entity_id) =~= Map::<u64, Entry<V>>::empty());
                    assert(Map::<u64, Entry<V>>::empty().union_prefer_right(entries@) =~= entries@);
                }
                self.append_new_entry_bundle(entity_id, entries);
            },
        }
    }

    /// A mutable reference to the component of type `ty` of entity
    /// `entity_id`, if it has one; the component is marked as modified at
    /// `iteration`, and what is written through the reference becomes its
    /// value.
    pub fn get_mut(&mut self, entity_id: usize, ty: u64, iteration: u64) -> (r: Option<&mut V>)
        requires
            old(self).wf(),
        ensures
            final(self).wf(),
            final(self).layout() == old(self).layout(),
            match r {
                Some(v) => {
                    &&& components_of(old(self)@, entity_id).contains_key(ty)
                    &&& *v == old(self)@[entity_id][ty].value
                    &&& final(self)@ == old(self)@.insert(
                        entity_id,
                        old(self)@[entity_id].insert(ty, old(self)@[entity_id][ty].spec_written(*final(v), iteration)),
                    )
                },
                None => !components_of(old(self)@, entity_id).contains_key(ty) && final(self)@ == old(self)@,
            },
    {
        let ghost pre = *self;
        match self.lookup_of(entity_id) {
            Some((a, i)) => {
                proof {
                    self.lemma_lookup(entity_id as int);
                    pre.archetypes@[a as int].lemma_row(i as int);
                }
                match self.archetypes[a].index_of(ty) {
                    Some(c) => {
                        let ghost old_arch = pre.archetypes@[a as int];
                        proof {
                            let ts = old_arch.types();
                            lemma_index_of_ascending(ts, c as int);
                        }
                        proof {
                            Self::lemma_row_changed_any(pre, a as int, i as int);
                        }
                        let arch = &mut self.archetypes[a];
                        let v = arch.value_mut(c, i, iteration);
                        proof {
                            let ts = old_arch.types();
                            let w = old_arch.row_entries(i as int)[c as int].spec_written(*final(v), iteration);
                            lemma_bundle_view_update(ts, old_arch.row_entries(i as int), c as int, w);
                        }
                        Some(v)
                    },
                    None => None,
                }
            },
            None => None,
        }
    }

    /// The items of a query's row for entity `entity_id`, for writing, when
    /// the query visits the entity: one slot per query column, holding a
    /// mutable reference to the component for each column that writes it
    /// (`Mut`, or `MaybeMut` where the entity has the type) and `None` for
    /// the others. Each component handed out is marked as modified at
    /// `iteration`, and what is written through its reference becomes its
    /// value.
    pub fn find_one_mut(&mut self, entity_id: usize, columns: &[QueryColumn], iteration: u64) -> (r: Option<
        Vec<Option<&mut V>>,
    >)
        requires
            old(self).wf(),
            writes_distinct(columns@),
        ensures
            final(self).wf(),
            final(self).layout() == old(self).layout(),
            match r {
                None => !(old(self)@.contains_key(entity_id) && components_match(old(self)@[entity_id], columns@))
                    && final(self)@ == old(self)@,
                Some(row) => {
                    let m = old(self)@[entity_id];
                    &&& old(self)@.contains_key(entity_id)
                    &&& components_match(m, columns@)
                    &&& row@.len() == columns@.len()
                    &&& forall|k: int|
                        0 <= k < row@.len() ==> ((#[trigger] row@[k]) is Some <==> column_writes(columns@[k]) && m.contains_key(
                            column_type(columns@[k]),
                        ))
                    &&& forall|k: int|
                        0 <= k < row@.len() && (#[trigger] row@[k]) is Some ==> *row@[k]->Some_0 == m[column_type(columns@[k])].value
                    &&& final(self)@ == old(self)@.insert(entity_id, final(self)@[entity_id])
                    &&& final(self)@[entity_id].dom() == m.dom()
                    &&& forall|k: int|
                        0 <= k < row@.len() && (#[trigger] row@[k]) is Some ==> final(self)@[entity_id][column_type(columns@[k])]
                            == m[column_type(columns@[k])].spec_written(*final(row@[k]->Some_0), iteration)
                    &&& forall|t: u64|
                        m.contains_key(t) && !writes_type(columns@, t) ==> #[trigger] final(self)@[entity_id][t] == m[t]
                },
            },
    {
        let ghost pre = *self;
        match self.lookup_of(entity_id) {
            None => None,
            Some((a, i)) => {
                proof {
                    self.lemma_lookup(entity_id as int);
                    lemma_row_components(pre.archetypes@[a as int], columns@, i as int);
                    pre.archetypes@[a as int].lemma_row_map(i as int);
                    pre.archetypes@[a as int].lemma_types();
                }
                let l = match lock_columns(&self.archetypes[a], columns) {
                    Some(l) => l,
                    None => {
                        return None;
                    },
                };
                let ghost arch0 = pre.archetypes@[a as int];
                let ghost ts = arch0.types();
                let ghost m = pre@[entity_id];
                let nt = self.archetypes[a].type_list().len();
                let mut marks: Vec<bool> = Vec::new();
                let mut c: usize = 0;
                while c < nt
                    invariant
                        c <= nt,
                        marks@.len() == c,
                        forall|d: int| 0 <= d < c ==> !(#[trigger] marks@[d]),
                    decreases nt - c,
                {
                    marks.push(false);
                    c += 1;
                }
                let nk = columns.len();
                let mut wanted: Vec<Option<usize>> = Vec::new();
                let mut k: usize = 0;
                while k < nk
                    invariant
                        nk == columns@.len(),
                        nt == ts.len(),
                        l@ == columns@.map_values(|col: QueryColumn| column_position(ts, col)),
                        k <= nk,
                        wanted@.len() == k,
                        marks@.len() == nt,
                        forall|j: int|
                            0 <= j < k ==> #[trigger] wanted@[j] == (if column_writes(columns@[j]) {
                                column_position(ts, columns@[j])
                            } else {
                                None
                            }),
                        forall|d: int| 0 <= d < nt ==> (#[trigger] marks@[d] <==> exists|j: int| 0 <= j < k && #[trigger] wanted@[j] == Some(d as usize)),
                        forall|j: int| 0 <= j < k && (#[trigger] wanted@[j]) is Some ==> wanted@[j]->Some_0 < nt,
                    decreases nk - k,
                {
                    let w = match columns[k] {
                        QueryColumn::Mut(_) => l[k],
                        QueryColumn::MaybeMut(_) => l[k],
                        _ => None,
                    };
                    proof {
                        assert(l@[k as int] == column_position(ts, columns@[k as int]));
                        if w is Some {
                            assert(ts.contains(column_type(columns@[k as int])));
                        }
                    }
                    let ghost before = wanted@;
                    let ghost marks0 = marks@;
                    match w {
                        Some(c) => {
                            marks.set(c, true);
                        },
                        None => {},
                    }
                    wanted.push(w);
                    proof {
                        assert forall|d: int| 0 <= d < nt implies (#[trigger] marks@[d] <==> exists|j: int|
                            0 <= j < k + 1 && #[trigger] wanted@[j] == Some(d as usize)) by {
                            assert(wanted@[k as int] == w);
                            if w == Some(d as usize) {
                                assert(marks@[d]);
                            } else {
                                assert(marks@[d] == marks0[d]);
                            }
                            if marks0[d] {
                                let j = choose|j: int| 0 <= j < k && #[trigger] before[j] == Some(d as usize);
                                assert(wanted@[j] == before[j]);
                            }
                            if exists|j: int| 0 <= j < k + 1 && #[trigger] wanted@[j] == Some(d as usize) {
                                let j = choose|j: int| 0 <= j < k + 1 && #[trigger] wanted@[j] == Some(d as usize);
                                if j < k {
                                    assert(before[j] == Some(d as usize));
                                }
                            }
                        }
                        assert forall|j: int| 0 <= j < k + 1 implies #[trigger] wanted@[j] == (if column_writes(columns@[j]) {
                            column_position(ts, columns@[j])
                        } else {
                            None
                        }) by {
                            if j < k {
                                assert(wanted@[j] == before[j]);
                            }
                        }
                    }
                    k += 1;
                }
                proof {
                    assert forall|j: int| 0 <= j < nk && (#[trigger] wanted@[j]) is Some implies ts[wanted@[j]->Some_0 as int]
                        == column_type(columns@[j]) && m.contains_key(column_type(columns@[j])) && m[column_type(columns@[j])]
                        == arch0.row_entries(i as int)[wanted@[j]->Some_0 as int] by {
                        let t = column_type(columns@[j]);
                        assert(ts.contains(t));
                        lemma_index_of_ascending(ts, ts.index_of(t));
                    }
                    assert forall|q: int, j: int|
                        0 <= q < j < nk && (#[trigger] wanted@[q]) is Some && (#[trigger] wanted@[j]) is Some implies wanted@[q]
                        != wanted@[j] by {
                        assert(column_writes(columns@[q]) && column_writes(columns@[j]));
                        assert(ts[wanted@[q]->Some_0 as int] == column_type(columns@[q]));
                        assert(ts[wanted@[j]->Some_0 as int] == column_type(columns@[j]));
                    }
                    assert forall|t: u64| #[trigger] m.contains_key(t) implies 0 <= ts.index_of(t) < nt && ts[ts.index_of(t)] == t
                        && (marks@[ts.index_of(t)] <==> writes_type(columns@, t)) && m[t] == arch0.row_entries(i as int)[ts.index_of(t)] by {
                        assert(ts.contains(t));
                        let d = ts.index_of(t);
                        lemma_index_of_ascending(ts, d);
                        if marks@[d] {
                            let j = choose|j: int| 0 <= j < nk && #[trigger] wanted@[j] == Some(d as usize);
                            assert(column_writes(columns@[j]));
                            assert(ts[d] == column_type(columns@[j]));
                        }
                        if writes_type(columns@, t) {
                            let j = choose|j: int| 0 <= j < nk && column_writes(#[trigger] columns@[j]) && column_type(columns@[j]) == t;
                            assert(wanted@[j] == column_position(ts, columns@[j]));
                        }
                    }
                    Self::lemma_row_changed_any(pre, a as int, i as int);
                }
                let arch = &mut self.archetypes[a];
                let slots = arch.row_mut(&marks, i, iteration);
                let row = pick_slots(slots, &wanted);
                Some(row)
            },
        }
    }

    /// Insert a single component of type `ty` for entity `entity_id`.
    ///
    /// When the entity already has a component of that type, it is
    /// overwritten, marked as modified at `iteration`, and its previous value
    /// is returned; otherwise it is added at `iteration`.
    pub fn insert_component(&mut self, entity_id: usize, ty: u64, component: V, iteration: u64) -> (prev: Option<V>)
        requires
            old(self).wf(),
            entity_id < usize::MAX,
        ensures
            final(self).wf(),
            final(self)@ == with_component(old(self)@, entity_id, ty, component, iteration),
            prev == (if components_of(old(self)@, entity_id).contains_key(ty) {
                Some(old(self)@[entity_id][ty].value)
            } else {
                None::<V>
            }),
            old(self).lookup(entity_id as int) is None ==> final(self).layout() == layout_after_append(
                old(self).layout(),
                seq![ty],
                entity_id,
            ),
            old(self).lookup(entity_id as int) matches Some((a, i)) ==> if old(self).archs()[a as int].types().contains(ty) {
                final(self).layout() == old(self).layout()
            } else {
                exists|t: Seq<u64>|
                    strictly_ascending(t) && t.to_set() == final(self)@[entity_id].dom() && final(self).layout() == layout_after_append(
                        layout_after_removal(old(self).layout(), a as int, i as int),
                        t,
                        entity_id,
                    )
            },
    {
        let ghost pre = *self;
        match self.lookup_of(entity_id) {
            Some((a, i)) => {
                proof {
                    self.lemma_lookup(entity_id as int);
                    pre.archetypes@[a as int].lemma_row(i as int);
                }
                match self.archetypes[a].index_of(ty) {
                    Some(c) => {
                        let prev = self.write_entity_entry(entity_id, a, i, c, component, iteration);
                        Some(prev)
                    },
                    None => {
                        let mut bundle = self.remove_any_entry_bundle(entity_id, a, i);
                        proof {
                            lemma_bundle_positions(bundle);
                            Self::lemma_layout_removal(pre, *self, a as int, i as int);
                        }
                        let ghost pv = bundle@;
                        let _ = bundle.insert(ty, Entry::new(entity_id, component, iteration));
                        proof {
                            assert(!pv.contains_key(ty));
                            assert forall|t: u64| #[trigger] bundle@.contains_key(t) implies bundle@[t].key == entity_id by {
                                if t != ty {
                                    assert(pv.contains_key(t));
                                }
                            }
                            Self::lemma_keys_from_view(bundle, entity_id);
                        }
                        let ghost t = type_list_items(bundle.0);
                        let ghost pb = bundle@;
                        self.append_new_entry_bundle(entity_id, bundle);
                        proof {
                            assert(pb.dom() =~= t.to_set());
                            assert(self@[entity_id] == pb);
                            assert(strictly_ascending(t) && t.to_set() == self@[entity_id].dom() && self.layout() == layout_after_append(
                                layout_after_removal(pre.layout(), a as int, i as int),
                                t,
                                entity_id,
                            ));
                        }
                        None
                    },
                }
            },
            None => {
                let mut bundle: AnyBundle<Entry<V>> = AnyBundle::new();
                let _ = bundle.insert(ty, Entry::new(entity_id, component, iteration));
                proof {
                    assert(type_list_items(bundle.0) =~= seq![ty]) by {
                        assert(bundle@.dom() =~= set![ty]);
                        assert(type_list_items(bundle.0).len() == 1) by {
                            assert(bundle@.dom() =~= type_list_items(bundle.0).to_set());
                            if type_list_items(bundle.0).len() > 1 {
                                assert(type_list_items(bundle.0)[0] < type_list_items(bundle.0)[1]);
                                assert(bundle@.dom().contains(type_list_items(bundle.0)[0]));
                                assert(bundle@.dom().contains(type_list_items(bundle.0)[1]));
                            }
                            if type_list_items(bundle.0).len() == 0 {
                                assert(bundle@.dom().contains(ty));
                            }
                        }
                        assert(bundle@.dom().contains(type_list_items(bundle.0)[0]));
                    }
                    assert(components_of(pre@, entity_id) =~= Map::<u64, Entry<V>>::empty());
                    Self::lemma_keys_from_view(bundle, entity_id);
                }
                self.append_new_entry_bundle(entity_id, bundle);
                None
            },
        }
    }

    /// Remove all components of entity `entity_id` and return their values,
    /// or `None` when it has none stored.
    pub fn remove(&mut self, entity_id: usize) -> (r: Option<AnyBundle<V>>)
        requires
            old(self).wf(),
        ensures
            final(self).wf(),
            final(self)@ == old(self)@.remove(entity_id),
            match r {
                Some(b) => {
                    &&& old(self)@.contains_key(entity_id)
                    &&& b.wf()
                    &&& b@ == old(self)@[entity_id].map_values(|en: Entry<V>| en.value)
                },
                None => !old(self)@.contains_key(entity_id),
            },
            old(self).lookup(entity_id as int) matches Some((a, i)) ==> final(self).layout() == layout_after_removal(
                old(self).layout(),
                a as int,
                i as int,
            ),
            old(self).lookup(entity_id as int) is None ==> final(self).layout() == old(self).layout(),
    {
        let ghost pre = *self;
        match self.lookup_of(entity_id) {
            Some((a, i)) => {
                let entries = self.remove_any_entry_bundle(entity_id, a, i);
                proof {
                    Self::lemma_layout_removal(pre, *self, a as int, i as int);
                }
                Some(entries.into_values())
            },
            None => {
                proof {
                    assert(self@.remove(entity_id) =~= self@);
                }
                None
            },
        }
    }

    /// Remove the component of type `ty` from entity `entity_id` and return
    /// its value, or `None` when the entity has no such component. The
    /// entity keeps its other components, if it has any.
    pub fn remove_component(&mut self, entity_id: usize, ty: u64) -> (r: Option<V>)
        requires
            old(self).wf(),
        ensures
            final(self).wf(),
            components_of(old(self)@, entity_id).contains_key(ty) ==> {
                &&& r == Some(old(self)@[entity_id][ty].value)
                &&& final(self)@ == old(self)@.insert(entity_id, old(self)@[entity_id].remove(ty))
            },
            !components_of(old(self)@, entity_id).contains_key(ty) ==> r is None && final(self)@ == old(self)@
                && final(self).layout() == old(self).layout(),
            components_of(old(self)@, entity_id).contains_key(ty) ==> (old(self).lookup(entity_id as int) matches Some((a, i))
                && exists|t: Seq<u64>|
                strictly_ascending(t) && t.to_set() == final(self)@[entity_id].dom() && final(self).layout() == layout_after_append(
                    layout_after_removal(old(self).layout(), a as int, i as int),
                    t,
                    entity_id,
                )),
    {
        let ghost pre = *self;
        match self.lookup_of(entity_id) {
            Some((a, i)) => {
                proof {
                    self.lemma_lookup(entity_id as int);
                    pre.archetypes@[a as int].lemma_row(i as int);
                }
                if self.archetypes[a].has_component(ty) {
                    assert(entity_id < pre.entity_lookup@.len());
                    let mut bundle = self.remove_any_entry_bundle(entity_id, a, i);
                    proof {
                        lemma_bundle_positions(bundle);
                        Self::lemma_layout_removal(pre, *self, a as int, i as int);
                    }
                    let ghost pv = bundle@;
                    let t = bundle.remove(ty);
                    proof {
                        assert forall|t: u64| #[trigger] bundle@.contains_key(t) implies bundle@[t].key == entity_id by {
                            assert(pv.contains_key(t));
                        }
                        Self::lemma_keys_from_view(bundle, entity_id);
                    }
                    let ghost tl = type_list_items(bundle.0);
                    let ghost pb = bundle@;
                    self.append_new_entry_bundle(entity_id, bundle);
                    proof {
                        assert(pb.dom() =~= tl.to_set());
                        assert(self@[entity_id] == pb);
                        assert(strictly_ascending(tl) && tl.to_set() == self@[entity_id].dom() && self.layout() == layout_after_append(
                            layout_after_removal(pre.layout(), a as int, i as int),
                            tl,
                            entity_id,
                        ));
                    }
                    match t {
                        Ok(en) => Some(en.into_inner()),
                        Err(_) => None,
                    }
                } else {
                    None
                }
            },
            None => None,
        }
    }

    /// The number of entities stored.
    pub fn len(&self) -> (n: usize)
        requires
            self.wf(),
        ensures
            self@.dom().finite(),
            n == self@.dom().len(),
    {
        let bound = self.entity_lookup.len();
        proof {
            lemma_ids_below(bound as int);
            assert(self@.dom().subset_of(ids_below(bound as int)));
            vstd::set_lib::lemma_len_subset(self@.dom(), ids_below(bound as int));
            lemma_row_count_take(self.archetypes@, 0);
            assert(self.archetypes@.take(0) =~= Seq::<Archetype<V>>::empty());
        }
        let n = self.archetypes.len();
        let mut total: usize = 0;
        let mut k: usize = 0;
        while k < n
            invariant
                n == self.archetypes@.len(),
                k <= n,
                total == row_count(self.archetypes@.take(k as int)),
                row_count(self.archetypes@) <= usize::MAX,
            decreases n - k,
        {
            proof {
                lemma_row_count_take(self.archetypes@, k as int);
                lemma_row_count_take(self.archetypes@, k + 1);
            }
            total = total + self.archetypes[k].len();
            k += 1;
        }
        proof {
            assert(self.archetypes@.take(n as int) =~= self.archetypes@);
        }
        total
    }

    /// Whether no entity is stored.
    pub fn is_empty(&self) -> (b: bool)
        requires
            self.wf(),
        ensures
            b == (self@ == Map::<usize, Map<u64, Entry<V>>>::empty()),
    {
        let n = self.archetypes.len();
        let mut k: usize = 0;
        while k < n
            invariant
                self.wf(),
                n == self.archetypes@.len(),
                k <= n,
                forall|j: int| 0 <= j < k ==> (#[trigger] self.archetypes@[j]).ids().len() == 0,
            decreases n - k,
        {
            if !self.archetypes[k].is_empty() {
                proof {
                    let x = self.archetypes@[k as int].ids()[0];
                    assert(self.entity_lookup@[x as int] is Some);
                    assert(self@.contains_key(x));
                }
                return false;
            }
            k += 1;
        }
        proof {
            lemma_row_count_zero(self.archetypes@);
            assert(self@.dom().len() == 0);
            assert(self@ =~= Map::<usize, Map<u64, Entry<V>>>::empty());
        }
        true
    }

    /// Remove archetype `a`, which holds no entity, moving the last
    /// archetype into its place.
    fn remove_empty_archetype(&mut self, a: usize)
        requires
            old(self).wf(),
            a < old(self).archs().len(),
            old(self).archs()[a as int].ids().len() == 0,
        ensures
            final(self).wf(),
            final(self)@ == old(self)@,
            final(self).archs() == swap_removed(old(self).archs(), a as int),
    {
        let ghost pre = *self;
        let lookup_len = self.entity_lookup.len();
        let _ = self.archetypes.swap_remove(a);
        let last = self.archetypes.len();
        proof {
            assert(self.archetypes@ =~= swap_removed(pre.archetypes@, a as int));
        }
        if a != last {
            let m = self.archetypes[a].len();
            let mut j: usize = 0;
            while j < m
                invariant
                    pre.wf(),
                    a < last,
                    last == pre.archetypes@.len() - 1,
                    self.archetypes@ == swap_removed(pre.archetypes@, a as int),
                    m == pre.archetypes@[last as int].ids().len(),
                    j <= m,
                    self.entity_lookup@.len() == pre.entity_lookup@.len(),
                    forall|x: int| 0 <= x < pre.entity_lookup@.len() && !pre.archetypes@[last as int].ids().contains(x as usize)
                        ==> #[trigger] self.entity_lookup@[x] == pre.entity_lookup@[x],
                    forall|q: int| 0 <= q < j ==> self.entity_lookup@[#[trigger] pre.archetypes@[last as int].ids()[q] as int]
                        == Some((a, q as usize)),
                    forall|q: int| j <= q < m ==> self.entity_lookup@[#[trigger] pre.archetypes@[last as int].ids()[q] as int]
                        == pre.entity_lookup@[pre.archetypes@[last as int].ids()[q] as int],
                decreases m - j,
            {
                let id = self.archetypes[a].id_at(j);
                proof {
                    assert(pre.entity_lookup@[id as int] == Some((last, j)));
                    assert forall|q: int| 0 <= q < m && q != j implies pre.archetypes@[last as int].ids()[q] != id by {
                        pre.lemma_rows_distinct(last as int, q, last as int, j as int);
                    }
                }
                self.entity_lookup.set(id, Some((a, j)));
                j += 1;
            }
            proof {
                let moved = pre.archetypes@[last as int];
                assert(lookup_len == pre.entity_lookup@.len());
                assert forall|x: int|
                    0 <= x < self.entity_lookup@.len() && (#[trigger] self.entity_lookup@[x]) is Some implies self.lookup_ok(x) by {
                    if moved.ids().contains(x as usize) {
                        let q = moved.ids().index_of(x as usize);
                        assert(moved.ids()[q] == x);
                    } else {
                        assert(pre.lookup_ok(x));
                        let p = pre.entity_lookup@[x]->Some_0;
                        if p.0 == last {
                            assert(moved.ids()[p.1 as int] == x);
                        }
                        assert(p.0 != a);
                    }
                }
                assert forall|k: int, q: int|
                    0 <= k < self.archetypes@.len() && 0 <= q < self.archetypes@[k].ids().len() implies {
                        &&& (#[trigger] self.archetypes@[k].ids()[q]) < self.entity_lookup@.len()
                        &&& self.entity_lookup@[self.archetypes@[k].ids()[q] as int] is Some
                        &&& self.entity_lookup@[self.archetypes@[k].ids()[q] as int]->Some_0.0 == k
                        &&& self.entity_lookup@[self.archetypes@[k].ids()[q] as int]->Some_0.1 == q
                    } by {
                    if k != a {
                        let x = pre.archetypes@[k].ids()[q];
                        if moved.ids().contains(x) {
                            let r = moved.ids().index_of(x);
                            pre.lemma_rows_distinct(k, q, last as int, r);
                        }
                    }
                }
                assert(self@ =~= pre@) by {
                    assert forall|x: usize| #[trigger] self@.contains_key(x) <==> pre@.contains_key(x) by {
                        if moved.ids().contains(x) {
                            let q = moved.ids().index_of(x);
                            assert(moved.ids()[q] == x);
                        }
                    }
                    assert forall|x: usize| #[trigger] self@.contains_key(x) implies self@[x] == pre@[x] by {
                        if moved.ids().contains(x) {
                            let q = moved.ids().index_of(x);
                            assert(moved.ids()[q] == x);
                            pre.lemma_lookup(x as int);
                        } else {
                            pre.lemma_lookup(x as int);
                            let p = pre.lookup(x as int)->Some_0;
                            assert(p.0 != a);
                            if p.0 == last {
                                assert(moved.ids()[p.1 as int] == x);
                            }
                        }
                    }
                }
                lemma_row_count_swap_remove(pre.archetypes@, a as int);
            }
        } else {
            proof {
                assert forall|x: int|
                    0 <= x < self.entity_lookup@.len() && (#[trigger] self.entity_lookup@[x]) is Some implies self.lookup_ok(x) by {
                    assert(pre.lookup_ok(x));
                }
                assert(self@ =~= pre@) by {
                    assert forall|x: usize| #[trigger] self@.contains_key(x) implies self@[x] == pre@[x] by {
                        pre.lemma_lookup(x as int);
                    }
                }
                lemma_row_count_swap_remove(pre.archetypes@, a as int);
            }
        }
    }

    /// Remove every component of the given dead entities, and the
    /// archetypes that this leaves without entities.
    pub fn upkeep(&mut self, dead_ids: &[usize])
        requires
            old(self).wf(),
        ensures
            final(self).wf(),
            final(self)@ == old(self)@.remove_keys(dead_ids@.to_set()),
            no_newly_empty(old(self).archs(), final(self).archs()),
            final(self).layout() == layout_after_upkeep(old(self).layout(), dead_ids@),
    {
        let ghost pre = *self;
        let n = dead_ids.len();
        let mut k: usize = 0;
        while k < n
            invariant
                self.wf(),
                n == dead_ids@.len(),
                k <= n,
                self@ == pre@.remove_keys(dead_ids@.take(k as int).to_set()),
                pre == *old(self),
                no_newly_empty(pre.archs(), self.archs()),
                self.layout() == layout_after_upkeep(pre.layout(), dead_ids@.take(k as int)),
            decreases n - k,
        {
            let id = dead_ids[k];
            let ghost before = self@;
            let ghost archs0 = self.archs();
            let ghost st0 = *self;
            let ghost l0 = self.layout();
            proof {
                self.lemma_holds_row(id);
                let t1 = dead_ids@.take(k + 1);
                assert(t1.drop_last() =~= dead_ids@.take(k as int));
                assert(t1.last() == id);
            }
            match self.lookup_of(id) {
                Some((a, i)) => {
                    proof {
                        let (ca, ci) = choose|b: int, j: int| #[trigger] holds_row(l0, id, b, j);
                        assert(holds_row(l0, id, ca, ci));
                        assert(ca == a && ci == i);
                    }
                    let _ = self.remove_any_entry_bundle(id, a, i);
                    let ghost archs1 = self.archs();
                    proof {
                        Self::lemma_layout_removal(st0, *self, a as int, i as int);
                    }
                    if self.archetypes[a].is_empty() {
                        let ghost l1 = self.layout();
                        self.remove_empty_archetype(a);
                        proof {
                            assert(self.layout() =~= swap_removed(l1, a as int));
                        }
                        proof {
                            let archs2 = self.archs();
                            assert forall|j: int| 0 <= j < archs2.len() && (#[trigger] archs2[j]).ids().len() == 0 implies exists|b: int|
                                0 <= b < pre.archs().len() && pre.archs()[b] == archs2[j] by {
                                if j == a {
                                    let last = archs1.len() - 1;
                                    assert(archs2[j] == archs1[last]);
                                    assert(last != a);
                                    assert(archs1[last] == archs0[last]);
                                    assert(archs0[last].ids().len() == 0);
                                } else {
                                    assert(archs2[j] == archs1[j]);
                                    assert(archs1[j] == archs0[j]);
                                }
                            }
                        }
                    } else {
                        proof {
                            assert forall|j: int| 0 <= j < archs1.len() && (#[trigger] archs1[j]).ids().len() == 0 implies exists|b: int|
                                0 <= b < pre.archs().len() && pre.archs()[b] == archs1[j] by {
                                assert(j != a);
                                assert(archs1[j] == archs0[j]);
                            }
                        }
                    }
                },
                None => {
                    proof {
                        assert(!before.contains_key(id));
                        assert(before.remove(id) =~= before);
                    }
                },
            }
            proof {
                assert(dead_ids@.take(k + 1) =~= dead_ids@.take(k as int).push(id));
                let t0 = dead_ids@.take(k as int);
                let t1 = dead_ids@.take(k + 1);
                assert forall|x: usize| #[trigger] t1.to_set().contains(x) == t0.to_set().insert(id).contains(x) by {
                    if x == id {
                        assert(t1[k as int] == id);
                    } else if t1.contains(x) {
                        let j = t1.index_of(x);
                        assert(t0[j] == x);
                    } else if t0.contains(x) {
                        let j = t0.index_of(x);
                        assert(t1[j] == x);
                    }
                }
                assert(t1.to_set() =~= t0.to_set().insert(id));
                assert(self@ =~= pre@.remove_keys(dead_ids@.take(k + 1).to_set()));
            }
            k += 1;
        }
        proof {
            assert(dead_ids@.take(n as int) =~= dead_ids@);
        }
    }

    /// The columns of component type `ty`, one per archetype that has the
    /// type, in archetype order.
    pub fn get_column(&self, ty: u64) -> (r: Vec<&Vec<Entry<V>>>)
        requires
            self.wf(),
        ensures
            r@.len() == type_columns(self.archs(), ty).len(),
            forall|n: int| 0 <= n < r@.len() ==> (#[trigger] r@[n])@ == type_columns(self.archs(), ty)[n],
    {
        let ghost archs = self.archetypes@;
        let n = self.archetypes.len();
        let mut r: Vec<&Vec<Entry<V>>> = Vec::new();
        let mut a: usize = 0;
        while a < n
            invariant
                self.wf(),
                archs == self.archetypes@,
                n == archs.len(),
                a <= n,
                r@.len() == type_columns(archs.take(a as int), ty).len(),
                forall|k: int| 0 <= k < r@.len() ==> (#[trigger] r@[k])@ == type_columns(archs.take(a as int), ty)[k],
            decreases n - a,
        {
            proof {
                assert(archs.take(a + 1).drop_last() =~= archs.take(a as int));
                assert(archs[a as int].wf());
            }
            match self.archetypes[a].column_of(ty) {
                Some(col) => {
                    proof {
                        let ts = archs[a as int].types();
                        archs[a as int].lemma_types();
                        let c = choose|c: int| 0 <= c < ts.len() && ts[c] == ty && col@ == #[trigger] archs[a as int].column(c);
                        crate::bundle::lemma_index_of_ascending(ts, c);
                    }
                    r.push(col);
                },
                None => {},
            }
            a += 1;
        }
        proof {
            assert(archs.take(n as int) =~= archs);
        }
        r
    }

    /// The index of the archetype whose types are exactly `types`, and the
    /// archetype, if there is one; the first such, if there are several.
    ///
    /// Archetype types are in ascending order, so `types` only matches when
    /// it is too. The archetype is handed out as a shared reference, so
    /// that its rows stay in step with the entity lookup; components are
    /// written with `get_mut` and `find_one_mut`.
    pub fn get_archetype_mut(&self, types: &[u64]) -> (r: Option<(usize, &Archetype<V>)>)
        ensures
            match r {
                Some((k, arch)) => {
                    &&& k < self.archs().len()
                    &&& *arch == self.archs()[k as int]
                    &&& self.archs()[k as int].types() == types@
                    &&& forall|j: int| 0 <= j < k ==> (#[trigger] self.archs()[j]).types() != types@
                },
                None => forall|j: int| 0 <= j < self.archs().len() ==> (#[trigger] self.archs()[j]).types() != types@,
            },
    {
        let n = self.archetypes.len();
        let mut k: usize = 0;
        while k < n
            invariant
                n == self.archetypes@.len(),
                k <= n,
                forall|j: int| 0 <= j < k ==> (#[trigger] self.archetypes@[j]).types() != types@,
            decreases n - k,
        {
            if self.archetypes[k].same_types(types) {
                return Some((k, &self.archetypes[k]));
            }
            k += 1;
        }
        None
    }

    /// Add entities in bulk: `columns[c]` holds the components of type
    /// `types[c]`, row `r` of every column those of one entity. The rows
    /// are appended to the archetype of the types, which is created when
    /// there is none yet. The entities must not be stored yet.
    pub fn extend(&mut self, types: &[u64], columns: Vec<Vec<Entry<V>>>)
        requires
            old(self).wf(),
            extension_ok(types@, columns@),
            forall|r: int| 0 <= r < extension_ids(columns@).len() ==> !old(self)@.contains_key(#[trigger] extension_ids(columns@)[r]),
        ensures
            final(self).wf(),
            final(self)@ == old(self)@.union_prefer_right(extension_rows(types@, columns@, extension_ids(columns@).len() as int)),
            final(self)@.dom().finite(),
            final(self)@.dom().len() == old(self)@.dom().len() + extension_ids(columns@).len(),
    {
        let ghost pre = *self;
        let ghost cs = columns@;
        let ghost ids = extension_ids(cs);
        let m = columns.len();
        let n = columns[0].len();
        let mut columns = columns;
        let mut rev_cols: Vec<Vec<Entry<V>>> = Vec::new();
        let mut c: usize = 0;
        while c < m
            invariant
                m == cs.len(),
                c <= m,
                columns@.len() == m,
                forall|j: int| c <= j < m ==> #[trigger] columns@[j] == cs[j],
                rev_cols@.len() == c,
                forall|j: int| 0 <= j < c ==> (#[trigger] rev_cols@[j])@.len() == cs[j]@.len(),
                forall|j: int, q: int| 0 <= j < c && 0 <= q < cs[j]@.len() ==> (#[trigger] rev_cols@[j]@[q]) == cs[j]@[cs[j]@.len() - 1 - q],
            decreases m - c,
        {
            let mut col: Vec<Entry<V>> = Vec::new();
            std::mem::swap(&mut col, &mut columns[c]);
            rev_cols.push(reversed(col));
            c += 1;
        }
        let mut r: usize = 0;
        while r < n
            invariant
                self.wf(),
                extension_ok(types@, cs),
                m == cs.len(),
                m == types@.len(),
                n == cs[0]@.len(),
                ids == extension_ids(cs),
                forall|q: int| 0 <= q < ids.len() ==> !pre@.contains_key(#[trigger] ids[q]),
                r <= n,
                rev_cols@.len() == m,
                forall|j: int| 0 <= j < m ==> (#[trigger] rev_cols@[j])@.len() == n - r,
                forall|j: int, q: int| 0 <= j < m && 0 <= q < n - r ==> (#[trigger] rev_cols@[j]@[q]) == cs[j]@[n - 1 - q],
                self@ == pre@.union_prefer_right(extension_rows(types@, cs, r as int)),
            decreases n - r,
        {
            let mut b: AnyBundle<Entry<V>> = AnyBundle::new();
            let mut id: usize = 0;
            let mut c: usize = 0;
            while c < m
                invariant
                    extension_ok(types@, cs),
                    m == cs.len(),
                    m == types@.len(),
                    n == cs[0]@.len(),
                    r < n,
                    c <= m,
                    rev_cols@.len() == m,
                    forall|j: int| 0 <= j < c ==> (#[trigger] rev_cols@[j])@.len() == n - r - 1,
                    forall|j: int| c <= j < m ==> (#[trigger] rev_cols@[j])@.len() == n - r,
                    forall|j: int, q: int| 0 <= j < m && 0 <= q < n - r - 1 ==> (#[trigger] rev_cols@[j]@[q]) == cs[j]@[n - 1 - q],
                    forall|j: int| c <= j < m ==> (#[trigger] rev_cols@[j]@[n - r - 1]) == cs[j]@[r as int],
                    b.wf(),
                    b@ == Map::new(|t: u64| types@.take(c as int).contains(t), |t: u64| cs[types@.index_of(t)]@[r as int]),
                    c > 0 ==> id == cs[0]@[r as int].key,
                decreases m - c,
            {
                let mut col: Vec<Entry<V>> = Vec::new();
                std::mem::swap(&mut col, &mut rev_cols[c]);
                let en = col.pop().unwrap();
                std::mem::swap(&mut col, &mut rev_cols[c]);
                if c == 0 {
                    id = en.key;
                }
                let ghost before = b@;
                let ty = types[c];
                proof {
                    assert(en == cs[c as int]@[r as int]);
                }
                let _ = b.insert(ty, en);
                proof {
                    assert(types@.index_of(ty) == c) by {
                        let j = types@.index_of(ty);
                        assert(types@.contains(ty));
                        if j != c {
                            assert(types@[j] == types@[c as int]);
                        }
                    }
                    assert(types@.take(c + 1) =~= types@.take(c as int).push(ty));
                    assert forall|t: u64| #[trigger] types@.take(c + 1).contains(t) <==> (types@.take(c as int).contains(t) || t == ty) by {
                        if t == ty {
                            assert(types@.take(c + 1)[c as int] == ty);
                        }
                        if types@.take(c + 1).contains(t) && t != ty {
                            let q = types@.take(c + 1).index_of(t);
                            assert(types@.take(c as int)[q] == t);
                        }
                        if types@.take(c as int).contains(t) {
                            let q = types@.take(c as int).index_of(t);
                            assert(types@.take(c + 1)[q] == t);
                        }
                    }
                    assert(b@ =~= Map::new(|t: u64| types@.take(c + 1).contains(t), |t: u64| cs[types@.index_of(t)]@[r as int]));
                }
                c += 1;
            }
            proof {
                assert(types@.take(m as int) =~= types@);
                assert(b@ =~= extension_row(types@, cs, r as int));
                assert(id == ids[r as int]);
                assert forall|t: u64| #[trigger] b@.contains_key(t) implies b@[t].key == id by {
                    assert(types@.contains(t));
                    let j = types@.index_of(t);
                    assert(cs[j]@[r as int].key == cs[0]@[r as int].key);
                }
                Self::lemma_keys_from_view(b, id);
                self.lemma_view();
                assert(!ids.take(r as int).contains(id)) by {
                    if ids.take(r as int).contains(id) {
                        let q = ids.take(r as int).index_of(id);
                        assert(ids[q] == ids[r as int]);
                    }
                }
                assert(!self@.contains_key(id));
            }
            self.append_new_entry_bundle(id, b);
            proof {
                assert(ids.index_of(id) == r) by {
                    let q = ids.index_of(id);
                    assert(ids.contains(id));
                    if q != r {
                        assert(ids[q] == ids[r as int]);
                    }
                }
                assert(ids.take(r + 1) =~= ids.take(r as int).push(id));
                let lhs = self@;
                let rhs = pre@.union_prefer_right(extension_rows(types@, cs, r + 1));
                assert forall|e: usize| #[trigger] ids.take(r + 1).contains(e) <==> (ids.take(r as int).contains(e) || e == id) by {
                    if e == id {
                        assert(ids.take(r + 1)[r as int] == id);
                    }
                    if ids.take(r + 1).contains(e) && e != id {
                        let q = ids.take(r + 1).index_of(e);
                        assert(ids.take(r as int)[q] == e);
                    }
                    if ids.take(r as int).contains(e) {
                        let q = ids.take(r as int).index_of(e);
                        assert(ids.take(r + 1)[q] == e);
                    }
                }
                assert forall|e: usize| #[trigger] lhs.contains_key(e) <==> rhs.contains_key(e) by {
                }
                assert forall|e: usize| #[trigger] lhs.contains_key(e) implies lhs[e] == rhs[e] by {
                }
                assert(lhs =~= rhs);
            }
            r += 1;
        }
        proof {
            assert(ids.len() == n);
            let d0 = pre@.dom();
            let d1 = ids.to_set();
            assert(ids.take(n as int) =~= ids);
            assert(self@.dom() =~= d0 + d1) by {
                assert forall|e: usize| #[trigger] self@.dom().contains(e) <==> (d0 + d1).contains(e) by {
                    if ids.contains(e) {
                        assert(d1.contains(e));
                    }
                }
            }
            assert(d0.disjoint(d1)) by {
                assert forall|e: usize| !(d0.contains(e) && d1.contains(e)) by {
                    if d1.contains(e) {
                        let q = ids.index_of(e);
                        assert(!pre@.contains_key(ids[q]));
                    }
                }
            }
            ids.unique_seq_to_set();
            vstd::set_lib::lemma_set_disjoint_lens(d0, d1);
        }
    }

    /// The component types of entity `e`, in ascending order; none when it
    /// has no row.
    pub fn entity_types(&self, e: usize) -> (t: TypeList)
        requires
            self.wf(),
        ensures
            strictly_ascending(type_list_items(t)),
            type_list_items(t).to_set() == components_of(self@, e).dom(),
    {
        match self.lookup_of(e) {
            Some((a, i)) => {
                proof {
                    self.lemma_lookup(e as int);
                    self.archetypes@[a as int].lemma_row(i as int);
                    let ts = self.archetypes@[a as int].types();
                    assert(ts.to_set() =~= self@[e].dom());
                }
                self.archetypes[a].type_list().duplicate()
            },
            None => {
                let t = TypeList::new();
                proof {
                    self.lemma_view();
                    assert(type_list_items(t).to_set() =~= Set::<u64>::empty());
                    assert(components_of(self@, e).dom() =~= Set::<u64>::empty());
                }
                t
            },
        }
    }

    /// Add an archetype whose types no archetype has yet, together with its
    /// entities, which must not be stored yet.
    pub fn insert_archetype(&mut self, archetype: Archetype<V>)
        requires
            old(self).wf(),
            archetype.wf(),
            forall|a: int| 0 <= a < old(self).archs().len() ==> (#[trigger] old(self).archs()[a]).types() != archetype.types(),
            archetype.ids().no_duplicates(),
            forall|i: int|
                0 <= i < archetype.ids().len() ==> !old(self)@.contains_key(#[trigger] archetype.ids()[i]) && archetype.ids()[i]
                    < usize::MAX,
        ensures
            final(self).wf(),
            final(self)@ == old(self)@.union_prefer_right(
                Map::new(|e: usize| archetype.ids().contains(e), |e: usize| archetype.row(archetype.ids().index_of(e))),
            ),
    {
        let ghost pre = *self;
        let ghost a0 = archetype;
        let ghost n0 = a0.ids().len();
        let mut arch = archetype;
        let mut rows: Vec<(usize, Vec<Entry<V>>)> = Vec::new();
        while arch.len() > 0
            invariant
                arch.wf(),
                a0.wf(),
                arch.types() == a0.types(),
                arch.ids() == a0.ids().take(arch.ids().len() as int),
                arch.ids().len() <= n0,
                n0 == a0.ids().len(),
                forall|j: int| 0 <= j < arch.ids().len() ==> #[trigger] arch.row_entries(j) == a0.row_entries(j),
                rows@.len() + arch.ids().len() == n0,
                forall|k: int|
                    0 <= k < rows@.len() ==> (#[trigger] rows@[k]).0 == a0.ids()[n0 - 1 - k] && rows@[k].1@ == a0.row_entries(
                        n0 - 1 - k,
                    ),
            decreases arch.ids().len(),
        {
            let last = arch.len() - 1;
            let id = arch.id_at(last);
            let entries = arch.swap_remove_row(last);
            rows.push((id, entries));
            proof {
                assert(arch.ids() =~= a0.ids().take(arch.ids().len() as int));
            }
        }
        let types = arch.type_list().duplicate();
        proof {
            arch.lemma_types();
        }
        self.archetypes.push(arch);
        proof {
            assert forall|x: int|
                0 <= x < self.entity_lookup@.len() && (#[trigger] self.entity_lookup@[x]) is Some implies self.lookup_ok(x) by {
                assert(pre.lookup_ok(x));
            }
            assert(self@ =~= pre@) by {
                assert forall|x: usize| #[trigger] self@.contains_key(x) implies self@[x] == pre@[x] by {
                    pre.lemma_lookup(x as int);
                }
            }
            lemma_row_count_push(pre.archetypes@, arch);
        }
        let ghost ids = a0.ids();
        let mut done: usize = 0;
        let total = rows.len();
        assert(total == n0);
        while rows.len() > 0
            invariant
                self.wf(),
                a0.wf(),
                n0 == ids.len(),
                n0 <= usize::MAX,
                ids == a0.ids(),
                ids.no_duplicates(),
                forall|i: int| 0 <= i < ids.len() ==> !pre@.contains_key(#[trigger] ids[i]) && ids[i] < usize::MAX,
                strictly_ascending(type_list_items(types)),
                type_list_items(types) == a0.types(),
                done + rows@.len() == n0,
                forall|k: int|
                    0 <= k < rows@.len() ==> (#[trigger] rows@[k]).0 == ids[n0 - 1 - k] && rows@[k].1@ == a0.row_entries(n0 - 1 - k),
                self@ == pre@.union_prefer_right(
                    Map::new(|e: usize| ids.take(done as int).contains(e), |e: usize| a0.row(ids.index_of(e))),
                ),
            decreases rows@.len(),
        {
            let (id, entries) = rows.pop().unwrap();
            proof {
                assert(id == ids[done as int]);
                a0.lemma_row(done as int);
                assert(!ids.take(done as int).contains(id)) by {
                    if ids.take(done as int).contains(id) {
                        let q = ids.take(done as int).index_of(id);
                        assert(ids[q] == ids[done as int]);
                    }
                }
                self.lemma_view();
                assert(!self@.contains_key(id));
            }
            let bundle = AnyBundle(types.duplicate(), entries);
            self.append_new_entry_bundle(id, bundle);
            proof {
                crate::bundle::lemma_index_of_unique(ids, done as int);
                assert(bundle@ == a0.row(done as int));
                let t0 = ids.take(done as int);
                let t1 = ids.take(done + 1);
                assert forall|e: usize| #[trigger] t1.contains(e) <==> (t0.contains(e) || e == id) by {
                    if e == id {
                        assert(t1[done as int] == id);
                    }
                    if t1.contains(e) && e != id {
                        let q = t1.index_of(e);
                        assert(t0[q] == e);
                    }
                    if t0.contains(e) {
                        let q = t0.index_of(e);
                        assert(t1[q] == e);
                    }
                }
                assert(self@ =~= pre@.union_prefer_right(
                    Map::new(|e: usize| t1.contains(e), |e: usize| a0.row(ids.index_of(e))),
                ));
            }
            done += 1;
        }
        proof {
            assert(ids.take(n0 as int) =~= ids);
        }
    }

    /// Store a row for entity `e`, which has none, holding the entries of the
    /// bundle, in the archetype of the bundle's types, which is created when
    /// there is none yet.
    fn append_new_entry_bundle(&mut self, e: usize, entry_bundle: AnyBundle<Entry<V>>)
        requires
            old(self).wf(),
            old(self).lookup(e as int) is None,
            entry_bundle.wf(),
            forall|c: int| 0 <= c < entry_bundle.1@.len() ==> (#[trigger] entry_bundle.1@[c]).key == e,
            e < usize::MAX || e < old(self).entity_lookup@.len(),
        ensures
            final(self).wf(),
            final(self)@ == old(self)@.insert(e, entry_bundle@),
            !old(self)@.contains_key(e),
            final(self).layout() == layout_after_append(old(self).layout(), type_list_items(entry_bundle.0), e),
    {
        let ghost pre = *self;
        let ghost bundle_types = type_list_items(entry_bundle.0);
        let n = self.archetypes.len();
        let mut k: usize = 0;
        while k < n
            invariant
                n == self.archetypes@.len(),
                k <= n,
                *self == pre,
                bundle_types == type_list_items(entry_bundle.0),
                forall|b: int| 0 <= b < k ==> (#[trigger] self.archetypes@[b]).types() != bundle_types,
            ensures
                k <= n,
                k < n ==> self.archetypes@[k as int].types() == bundle_types,
                forall|b: int| 0 <= b < k ==> (#[trigger] self.archetypes@[b]).types() != bundle_types,
            decreases n - k,
        {
            if self.archetypes[k].same_types(entry_bundle.0.as_slice()) {
                break;
            }
            k += 1;
        }
        // make room in the lookup for the entity
        while self.entity_lookup.len() <= e
            invariant
                self.archetypes == pre.archetypes,
                self.entity_lookup@.len() >= pre.entity_lookup@.len(),
                forall|x: int| 0 <= x < pre.entity_lookup@.len() ==> #[trigger] self.entity_lookup@[x] == pre.entity_lookup@[x],
                forall|x: int| pre.entity_lookup@.len() <= x < self.entity_lookup@.len() ==> #[trigger] self.entity_lookup@[x] is None,
                e < usize::MAX || e < self.entity_lookup@.len(),
            decreases e + 1 - self.entity_lookup@.len(),
        {
            self.entity_lookup.push(None);
        }
        let ghost grown = *self;
        proof {
            assert forall|x: int| #[trigger] grown.lookup(x) == pre.lookup(x) by {
            }
            assert(grown@ =~= pre@);
        }
        if k < n {
            proof {
                assert(self.archetypes@[k as int].types() == bundle_types);
                assert(self.archetypes@[k as int].wf());
            }
            let mut arch = Archetype::empty(TypeList::new());
            std::mem::swap(&mut arch, &mut self.archetypes[k]);
            let ghost old_arch = arch;
            let ghost mid = self.archetypes@;
            let row = arch.len();
            let AnyBundle(_types, entries) = entry_bundle;
            arch.push_row(e, entries);
            let ghost fin = arch;
            std::mem::swap(&mut arch, &mut self.archetypes[k]);
            self.entity_lookup.set(e, Some((k, row)));
            proof {
                assert(self.archetypes@ =~= pre.archetypes@.update(k as int, fin));
                assert(fin.row(row as int) == entry_bundle@);
                assert forall|x: int|
                    0 <= x < self.entity_lookup@.len() && (#[trigger] self.entity_lookup@[x]) is Some implies self.lookup_ok(x) by {
                    if x != e {
                        assert(self.entity_lookup@[x] == grown.entity_lookup@[x]);
                        assert(pre.lookup_ok(x));
                        let p = pre.entity_lookup@[x]->Some_0;
                        if p.0 == k {
                            assert(fin.ids()[p.1 as int] == old_arch.ids()[p.1 as int]);
                        }
                    }
                }
                assert forall|a: int, j: int|
                    0 <= a < self.archetypes@.len() && 0 <= j < self.archetypes@[a].ids().len() implies {
                        &&& (#[trigger] self.archetypes@[a].ids()[j]) < self.entity_lookup@.len()
                        &&& self.entity_lookup@[self.archetypes@[a].ids()[j] as int] is Some
                        &&& self.entity_lookup@[self.archetypes@[a].ids()[j] as int]->Some_0.0 == a
                        &&& self.entity_lookup@[self.archetypes@[a].ids()[j] as int]->Some_0.1 == j
                    } by {
                    if a == k && j == row {
                    } else {
                        assert(self.archetypes@[a].ids()[j] == pre.archetypes@[a].ids()[j]);
                        let x = pre.archetypes@[a].ids()[j];
                        assert(pre.entity_lookup@[x as int] is Some);
                        assert(x != e);
                    }
                }
                assert(self@ =~= pre@.insert(e, entry_bundle@)) by {
                    assert forall|x: usize| #[trigger] self@.contains_key(x) <==> pre@.insert(e, entry_bundle@).contains_key(x) by {
                        if x != e {
                            assert(self.lookup(x as int) == grown.lookup(x as int));
                        }
                    }
                    assert forall|x: usize| #[trigger] self@.contains_key(x) implies self@[x] == pre@.insert(e, entry_bundle@)[x] by {
                        if x != e {
                            assert(self.lookup(x as int) == pre.lookup(x as int));
                            pre.lemma_lookup(x as int);
                            let p = pre.lookup(x as int)->Some_0;
                            if p.0 == k {
                                assert(fin.row_entries(p.1 as int) == old_arch.row_entries(p.1 as int));
                            }
                        }
                    }
                }
                lemma_row_count_update(pre.archetypes@, k as int, fin);
                let lo = pre.layout();
                assert(lo[k as int].0 == bundle_types);
                let c = choose|c: int|
                    0 <= c < lo.len() && (#[trigger] lo[c]).0 == bundle_types && forall|b: int| 0 <= b < c ==> (#[trigger] lo[b]).0 != bundle_types;
                assert(forall|b: int| 0 <= b < k ==> (#[trigger] lo[b]).0 != bundle_types);
                if c < k {
                    assert(lo[c].0 != bundle_types);
                } else if c > k {
                    assert(lo[k as int].0 != bundle_types);
                }
                assert(self.layout() =~= layout_after_append(lo, bundle_types, e));
            }
        } else {
            let new_arch = Archetype::try_from_any_entry_bundle(Some(e), entry_bundle);
            self.entity_lookup.set(e, Some((n, 0)));
            self.archetypes.push(new_arch);
            proof {
                assert(new_arch.wf());
                assert(new_arch.row_entries(0) =~= entry_bundle.1@);
                assert(self.archetypes@ =~= pre.archetypes@.push(new_arch));
                assert forall|x: int|
                    0 <= x < self.entity_lookup@.len() && (#[trigger] self.entity_lookup@[x]) is Some implies self.lookup_ok(x) by {
                    if x != e {
                        assert(self.entity_lookup@[x] == grown.entity_lookup@[x]);
                        assert(pre.lookup_ok(x));
                    }
                }
                assert forall|a: int, j: int|
                    0 <= a < self.archetypes@.len() && 0 <= j < self.archetypes@[a].ids().len() implies {
                        &&& (#[trigger] self.archetypes@[a].ids()[j]) < self.entity_lookup@.len()
                        &&& self.entity_lookup@[self.archetypes@[a].ids()[j] as int] is Some
                        &&& self.entity_lookup@[self.archetypes@[a].ids()[j] as int]->Some_0.0 == a
                        &&& self.entity_lookup@[self.archetypes@[a].ids()[j] as int]->Some_0.1 == j
                    } by {
                    if a < n {
                        let x = pre.archetypes@[a].ids()[j];
                        assert(pre.entity_lookup@[x as int] is Some);
                        assert(x != e);
                    }
                }
                assert(self@ =~= pre@.insert(e, entry_bundle@)) by {
                    assert forall|x: usize| #[trigger] self@.contains_key(x) <==> pre@.insert(e, entry_bundle@).contains_key(x) by {
                        if x != e {
                            assert(self.lookup(x as int) == grown.lookup(x as int));
                        }
                    }
                    assert forall|x: usize| #[trigger] self@.contains_key(x) implies self@[x] == pre@.insert(e, entry_bundle@)[x] by {
                        if x != e {
                            assert(self.lookup(x as int) == pre.lookup(x as int));
                            pre.lemma_lookup(x as int);
                        }
                    }
                }
                lemma_row_count_push(pre.archetypes@, new_arch);
                let lo = pre.layout();
                assert(!exists|a: int| 0 <= a < lo.len() && (#[trigger] lo[a]).0 == bundle_types) by {
                    if exists|a: int| 0 <= a < lo.len() && (#[trigger] lo[a]).0 == bundle_types {
                        let a = choose|a: int| 0 <= a < lo.len() && (#[trigger] lo[a]).0 == bundle_types;
                        assert(pre.archetypes@[a].types() == bundle_types);
                    }
                }
                assert(self.layout() =~= layout_after_append(lo, bundle_types, e));
            }
        }
    }
}

impl<V> Default for AllArchetypes<V> {
    fn default() -> (s: Self)
        ensures
            s.wf(),
            s@ == Map::<usize, Map<u64, Entry<V>>>::empty(),
            s.archs().len() == 0,
    {
        AllArchetypes::new()
    }
}

/// The slots that `wanted` names, in its order: slot `c` of `slots` for
/// `Some(c)`, `None` for `None`. No slot is named twice.
fn pick_slots<'a, V>(slots: Vec<Option<&'a mut V>>, wanted: &[Option<usize>]) -> (r: Vec<Option<&'a mut V>>)
    requires
        forall|k: int| 0 <= k < wanted@.len() && (#[trigger] wanted@[k]) is Some ==> wanted@[k]->Some_0 < slots@.len(),
        forall|k: int, j: int|
            0 <= k < j < wanted@.len() && (#[trigger] wanted@[k]) is Some && (#[trigger] wanted@[j]) is Some ==> wanted@[k] != wanted@[j],
    ensures
        r@.len() == wanted@.len(),
        forall|k: int| 0 <= k < r@.len() ==> (#[trigger] r@[k]) == match wanted@[k] {
            Some(c) => slots@[c as int],
            None => None,
        },
{
    let ghost cs = slots@;
    let n = slots.len();
    let mut slots = slots;
    let mut r: Vec<Option<&'a mut V>> = Vec::new();
    let m = wanted.len();
    let mut k: usize = 0;
    while k < m
        invariant
            m == wanted@.len(),
            k <= m,
            slots@.len() == n,
            n == cs.len(),
            r@.len() == k,
            forall|j: int| 0 <= j < k ==> (#[trigger] r@[j]) == match wanted@[j] {
                Some(c) => cs[c as int],
                None => None,
            },
            forall|c: int|
                0 <= c < n ==> (#[trigger] slots@[c]) == (if exists|j: int| 0 <= j < k && #[trigger] wanted@[j] == Some(c as usize) {
                    None
                } else {
                    cs[c]
                }),
            forall|q: int| 0 <= q < wanted@.len() && (#[trigger] wanted@[q]) is Some ==> wanted@[q]->Some_0 < cs.len(),
            forall|q: int, j: int|
                0 <= q < j < wanted@.len() && (#[trigger] wanted@[q]) is Some && (#[trigger] wanted@[j]) is Some ==> wanted@[q] != wanted@[j],
        decreases m - k,
    {
        match wanted[k] {
            Some(c) => {
                let ghost before = slots@;
                let x = slots[c].take();
                proof {
                    assert(!exists|j: int| 0 <= j < k && #[trigger] wanted@[j] == Some(c)) by {
                        if exists|j: int| 0 <= j < k && #[trigger] wanted@[j] == Some(c) {
                            let j = choose|j: int| 0 <= j < k && #[trigger] wanted@[j] == Some(c);
                            assert(wanted@[j] != wanted@[k as int]);
                        }
                    }
                    assert(x == cs[c as int]);
                }
                r.push(x);
                proof {
                    assert forall|d: int| 0 <= d < n implies (#[trigger] slots@[d]) == (if exists|j: int|
                        0 <= j < k + 1 && #[trigger] wanted@[j] == Some(d as usize) {
                        None
                    } else {
                        cs[d]
                    }) by {
                        if d != c {
                            assert(slots@[d] == before[d]);
                            if exists|j: int| 0 <= j < k + 1 && #[trigger] wanted@[j] == Some(d as usize) {
                                let j = choose|j: int| 0 <= j < k + 1 && #[trigger] wanted@[j] == Some(d as usize);
                                assert(j < k);
                            }
                        } else {
                            assert(wanted@[k as int] == Some(d as usize));
                        }
                    }
                }
            },
            None => {
                r.push(None);
                proof {
                    assert forall|d: int| 0 <= d < n implies (#[trigger] slots@[d]) == (if exists|j: int|
                        0 <= j < k + 1 && #[trigger] wanted@[j] == Some(d as usize) {
                        None
                    } else {
                        cs[d]
                    }) by {
                        if exists|j: int| 0 <= j < k + 1 && #[trigger] wanted@[j] == Some(d as usize) {
                            let j = choose|j: int| 0 <= j < k + 1 && #[trigger] wanted@[j] == Some(d as usize);
                            assert(j < k);
                        }
                    }
                }
            },
        }
        k += 1;
    }
    r
}

} // verus!
