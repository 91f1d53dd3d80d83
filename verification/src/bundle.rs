//! Type-erased bundles of components, ordered by component type key.
use vstd::prelude::*;

use crate::entry::Entry;
use crate::type_list::{type_list_items, TypeList};

verus! {

/// Why a list of component type keys cannot describe a bundle.
#[derive(Debug, PartialEq, Eq, Structural)]
pub enum TypeInfoError {
    /// A type occurs more than once.
    Duplicate,
    /// The types are not in ascending order.
    Unsorted,
}

/// Why a component could not be taken out of a bundle.
#[derive(Debug, PartialEq, Eq, Structural)]
pub enum BundleError {
    /// The bundle holds no component of the requested type.
    MissingType,
}

/// Whether the keys are in strictly ascending order.
pub open spec fn strictly_ascending(s: Seq<u64>) -> bool {
    forall|i: int, j: int| 0 <= i < j < s.len() ==> #[trigger] s[i] < #[trigger] s[j]
}

/// Whether each adjacent pair before position `n` is in strictly ascending
/// order.
pub open spec fn ascending_before(s: Seq<u64>, n: int) -> bool {
    forall|i: int| 0 <= i < n && i + 1 < s.len() ==> #[trigger] s[i] < s[i + 1]
}

/// The map from type key to component that parallel sequences describe.
pub open spec fn bundle_view<V>(types: Seq<u64>, values: Seq<V>) -> Map<u64, V> {
    Map::new(|t: u64| types.contains(t), |t: u64| values[types.index_of(t)])
}

/// In strictly ascending keys, a key is found at its own position.
pub proof fn lemma_index_of_ascending(s: Seq<u64>, i: int)
    requires
        strictly_ascending(s),
        0 <= i < s.len(),
    ensures
        s.contains(s[i]),
        s.index_of(s[i]) == i,
{
    assert(s.contains(s[i]));
    let j = s.index_of(s[i]);
    if j < i {
        assert(s[j] < s[i]);
    } else if j > i {
        assert(s[i] < s[j]);
    }
}

proof fn lemma_adjacent_ascending_pair(s: Seq<u64>, i: int, j: int)
    requires
        ascending_before(s, s.len() as int),
        0 <= i < j < s.len(),
    ensures
        s[i] < s[j],
    decreases j - i,
{
    assert(s[j - 1] < s[j]);
    if i < j - 1 {
        lemma_adjacent_ascending_pair(s, i, j - 1);
    }
}

/// Adjacent ascending order gives ascending order between any two positions.
pub proof fn lemma_adjacent_ascending(s: Seq<u64>)
    requires
        ascending_before(s, s.len() as int),
    ensures
        strictly_ascending(s),
{
    assert forall|i: int, j: int| 0 <= i < j < s.len() implies #[trigger] s[i] < #[trigger] s[j] by {
        lemma_adjacent_ascending_pair(s, i, j);
    }
}

/// Checks that component type keys are strictly ascending, which is what
/// a bundle's type information must be.
///
/// Errs with `Duplicate` or `Unsorted` according to the first adjacent pair
/// that is not in strictly ascending order.
pub fn ensure_type_info(types: &[u64]) -> (r: Result<(), TypeInfoError>)
    ensures
        r is Ok <==> strictly_ascending(types@),
        r == Ok::<(), TypeInfoError>(()) || exists|i: int|
            0 <= i < types@.len() - 1 && ascending_before(types@, i) && #[trigger] types@[i] >= types@[i + 1]
                && r == if types@[i] == types@[i + 1] {
                Err::<(), TypeInfoError>(TypeInfoError::Duplicate)
            } else {
                Err::<(), TypeInfoError>(TypeInfoError::Unsorted)
            },
{
    let n = types.len();
    let mut i: usize = 0;
    while i + 1 < n
        invariant
            n == types@.len(),
            i <= n,
            i + 1 <= n || n == 0,
            ascending_before(types@, i as int),
        decreases n - i,
    {
        if types[i] < types[i + 1] {
            i += 1;
        } else if types[i] == types[i + 1] {
            assert(types@[i as int] >= types@[i + 1]);
            return Err(TypeInfoError::Duplicate);
        } else {
            assert(types@[i as int] >= types@[i + 1]);
            return Err(TypeInfoError::Unsorted);
        }
    }
    proof {
        assert(ascending_before(types@, types@.len() as int));
        lemma_adjacent_ascending(types@);
    }
    Ok(())
}

/// Inserting a key at a position that keeps the keys ascending inserts it
/// into the described map.
pub proof fn lemma_bundle_view_insert<V>(types: Seq<u64>, values: Seq<V>, i: int, ty: u64, v: V)
    requires
        types.len() == values.len(),
        0 <= i <= types.len(),
        strictly_ascending(types.insert(i, ty)),
    ensures
        strictly_ascending(types),
        !types.contains(ty),
        bundle_view(types.insert(i, ty), values.insert(i, v)) == bundle_view(types, values).insert(ty, v),
{
    let nt = types.insert(i, ty);
    let nv = values.insert(i, v);
    assert forall|a: int, b: int| 0 <= a < b < types.len() implies #[trigger] types[a] < #[trigger] types[b] by {
        let na = if a < i { a } else { a + 1 };
        let nb = if b < i { b } else { b + 1 };
        assert(nt[na] == types[a] && nt[nb] == types[b]);
    }
    if types.contains(ty) {
        let k = types.index_of(ty);
        let nk = if k < i { k } else { k + 1 };
        assert(nt[nk] == ty && nt[i] == ty);
        assert(false);
    }
    let lhs = bundle_view(nt, nv);
    let rhs = bundle_view(types, values).insert(ty, v);
    assert forall|t: u64| lhs.contains_key(t) <==> rhs.contains_key(t) by {
        if nt.contains(t) && t != ty {
            let k = nt.index_of(t);
            assert(k != i);
            let ok = if k < i { k } else { k - 1 };
            assert(types[ok] == t);
        }
        if types.contains(t) {
            let k = types.index_of(t);
            let nk = if k < i { k } else { k + 1 };
            assert(nt[nk] == t);
        }
        if t == ty {
            assert(nt[i] == ty);
        }
    }
    assert forall|t: u64| lhs.contains_key(t) implies lhs[t] == rhs[t] by {
        if t == ty {
            lemma_index_of_ascending(nt, i);
        } else {
            let k = types.index_of(t);
            let nk = if k < i { k } else { k + 1 };
            assert(nt[nk] == t);
            lemma_index_of_ascending(nt, nk);
            lemma_index_of_ascending(types, k);
        }
    }
    assert(lhs =~= rhs);
}

/// Overwriting the value at a position overwrites the value of its key.
pub proof fn lemma_bundle_view_update<V>(types: Seq<u64>, values: Seq<V>, i: int, v: V)
    requires
        types.len() == values.len(),
        0 <= i < types.len(),
        strictly_ascending(types),
    ensures
        bundle_view(types, values.update(i, v)) == bundle_view(types, values).insert(types[i], v),
        bundle_view(types, values).contains_key(types[i]),
        bundle_view(types, values)[types[i]] == values[i],
{
    lemma_index_of_ascending(types, i);
    let lhs = bundle_view(types, values.update(i, v));
    let rhs = bundle_view(types, values).insert(types[i], v);
    assert forall|t: u64| lhs.contains_key(t) implies lhs[t] == rhs[t] by {
        let k = types.index_of(t);
        lemma_index_of_ascending(types, k);
    }
    assert(lhs =~= rhs);
}

/// Removing a position removes its key.
pub proof fn lemma_bundle_view_remove<V>(types: Seq<u64>, values: Seq<V>, i: int)
    requires
        types.len() == values.len(),
        0 <= i < types.len(),
        strictly_ascending(types),
    ensures
        strictly_ascending(types.remove(i)),
        bundle_view(types, values).contains_key(types[i]),
        bundle_view(types, values)[types[i]] == values[i],
        bundle_view(types.remove(i), values.remove(i)) == bundle_view(types, values).remove(types[i]),
{
    lemma_index_of_ascending(types, i);
    let nt = types.remove(i);
    let nv = values.remove(i);
    assert forall|a: int, b: int| 0 <= a < b < nt.len() implies #[trigger] nt[a] < #[trigger] nt[b] by {
        let oa = if a < i { a } else { a + 1 };
        let ob = if b < i { b } else { b + 1 };
        assert(nt[a] == types[oa] && nt[b] == types[ob]);
    }
    let lhs = bundle_view(nt, nv);
    let rhs = bundle_view(types, values).remove(types[i]);
    assert forall|t: u64| lhs.contains_key(t) <==> rhs.contains_key(t) by {
        if nt.contains(t) {
            let k = nt.index_of(t);
            let ok = if k < i { k } else { k + 1 };
            assert(types[ok] == t);
            assert(ok != i);
        }
        if types.contains(t) && t != types[i] {
            let k = types.index_of(t);
            assert(k != i);
            let nk = if k < i { k } else { k - 1 };
            assert(nt[nk] == t);
        }
    }
    assert forall|t: u64| lhs.contains_key(t) implies lhs[t] == rhs[t] by {
        let k = nt.index_of(t);
        let ok = if k < i { k } else { k + 1 };
        assert(types[ok] == t);
        lemma_index_of_ascending(types, ok);
        lemma_index_of_ascending(nt, k);
    }
    assert(lhs =~= rhs);
}

/// Sort component type keys into ascending order, as a bundle's type
/// information.
///
/// Errs with `Duplicate` when a key occurs more than once.
pub fn ordered_types(types: &[u64]) -> (r: Result<TypeList, TypeInfoError>)
    ensures
        match r {
            Ok(list) => {
                &&& types@.no_duplicates()
                &&& strictly_ascending(type_list_items(list))
                &&& type_list_items(list).to_set() == types@.to_set()
                &&& type_list_items(list).len() == types@.len()
            },
            Err(e) => !types@.no_duplicates() && e == TypeInfoError::Duplicate,
        },
{
    let mut list = TypeList::new();
    let n = types.len();
    let mut i: usize = 0;
    while i < n
        invariant
            n == types@.len(),
            i <= n,
            types@.take(i as int).no_duplicates(),
            strictly_ascending(type_list_items(list)),
            type_list_items(list).to_set() == types@.take(i as int).to_set(),
            type_list_items(list).len() == i,
        decreases n - i,
    {
        let ty = types[i];
        let ghost items = type_list_items(list);
        let m = list.len();
        let mut j: usize = 0;
        while j < m && list.get(j) < ty
            invariant
                m == items.len(),
                items == type_list_items(list),
                j <= m,
                forall|k: int| 0 <= k < j ==> #[trigger] items[k] < ty,
            decreases m - j,
        {
            j += 1;
        }
        if j < m && list.get(j) == ty {
            proof {
                assert(items.to_set().contains(ty));
                assert(types@.take(i as int).to_set().contains(ty));
                let k = choose|k: int| 0 <= k < i && types@.take(i as int)[k] == ty;
                assert(types@[k] == types@[i as int]);
            }
            return Err(TypeInfoError::Duplicate);
        }
        list.insert(j, ty);
        proof {
            let nl = items.insert(j as int, ty);
            assert(type_list_items(list) == nl);
            assert(!items.contains(ty)) by {
                if items.contains(ty) {
                    let k = items.index_of(ty);
                    if k < j {
                        assert(items[k] < ty);
                    } else if k > j {
                        assert(items[j as int] < items[k]);
                        assert(items[j as int] >= ty);
                    }
                }
            }
            assert forall|a: int, b: int| 0 <= a < b < nl.len() implies #[trigger] nl[a] < #[trigger] nl[b] by {
                if a < j && b > j {
                    assert(items[a] < ty);
                    assert(items[b - 1] >= items[j as int]);
                } else if a == j {
                    assert(items[b - 1] >= items[j as int]);
                    assert(items[j as int] != ty);
                } else if b == j {
                    assert(items[a] < ty);
                } else if a < j && b < j {
                    assert(items[a] < items[b]);
                } else {
                    assert(items[a - 1] < items[b - 1]);
                }
            }
            let pre = types@.take(i as int);
            let post = types@.take(i + 1);
            assert(post =~= pre.push(ty));
            assert(!pre.contains(ty)) by {
                if pre.contains(ty) {
                    assert(pre.to_set().contains(ty));
                }
            }
            assert(post.no_duplicates()) by {
                assert forall|a: int, b: int| 0 <= a < post.len() && 0 <= b < post.len() && a != b implies post[a] != post[b] by {
                    if a < i && b < i {
                    } else if a == i {
                        assert(pre.contains(pre[b]));
                    } else {
                        assert(pre.contains(pre[a]));
                    }
                }
            }
            assert(nl.to_set() =~= post.to_set()) by {
                assert forall|x: u64| nl.to_set().contains(x) <==> post.to_set().contains(x) by {
                    if nl.contains(x) {
                        let k = nl.index_of(x);
                        if k != j {
                            let ok = if k < j { k } else { k - 1 };
                            assert(items[ok] == x);
                            assert(items.to_set().contains(x));
                            assert(pre.to_set().contains(x));
                            let q = pre.index_of(x);
                            assert(post[q] == x);
                        } else {
                            assert(post[i as int] == x);
                        }
                    }
                    if post.contains(x) {
                        let k = post.index_of(x);
                        if k < i {
                            assert(pre[k] == x);
                            assert(pre.to_set().contains(x));
                            assert(items.to_set().contains(x));
                            let q = items.index_of(x);
                            let nq = if q < j { q } else { q + 1 };
                            assert(nl[nq] == x);
                        } else {
                            assert(nl[j as int] == x);
                        }
                    }
                }
            }
        }
        i += 1;
    }
    proof {
        assert(types@.take(n as int) =~= types@);
    }
    Ok(list)
}

/// Two strictly ascending sequences with the same elements are equal.
pub proof fn lemma_ascending_set_eq(a: Seq<u64>, b: Seq<u64>)
    requires
        strictly_ascending(a),
        strictly_ascending(b),
        a.to_set() == b.to_set(),
    ensures
        a == b,
    decreases a.len(),
{
    if a.len() == 0 {
        if b.len() > 0 {
            assert(b.to_set().contains(b[0]));
        }
        assert(b.len() == 0);
    } else if b.len() == 0 {
        assert(a.to_set().contains(a[0]));
    } else {
        let la = a.last();
        let lb = b.last();
        assert(a.to_set().contains(la));
        assert(b.to_set().contains(lb));
        let ia = a.index_of(lb);
        let ib = b.index_of(la);
        if la < lb {
            assert(a[ia] == lb);
            if ia < a.len() - 1 {
                assert(a[ia] < a[a.len() - 1]);
            }
        } else if lb < la {
            assert(b[ib] == la);
            if ib < b.len() - 1 {
                assert(b[ib] < b[b.len() - 1]);
            }
        }
        assert(la == lb);
        let da = a.drop_last();
        let db = b.drop_last();
        assert forall|i: int, j: int| 0 <= i < j < da.len() implies #[trigger] da[i] < #[trigger] da[j] by {
            assert(a[i] < a[j]);
        }
        assert forall|i: int, j: int| 0 <= i < j < db.len() implies #[trigger] db[i] < #[trigger] db[j] by {
            assert(b[i] < b[j]);
        }
        assert(da.to_set() =~= db.to_set()) by {
            assert forall|x: u64| da.to_set().contains(x) <==> db.to_set().contains(x) by {
                if da.contains(x) {
                    let k = da.index_of(x);
                    assert(a[k] == x);
                    assert(a[k] < la);
                    assert(b.to_set().contains(x));
                    let q = b.index_of(x);
                    assert(q != b.len() - 1);
                    assert(db[q] == x);
                }
                if db.contains(x) {
                    let k = db.index_of(x);
                    assert(b[k] == x);
                    assert(b[k] < lb);
                    assert(a.to_set().contains(x));
                    let q = a.index_of(x);
                    assert(q != a.len() - 1);
                    assert(da[q] == x);
                }
            }
        }
        lemma_ascending_set_eq(da, db);
        assert(a =~= da.push(la));
        assert(b =~= db.push(lb));
    }
}

/// In a sequence without duplicates, an element is found at its own
/// position.
pub proof fn lemma_index_of_unique<A>(s: Seq<A>, i: int)
    requires
        s.no_duplicates(),
        0 <= i < s.len(),
    ensures
        s.contains(s[i]),
        s.index_of(s[i]) == i,
{
    assert(s.contains(s[i]));
}

/// A type-erased bundle of components: type keys in strictly ascending
/// order, and one component per key, at the same position.
pub struct AnyBundle<V>(pub TypeList, pub Vec<V>);

impl<V> View for AnyBundle<V> {
    type V = Map<u64, V>;

    open spec fn view(&self) -> Map<u64, V> {
        bundle_view(type_list_items(self.0), self.1@)
    }
}

impl<V> AnyBundle<V> {
    /// The keys are strictly ascending and each has one component.
    pub open spec fn wf(&self) -> bool {
        &&& strictly_ascending(type_list_items(self.0))
        &&& type_list_items(self.0).len() == self.1@.len()
    }

    /// An empty bundle.
    pub fn new() -> (b: Self)
        ensures
            b.wf(),
            b@ == Map::<u64, V>::empty(),
            type_list_items(b.0) == Seq::<u64>::empty(),
    {
        let b = AnyBundle(TypeList::new(), Vec::new());
        assert(b@ =~= Map::<u64, V>::empty());
        b
    }

    /// Insert the component at the given type, returning the component that
    /// was stored at that type before, if any.
    pub fn insert(&mut self, ty: u64, comp: V) -> (prev: Option<V>)
        requires
            old(self).wf(),
        ensures
            final(self).wf(),
            final(self)@ == old(self)@.insert(ty, comp),
            prev == (if old(self)@.contains_key(ty) { Some(old(self)@[ty]) } else { None::<V> }),
    {
        let ghost types = type_list_items(self.0);
        let ghost values = self.1@;
        let n = self.0.len();
        let mut i: usize = 0;
        while i < n
            invariant
                n == types.len(),
                types == type_list_items(self.0),
                values == self.1@,
                *self == *old(self),
                self.wf(),
                i <= n,
                forall|k: int| 0 <= k < i ==> #[trigger] types[k] < ty,
            decreases n - i,
        {
            let t = self.0.get(i);
            if ty < t {
                self.0.insert(i, ty);
                self.1.insert(i, comp);
                proof {
                    assert(type_list_items(self.0) == types.insert(i as int, ty));
                    assert(self.1@ == values.insert(i as int, comp));
                    let nt = types.insert(i as int, ty);
                    assert forall|a: int, b: int| 0 <= a < b < nt.len() implies #[trigger] nt[a] < #[trigger] nt[b] by {
                        if a < i && b == i {
                        } else if a == i {
                            assert(types[b - 1] >= types[i as int]);
                        }
                        if b > i && a != i {
                            let oa = if a < i { a } else { a - 1 };
                            assert(types[oa] < types[b - 1]);
                        }
                        if a < i && b < i {
                            assert(types[a] < types[b]);
                        }
                    }
                    lemma_bundle_view_insert(types, values, i as int, ty, comp);
                }
                return None;
            } else if ty == t {
                let mut comp = comp;
                let mut old_comp = self.1.remove(i);
                std::mem::swap(&mut old_comp, &mut comp);
                self.1.insert(i, old_comp);
                proof {
                    assert(self.1@ =~= values.update(i as int, old_comp));
                    lemma_bundle_view_update(types, values, i as int, old_comp);
                }
                return Some(comp);
            }
            i += 1;
        }
        self.0.push(ty);
        self.1.push(comp);
        proof {
            let nt = types.insert(n as int, ty);
            assert(type_list_items(self.0) =~= nt);
            assert(self.1@ =~= values.insert(n as int, comp));
            assert forall|a: int, b: int| 0 <= a < b < nt.len() implies #[trigger] nt[a] < #[trigger] nt[b] by {
                if b < n {
                    assert(types[a] < types[b]);
                }
            }
            lemma_bundle_view_insert(types, values, n as int, ty, comp);
        }
        None
    }

    /// Whether the bundle holds no components.
    pub fn is_empty(&self) -> (b: bool)
        requires
            self.wf(),
        ensures
            b == (self@ == Map::<u64, V>::empty()),
    {
        let b = self.0.is_empty();
        proof {
            if !b {
                assert(self@.contains_key(type_list_items(self.0)[0]));
            } else {
                assert(self@ =~= Map::<u64, V>::empty());
            }
        }
        b
    }

    /// The position of the given type, if the bundle holds it.
    fn index_of(&self, ty: u64) -> (r: Option<usize>)
        requires
            self.wf(),
        ensures
            match r {
                Some(i) => i < type_list_items(self.0).len() && type_list_items(self.0)[i as int] == ty,
                None => !self@.contains_key(ty),
            },
    {
        let n = self.0.len();
        let mut i: usize = 0;
        while i < n
            invariant
                n == type_list_items(self.0).len(),
                i <= n,
                forall|k: int| 0 <= k < i ==> #[trigger] type_list_items(self.0)[k] != ty,
            decreases n - i,
        {
            if self.0.get(i) == ty {
                return Some(i);
            }
            i += 1;
        }
        None
    }

    /// Remove a type from the bundle and return it as a bundle of its own.
    pub fn remove_any(&mut self, ty: u64) -> (r: Option<Self>)
        requires
            old(self).wf(),
        ensures
            final(self).wf(),
            final(self)@ == old(self)@.remove(ty),
            match r {
                Some(b) => {
                    &&& old(self)@.contains_key(ty)
                    &&& b.wf()
                    &&& b@ == Map::<u64, V>::empty().insert(ty, old(self)@[ty])
                },
                None => !old(self)@.contains_key(ty) && *final(self) == *old(self),
            },
    {
        let ghost types = type_list_items(self.0);
        let ghost values = self.1@;
        match self.index_of(ty) {
            None => {
                proof {
                    assert(self@.remove(ty) =~= self@);
                }
                None
            },
            Some(index) => {
                let t = self.0.remove(index);
                let elem = self.1.remove(index);
                proof {
                    lemma_bundle_view_remove(types, values, index as int);
                }
                let mut b = AnyBundle::new();
                b.insert(t, elem);
                Some(b)
            },
        }
    }

    /// Remove a component from the bundle and return it.
    ///
    /// Errs with `MissingType` when the bundle holds no component of the type.
    pub fn remove(&mut self, ty: u64) -> (r: Result<V, BundleError>)
        requires
            old(self).wf(),
        ensures
            final(self).wf(),
            final(self)@ == old(self)@.remove(ty),
            match r {
                Ok(v) => old(self)@.contains_key(ty) && v == old(self)@[ty],
                Err(e) => !old(self)@.contains_key(ty) && e == BundleError::MissingType,
            },
    {
        let ghost types = type_list_items(self.0);
        let ghost values = self.1@;
        match self.index_of(ty) {
            None => {
                proof {
                    assert(self@.remove(ty) =~= self@);
                }
                Err(BundleError::MissingType)
            },
            Some(index) => {
                let _ = self.0.remove(index);
                let head = self.1.remove(index);
                proof {
                    lemma_bundle_view_remove(types, values, index as int);
                }
                Ok(head)
            },
        }
    }

    /// The bundle of entries that carries each component for entity `id`,
    /// added at `iteration`.
    pub fn into_entry_bundle(self, id: usize, iteration: u64) -> (b: AnyBundle<Entry<V>>)
        requires
            self.wf(),
        ensures
            b.wf(),
            type_list_items(b.0) == type_list_items(self.0),
            b@ == self@.map_values(|v: V| Entry::spec_new(id, v, iteration)),
            forall|c: int| 0 <= c < b.1@.len() ==> (#[trigger] b.1@[c]).key == id,
    {
        let AnyBundle(types, values) = self;
        let ghost vs = values@;
        let mut values = values;
        let mut rev: Vec<V> = Vec::new();
        while values.len() > 0
            invariant
                values@ == vs.take(values@.len() as int),
                rev@.len() + values@.len() == vs.len(),
                forall|k: int| 0 <= k < rev@.len() ==> #[trigger] rev@[k] == vs[vs.len() - 1 - k],
            decreases values@.len(),
        {
            let v = values.pop().unwrap();
            rev.push(v);
            proof {
                assert(values@ =~= vs.take(values@.len() as int));
            }
        }
        let mut entries: Vec<Entry<V>> = Vec::new();
        while rev.len() > 0
            invariant
                rev@.len() + entries@.len() == vs.len(),
                forall|k: int| 0 <= k < rev@.len() ==> #[trigger] rev@[k] == vs[vs.len() - 1 - k],
                forall|k: int| 0 <= k < entries@.len() ==> #[trigger] entries@[k] == Entry::spec_new(id, vs[k], iteration),
            decreases rev@.len(),
        {
            let v = rev.pop().unwrap();
            entries.push(Entry::new(id, v, iteration));
        }
        let b = AnyBundle(types, entries);
        proof {
            let ts = type_list_items(types);
            assert(b@ =~= bundle_view(ts, vs).map_values(|v: V| Entry::spec_new(id, v, iteration))) by {
                assert forall|t: u64| #[trigger] ts.contains(t) implies b@[t] == Entry::spec_new(id, vs[ts.index_of(t)], iteration) by {
                }
            }
        }
        b
    }

    /// The type keys of the bundle, in ascending order.
    pub fn type_info(&self) -> (t: &TypeList)
        ensures
            *t == self.0,
    {
        &self.0
    }

    /// Merge the given bundle into `self`, returning the components of `self`
    /// whose types `other` also holds, if there are any.
    pub fn union(&mut self, other: Self) -> (r: Option<Self>)
        requires
            old(self).wf(),
            other.wf(),
        ensures
            final(self).wf(),
            final(self)@ == old(self)@.union_prefer_right(other@),
            match r {
                Some(b) => b.wf() && b@ == old(self)@.restrict(other@.dom()) && old(self)@.dom().intersect(other@.dom()) != Set::<u64>::empty(),
                None => old(self)@.dom().intersect(other@.dom()) == Set::<u64>::empty(),
            },
    {
        let ghost self0 = self@;
        let ghost other0 = other@;
        let mut other = other;
        let mut to_caller: AnyBundle<V> = AnyBundle::new();
        let ghost mut done: Set<u64> = Set::empty();
        while !other.0.is_empty()
            invariant
                self.wf(),
                other.wf(),
                to_caller.wf(),
                other@.dom().disjoint(done),
                other0 == other@.union_prefer_right(other0.restrict(done)),
                done.subset_of(other0.dom()),
                self@ == self0.union_prefer_right(other0.restrict(done)),
                to_caller@ == self0.restrict(done),
            decreases type_list_items(other.0).len(),
        {
            let ghost ot = type_list_items(other.0);
            let ghost ov = other.1@;
            let ty = other.0.remove(0);
            let v = other.1.remove(0);
            proof {
                lemma_bundle_view_remove(ot, ov, 0);
                assert(other0.contains_key(ty) && other0[ty] == v);
            }
            let prev = self.insert(ty, v);
            match prev {
                Some(w) => {
                    to_caller.insert(ty, w);
                },
                None => {},
            }
            proof {
                let nd = done.insert(ty);
                assert(!done.contains(ty));
                assert(self@ =~= self0.union_prefer_right(other0.restrict(nd)));
                assert(to_caller@ =~= self0.restrict(nd));
                assert(other0 =~= other@.union_prefer_right(other0.restrict(nd)));
                done = nd;
            }
        }
        proof {
            assert(type_list_items(other.0).len() == 0);
            assert(other@ =~= Map::<u64, V>::empty());
            assert(other0.restrict(done) =~= other0);
            assert(done =~= other0.dom());
        }
        if to_caller.is_empty() {
            proof {
                assert forall|t: u64| !(self0.dom().intersect(other0.dom()).contains(t)) by {
                    if self0.dom().contains(t) && other0.dom().contains(t) {
                        assert(to_caller@.contains_key(t));
                    }
                }
                assert(self0.dom().intersect(other0.dom()) =~= Set::<u64>::empty());
            }
            None
        } else {
            proof {
                assert(to_caller@ != Map::<u64, V>::empty());
                if self0.dom().intersect(other0.dom()) == Set::<u64>::empty() {
                    assert(to_caller@ =~= Map::<u64, V>::empty());
                }
            }
            Some(to_caller)
        }
    }
}


impl<V> AnyBundle<Entry<V>> {
    /// The bundle of the entries' component values.
    pub fn into_values(self) -> (b: AnyBundle<V>)
        requires
            self.wf(),
        ensures
            b.wf(),
            type_list_items(b.0) == type_list_items(self.0),
            b@ == self@.map_values(|en: Entry<V>| en.value),
    {
        let AnyBundle(types, entries) = self;
        let ghost es = entries@;
        let mut entries = entries;
        let mut rev: Vec<Entry<V>> = Vec::new();
        while entries.len() > 0
            invariant
                entries@ == es.take(entries@.len() as int),
                rev@.len() + entries@.len() == es.len(),
                forall|k: int| 0 <= k < rev@.len() ==> #[trigger] rev@[k] == es[es.len() - 1 - k],
            decreases entries@.len(),
        {
            let en = entries.pop().unwrap();
            rev.push(en);
            proof {
                assert(entries@ =~= es.take(entries@.len() as int));
            }
        }
        let mut values: Vec<V> = Vec::new();
        while rev.len() > 0
            invariant
                rev@.len() + values@.len() == es.len(),
                forall|k: int| 0 <= k < rev@.len() ==> #[trigger] rev@[k] == es[es.len() - 1 - k],
                forall|k: int| 0 <= k < values@.len() ==> #[trigger] values@[k] == es[k].value,
            decreases rev@.len(),
        {
            let en = rev.pop().unwrap();
            values.push(en.into_inner());
        }
        let b = AnyBundle(types, values);
        proof {
            let ts = type_list_items(types);
            assert(b@ =~= bundle_view(ts, es).map_values(|en: Entry<V>| en.value));
        }
        b
    }
}

/// In a well formed bundle, the component at each position is the one
/// the view gives for its key.
pub proof fn lemma_bundle_positions<V>(b: AnyBundle<V>)
    requires
        b.wf(),
    ensures
        forall|c: int| 0 <= c < b.1@.len() ==> b@.contains_key(#[trigger] type_list_items(b.0)[c]) && b@[type_list_items(b.0)[c]] == b.1@[c],
{
    assert forall|c: int| 0 <= c < b.1@.len() implies b@.contains_key(#[trigger] type_list_items(b.0)[c]) && b@[type_list_items(b.0)[c]] == b.1@[c] by {
        lemma_index_of_ascending(type_list_items(b.0), c);
    }
}


impl<V> AnyBundle<V> {
    /// The bundle of the given components, `values[c]` being of type
    /// `types[c]`.
    ///
    /// Errs with `Duplicate` when a type occurs more than once.
    pub fn from_pairs(types: &[u64], values: Vec<V>) -> (r: Result<Self, TypeInfoError>)
        requires
            types@.len() == values@.len(),
        ensures
            match r {
                Ok(b) => {
                    &&& types@.no_duplicates()
                    &&& b.wf()
                    &&& b@ == Map::new(|t: u64| types@.contains(t), |t: u64| values@[types@.index_of(t)])
                },
                Err(e) => !types@.no_duplicates() && e == TypeInfoError::Duplicate,
            },
    {
        let ghost vs = values@;
        let n = types.len();
        let mut rev: Vec<V> = Vec::new();
        let mut values = values;
        while values.len() > 0
            invariant
                values@ == vs.take(values@.len() as int),
                rev@.len() + values@.len() == vs.len(),
                forall|j: int| 0 <= j < rev@.len() ==> #[trigger] rev@[j] == vs[vs.len() - 1 - j],
            decreases values@.len(),
        {
            let x = values.pop().unwrap();
            rev.push(x);
            proof {
                assert(values@ =~= vs.take(values@.len() as int));
            }
        }
        let mut b: AnyBundle<V> = AnyBundle::new();
        let mut c: usize = 0;
        while c < n
            invariant
                n == types@.len(),
                n == vs.len(),
                c <= n,
                rev@.len() == n - c,
                forall|j: int| 0 <= j < rev@.len() ==> #[trigger] rev@[j] == vs[vs.len() - 1 - j],
                b.wf(),
                types@.take(c as int).no_duplicates(),
                b@ == Map::new(|t: u64| types@.take(c as int).contains(t), |t: u64| vs[types@.take(c as int).index_of(t)]),
            decreases n - c,
        {
            let v = rev.pop().unwrap();
            let ty = types[c];
            let ghost before = b@;
            let ghost t0 = types@.take(c as int);
            let ghost t1 = types@.take(c + 1);
            proof {
                assert(t1 =~= t0.push(ty));
                assert forall|t: u64| #[trigger] t1.contains(t) <==> (t0.contains(t) || t == ty) by {
                    if t == ty {
                        assert(t1[c as int] == ty);
                    }
                    if t1.contains(t) && t != ty {
                        let q = t1.index_of(t);
                        assert(t0[q] == t);
                    }
                    if t0.contains(t) {
                        let q = t0.index_of(t);
                        assert(t1[q] == t);
                    }
                }
            }
            match b.insert(ty, v) {
                Some(_) => {
                    proof {
                        assert(t0.contains(ty));
                        let q = t0.index_of(ty);
                        assert(types@[q] == types@[c as int] && q != c);
                    }
                    return Err(TypeInfoError::Duplicate);
                },
                None => {},
            }
            proof {
                assert(!t0.contains(ty));
                assert(t1.no_duplicates()) by {
                    assert forall|i: int, j: int| 0 <= i < t1.len() && 0 <= j < t1.len() && i != j implies t1[i] != t1[j] by {
                        if i == c {
                            assert(!t0.contains(t1[j]) || t1[j] != ty);
                        }
                        if j == c {
                            if t1[i] == ty {
                                assert(t0.contains(ty)) by {
                                    assert(t0[i] == ty);
                                }
                            }
                        }
                    }
                }
                lemma_index_of_unique(t1, c as int);
                assert forall|t: u64| t0.contains(t) implies t1.index_of(t) == t0.index_of(t) by {
                    let q = t0.index_of(t);
                    assert(t1[q] == t);
                    lemma_index_of_unique(t1, q);
                }
                assert(b@ =~= Map::new(|t: u64| t1.contains(t), |t: u64| vs[t1.index_of(t)]));
            }
            c += 1;
        }
        proof {
            assert(types@.take(n as int) =~= types@);
        }
        Ok(b)
    }

    /// The components of the given types, in that order; the bundle's other
    /// components are dropped.
    ///
    /// Errs with `MissingType` when the bundle holds no component of one of
    /// the types; a type given twice is missing the second time.
    pub fn take(self, types: &[u64]) -> (r: Result<Vec<V>, BundleError>)
        requires
            self.wf(),
        ensures
            match r {
                Ok(vs) => {
                    &&& types@.no_duplicates()
                    &&& forall|i: int| 0 <= i < types@.len() ==> self@.contains_key(#[trigger] types@[i])
                    &&& vs@.len() == types@.len()
                    &&& forall|i: int| 0 <= i < types@.len() ==> #[trigger] vs@[i] == self@[types@[i]]
                },
                Err(e) => e == BundleError::MissingType && !(types@.no_duplicates() && forall|i: int|
                    0 <= i < types@.len() ==> self@.contains_key(#[trigger] types@[i])),
            },
    {
        let ghost b0 = self@;
        let mut b = self;
        let mut vs: Vec<V> = Vec::new();
        let n = types.len();
        let mut c: usize = 0;
        let mut missing = false;
        while c < n && !missing
            invariant
                n == types@.len(),
                c <= n,
                b.wf(),
                missing ==> !(types@.no_duplicates() && forall|i: int| 0 <= i < types@.len() ==> b0.contains_key(#[trigger] types@[i])),
                types@.take(c as int).no_duplicates(),
                forall|i: int| 0 <= i < c ==> b0.contains_key(#[trigger] types@[i]),
                b@ == b0.remove_keys(types@.take(c as int).to_set()),
                vs@.len() == c,
                forall|i: int| 0 <= i < c ==> #[trigger] vs@[i] == b0[types@[i]],
            decreases n - c + (if missing { 0int } else { 1int }),
        {
            let ty = types[c];
            let ghost t0 = types@.take(c as int);
            let ghost t1 = types@.take(c + 1);
            proof {
                assert(t1 =~= t0.push(ty));
                assert(t1.to_set() =~= t0.to_set().insert(ty)) by {
                    assert forall|t: u64| #[trigger] t1.to_set().contains(t) == t0.to_set().insert(ty).contains(t) by {
                        if t == ty {
                            assert(t1[c as int] == ty);
                        }
                        if t1.contains(t) && t != ty {
                            let q = t1.index_of(t);
                            assert(t0[q] == t);
                        }
                        if t0.contains(t) {
                            let q = t0.index_of(t);
                            assert(t1[q] == t);
                        }
                    }
                }
            }
            match b.remove(ty) {
                Ok(v) => {
                    vs.push(v);
                    proof {
                        assert(!t0.contains(ty));
                        assert(t1.no_duplicates()) by {
                            assert forall|i: int, j: int| 0 <= i < t1.len() && 0 <= j < t1.len() && i != j implies t1[i] != t1[j] by {
                                if j == c && t1[i] == ty {
                                    assert(t0[i] == ty);
                                }
                                if i == c && t1[j] == ty {
                                    assert(t0[j] == ty);
                                }
                            }
                        }
                        assert(b@ =~= b0.remove_keys(t1.to_set()));
                    }
                },
                Err(_) => {
                    proof {
                        assert(!b0.remove_keys(t0.to_set()).contains_key(ty));
                        if types@.no_duplicates() && forall|i: int| 0 <= i < types@.len() ==> b0.contains_key(#[trigger] types@[i]) {
                            assert(b0.contains_key(ty));
                            assert(t0.to_set().contains(ty));
                            assert(t0.contains(ty));
                            let q = t0.index_of(ty);
                            assert(types@[q] == types@[c as int]);
                        }
                    }
                    missing = true;
                },
            }
            if !missing {
                c += 1;
            }
        }
        if missing {
            return Err(BundleError::MissingType);
        }
        proof {
            assert(types@.take(n as int) =~= types@);
        }
        Ok(vs)
    }
}

/// A tuple of components taken apart as its first component and the
/// tuple of the rest.
pub trait IsBundle: Sized {
    type Head;
    type Tail;

    /// The first component and the rest, if there is a first component.
    fn uncons(self) -> Option<(Self::Head, Option<Self::Tail>)>;

    /// The tuple of a first component and the rest.
    fn cons(head: Self::Head, tail: Self::Tail) -> Self;
}

impl IsBundle for () {
    type Head = ();
    type Tail = ();

    fn uncons(self) -> (r: Option<((), Option<()>)>)
        ensures
            r is None,
    {
        None
    }

    fn cons(head: (), tail: ()) -> (r: ()) {
    }
}

impl<A> IsBundle for (A,) {
    type Head = A;
    type Tail = ();

    fn uncons(self) -> (r: Option<(A, Option<()>)>)
        ensures
            r == Some((self.0, None::<()>)),
    {
        Some((self.0, None))
    }

    fn cons(head: A, tail: ()) -> (r: (A,))
        ensures
            r == (head,),
    {
        (head,)
    }
}

impl<A, B> IsBundle for (A, B) {
    type Head = A;
    type Tail = (B,);

    fn uncons(self) -> (r: Option<(A, Option<(B,)>)>)
        ensures
            r == Some((self.0, Some((self.1,)))),
    {
        Some((self.0, Some((self.1,))))
    }

    fn cons(head: A, tail: (B,)) -> (r: (A, B))
        ensures
            r == (head, tail.0),
    {
        (head, tail.0)
    }
}

impl<A, B, C> IsBundle for (A, B, C) {
    type Head = A;
    type Tail = (B, C);

    fn uncons(self) -> (r: Option<(A, Option<(B, C)>)>)
        ensures
            r == Some((self.0, Some((self.1, self.2)))),
    {
        Some((self.0, Some((self.1, self.2))))
    }

    fn cons(head: A, tail: (B, C)) -> (r: (A, B, C))
        ensures
            r == (head, tail.0, tail.1),
    {
        (head, tail.0, tail.1)
    }
}

impl<A, B, C, D> IsBundle for (A, B, C, D) {
    type Head = A;
    type Tail = (B, C, D);

    fn uncons(self) -> (r: Option<(A, Option<(B, C, D)>)>)
        ensures
            r == Some((self.0, Some((self.1, self.2, self.3)))),
    {
        Some((self.0, Some((self.1, self.2, self.3))))
    }

    fn cons(head: A, tail: (B, C, D)) -> (r: (A, B, C, D))
        ensures
            r == (head, tail.0, tail.1, tail.2),
    {
        (head, tail.0, tail.1, tail.2)
    }
}

impl<A, B, C, D, E> IsBundle for (A, B, C, D, E) {
    type Head = A;
    type Tail = (B, C, D, E);

    fn uncons(self) -> (r: Option<(A, Option<(B, C, D, E)>)>)
        ensures
            r == Some((self.0, Some((self.1, self.2, self.3, self.4)))),
    {
        Some((self.0, Some((self.1, self.2, self.3, self.4))))
    }

    fn cons(head: A, tail: (B, C, D, E)) -> (r: (A, B, C, D, E))
        ensures
            r == (head, tail.0, tail.1, tail.2, tail.3),
    {
        (head, tail.0, tail.1, tail.2, tail.3)
    }
}

impl<A, B, C, D, E, F> IsBundle for (A, B, C, D, E, F) {
    type Head = A;
    type Tail = (B, C, D, E, F);

    fn uncons(self) -> (r: Option<(A, Option<(B, C, D, E, F)>)>)
        ensures
            r == Some((self.0, Some((self.1, self.2, self.3, self.4, self.5)))),
    {
        Some((self.0, Some((self.1, self.2, self.3, self.4, self.5))))
    }

    fn cons(head: A, tail: (B, C, D, E, F)) -> (r: (A, B, C, D, E, F))
        ensures
            r == (head, tail.0, tail.1, tail.2, tail.3, tail.4),
    {
        (head, tail.0, tail.1, tail.2, tail.3, tail.4)
    }
}

impl<A, B, C, D, E, F, G> IsBundle for (A, B, C, D, E, F, G) {
    type Head = A;
    type Tail = (B, C, D, E, F, G);

    fn uncons(self) -> (r: Option<(A, Option<(B, C, D, E, F, G)>)>)
        ensures
            r == Some((self.0, Some((self.1, self.2, self.3, self.4, self.5, self.6)))),
    {
        Some((self.0, Some((self.1, self.2, self.3, self.4, self.5, self.6))))
    }

    fn cons(head: A, tail: (B, C, D, E, F, G)) -> (r: (A, B, C, D, E, F, G))
        ensures
            r == (head, tail.0, tail.1, tail.2, tail.3, tail.4, tail.5),
    {
        (head, tail.0, tail.1, tail.2, tail.3, tail.4, tail.5)
    }
}

impl<A, B, C, D, E, F, G, H> IsBundle for (A, B, C, D, E, F, G, H) {
    type Head = A;
    type Tail = (B, C, D, E, F, G, H);

    fn uncons(self) -> (r: Option<(A, Option<(B, C, D, E, F, G, H)>)>)
        ensures
            r == Some((self.0, Some((self.1, self.2, self.3, self.4, self.5, self.6, self.7)))),
    {
        Some((self.0, Some((self.1, self.2, self.3, self.4, self.5, self.6, self.7))))
    }

    fn cons(head: A, tail: (B, C, D, E, F, G, H)) -> (r: (A, B, C, D, E, F, G, H))
        ensures
            r == (head, tail.0, tail.1, tail.2, tail.3, tail.4, tail.5, tail.6),
    {
        (head, tail.0, tail.1, tail.2, tail.3, tail.4, tail.5, tail.6)
    }
}

impl<A, B, C, D, E, F, G, H, I> IsBundle for (A, B, C, D, E, F, G, H, I) {
    type Head = A;
    type Tail = (B, C, D, E, F, G, H, I);

    fn uncons(self) -> (r: Option<(A, Option<(B, C, D, E, F, G, H, I)>)>)
        ensures
            r == Some((self.0, Some((self.1, self.2, self.3, self.4, self.5, self.6, self.7, self.8)))),
    {
        Some((self.0, Some((self.1, self.2, self.3, self.4, self.5, self.6, self.7, self.8))))
    }

    fn cons(head: A, tail: (B, C, D, E, F, G, H, I)) -> (r: (A, B, C, D, E, F, G, H, I))
        ensures
            r == (head, tail.0, tail.1, tail.2, tail.3, tail.4, tail.5, tail.6, tail.7),
    {
        (head, tail.0, tail.1, tail.2, tail.3, tail.4, tail.5, tail.6, tail.7)
    }
}

impl<A, B, C, D, E, F, G, H, I, J> IsBundle for (A, B, C, D, E, F, G, H, I, J) {
    type Head = A;
    type Tail = (B, C, D, E, F, G, H, I, J);

    fn uncons(self) -> (r: Option<(A, Option<(B, C, D, E, F, G, H, I, J)>)>)
        ensures
            r == Some((self.0, Some((self.1, self.2, self.3, self.4, self.5, self.6, self.7, self.8, self.9)))),
    {
        Some((self.0, Some((self.1, self.2, self.3, self.4, self.5, self.6, self.7, self.8, self.9))))
    }

    fn cons(head: A, tail: (B, C, D, E, F, G, H, I, J)) -> (r: (A, B, C, D, E, F, G, H, I, J))
        ensures
            r == (head, tail.0, tail.1, tail.2, tail.3, tail.4, tail.5, tail.6, tail.7, tail.8),
    {
        (head, tail.0, tail.1, tail.2, tail.3, tail.4, tail.5, tail.6, tail.7, tail.8)
    }
}

impl<A, B, C, D, E, F, G, H, I, J, K> IsBundle for (A, B, C, D, E, F, G, H, I, J, K) {
    type Head = A;
    type Tail = (B, C, D, E, F, G, H, I, J, K);

    fn uncons(self) -> (r: Option<(A, Option<(B, C, D, E, F, G, H, I, J, K)>)>)
        ensures
            r == Some((self.0, Some((self.1, self.2, self.3, self.4, self.5, self.6, self.7, self.8, self.9, self.10)))),
    {
        Some((self.0, Some((self.1, self.2, self.3, self.4, self.5, self.6, self.7, self.8, self.9, self.10))))
    }

    fn cons(head: A, tail: (B, C, D, E, F, G, H, I, J, K)) -> (r: (A, B, C, D, E, F, G, H, I, J, K))
        ensures
            r == (head, tail.0, tail.1, tail.2, tail.3, tail.4, tail.5, tail.6, tail.7, tail.8, tail.9),
    {
        (head, tail.0, tail.1, tail.2, tail.3, tail.4, tail.5, tail.6, tail.7, tail.8, tail.9)
    }
}

impl<A, B, C, D, E, F, G, H, I, J, K, L> IsBundle for (A, B, C, D, E, F, G, H, I, J, K, L) {
    type Head = A;
    type Tail = (B, C, D, E, F, G, H, I, J, K, L);

    fn uncons(self) -> (r: Option<(A, Option<(B, C, D, E, F, G, H, I, J, K, L)>)>)
        ensures
            r == Some((self.0, Some((self.1, self.2, self.3, self.4, self.5, self.6, self.7, self.8, self.9, self.10, self.11)))),
    {
        Some((self.0, Some((self.1, self.2, self.3, self.4, self.5, self.6, self.7, self.8, self.9, self.10, self.11))))
    }

    fn cons(head: A, tail: (B, C, D, E, F, G, H, I, J, K, L)) -> (r: (A, B, C, D, E, F, G, H, I, J, K, L))
        ensures
            r == (head, tail.0, tail.1, tail.2, tail.3, tail.4, tail.5, tail.6, tail.7, tail.8, tail.9, tail.10),
    {
        (head, tail.0, tail.1, tail.2, tail.3, tail.4, tail.5, tail.6, tail.7, tail.8, tail.9, tail.10)
    }
}

/// The tuple of what a type function gives for each element of a tuple.
pub trait Apply<F> {
    type Output;
}

impl<F> Apply<F> for () {
    type Output = ();
}

impl<F, A: Apply<F>> Apply<F> for (A,) {
    type Output = (<A as Apply<F>>::Output,);
}

impl<F, A: Apply<F>, B: Apply<F>> Apply<F> for (A, B) {
    type Output = (<A as Apply<F>>::Output, <B as Apply<F>>::Output);
}

impl<F, A: Apply<F>, B: Apply<F>, C: Apply<F>> Apply<F> for (A, B, C) {
    type Output = (<A as Apply<F>>::Output, <B as Apply<F>>::Output, <C as Apply<F>>::Output);
}

impl<V> Default for AnyBundle<V> {
    fn default() -> (b: Self)
        ensures
            b.wf(),
            b@ == Map::<u64, V>::empty(),
            type_list_items(b.0) == Seq::<u64>::empty(),
    {
        AnyBundle::new()
    }
}

} // verus!
