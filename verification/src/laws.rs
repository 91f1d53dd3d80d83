//! Properties that relate several operations of the library.
use vstd::prelude::*;

use crate::components::{added_entries, components_of, with_component};
use crate::bundle::AnyBundle;
use crate::entity::{applied, batch_entries, deleted_entries, fresh_dead, Entities, LazyOp};
use crate::entry::Entry;
use crate::join::{ascending, holds_id, id_order, maybe_step, without_step, CompareId, HasId, Maybe, MaybeIter, WithoutIter};
use crate::range_store::{lemma_ascending_unique, lemma_span_keys, span_contains, span_keys, RangeStore};
use crate::tracking::{is_tracked, HasEntityInfo, Tracking};
use crate::tuple_join::join_seq;

verus! {

/// Two stores that hold the same components list them in the same order:
/// their spans cover the same ids, in the same ascending sequence, so
/// `iter` gives the same entries whatever the spans are, for instance
/// before and after a defragmentation.
pub proof fn law_same_components_same_order<T>(a: RangeStore<T>, b: RangeStore<T>)
    requires
        a.wf(),
        b.wf(),
        a@ == b@,
    ensures
        span_keys(a.layout()) == span_keys(b.layout()),
{
    a.lemma_layout_covers();
    b.lemma_layout_covers();
    lemma_span_keys(a.layout());
    lemma_span_keys(b.layout());
    let ka = span_keys(a.layout());
    let kb = span_keys(b.layout());
    assert forall|x: usize| ka.contains(x) <==> kb.contains(x) by {
        if ka.contains(x) {
            let i = ka.index_of(x);
            let g = choose|g: int| 0 <= g < a.layout().len() && span_contains(#[trigger] a.layout()[g], ka[i] as int);
            assert(a@.contains_key(x));
            let h = choose|h: int| 0 <= h < b.layout().len() && span_contains(#[trigger] b.layout()[h], x as int);
            assert(span_contains(b.layout()[h], x as int));
        }
        if kb.contains(x) {
            let i = kb.index_of(x);
            let g = choose|g: int| 0 <= g < b.layout().len() && span_contains(#[trigger] b.layout()[g], kb[i] as int);
            assert(b@.contains_key(x));
            let h = choose|h: int| 0 <= h < a.layout().len() && span_contains(#[trigger] a.layout()[h], x as int);
            assert(span_contains(a.layout()[h], x as int));
        }
    }
    lemma_ascending_unique(ka, kb);
}

/// A store pops the component it was just pushed, and is then as it was
/// before the push: the same components in the same spans.
pub proof fn law_pop_after_push<T>(before: RangeStore<T>, pushed: RangeStore<T>, after: RangeStore<T>, v: T)
    requires
        before.wf(),
        pushed.wf(),
        before.layout().len() == 0 || before.layout().last().1 + 1 < usize::MAX,
        pushed@ == before@.insert(
            if before.layout().len() == 0 { 0 } else { (before.layout().last().1 + 1) as usize },
            v,
        ),
        pushed.layout() == if before.layout().len() == 0 {
            seq![(0usize, 0usize)]
        } else {
            before.layout().update(
                before.layout().len() - 1,
                (before.layout().last().0, (before.layout().last().1 + 1) as usize),
            )
        },
        pushed.layout().len() > 0,
        after@ == pushed@.remove(pushed.layout().last().1),
        after.layout() == if pushed.layout().last().0 < pushed.layout().last().1 {
            pushed.layout().update(
                pushed.layout().len() - 1,
                (pushed.layout().last().0, (pushed.layout().last().1 - 1) as usize),
            )
        } else {
            pushed.layout().drop_last()
        },
    ensures
        ({
            let id = if before.layout().len() == 0 { 0 } else { (before.layout().last().1 + 1) as usize };
            &&& pushed.layout().last().1 == id
            &&& pushed@[id] == v
            &&& after@ == before@
            &&& after.layout() == before.layout()
        }),
{
    let id: usize = if before.layout().len() == 0 { 0 } else { (before.layout().last().1 + 1) as usize };
    before.lemma_layout_covers();
    assert forall|k: usize| #[trigger] before@.contains_key(k) implies k < id by {
        let g = choose|g: int| 0 <= g < before.layout().len() && span_contains(#[trigger] before.layout()[g], k as int);
        if g < before.layout().len() - 1 {
            assert(before.layout()[g].1 < before.layout()[before.layout().len() - 1].0);
        }
    }
    assert(after@ =~= before@);
    if before.layout().len() > 0 {
        let n = before.layout().len() - 1;
        assert(before.layout()[n].0 <= before.layout()[n].1) by {
            before.lemma_layout_covers();
        }
        assert(after.layout() =~= before.layout());
    } else {
        assert(after.layout() =~= before.layout());
    }
}

/// A component read after it was written is the written one, and no other
/// entity's components change.
pub proof fn law_component_write_read<V>(m: Map<usize, Map<u64, Entry<V>>>, e: usize, ty: u64, v: V, iteration: u64)
    ensures
        with_component(m, e, ty, v, iteration).contains_key(e),
        with_component(m, e, ty, v, iteration)[e].contains_key(ty),
        with_component(m, e, ty, v, iteration)[e][ty].value == v,
        with_component(m, e, ty, v, iteration)[e][ty].changed == iteration,
        with_component(m, e, ty, v, iteration).remove(e) == m.remove(e),
{
    assert(with_component(m, e, ty, v, iteration).remove(e) =~= m.remove(e));
}

/// Removing a component right after adding it gives it back and leaves
/// the storage as it was, except that an entity that had no components
/// keeps an empty set of components.
pub proof fn law_component_remove_after_insert<V>(m: Map<usize, Map<u64, Entry<V>>>, e: usize, ty: u64, v: V, iteration: u64)
    requires
        !components_of(m, e).contains_key(ty),
    ensures
        ({
            let w = with_component(m, e, ty, v, iteration);
            &&& components_of(w, e).contains_key(ty)
            &&& w[e][ty].value == v
            &&& w.insert(e, w[e].remove(ty)) == if m.contains_key(e) {
                m
            } else {
                m.insert(e, Map::<u64, Entry<V>>::empty())
            }
        }),
{
    let w = with_component(m, e, ty, v, iteration);
    if m.contains_key(e) {
        assert(w[e].remove(ty) =~= m[e]);
        assert(w.insert(e, w[e].remove(ty)) =~= m);
    } else {
        assert(w[e].remove(ty) =~= Map::<u64, Entry<V>>::empty());
        assert(w.insert(e, w[e].remove(ty)) =~= m.insert(e, Map::<u64, Entry<V>>::empty()));
    }
}

/// The values removed right after a bundle was inserted for an entity
/// without components are the bundle's, and the removal leaves the other
/// entities as they were.
pub proof fn law_bundle_remove_after_insert<V>(m: Map<usize, Map<u64, Entry<V>>>, e: usize, b: Map<u64, V>, iteration: u64)
    requires
        !m.contains_key(e),
    ensures
        ({
            let w = m.insert(e, components_of(m, e).union_prefer_right(added_entries(e, b, iteration)));
            &&& w[e].map_values(|en: Entry<V>| en.value) == b
            &&& w.remove(e) == m
        }),
{
    let w = m.insert(e, components_of(m, e).union_prefer_right(added_entries(e, b, iteration)));
    assert(w[e].map_values(|en: Entry<V>| en.value) =~= b);
    assert(w.remove(e) =~= m);
}

/// After an upkeep, no destroyed id is in use, and every other id in use
/// stays in use.
pub proof fn law_destroyed_not_alive(before: Entities, after: Entities)
    requires
        before.wf(),
        after.generations() == before.generations(),
        after.recycled() == before.recycled() + fresh_dead(before.dead(), before.alive()),
    ensures
        after.alive() == before.alive().difference(before.dead().to_set()),
{
    lemma_fresh_dead(before.dead(), before.alive());
    let f = fresh_dead(before.dead(), before.alive());
    assert forall|x: usize| #[trigger] after.alive().contains(x) == before.alive().difference(before.dead().to_set()).contains(x) by {
        let r0 = before.recycled();
        let r1 = after.recycled();
        assert(r1 =~= r0 + f);
        assert(r1.contains(x) <==> (r0.contains(x) || f.contains(x))) by {
            if r1.contains(x) {
                let j = r1.index_of(x);
                if j >= r0.len() {
                    assert(f[j - r0.len()] == x);
                } else {
                    assert(r0[j] == x);
                }
            }
            if r0.contains(x) {
                let j = r0.index_of(x);
                assert(r1[j] == x);
            }
            if f.contains(x) {
                let j = f.index_of(x);
                assert(r1[r0.len() + j] == x);
            }
        }
        assert(before.dead().to_set().contains(x) == before.dead().contains(x));
    }
    assert(after.alive() =~= before.alive().difference(before.dead().to_set()));
}

/// The freed ids are exactly the destroyed ids in use.
pub proof fn lemma_fresh_dead(dead: Seq<usize>, alive: Set<usize>)
    ensures
        forall|x: usize| #[trigger] fresh_dead(dead, alive).contains(x) <==> dead.contains(x) && alive.contains(x),
        fresh_dead(dead, alive).no_duplicates(),
    decreases dead.len(),
{
    if dead.len() > 0 {
        let rest = dead.drop_last();
        lemma_fresh_dead(rest, alive);
        let f = fresh_dead(rest, alive);
        let x0 = dead.last();
        assert forall|x: usize| #[trigger] fresh_dead(dead, alive).contains(x) <==> dead.contains(x) && alive.contains(x) by {
            if dead.contains(x) && x != x0 {
                let j = dead.index_of(x);
                assert(rest[j] == x);
            }
            if rest.contains(x) {
                let j = rest.index_of(x);
                assert(dead[j] == x);
            }
            if alive.contains(x0) && !f.contains(x0) {
                assert(f.push(x0)[f.len() as int] == x0);
                if f.push(x0).contains(x) && x != x0 {
                    let j = f.push(x0).index_of(x);
                    assert(f[j] == x);
                }
                if f.contains(x) {
                    let j = f.index_of(x);
                    assert(f.push(x0)[j] == x);
                }
            }
            if x == x0 {
                assert(dead[dead.len() - 1] == x0);
            }
        }
    }
}

/// Whether the items' ids strictly ascend.
spec fn ids_ascend<H: HasId>(a: Seq<H>) -> bool {
    forall|i: int, j: int| 0 <= i < j < a.len() ==> (#[trigger] a[i]).spec_id() < (#[trigger] a[j]).spec_id()
}

/// Whether the items' keys strictly ascend.
spec fn keys_ascend<T>(b: Seq<T>, key: spec_fn(T) -> usize) -> bool {
    forall|i: int, j: int| 0 <= i < j < b.len() ==> key(#[trigger] b[i]) < key(#[trigger] b[j])
}

/// Whether every item orders against an id as its key does.
spec fn ordered_by_key<T: CompareId>(key: spec_fn(T) -> usize) -> bool {
    forall|t: T, id: usize| #[trigger] t.spec_cmp_id(id) == id_order(key(t), id)
}

/// Whether `idx` gives, for each pair of `js`, the positions in `a` and
/// `b` of its two items.
pub open spec fn pairs_at<H, T>(a: Seq<H>, b: Seq<T>, js: Seq<(H, T)>, idx: Seq<(int, int)>) -> bool {
    &&& idx.len() == js.len()
    &&& forall|k: int|
        0 <= k < idx.len() ==> 0 <= (#[trigger] idx[k]).0 < a.len() && 0 <= idx[k].1 < b.len() && js[k] == (a[idx[k].0], b[idx[k].1])
}

/// What the join of two streams holds: pairs at one id, in ascending order,
/// each made of an item of each stream, and every such pair.
#[verifier::opaque]
spec fn join_holds<H: HasId, T>(a: Seq<H>, b: Seq<T>, key: spec_fn(T) -> usize, js: Seq<(H, T)>) -> bool {
    &&& forall|k: int| 0 <= k < js.len() ==> (#[trigger] js[k]).0.spec_id() == key(js[k].1)
    &&& forall|k1: int, k2: int| 0 <= k1 < k2 < js.len() ==> (#[trigger] js[k1]).0.spec_id() < (#[trigger] js[k2]).0.spec_id()
    &&& exists|idx: Seq<(int, int)>| pairs_at(a, b, js, idx)
    &&& forall|i: int, j: int|
        0 <= i < a.len() && 0 <= j < b.len() && (#[trigger] a[i]).spec_id() == key(#[trigger] b[j]) ==> exists|k: int|
            0 <= k < js.len() && #[trigger] js[k] == (a[i], b[j])
}

proof fn lemma_join_skips_head<H: HasId, T: CompareId>(a: Seq<H>, b: Seq<T>, key: spec_fn(T) -> usize, js: Seq<(H, T)>)
    requires
        a.len() > 0,
        b.len() > 0,
        key(b[0]) > a[0].spec_id(),
        ids_ascend(a),
        keys_ascend(b, key),
        join_holds(a.drop_first(), b, key, js),
    ensures
        join_holds(a, b, key, js),
{
    reveal(join_holds);
    let a1 = a.drop_first();
    let idx1 = choose|idx: Seq<(int, int)>| pairs_at(a1, b, js, idx);
    let idx = idx1.map_values(|p: (int, int)| (p.0 + 1, p.1));
    assert forall|k: int| 0 <= k < idx.len() implies 0 <= (#[trigger] idx[k]).0 < a.len() && 0 <= idx[k].1 < b.len() && js[k] == (
        a[idx[k].0],
        b[idx[k].1],
    ) by {
        assert(idx1[k].0 >= 0 && a1[idx1[k].0] == a[idx1[k].0 + 1]);
    }
    assert(pairs_at(a, b, js, idx));
    assert forall|i: int, j: int|
        0 <= i < a.len() && 0 <= j < b.len() && (#[trigger] a[i]).spec_id() == key(#[trigger] b[j]) implies exists|k: int|
            0 <= k < js.len() && #[trigger] js[k] == (a[i], b[j]) by {
        if i == 0 {
            if j > 0 {
                assert(key(b[0]) < key(b[j]));
            }
        } else {
            assert(a1[i - 1] == a[i]);
            assert(a1[i - 1].spec_id() == key(b[j]));
        }
    }
}

proof fn lemma_join_skips_tail<H: HasId, T: CompareId>(a: Seq<H>, b: Seq<T>, key: spec_fn(T) -> usize, js: Seq<(H, T)>)
    requires
        a.len() > 0,
        b.len() > 0,
        key(b[0]) < a[0].spec_id(),
        ids_ascend(a),
        keys_ascend(b, key),
        join_holds(a, b.drop_first(), key, js),
    ensures
        join_holds(a, b, key, js),
{
    reveal(join_holds);
    let b1 = b.drop_first();
    let idx1 = choose|idx: Seq<(int, int)>| pairs_at(a, b1, js, idx);
    let idx = idx1.map_values(|p: (int, int)| (p.0, p.1 + 1));
    assert forall|k: int| 0 <= k < idx.len() implies 0 <= (#[trigger] idx[k]).0 < a.len() && 0 <= idx[k].1 < b.len() && js[k] == (
        a[idx[k].0],
        b[idx[k].1],
    ) by {
        assert(idx1[k].1 >= 0 && b1[idx1[k].1] == b[idx1[k].1 + 1]);
    }
    assert(pairs_at(a, b, js, idx));
    assert forall|i: int, j: int|
        0 <= i < a.len() && 0 <= j < b.len() && (#[trigger] a[i]).spec_id() == key(#[trigger] b[j]) implies exists|k: int|
            0 <= k < js.len() && #[trigger] js[k] == (a[i], b[j]) by {
        if j == 0 {
            if i > 0 {
                assert(a[0].spec_id() < a[i].spec_id());
            }
        } else {
            assert(b1[j - 1] == b[j]);
            assert(a[i].spec_id() == key(b1[j - 1]));
        }
    }
}

proof fn lemma_join_pairs_heads<H: HasId, T: CompareId>(a: Seq<H>, b: Seq<T>, key: spec_fn(T) -> usize, rest: Seq<(H, T)>)
    requires
        a.len() > 0,
        b.len() > 0,
        key(b[0]) == a[0].spec_id(),
        ids_ascend(a),
        keys_ascend(b, key),
        join_holds(a.drop_first(), b.drop_first(), key, rest),
    ensures
        join_holds(a, b, key, seq![(a[0], b[0])] + rest),
{
    reveal(join_holds);
    let a1 = a.drop_first();
    let b1 = b.drop_first();
    let js = seq![(a[0], b[0])] + rest;
    let idx1 = choose|idx: Seq<(int, int)>| pairs_at(a1, b1, rest, idx);
    let idx = seq![(0int, 0int)] + idx1.map_values(|p: (int, int)| (p.0 + 1, p.1 + 1));
    assert forall|k: int| 0 <= k < idx.len() implies 0 <= (#[trigger] idx[k]).0 < a.len() && 0 <= idx[k].1 < b.len() && js[k] == (
        a[idx[k].0],
        b[idx[k].1],
    ) by {
        if k > 0 {
            assert(idx[k] == (idx1[k - 1].0 + 1, idx1[k - 1].1 + 1));
            assert(js[k] == rest[k - 1]);
            assert(a1[idx1[k - 1].0] == a[idx1[k - 1].0 + 1]);
            assert(b1[idx1[k - 1].1] == b[idx1[k - 1].1 + 1]);
        }
    }
    assert(pairs_at(a, b, js, idx));
    assert forall|k: int| 0 <= k < js.len() implies (#[trigger] js[k]).0.spec_id() == key(js[k].1) by {
        if k > 0 {
            assert(js[k] == rest[k - 1]);
        }
    }
    assert forall|k1: int, k2: int| 0 <= k1 < k2 < js.len() implies (#[trigger] js[k1]).0.spec_id() < (#[trigger] js[k2]).0.spec_id() by {
        assert(js[k2] == rest[k2 - 1]);
        if k1 == 0 {
            let p = idx1[k2 - 1];
            assert(rest[k2 - 1] == (a1[p.0], b1[p.1]));
            assert(a1[p.0] == a[p.0 + 1]);
            assert(a[0].spec_id() < a[p.0 + 1].spec_id());
        } else {
            assert(js[k1] == rest[k1 - 1]);
        }
    }
    assert forall|i: int, j: int|
        0 <= i < a.len() && 0 <= j < b.len() && (#[trigger] a[i]).spec_id() == key(#[trigger] b[j]) implies exists|k: int|
            0 <= k < js.len() && #[trigger] js[k] == (a[i], b[j]) by {
        if i == 0 && j == 0 {
            assert(js[0] == (a[0], b[0]));
        } else if i == 0 {
            assert(key(b[0]) < key(b[j]));
        } else if j == 0 {
            assert(a[0].spec_id() < a[i].spec_id());
        } else {
            assert(a1[i - 1] == a[i] && b1[j - 1] == b[j]);
            assert(a1[i - 1].spec_id() == key(b1[j - 1]));
            let k = choose|k: int| 0 <= k < rest.len() && #[trigger] rest[k] == (a1[i - 1], b1[j - 1]);
            assert(js[k + 1] == rest[k]);
        }
    }
}

proof fn lemma_join_holds<H: HasId, T: CompareId>(a: Seq<H>, b: Seq<T>, key: spec_fn(T) -> usize)
    requires
        ordered_by_key(key),
        ids_ascend(a),
        keys_ascend(b, key),
    ensures
        join_holds(a, b, key, join_seq(a, b)),
    decreases a.len() + b.len(),
{
    if a.len() == 0 || b.len() == 0 {
        reveal(join_holds);
        assert(pairs_at(a, b, join_seq(a, b), Seq::<(int, int)>::empty()));
        return;
    }
    let a1 = a.drop_first();
    let b1 = b.drop_first();
    let x = a[0].spec_id();
    let y = key(b[0]);
    assert(b[0].spec_cmp_id(x) == id_order(y, x));
    assert(ids_ascend(a1)) by {
        assert forall|i: int, j: int| 0 <= i < j < a1.len() implies (#[trigger] a1[i]).spec_id() < (#[trigger] a1[j]).spec_id() by {
            assert(a1[i] == a[i + 1] && a1[j] == a[j + 1]);
        }
    }
    assert(keys_ascend(b1, key)) by {
        assert forall|i: int, j: int| 0 <= i < j < b1.len() implies key(#[trigger] b1[i]) < key(#[trigger] b1[j]) by {
            assert(b1[i] == b[i + 1] && b1[j] == b[j + 1]);
        }
    }
    if y > x {
        lemma_join_holds(a1, b, key);
        lemma_join_skips_head(a, b, key, join_seq(a1, b));
    } else if y < x {
        lemma_join_holds(a, b1, key);
        lemma_join_skips_tail(a, b, key, join_seq(a, b1));
    } else {
        lemma_join_holds(a1, b1, key);
        lemma_join_pairs_heads(a, b, key, join_seq(a1, b1));
    }
}

/// Joining a stream with the join of the streams after it yields, in
/// ascending order of id, exactly the pairs of items at the same id, when
/// the ids of both ascend and the later items are ordered by their key.
pub proof fn law_join_yields_common_ids<H: HasId, T: CompareId>(a: Seq<H>, b: Seq<T>, key: spec_fn(T) -> usize)
    requires
        forall|t: T, id: usize| #[trigger] t.spec_cmp_id(id) == id_order(key(t), id),
        forall|i: int, j: int| 0 <= i < j < a.len() ==> (#[trigger] a[i]).spec_id() < (#[trigger] a[j]).spec_id(),
        forall|i: int, j: int| 0 <= i < j < b.len() ==> key(#[trigger] b[i]) < key(#[trigger] b[j]),
    ensures
        forall|k: int| 0 <= k < join_seq(a, b).len() ==> (#[trigger] join_seq(a, b)[k]).0.spec_id() == key(join_seq(a, b)[k].1),
        forall|k1: int, k2: int|
            0 <= k1 < k2 < join_seq(a, b).len() ==> (#[trigger] join_seq(a, b)[k1]).0.spec_id() < (#[trigger] join_seq(
                a,
                b,
            )[k2]).0.spec_id(),
        exists|idx: Seq<(int, int)>| pairs_at(a, b, join_seq(a, b), idx),
        forall|i: int, j: int|
            0 <= i < a.len() && 0 <= j < b.len() && (#[trigger] a[i]).spec_id() == key(#[trigger] b[j]) ==> exists|k: int|
                0 <= k < join_seq(a, b).len() && #[trigger] join_seq(a, b)[k] == (a[i], b[j]),
{
    lemma_join_holds(a, b, key);
    reveal(join_holds);
}

/// An entity has the components of a bundle sent to it lazily once the
/// change is applied: each with its value, stamped as added at the
/// iteration of the change, its other components kept.
pub proof fn law_lazy_bundle_applied<V>(m: Map<usize, Map<u64, Entry<V>>>, e: usize, b: AnyBundle<V>, iteration: u64)
    ensures
        ({
            let after = applied(m, LazyOp::InsertBundle { entity: e, bundle: b }, iteration);
            &&& after.contains_key(e)
            &&& forall|t: u64| #[trigger] b@.contains_key(t) ==> after[e].contains_key(t) && after[e][t] == Entry::spec_new(e, b@[t], iteration)
            &&& forall|t: u64| components_of(m, e).contains_key(t) && !b@.contains_key(t) ==> #[trigger] after[e][t] == m[e][t]
            &&& after.remove(e) == m.remove(e)
        }),
{
    let after = applied(m, LazyOp::InsertBundle { entity: e, bundle: b }, iteration);
    assert(after.remove(e) =~= m.remove(e));
}

/// An entity no longer has a component that was removed from it lazily once
/// the change is applied, and its other components are kept.
pub proof fn law_lazy_remove_applied<V>(m: Map<usize, Map<u64, Entry<V>>>, e: usize, ty: u64, iteration: u64)
    ensures
        ({
            let after = applied(m, LazyOp::<V>::RemoveComponent { entity: e, ty }, iteration);
            &&& !components_of(after, e).contains_key(ty)
            &&& components_of(after, e) == components_of(m, e).remove(ty)
            &&& after.remove(e) == m.remove(e)
        }),
{
    let after = applied(m, LazyOp::<V>::RemoveComponent { entity: e, ty }, iteration);
    assert(components_of(after, e) =~= components_of(m, e).remove(ty));
    assert(after.remove(e) =~= m.remove(e));
}

/// After `n` calls of `WithoutIter::next`, the iterator has handed out,
/// in ascending order, exactly the ids below its position that the stream
/// does not hold.
proof fn lemma_without_prefix<C: HasId>(s: Seq<C>, states: Seq<WithoutIter<C>>, keys: Seq<usize>, n: int)
    requires
        states.len() == keys.len() + 1,
        0 <= n <= keys.len(),
        states[0].wf(),
        states[0].position() == 0,
        forall|x: int| 0 <= x < usize::MAX ==> (#[trigger] states[0].excludes(x) <==> holds_id(s, x)),
        forall|i: int| 0 <= i < keys.len() ==> without_step(#[trigger] states[i], states[i + 1], keys[i]),
    ensures
        forall|x: int| states[n].position() <= x < usize::MAX ==> (#[trigger] states[n].excludes(x) <==> holds_id(s, x)),
        forall|i: int, j: int| 0 <= i < j < n ==> keys[i] < keys[j],
        forall|i: int| 0 <= i < n ==> keys[i] < states[n].position() && !holds_id(s, #[trigger] keys[i] as int),
        forall|x: int|
            0 <= x < states[n].position() && !holds_id(s, x) ==> exists|i: int| 0 <= i < n && #[trigger] keys[i] == x,
    decreases n,
{
    if n > 0 {
        lemma_without_prefix(s, states, keys, n - 1);
        let before = states[n - 1];
        let after = states[n];
        let k = keys[n - 1];
        assert(without_step(before, after, k));
        assert forall|x: int| 0 <= x < after.position() && !holds_id(s, x) implies exists|i: int| 0 <= i < n && #[trigger] keys[i] == x by {
            if x < before.position() {
                let i = choose|i: int| 0 <= i < n - 1 && #[trigger] keys[i] == x;
                assert(keys[i] == x);
            } else if x < k {
                assert(before.excludes(x));
            } else {
                assert(keys[n - 1] == x);
            }
        }
    }
}

/// Successive calls of `WithoutIter::next`, from a new iterator over a
/// sorted stream, hand out the ids that the stream does not hold in
/// ascending order, and leave none of them out.
pub proof fn law_without_iter_yields_missing_ids<C: HasId>(s: Seq<C>, states: Seq<WithoutIter<C>>, keys: Seq<usize>)
    requires
        states.len() == keys.len() + 1,
        states[0].wf(),
        states[0].position() == 0,
        forall|x: int| 0 <= x < usize::MAX ==> (#[trigger] states[0].excludes(x) <==> holds_id(s, x)),
        forall|i: int| 0 <= i < keys.len() ==> without_step(#[trigger] states[i], states[i + 1], keys[i]),
    ensures
        forall|i: int, j: int| 0 <= i < j < keys.len() ==> keys[i] < keys[j],
        forall|i: int| 0 <= i < keys.len() ==> !holds_id(s, #[trigger] keys[i] as int),
        forall|x: int|
            0 <= x < states.last().position() && !holds_id(s, x) ==> exists|i: int| 0 <= i < keys.len() && #[trigger] keys[i] == x,
{
    lemma_without_prefix(s, states, keys, keys.len() as int);
}

/// Whether the first `k` items of `s` have ids below `n`, the rest ids from
/// `n` on, and `pending` is the rest.
spec fn maybe_split<C: HasId>(s: Seq<C>, pending: Seq<C>, n: int, k: int) -> bool {
    &&& 0 <= k <= s.len()
    &&& pending == s.skip(k)
    &&& forall|i: int| 0 <= i < k ==> (#[trigger] s[i]).spec_id() < n
    &&& forall|i: int| k <= i < s.len() ==> (#[trigger] s[i]).spec_id() >= n
}

/// Whether `r` is what `MaybeIter::next` owes at id `i` of stream `s`.
pub open spec fn maybe_result<C: HasId>(s: Seq<C>, r: Option<Maybe<C>>, i: int) -> bool {
    &&& r is Some
    &&& r->Some_0.key == i
    &&& (r->Some_0.inner is Some <==> holds_id(s, i))
    &&& r->Some_0.inner is Some ==> s.contains(r->Some_0.inner->Some_0) && r->Some_0.inner->Some_0.spec_id() == i
}

/// One call of `MaybeIter::next` at id `n` keeps the pending items the
/// stream's items from the next id on, and hands out the item of id `n`
/// exactly when the stream holds one.
proof fn lemma_maybe_split_step<C: HasId>(s: Seq<C>, p: Seq<C>, n: int, k: int)
    requires
        ascending(s),
        maybe_split(s, p, n, k),
    ensures
        ({
            let hit = p.len() > 0 && p[0].spec_id() == n;
            &&& maybe_split(s, if hit { p.drop_first() } else { p }, n + 1, if hit { k + 1 } else { k })
            &&& hit <==> holds_id(s, n)
            &&& hit ==> s.contains(p[0]) && p[0].spec_id() == n
        }),
{
    let hit = p.len() > 0 && p[0].spec_id() == n;
    let k2 = if hit { k + 1 } else { k };
    if k < s.len() {
        assert(p[0] == s[k]);
    }
    if hit {
        assert(p.drop_first() =~= s.skip(k + 1));
        assert(s.contains(s[k]));
    } else if holds_id(s, n) {
        let j = choose|j: int| 0 <= j < s.len() && (#[trigger] s[j]).spec_id() == n;
        if j > k {
            assert(s[k].spec_id() < s[j].spec_id());
        }
        assert(j >= k);
    }
    assert forall|i: int| 0 <= i < k2 implies (#[trigger] s[i]).spec_id() < n + 1 by {
        if i < k {
            assert(s[i].spec_id() < n);
        }
    }
    assert forall|i: int| k2 <= i < s.len() implies (#[trigger] s[i]).spec_id() >= n + 1 by {
        if i > k {
            assert(s[k].spec_id() < s[i].spec_id());
            assert(s[k].spec_id() >= n);
        }
    }
}

/// After `n` calls of `MaybeIter::next` on a sorted stream, the position is
/// `n` and the pending items are the stream's items of ids from `n` on.
proof fn lemma_maybe_prefix<C: HasId>(s: Seq<C>, states: Seq<MaybeIter<C>>, rs: Seq<Option<Maybe<C>>>, n: int)
    requires
        states.len() == rs.len() + 1,
        0 <= n <= rs.len(),
        ascending(s),
        states[0].position() == 0,
        states[0].pending() == s,
        forall|i: int| 0 <= i < rs.len() ==> maybe_step(#[trigger] states[i], states[i + 1], rs[i]),
    ensures
        states[n].position() == n,
        exists|k: int| #[trigger] maybe_split(s, states[n].pending(), n, k),
        forall|i: int| 0 <= i < n ==> maybe_result(s, #[trigger] rs[i], i),
    decreases n,
{
    if n == 0 {
        assert(s.skip(0) =~= s);
        assert(maybe_split(s, states[0].pending(), 0, 0));
    } else {
        lemma_maybe_prefix(s, states, rs, n - 1);
        let before = states[n - 1];
        let after = states[n];
        assert(maybe_step(before, after, rs[n - 1]));
        let k = choose|k: int| #[trigger] maybe_split(s, before.pending(), n - 1, k);
        lemma_maybe_split_step(s, before.pending(), n - 1, k);
        let p = before.pending();
        let hit = p.len() > 0 && p[0].spec_id() == n - 1;
        assert(maybe_split(s, after.pending(), n, if hit { k + 1 } else { k }));
        assert(maybe_result(s, rs[n - 1], n - 1));
    }
}

/// Successive calls of `MaybeIter::next`, from a new iterator over a
/// sorted stream, hand out every id from 0 up, the `k`-th call id `k`, each
/// with the stream's item of that id where the stream holds one.
pub proof fn law_maybe_iter_yields_every_id<C: HasId>(s: Seq<C>, states: Seq<MaybeIter<C>>, rs: Seq<Option<Maybe<C>>>)
    requires
        states.len() == rs.len() + 1,
        ascending(s),
        states[0].position() == 0,
        states[0].pending() == s,
        forall|i: int| 0 <= i < rs.len() ==> maybe_step(#[trigger] states[i], states[i + 1], rs[i]),
    ensures
        forall|i: int| 0 <= i < rs.len() ==> maybe_result(s, #[trigger] rs[i], i),
{
    lemma_maybe_prefix(s, states, rs, rs.len() as int);
}

/// A tracked iterator of added items keeps exactly the items added at or
/// after the tracker's iteration, one of modified items exactly those
/// changed then without being added, and one of changed items exactly
/// those changed then: so every changed item is either added or modified,
/// never both.
pub proof fn law_tracking_kinds<C: HasEntityInfo>(item: C, since: u64)
    ensures
        is_tracked(Tracking::Added, item, since) <==> (item.spec_added() && item.spec_changed() >= since),
        is_tracked(Tracking::Modified, item, since) <==> (!item.spec_added() && item.spec_changed() >= since),
        is_tracked(Tracking::Changed, item, since) <==> item.spec_changed() >= since,
        is_tracked(Tracking::Changed, item, since) <==> (is_tracked(Tracking::Added, item, since) || is_tracked(
            Tracking::Modified,
            item,
            since,
        )),
        !(is_tracked(Tracking::Added, item, since) && is_tracked(Tracking::Modified, item, since)),
        !item.spec_added() ==> !is_tracked(Tracking::Added, item, since),
{
}

/// The entries of one batch of deleted entities listed for `ty` are
/// exactly the batch's entities that had a component of type `ty` (all of
/// them for `None`), each stamped with the batch's iteration.
proof fn lemma_batch_entries_of(changed: u64, ids: Seq<(usize, Seq<u64>)>, ty: Option<u64>)
    ensures
        forall|k: int|
            0 <= k < batch_entries(changed, ids, ty).len() ==> (#[trigger] batch_entries(changed, ids, ty)[k]).added
                && exists|i: int|
                0 <= i < ids.len() && (ty is None || (#[trigger] ids[i]).1.contains(ty->Some_0)) && batch_entries(changed, ids, ty)[k] == (Entry {
                    value: (),
                    key: ids[i].0,
                    changed,
                    added: true,
                }),
        forall|i: int|
            0 <= i < ids.len() && (ty is None || (#[trigger] ids[i]).1.contains(ty->Some_0)) ==> batch_entries(changed, ids, ty).contains(
                Entry { value: (), key: ids[i].0, changed, added: true },
            ),
    decreases ids.len(),
{
    if ids.len() > 0 {
        let d = ids.drop_last();
        lemma_batch_entries_of(changed, d, ty);
        let rest = batch_entries(changed, d, ty);
        let be = batch_entries(changed, ids, ty);
        let last = ids.last();
        let e = Entry { value: (), key: last.0, changed, added: true };
        assert(be == if (ty is None || last.1.contains(ty->Some_0)) { rest.push(e) } else { rest });
        assert forall|k: int| 0 <= k < batch_entries(changed, ids, ty).len() implies (#[trigger] batch_entries(
            changed,
            ids,
            ty,
        )[k]).added && exists|i: int|
            0 <= i < ids.len() && (ty is None || (#[trigger] ids[i]).1.contains(ty->Some_0)) && batch_entries(changed, ids, ty)[k] == (Entry {
                value: (),
                key: ids[i].0,
                changed,
                added: true,
            }) by {
            if k < rest.len() {
                assert(be[k] == rest[k]);
                assert(rest[k].added);
                let i = choose|i: int|
                    0 <= i < d.len() && (ty is None || (#[trigger] d[i]).1.contains(ty->Some_0)) && rest[k] == (Entry {
                        value: (),
                        key: d[i].0,
                        changed,
                        added: true,
                    });
                assert(ids[i] == d[i]);
            } else {
                assert(be[k] == e);
                assert(ids[ids.len() - 1] == last);
            }
        }
        assert forall|i: int| 0 <= i < ids.len() && (ty is None || (#[trigger] ids[i]).1.contains(ty->Some_0)) implies be.contains(
            Entry { value: (), key: ids[i].0, changed, added: true },
        ) by {
            if i < d.len() {
                assert(d[i] == ids[i]);
                let x = Entry { value: (), key: ids[i].0, changed, added: true };
                assert(rest.contains(x));
                let k = rest.index_of(x);
                assert(be[k] == x);
            } else {
                assert(be[be.len() - 1] == e);
            }
        }
    } else {
        assert(batch_entries(changed, ids, ty).len() == 0);
    }
}

/// The entries that the deleted-entity log lists for `ty` are exactly its
/// entities that had a component of type `ty` (all of them for `None`),
/// each stamped with its batch's iteration.
proof fn lemma_deleted_entries_of(log: Seq<(u64, Seq<(usize, Seq<u64>)>)>, ty: Option<u64>)
    ensures
        forall|k: int|
            0 <= k < deleted_entries(log, ty).len() ==> (#[trigger] deleted_entries(log, ty)[k]).added && exists|
                b: int,
                i: int,
            |
                0 <= b < log.len() && 0 <= i < log[b].1.len() && (ty is None || (#[trigger] log[b].1[i]).1.contains(ty->Some_0)) && deleted_entries(
                    log,
                    ty,
                )[k] == (Entry { value: (), key: log[b].1[i].0, changed: log[b].0, added: true }),
        forall|b: int, i: int|
            0 <= b < log.len() && 0 <= i < log[b].1.len() && (ty is None || (#[trigger] log[b].1[i]).1.contains(ty->Some_0)) ==> deleted_entries(
                log,
                ty,
            ).contains(Entry { value: (), key: log[b].1[i].0, changed: log[b].0, added: true }),
    decreases log.len(),
{
    if log.len() > 0 {
        let d = log.drop_last();
        lemma_deleted_entries_of(d, ty);
        let last = log.last();
        lemma_batch_entries_of(last.0, last.1, ty);
        let rest = deleted_entries(d, ty);
        let be = batch_entries(last.0, last.1, ty);
        let all = deleted_entries(log, ty);
        assert(all == rest + be);
        assert forall|k: int| 0 <= k < deleted_entries(log, ty).len() implies (#[trigger] deleted_entries(log, ty)[
            k]).added && exists|b: int, i: int|
            0 <= b < log.len() && 0 <= i < log[b].1.len() && (ty is None || (#[trigger] log[b].1[i]).1.contains(ty->Some_0)) && deleted_entries(
                log,
                ty,
            )[k] == (Entry { value: (), key: log[b].1[i].0, changed: log[b].0, added: true }) by {
            if k < rest.len() {
                assert(all[k] == rest[k]);
                assert(rest[k].added);
                let (b, i) = choose|b: int, i: int|
                    0 <= b < d.len() && 0 <= i < d[b].1.len() && (ty is None || (#[trigger] d[b].1[i]).1.contains(ty->Some_0)) && rest[k] == (Entry {
                        value: (),
                        key: d[b].1[i].0,
                        changed: d[b].0,
                        added: true,
                    });
                assert(log[b] == d[b]);
            } else {
                assert(all[k] == be[k - rest.len()]);
                assert(be[k - rest.len()].added);
                let i = choose|i: int|
                    0 <= i < last.1.len() && (ty is None || (#[trigger] last.1[i]).1.contains(ty->Some_0)) && be[k - rest.len()] == (Entry {
                        value: (),
                        key: last.1[i].0,
                        changed: last.0,
                        added: true,
                    });
                assert(log[log.len() - 1] == last);
            }
        }
        assert forall|b: int, i: int|
            0 <= b < log.len() && 0 <= i < log[b].1.len() && (ty is None || (#[trigger] log[b].1[i]).1.contains(ty->Some_0)) implies all.contains(
            Entry { value: (), key: log[b].1[i].0, changed: log[b].0, added: true },
        ) by {
            let x = Entry { value: (), key: log[b].1[i].0, changed: log[b].0, added: true };
            if b < d.len() {
                assert(d[b] == log[b]);
                assert(rest.contains(x));
                let k = rest.index_of(x);
                assert(all[k] == x);
            } else {
                assert(last == log[b]);
                assert(be.contains(x));
                let k = be.index_of(x);
                assert(all[rest.len() + k] == x);
            }
        }
    } else {
        assert(deleted_entries(log, ty).len() == 0);
    }
}

/// The entries that the deleted-entity log lists for a component type `t`
/// are exactly its entities that had a component of type `t`: each listed
/// entry is such an entity of some batch, stamped with that batch's
/// iteration, and each such entity is listed. An entity logged without a
/// component of type `t` is never listed for `t`.
pub proof fn law_deleted_of_type(log: Seq<(u64, Seq<(usize, Seq<u64>)>)>, t: u64)
    ensures
        forall|k: int|
            0 <= k < deleted_entries(log, Some(t)).len() ==> (#[trigger] deleted_entries(log, Some(t))[k]).added && exists|
                b: int,
                i: int,
            |
                0 <= b < log.len() && 0 <= i < log[b].1.len() && (#[trigger] log[b].1[i]).1.contains(t) && deleted_entries(
                    log,
                    Some(t),
                )[k] == (Entry { value: (), key: log[b].1[i].0, changed: log[b].0, added: true }),
        forall|b: int, i: int|
            0 <= b < log.len() && 0 <= i < log[b].1.len() && (#[trigger] log[b].1[i]).1.contains(t) ==> deleted_entries(
                log,
                Some(t),
            ).contains(Entry { value: (), key: log[b].1[i].0, changed: log[b].0, added: true }),
{
    lemma_deleted_entries_of(log, Some(t));
    let ty = Some(t);
    assert forall|k: int| 0 <= k < deleted_entries(log, Some(t)).len() implies (#[trigger] deleted_entries(log, Some(t))[
        k]).added && exists|b: int, i: int|
        0 <= b < log.len() && 0 <= i < log[b].1.len() && (#[trigger] log[b].1[i]).1.contains(t) && deleted_entries(
            log,
            Some(t),
        )[k] == (Entry { value: (), key: log[b].1[i].0, changed: log[b].0, added: true }) by {
        assert(deleted_entries(log, ty)[k].added);
        let (b, i) = choose|b: int, i: int|
            0 <= b < log.len() && 0 <= i < log[b].1.len() && (ty is None || (#[trigger] log[b].1[i]).1.contains(ty->Some_0))
                && deleted_entries(log, ty)[k] == (Entry { value: (), key: log[b].1[i].0, changed: log[b].0, added: true });
        assert(log[b].1[i].1.contains(t));
    }
}

/// The entries that the deleted-entity log lists for no particular type
/// are exactly its entities, whatever their components, each stamped with
/// its batch's iteration.
pub proof fn law_deleted_lists_all(log: Seq<(u64, Seq<(usize, Seq<u64>)>)>)
    ensures
        forall|k: int|
            0 <= k < deleted_entries(log, None).len() ==> (#[trigger] deleted_entries(log, None)[k]).added && exists|
                b: int,
                i: int,
            |
                0 <= b < log.len() && 0 <= i < log[b].1.len() && deleted_entries(log, None)[k] == (Entry {
                    value: (),
                    key: (#[trigger] log[b].1[i]).0,
                    changed: log[b].0,
                    added: true,
                }),
        forall|b: int, i: int|
            0 <= b < log.len() && 0 <= i < log[b].1.len() ==> deleted_entries(log, None).contains(
                Entry { value: (), key: (#[trigger] log[b].1[i]).0, changed: log[b].0, added: true },
            ),
{
    lemma_deleted_entries_of(log, None);
}

} // verus!
