//! A storage based on ranges of entities.
//!
//! Components are kept in groups of consecutive entity ids. Each group is a
//! span `(start, end)` together with one entry per id in that span.
use vstd::prelude::*;

use crate::par_groups::{group_items, ParGroupIter, RangeStoreParIter};
use crate::storage::Entry;

verus! {

/// A storage that keeps runs of consecutive entity ids together.
pub struct RangeStore<T> {
    groups: Vec<(usize, usize)>,
    elements: Vec<Vec<Entry<T>>>,
    model: Ghost<Map<usize, T>>,
}

impl<T> View for RangeStore<T> {
    type V = Map<usize, T>;

    closed spec fn view(&self) -> Map<usize, T> {
        Map::new(|id: usize| self.covers(id), |id: usize| self.value_at(id))
    }
}

/// Whether `id` lies in the span `s`.
pub open spec fn span_contains(s: (usize, usize), id: int) -> bool {
    s.0 <= id <= s.1
}

/// Whether no span of `spans` ends directly before the next one starts.
pub open spec fn spans_unfragmented(spans: Seq<(usize, usize)>) -> bool {
    forall|i: int| 0 <= i < spans.len() - 1 ==> #[trigger] spans[i].1 + 1 != spans[i + 1].0
}

/// Whether the spans are ordered and disjoint.
pub open spec fn spans_ordered(spans: Seq<(usize, usize)>) -> bool {
    &&& forall|i: int| 0 <= i < spans.len() ==> #[trigger] spans[i].0 <= spans[i].1
    &&& forall|i: int, j: int| 0 <= i < j < spans.len() ==> #[trigger] spans[i].1 < #[trigger] spans[j].0
}

/// The ids covered by the spans, in order.
pub open spec fn span_keys(spans: Seq<(usize, usize)>) -> Seq<usize>
    decreases spans.len(),
{
    if spans.len() == 0 {
        Seq::empty()
    } else {
        let last = spans.last();
        span_keys(spans.drop_last()) + Seq::new(
            (last.1 - last.0 + 1) as nat,
            |i: int| (last.0 + i) as usize,
        )
    }
}

/// The ids covered by ordered spans ascend strictly, and they are exactly
/// the ids that some span holds.
pub proof fn lemma_span_keys(spans: Seq<(usize, usize)>)
    requires
        spans_ordered(spans),
    ensures
        forall|i: int, j: int| 0 <= i < j < span_keys(spans).len() ==> span_keys(spans)[i] < span_keys(spans)[j],
        forall|i: int|
            0 <= i < span_keys(spans).len() ==> exists|g: int|
                0 <= g < spans.len() && span_contains(#[trigger] spans[g], #[trigger] span_keys(spans)[i] as int),
        forall|g: int, x: usize|
            0 <= g < spans.len() && #[trigger] span_contains(spans[g], x as int) ==> span_keys(spans).contains(x),
    decreases spans.len(),
{
    if spans.len() > 0 {
        let d = spans.drop_last();
        let last = spans.last();
        let n = spans.len() - 1;
        assert(spans_ordered(d)) by {
            assert forall|i: int| 0 <= i < d.len() implies #[trigger] d[i].0 <= d[i].1 by {
                assert(d[i] == spans[i]);
            }
            assert forall|i: int, j: int| 0 <= i < j < d.len() implies #[trigger] d[i].1 < #[trigger] d[j].0 by {
                assert(d[i] == spans[i] && d[j] == spans[j]);
            }
        }
        lemma_span_keys(d);
        let kd = span_keys(d);
        let tail = Seq::new((last.1 - last.0 + 1) as nat, |i: int| (last.0 + i) as usize);
        let keys = span_keys(spans);
        assert(keys == kd + tail);
        assert(last.0 <= last.1);
        assert forall|i: int| 0 <= i < kd.len() implies kd[i] < last.0 by {
            let g = choose|g: int| 0 <= g < d.len() && span_contains(#[trigger] d[g], kd[i] as int);
            assert(d[g] == spans[g]);
            assert(spans[g].1 < spans[n].0);
        }
        assert forall|i: int, j: int| 0 <= i < j < keys.len() implies keys[i] < keys[j] by {
            if j < kd.len() {
                assert(keys[i] == kd[i] && keys[j] == kd[j]);
            } else if i < kd.len() {
                assert(keys[i] == kd[i]);
                assert(keys[j] == tail[j - kd.len()]);
            } else {
                assert(keys[i] == tail[i - kd.len()]);
                assert(keys[j] == tail[j - kd.len()]);
            }
        }
        assert forall|i: int| 0 <= i < keys.len() implies exists|g: int|
            0 <= g < spans.len() && span_contains(#[trigger] spans[g], #[trigger] keys[i] as int) by {
            if i < kd.len() {
                assert(keys[i] == kd[i]);
                let g = choose|g: int| 0 <= g < d.len() && span_contains(#[trigger] d[g], kd[i] as int);
                assert(d[g] == spans[g]);
            } else {
                assert(keys[i] == tail[i - kd.len()]);
                assert(span_contains(spans[n], keys[i] as int));
            }
        }
        assert forall|g: int, x: usize| 0 <= g < spans.len() && #[trigger] span_contains(spans[g], x as int) implies keys.contains(x) by {
            if g < n {
                assert(d[g] == spans[g]);
                assert(kd.contains(x));
                let i = kd.index_of(x);
                assert(keys[i] == x);
            } else {
                let i = x - last.0;
                assert(tail[i] == x);
                assert(keys[kd.len() + i] == x);
            }
        }
    }
}

/// Strictly ascending sequences with the same items are equal.
pub proof fn lemma_ascending_unique(a: Seq<usize>, b: Seq<usize>)
    requires
        forall|i: int, j: int| 0 <= i < j < a.len() ==> a[i] < a[j],
        forall|i: int, j: int| 0 <= i < j < b.len() ==> b[i] < b[j],
        forall|x: usize| a.contains(x) <==> b.contains(x),
    ensures
        a == b,
    decreases a.len() + b.len(),
{
    if a.len() > 0 && b.len() > 0 {
        let la = a.last();
        let lb = b.last();
        assert(a.contains(la));
        assert(b.contains(lb));
        let ib = b.index_of(la);
        let ia = a.index_of(lb);
        assert(b[ib] == la);
        assert(a[ia] == lb);
        if ib < b.len() - 1 {
            assert(b[ib] < lb);
            if ia < a.len() - 1 {
                assert(a[ia] < la);
            }
        }
        if ia < a.len() - 1 {
            assert(a[ia] < la);
        }
        assert(la == lb);
        let da = a.drop_last();
        let db = b.drop_last();
        assert forall|x: usize| da.contains(x) <==> db.contains(x) by {
            if da.contains(x) {
                let i = da.index_of(x);
                assert(a[i] == x && x < la);
                assert(b.contains(x));
                let j = b.index_of(x);
                if j == b.len() - 1 {
                    assert(false);
                }
                assert(db[j] == x);
            }
            if db.contains(x) {
                let j = db.index_of(x);
                assert(b[j] == x && x < lb);
                assert(a.contains(x));
                let i = a.index_of(x);
                if i == a.len() - 1 {
                    assert(false);
                }
                assert(da[i] == x);
            }
        }
        lemma_ascending_unique(da, db);
        assert(a =~= da.push(la));
        assert(b =~= db.push(lb));
    } else if a.len() > 0 {
        assert(a.contains(a[0]));
    } else if b.len() > 0 {
        assert(b.contains(b[0]));
    } else {
        assert(a =~= b);
    }
}

/// The number of pairs of neighbouring spans where one ends right before
/// the next starts: the merges that a full defragmentation makes.
pub open spec fn adjacent_pairs(spans: Seq<(usize, usize)>) -> nat
    decreases spans.len(),
{
    if spans.len() < 2 {
        0
    } else {
        let rest = adjacent_pairs(spans.drop_last());
        if spans[spans.len() - 2].1 + 1 == spans[spans.len() - 1].0 {
            rest + 1
        } else {
            rest
        }
    }
}

/// There are fewer adjacent pairs than spans, and none exactly when no span
/// ends right before the next starts.
pub proof fn lemma_adjacent_pairs(spans: Seq<(usize, usize)>)
    ensures
        adjacent_pairs(spans) <= spans.len(),
        spans.len() > 0 ==> adjacent_pairs(spans) < spans.len(),
        adjacent_pairs(spans) == 0 <==> spans_unfragmented(spans),
    decreases spans.len(),
{
    if spans.len() >= 2 {
        let d = spans.drop_last();
        lemma_adjacent_pairs(d);
        if spans_unfragmented(spans) {
            assert forall|i: int| 0 <= i < d.len() - 1 implies #[trigger] d[i].1 + 1 != d[i + 1].0 by {
                assert(spans[i].1 + 1 != spans[i + 1].0);
            }
        }
        if adjacent_pairs(spans) == 0 {
            assert forall|i: int| 0 <= i < spans.len() - 1 implies #[trigger] spans[i].1 + 1 != spans[i + 1].0 by {
                if i < spans.len() - 2 {
                    assert(d[i].1 + 1 != d[i + 1].0);
                }
            }
        }
    }
}

/// Merging an adjacent pair of spans removes exactly one adjacent pair.
pub proof fn lemma_merge_adjacent(spans: Seq<(usize, usize)>, a: int)
    requires
        0 <= a,
        a + 1 < spans.len(),
        spans[a].1 + 1 == spans[a + 1].0,
    ensures
        adjacent_pairs(spans.update(a, (spans[a].0, spans[a + 1].1)).remove(a + 1)) + 1 == adjacent_pairs(spans),
    decreases spans.len(),
{
    let m = spans.update(a, (spans[a].0, spans[a + 1].1)).remove(a + 1);
    let n = spans.len();
    if a + 2 == n {
        let d = spans.drop_last();
        assert(m.drop_last() =~= d.drop_last());
        assert(adjacent_pairs(spans) == adjacent_pairs(d) + 1);
        if n >= 3 {
            assert(m[m.len() - 2] == spans[n - 3]);
            assert(m[m.len() - 1].0 == spans[n - 2].0);
            assert(d[d.len() - 2] == spans[n - 3]);
            assert(d[d.len() - 1] == spans[n - 2]);
        }
    } else {
        let d = spans.drop_last();
        lemma_merge_adjacent(d, a);
        assert(m.drop_last() =~= d.update(a, (d[a].0, d[a + 1].1)).remove(a + 1));
        assert(m[m.len() - 1] == spans[n - 1]);
        assert(m[m.len() - 2].1 == spans[n - 2].1);
    }
}

/// Whether `id` falls in the gap before span `n`, between spans `n - 1`
/// and `n`.
pub open spec fn gap_at(spans: Seq<(usize, usize)>, id: usize, n: int) -> bool {
    1 <= n < spans.len() && spans[n - 1].1 < id && id < spans[n].0
}

/// The spans after `id` is inserted. An id in a span changes nothing. An id
/// right after the last span extends it, and one right before the first
/// span extends that. An id past the last or before the first span gets a
/// span of its own there. An id in a gap extends the span before the gap
/// when that is not the first span, else the span after the gap, and
/// otherwise gets a span of its own in the gap.
pub open spec fn spans_after_insert(spans: Seq<(usize, usize)>, id: usize) -> Seq<(usize, usize)> {
    let len = spans.len();
    if exists|g: int| 0 <= g < len && span_contains(#[trigger] spans[g], id as int) {
        spans
    } else if len == 0 {
        seq![(id, id)]
    } else if spans[len - 1].1 + 1 == id {
        spans.update(len - 1, (spans[len - 1].0, id))
    } else if id + 1 == spans[0].0 {
        spans.update(0, (id, spans[0].1))
    } else if spans[len - 1].1 < id {
        spans.push((id, id))
    } else if id < spans[0].0 {
        spans.insert(0, (id, id))
    } else {
        let n = choose|n: int| gap_at(spans, id, n);
        if n >= 2 && spans[n - 1].1 + 1 == id {
            spans.update(n - 1, (spans[n - 1].0, id))
        } else if id + 1 == spans[n].0 {
            spans.update(n, (id, spans[n].1))
        } else {
            spans.insert(n, (id, id))
        }
    }
}

/// The spans after `id` is removed: its span loses it, being dropped when
/// `id` was its only id and split in two when `id` was inside it; without a
/// span holding `id`, nothing changes.
pub open spec fn spans_after_remove(spans: Seq<(usize, usize)>, id: usize) -> Seq<(usize, usize)> {
    if exists|g: int| 0 <= g < spans.len() && span_contains(#[trigger] spans[g], id as int) {
        let g = choose|g: int| 0 <= g < spans.len() && span_contains(#[trigger] spans[g], id as int);
        let s = spans[g];
        if s.0 == s.1 {
            spans.remove(g)
        } else if id == s.0 {
            spans.update(g, ((id + 1) as usize, s.1))
        } else if id == s.1 {
            spans.update(g, (s.0, (id - 1) as usize))
        } else {
            spans.update(g, (s.0, (id - 1) as usize)).insert(g + 1, ((id + 1) as usize, s.1))
        }
    } else {
        spans
    }
}

/// In ordered spans, the gap that an id falls in is unique.
pub proof fn lemma_gap_unique(spans: Seq<(usize, usize)>, id: usize, n: int)
    requires
        spans_ordered(spans),
        gap_at(spans, id, n),
    ensures
        (choose|m: int| gap_at(spans, id, m)) == n,
{
    let m = choose|m: int| gap_at(spans, id, m);
    assert(gap_at(spans, id, m));
    if m < n {
        assert(spans[m].0 <= spans[m].1);
        if m < n - 1 {
            assert(spans[m].1 < spans[n - 1].0);
            assert(spans[n - 1].0 <= spans[n - 1].1);
        }
    } else if m > n {
        assert(spans[n].0 <= spans[n].1);
        if n < m - 1 {
            assert(spans[n].1 < spans[m - 1].0);
            assert(spans[m - 1].0 <= spans[m - 1].1);
        }
    }
}

/// In ordered spans, the span that holds an id is unique.
pub proof fn lemma_span_unique(spans: Seq<(usize, usize)>, id: usize, g: int)
    requires
        spans_ordered(spans),
        0 <= g < spans.len(),
        span_contains(spans[g], id as int),
    ensures
        (choose|h: int| 0 <= h < spans.len() && span_contains(#[trigger] spans[h], id as int)) == g,
{
    let h = choose|h: int| 0 <= h < spans.len() && span_contains(#[trigger] spans[h], id as int);
    assert(0 <= h < spans.len() && span_contains(spans[h], id as int));
    if h < g {
        assert(spans[h].1 < spans[g].0);
    } else if h > g {
        assert(spans[g].1 < spans[h].0);
    }
}

impl<T> RangeStore<T> {
    /// The spans `(start, end)` of the groups, in order.
    pub closed spec fn layout(&self) -> Seq<(usize, usize)> {
        self.groups@
    }

    /// Whether some group's span holds `id`.
    spec fn covers(&self, id: usize) -> bool {
        exists|g: int| 0 <= g < self.groups@.len() && span_contains(#[trigger] self.groups@[g], id as int)
    }

    /// A group whose span holds `id`, where there is one.
    spec fn group_of(&self, id: usize) -> int {
        choose|g: int| 0 <= g < self.groups@.len() && span_contains(#[trigger] self.groups@[g], id as int)
    }

    /// The value stored for `id` in the group whose span holds it.
    spec fn value_at(&self, id: usize) -> T {
        let g = self.group_of(id);
        self.elements@[g]@[id - self.groups@[g].0].value
    }

    spec fn group_shaped(&self, g: int) -> bool {
        let s = self.groups@[g];
        &&& s.0 <= s.1
        &&& s.1 < usize::MAX
        &&& self.elements@[g]@.len() == s.1 - s.0 + 1
        &&& forall|k: int| 0 <= k < self.elements@[g]@.len() ==> (#[trigger] self.elements@[g]@[k]).key == s.0 + k
    }

    /// The groups are ordered and disjoint, and each holds one entry per id
    /// of its span, keyed by that id.
    pub closed spec fn wf(&self) -> bool {
        &&& self.groups@.len() == self.elements@.len()
        &&& forall|g: int| 0 <= g < self.groups@.len() ==> #[trigger] self.group_shaped(g)
        &&& spans_ordered(self.groups@)
    }

    /// The same groups, with the model set to the stored components.
    spec fn resynced(&self) -> Self {
        RangeStore { groups: self.groups, elements: self.elements, model: Ghost(self@) }
    }

    spec fn entry_wf(&self, g: int, k: int) -> bool {
        let s = self.groups@[g];
        let e = self.elements@[g]@[k];
        &&& e.key == s.0 + k
        &&& self.model@.contains_key((s.0 + k) as usize)
        &&& self.model@[(s.0 + k) as usize] == e.value
    }

    spec fn group_wf(&self, g: int) -> bool {
        let s = self.groups@[g];
        &&& s.0 <= s.1
        &&& s.1 < usize::MAX
        &&& self.elements@[g]@.len() == s.1 - s.0 + 1
        &&& forall|k: int| 0 <= k < self.elements@[g]@.len() ==> #[trigger] self.entry_wf(g, k)
    }

    /// The groups are well formed and hold exactly the components of the
    /// ghost model.
    spec fn synced(&self) -> bool {
        &&& self.groups@.len() == self.elements@.len()
        &&& forall|g: int| 0 <= g < self.groups@.len() ==> #[trigger] self.group_wf(g)
        &&& spans_ordered(self.groups@)
        &&& forall|id: usize|
            #[trigger] self.model@.contains_key(id) ==> exists|g: int|
                0 <= g < self.groups@.len() && span_contains(#[trigger] self.groups@[g], id as int)
    }

    /// An empty store.
    pub fn new() -> (s: Self)
        ensures
            s.wf(),
            s@ == Map::<usize, T>::empty(),
            s.layout() == Seq::<(usize, usize)>::empty(),
    {
        let s = RangeStore { groups: Vec::new(), elements: Vec::new(), model: Ghost(Map::empty()) };
        proof {
            assert(s@ =~= Map::<usize, T>::empty());
        }
        s
    }

    proof fn lemma_lookup(&self, g: int, id: usize)
        requires
            self.wf(),
            0 <= g < self.groups@.len(),
            span_contains(self.groups@[g], id as int),
        ensures
            self@.contains_key(id),
            self.elements@[g]@[id - self.groups@[g].0].key == id,
            self@[id] == self.elements@[g]@[id - self.groups@[g].0].value,
    {
        assert(self.group_shaped(g));
        let k = id - self.groups@[g].0;
        assert(self.elements@[g]@[k].key == self.groups@[g].0 + k);
        assert(self.covers(id));
        let c = self.group_of(id);
        if c != g {
            self.lemma_spans_disjoint(g, c, id as int);
        }
    }

    proof fn lemma_absent(&self, id: usize)
        requires
            forall|g: int| 0 <= g < self.groups@.len() ==> !span_contains(#[trigger] self.groups@[g], id as int),
        ensures
            !self@.contains_key(id),
    {
    }

    /// A well-formed store with its model set to its components is synced.
    proof fn lemma_sync(&self)
        requires
            self.wf(),
        ensures
            self.resynced().synced(),
            self.resynced()@ == self@,
    {
        let r = self.resynced();
        assert(r.groups == self.groups && r.elements == self.elements);
        assert(r@ =~= self@);
        assert forall|g: int| 0 <= g < r.groups@.len() implies #[trigger] r.group_wf(g) by {
            assert(self.group_shaped(g));
            assert forall|k: int| 0 <= k < r.elements@[g]@.len() implies #[trigger] r.entry_wf(g, k) by {
                let id = (self.groups@[g].0 + k) as usize;
                assert(self.elements@[g]@[k].key == self.groups@[g].0 + k);
                self.lemma_lookup(g, id);
            }
        }
    }

    /// A synced store is well formed, and its components are its model.
    proof fn lemma_unsync(&self)
        requires
            self.synced(),
        ensures
            self.wf(),
            self@ == self.model@,
    {
        assert forall|g: int| 0 <= g < self.groups@.len() implies #[trigger] self.group_shaped(g) by {
            assert(self.group_wf(g));
            assert forall|k: int| 0 <= k < self.elements@[g]@.len() implies (#[trigger] self.elements@[g]@[k]).key
                == self.groups@[g].0 + k by {
                assert(self.entry_wf(g, k));
            }
        }
        assert forall|id: usize| #[trigger] self@.contains_key(id) implies self.model@.contains_key(id) && self.model@[id]
            == self@[id] by {
            let g = self.group_of(id);
            assert(self.group_wf(g));
            assert(self.entry_wf(g, id - self.groups@[g].0));
        }
        assert(self@ =~= self.model@);
    }

    /// Set the ghost model to the stored components.
    fn sync_model(&mut self)
        requires
            old(self).wf(),
        ensures
            final(self).synced(),
            final(self).wf(),
            final(self).groups == old(self).groups,
            final(self).elements == old(self).elements,
            final(self)@ == old(self)@,
            final(self).model@ == old(self)@,
    {
        proof {
            let pre = *self;
            pre.lemma_sync();
            self.model@ = pre@;
            assert(*self == pre.resynced());
            self.lemma_unsync();
        }
    }

    proof fn lemma_spans_disjoint(&self, g: int, h: int, id: int)
        requires
            self.wf(),
            0 <= g < self.groups@.len(),
            0 <= h < self.groups@.len(),
            g != h,
            span_contains(self.groups@[g], id),
        ensures
            !span_contains(self.groups@[h], id),
    {
        if g < h {
            assert(self.groups@[g].1 < self.groups@[h].0);
        } else {
            assert(self.groups@[h].1 < self.groups@[g].0);
        }
    }

    /// A group that moved to another position, or whose neighbours changed,
    /// stays well formed.
    proof fn lemma_group_moved(pre: Self, post: Self, p: int, h: int, id: usize)
        requires
            0 <= p < pre.groups@.len(),
            p < pre.elements@.len(),
            pre.group_wf(p),
            0 <= h < post.groups@.len(),
            h < post.elements@.len(),
            post.groups@[h] == pre.groups@[p],
            post.elements@[h] == pre.elements@[p],
            post.model@ == pre.model@ || (post.model@.remove(id) == pre.model@.remove(id) && !span_contains(
                pre.groups@[p],
                id as int,
            )),
        ensures
            post.group_wf(h),
    {
        let es = post.elements@[h]@;
        assert forall|j: int| 0 <= j < es.len() implies #[trigger] post.entry_wf(h, j) by {
            assert(es[j] == pre.elements@[p]@[j]);
            assert(pre.entry_wf(p, j));
            let x = (pre.groups@[p].0 + j) as usize;
            assert(pre.model@.contains_key(x) && pre.model@[x] == es[j].value);
            if post.model@ != pre.model@ {
                assert(x != id);
                assert(pre.model@.remove(id).contains_key(x));
                assert(post.model@.remove(id).contains_key(x));
                assert(post.model@.contains_key(x));
                assert(post.model@.remove(id)[x] == post.model@[x]);
                assert(pre.model@.remove(id)[x] == pre.model@[x]);
            }
        }
        let s = post.groups@[h];
        assert(s.0 <= s.1);
        assert(s.1 < usize::MAX);
        assert(es.len() == s.1 - s.0 + 1);
        assert(post.group_wf(h));
    }

    /// Overwrite the value at `id`, which lies in group `g`.
    #[verifier::spinoff_prover]
    fn replace_in_group(&mut self, g: usize, id: usize, value: T) -> (prev: T)
        requires
            old(self).wf(),
            g < old(self).groups@.len(),
            span_contains(old(self).groups@[g as int], id as int),
        ensures
            final(self).wf(),
            final(self)@ == old(self)@.insert(id, value),
            old(self)@.contains_key(id),
            prev == old(self)@[id],
            final(self).layout() == old(self).layout(),
    {
        self.sync_model();
        proof {
            self.lemma_lookup(g as int, id);
            assert(self.group_wf(g as int));
        }
        let ghost v = value;
        let ghost pre = *self;
        let start = self.groups[g].0;
        let k = id - start;
        let mut value = value;
        let mut group: Vec<Entry<T>> = Vec::new();
        std::mem::swap(&mut group, &mut self.elements[g]);
        let ghost old_group = group@;
        assert(old_group == pre.elements@[g as int]@);
        let mut e = group.remove(k);
        std::mem::swap(&mut e.value, &mut value);
        group.insert(k, e);
        let ghost new_group = group@;
        assert(new_group == old_group.update(k as int, Entry { key: old_group[k as int].key, value: v }));
        std::mem::swap(&mut group, &mut self.elements[g]);
        proof {
            assert(self.groups@ == pre.groups@);
            assert(self.elements@[g as int]@ == new_group);
            assert(forall|h: int| 0 <= h < self.elements@.len() && h != g ==> self.elements@[h] == pre.elements@[h]);
            self.model@ = self.model@.insert(id, v);
            assert(self.model@.remove(id) =~= pre.model@.remove(id));
            assert forall|h: int| 0 <= h < self.groups@.len() implies #[trigger] self.group_wf(h) by {
                assert(pre.group_wf(h));
                if h != g {
                    pre.lemma_spans_disjoint(g as int, h, id as int);
                    Self::lemma_group_moved(pre, *self, h, h, id);
                } else {
                    let es = self.elements@[h]@;
                    assert forall|j: int| 0 <= j < es.len() implies #[trigger] self.entry_wf(h, j) by {
                        assert(pre.entry_wf(h, j));
                        if j != k {
                            assert(es[j] == pre.elements@[h]@[j]);
                        }
                    }
                    assert(self.group_wf(h));
                }
            }
            assert forall|x: usize| #[trigger] self.model@.contains_key(x) implies exists|h: int|
                0 <= h < self.groups@.len() && span_contains(#[trigger] self.groups@[h], x as int) by {
                if x != id {
                    assert(pre.model@.contains_key(x));
                    let h = choose|h: int| 0 <= h < pre.groups@.len() && span_contains(#[trigger] pre.groups@[h], x as int);
                    assert(span_contains(self.groups@[h], x as int));
                } else {
                    assert(span_contains(self.groups@[g as int], x as int));
                }
            }
        }
        proof {
            self.lemma_unsync();
        }
        value
    }

    proof fn lemma_absent_between(&self, n: int, id: usize)
        requires
            self.wf(),
            0 <= n <= self.groups@.len(),
            n == 0 || self.groups@[n - 1].1 < id,
            n == self.groups@.len() || id < self.groups@[n].0,
        ensures
            !self@.contains_key(id),
            forall|h: int| 0 <= h < self.groups@.len() ==> !span_contains(#[trigger] self.groups@[h], id as int),
    {
        assert forall|h: int| 0 <= h < self.groups@.len() implies !span_contains(#[trigger] self.groups@[h], id as int) by {
            if h < n - 1 {
                assert(self.groups@[h].1 < self.groups@[n - 1].0);
                assert(self.groups@[n - 1].0 <= self.groups@[n - 1].1);
            } else if h > n {
                assert(self.groups@[n].1 < self.groups@[h].0);
                assert(self.groups@[n].0 <= self.groups@[n].1);
            }
        }
    }

    /// Add `id` directly after the end of group `g`.
    #[verifier::spinoff_prover]
    fn append_to_group(&mut self, g: usize, id: usize, value: T)
        requires
            old(self).wf(),
            g < old(self).groups@.len(),
            old(self).groups@[g as int].1 + 1 == id,
            id < usize::MAX,
            g + 1 == old(self).groups@.len() || id < old(self).groups@[g + 1].0,
        ensures
            final(self).wf(),
            !old(self)@.contains_key(id),
            final(self)@ == old(self)@.insert(id, value),
            final(self).layout() == old(self).layout().update(g as int, (old(self).layout()[g as int].0, id)),
    {
        self.sync_model();
        proof {
            self.lemma_absent_between(g as int + 1, id);
            assert(self.group_wf(g as int));
        }
        let ghost v = value;
        let ghost pre = *self;
        let start = self.groups[g].0;
        self.groups.set(g, (start, id));
        let mut group: Vec<Entry<T>> = Vec::new();
        std::mem::swap(&mut group, &mut self.elements[g]);
        let ghost old_group = group@;
        group.push(Entry { key: id, value });
        let ghost new_group = group@;
        std::mem::swap(&mut group, &mut self.elements[g]);
        proof {
            assert(old_group == pre.elements@[g as int]@);
            assert(self.elements@[g as int]@ == new_group);
            assert(forall|h: int| 0 <= h < self.elements@.len() && h != g ==> self.elements@[h] == pre.elements@[h]);
            self.model@ = self.model@.insert(id, v);
            assert(self.model@.remove(id) =~= pre.model@.remove(id));
            assert forall|h: int| 0 <= h < self.groups@.len() implies #[trigger] self.group_wf(h) by {
                assert(pre.group_wf(h));
                if h != g {
                    Self::lemma_group_moved(pre, *self, h, h, id);
                } else {
                    let es = self.elements@[h]@;
                    assert forall|j: int| 0 <= j < es.len() implies #[trigger] self.entry_wf(h, j) by {
                        if j < old_group.len() {
                            assert(es[j] == pre.elements@[h]@[j]);
                            assert(pre.entry_wf(h, j));
                            assert(!span_contains(pre.groups@[h], id as int));
                        }
                    }
                    assert(self.group_wf(h));
                }
            }
            assert forall|i: int, j: int| 0 <= i < j < self.groups@.len() implies #[trigger] self.groups@[i].1 < #[trigger] self.groups@[j].0 by {
                assert(pre.groups@[i].1 < pre.groups@[j].0);
                if i == g && j > g + 1 {
                    assert(pre.groups@[g + 1].1 < pre.groups@[j].0);
                    assert(pre.groups@[g + 1].0 <= pre.groups@[g + 1].1);
                }
            }
            assert forall|x: usize| #[trigger] self.model@.contains_key(x) implies exists|h: int|
                0 <= h < self.groups@.len() && span_contains(#[trigger] self.groups@[h], x as int) by {
                if x != id {
                    let h = choose|h: int| 0 <= h < pre.groups@.len() && span_contains(#[trigger] pre.groups@[h], x as int);
                    assert(span_contains(self.groups@[h], x as int));
                } else {
                    assert(span_contains(self.groups@[g as int], x as int));
                }
            }
        }
        proof {
            self.lemma_unsync();
        }
    }

    /// Add `id` directly before the start of group `g`.
    #[verifier::spinoff_prover]
    fn prepend_to_group(&mut self, g: usize, id: usize, value: T)
        requires
            old(self).wf(),
            g < old(self).groups@.len(),
            id + 1 == old(self).groups@[g as int].0,
            g == 0 || old(self).groups@[g - 1].1 < id,
        ensures
            final(self).wf(),
            !old(self)@.contains_key(id),
            final(self)@ == old(self)@.insert(id, value),
            final(self).layout() == old(self).layout().update(g as int, (id, old(self).layout()[g as int].1)),
    {
        self.sync_model();
        proof {
            self.lemma_absent_between(g as int, id);
            assert(self.group_wf(g as int));
        }
        let ghost v = value;
        let ghost pre = *self;
        let end = self.groups[g].1;
        self.groups.set(g, (id, end));
        let mut group: Vec<Entry<T>> = Vec::new();
        std::mem::swap(&mut group, &mut self.elements[g]);
        let ghost old_group = group@;
        group.insert(0, Entry { key: id, value });
        let ghost new_group = group@;
        std::mem::swap(&mut group, &mut self.elements[g]);
        proof {
            assert(old_group == pre.elements@[g as int]@);
            assert(self.elements@[g as int]@ == new_group);
            assert(forall|h: int| 0 <= h < self.elements@.len() && h != g ==> self.elements@[h] == pre.elements@[h]);
            self.model@ = self.model@.insert(id, v);
            assert(self.model@.remove(id) =~= pre.model@.remove(id));
            assert forall|h: int| 0 <= h < self.groups@.len() implies #[trigger] self.group_wf(h) by {
                assert(pre.group_wf(h));
                let es = self.elements@[h]@;
                if h != g {
                    Self::lemma_group_moved(pre, *self, h, h, id);
                } else {
                    assert(self.groups@[h] == (id, pre.groups@[h].1));
                    assert(es.len() == pre.elements@[h]@.len() + 1);
                    assert forall|j: int| 0 <= j < es.len() implies #[trigger] self.entry_wf(h, j) by {
                        if j > 0 {
                            assert(es[j] == pre.elements@[h]@[j - 1]);
                            assert(pre.entry_wf(h, j - 1));
                        }
                    }
                    assert(self.group_wf(h));
                }
            }
            assert forall|i: int, j: int| 0 <= i < j < self.groups@.len() implies #[trigger] self.groups@[i].1 < #[trigger] self.groups@[j].0 by {
                assert(pre.groups@[i].1 < pre.groups@[j].0);
                if j == g && i < g - 1 {
                    assert(pre.groups@[i].1 < pre.groups@[g - 1].0);
                    assert(pre.groups@[g - 1].0 <= pre.groups@[g - 1].1);
                }
            }
            assert forall|x: usize| #[trigger] self.model@.contains_key(x) implies exists|h: int|
                0 <= h < self.groups@.len() && span_contains(#[trigger] self.groups@[h], x as int) by {
                if x != id {
                    let h = choose|h: int| 0 <= h < pre.groups@.len() && span_contains(#[trigger] pre.groups@[h], x as int);
                    assert(span_contains(self.groups@[h], x as int));
                } else {
                    assert(span_contains(self.groups@[g as int], x as int));
                }
            }
        }
        proof {
            self.lemma_unsync();
        }
    }

    /// Add a new group holding only `id` at position `n`.
    #[verifier::spinoff_prover]
    fn insert_group(&mut self, n: usize, id: usize, value: T)
        requires
            old(self).wf(),
            n <= old(self).groups@.len(),
            n == 0 || old(self).groups@[n - 1].1 < id,
            n == old(self).groups@.len() || id < old(self).groups@[n as int].0,
            id < usize::MAX,
        ensures
            final(self).wf(),
            !old(self)@.contains_key(id),
            final(self)@ == old(self)@.insert(id, value),
            final(self).layout() == old(self).layout().insert(n as int, (id, id)),
    {
        self.sync_model();
        proof {
            self.lemma_absent_between(n as int, id);
        }
        let ghost v = value;
        let ghost pre = *self;
        self.groups.insert(n, (id, id));
        let mut group: Vec<Entry<T>> = Vec::new();
        group.push(Entry { key: id, value });
        self.elements.insert(n, group);
        proof {
            self.model@ = self.model@.insert(id, v);
            assert(self.model@.remove(id) =~= pre.model@.remove(id));
            assert forall|h: int| 0 <= h < self.groups@.len() implies #[trigger] self.group_wf(h) by {
                if h != n {
                    let p = if h < n { h } else { h - 1 };
                    assert(pre.group_wf(p));
                    assert(self.groups@[h] == pre.groups@[p]);
                    assert(self.elements@[h] == pre.elements@[p]);
                    assert(!span_contains(pre.groups@[p], id as int));
                    Self::lemma_group_moved(pre, *self, p, h, id);
                } else {
                    assert(self.elements@[h]@.len() == 1);
                    assert(self.elements@[h]@[0].key == id);
                    assert(self.group_wf(h));
                }
            }
            assert forall|i: int, j: int| 0 <= i < j < self.groups@.len() implies #[trigger] self.groups@[i].1 < #[trigger] self.groups@[j].0 by {
                let pi = if i < n { i } else { i - 1 };
                let pj = if j < n { j } else { j - 1 };
                if i != n && j != n {
                    assert(pre.groups@[pi].1 < pre.groups@[pj].0);
                } else if i == n {
                    assert(pre.groups@[n as int].0 <= pre.groups@[n as int].1);
                    if pj > n {
                        assert(pre.groups@[n as int].1 < pre.groups@[pj].0);
                    }
                } else {
                    assert(pre.groups@[pi].0 <= pre.groups@[pi].1);
                    if pi < n - 1 {
                        assert(pre.groups@[pi].1 < pre.groups@[n - 1].0);
                        assert(pre.groups@[n - 1].0 <= pre.groups@[n - 1].1);
                    }
                }
            }
            assert forall|x: usize| #[trigger] self.model@.contains_key(x) implies exists|h: int|
                0 <= h < self.groups@.len() && span_contains(#[trigger] self.groups@[h], x as int) by {
                if x != id {
                    let h = choose|h: int| 0 <= h < pre.groups@.len() && span_contains(#[trigger] pre.groups@[h], x as int);
                    let q = if h < n { h } else { h + 1 };
                    assert(self.groups@[q] == pre.groups@[h]);
                } else {
                    assert(span_contains(self.groups@[n as int], x as int));
                }
            }
        }
        proof {
            self.lemma_unsync();
        }
    }

    /// Store `value` at `id`, returning the component that was stored there
    /// before, if any. The spans change as `spans_after_insert` says.
    pub fn insert(&mut self, id: usize, value: T) -> (prev: Option<T>)
        requires
            old(self).wf(),
            id < usize::MAX,
        ensures
            final(self).wf(),
            final(self)@ == old(self)@.insert(id, value),
            prev == (if old(self)@.contains_key(id) { Some(old(self)@[id]) } else { None::<T> }),
            final(self).layout() == spans_after_insert(old(self).layout(), id),
    {
        let ghost l = self.groups@;
        let len = self.groups.len();
        // the element goes last in the last group
        let new_end_group = if len > 0 {
            let (start, end) = self.groups[len - 1];
            proof {
                assert(self.group_shaped(len - 1));
            }
            if end + 1 == id {
                proof {
                    self.lemma_absent_between(len as int, id);
                }
                self.append_to_group(len - 1, id, value);
                return None;
            } else if start <= id && id <= end {
                proof {
                    assert(span_contains(l[len - 1], id as int));
                }
                return Some(self.replace_in_group(len - 1, id, value));
            }
            id > end
        } else {
            false
        };

        // the element goes first in the first group
        let new_start_group = if len > 0 {
            let (start, end) = self.groups[0];
            if id + 1 == start {
                proof {
                    self.lemma_absent_between(0, id);
                }
                self.prepend_to_group(0, id, value);
                return None;
            } else if start <= id && id <= end {
                proof {
                    assert(span_contains(l[0], id as int));
                }
                return Some(self.replace_in_group(0, id, value));
            }
            id < start
        } else {
            false
        };

        if new_end_group {
            // the element goes first in a new last group
            proof {
                self.lemma_absent_between(len as int, id);
                assert(l.push((id, id)) =~= l.insert(len as int, (id, id)));
            }
            self.insert_group(len, id, value);
            return None;
        }
        if new_start_group {
            // the element goes first in a new first group
            proof {
                self.lemma_absent_between(0, id);
                assert(l[0].0 <= l[0].1);
                if len > 1 {
                    assert(l[0].1 < l[len - 1].0);
                }
            }
            self.insert_group(0, id, value);
            return None;
        }
        proof {
            if len > 0 {
                assert(self.group_shaped(0));
                assert(self.group_shaped(len - 1));
                if len > 1 {
                    assert(l[0].1 < l[len - 1].0);
                }
            }
        }

        // search for the group it might belong to, skipping the first and the
        // last, which were checked above
        let mut n: usize = 1;
        while n < self.groups.len()
            invariant
                self.wf(),
                *self == *old(self),
                l == old(self).groups@,
                self.groups@.len() == len,
                id < usize::MAX,
                n >= 1,
                len > 0 ==> {
                    &&& l[len - 1].1 + 1 != id
                    &&& id + 1 != l[0].0
                    &&& !(l[len - 1].1 < id)
                    &&& !(id < l[0].0)
                    &&& !span_contains(l[0], id as int)
                },
                forall|g: int| 0 <= g < n && g < len ==> #[trigger] self.groups@[g].1 < id,
                forall|k: int|
                    1 <= k < n && k < len ==> !(#[trigger] l[k].1 + 1 == id && (k + 1 == len || id < l[k + 1].0)),
            decreases len - n,
        {
            let (start, end) = self.groups[n];
            proof {
                assert(self.group_shaped(n as int));
            }
            if id + 1 == start {
                proof {
                    self.lemma_absent_between(n as int, id);
                    assert(gap_at(l, id, n as int));
                    lemma_gap_unique(l, id, n as int);
                    if n >= 2 {
                        assert(!(l[n - 1].1 + 1 == id && (n - 1 + 1 == len || id < l[n - 1 + 1].0)));
                    }
                }
                self.prepend_to_group(n, id, value);
                return None;
            }
            if id < start {
                // insert a new group here
                proof {
                    self.lemma_absent_between(n as int, id);
                    assert(gap_at(l, id, n as int));
                    lemma_gap_unique(l, id, n as int);
                    if n >= 2 {
                        assert(!(l[n - 1].1 + 1 == id && (n - 1 + 1 == len || id < l[n - 1 + 1].0)));
                    }
                }
                self.insert_group(n, id, value);
                return None;
            }
            if end + 1 == id && (n + 1 == self.groups.len() || id < self.groups[n + 1].0) {
                proof {
                    assert(n + 1 < len);
                    self.lemma_absent_between(n as int + 1, id);
                    assert(gap_at(l, id, n + 1));
                    lemma_gap_unique(l, id, n + 1);
                }
                self.append_to_group(n, id, value);
                return None;
            }
            if start <= id && id <= end {
                proof {
                    assert(span_contains(l[n as int], id as int));
                }
                return Some(self.replace_in_group(n, id, value));
            }
            n += 1;
        }
        proof {
            if len > 0 {
                assert(l[len - 1].1 < id);
            }
            assert(l.insert(0, (id, id)) =~= seq![(id, id)]);
        }
        self.insert_group(len, id, value);
        None
    }

    /// Remove group `g`, which holds only `id`.
    #[verifier::spinoff_prover]
    fn remove_single_group(&mut self, g: usize, id: usize) -> (item: T)
        requires
            old(self).wf(),
            g < old(self).groups@.len(),
            old(self).groups@[g as int] == (id, id),
        ensures
            final(self).wf(),
            old(self)@.contains_key(id),
            item == old(self)@[id],
            final(self)@ == old(self)@.remove(id),
            final(self).layout() == old(self).layout().remove(g as int),
    {
        self.sync_model();
        proof {
            self.lemma_lookup(g as int, id);
            assert(self.group_wf(g as int));
        }
        let ghost pre = *self;
        self.groups.remove(g);
        let mut group = self.elements.remove(g);
        let mut removed = group.split_off(0);
        let item = removed.remove(0);
        proof {
            assert(item == pre.elements@[g as int]@[0]);
            self.model@ = self.model@.remove(id);
            assert(self.model@.remove(id) =~= pre.model@.remove(id));
            assert forall|h: int| 0 <= h < self.groups@.len() implies #[trigger] self.group_wf(h) by {
                let p = if h < g { h } else { h + 1 };
                assert(pre.group_wf(p));
                assert(self.groups@[h] == pre.groups@[p]);
                assert(self.elements@[h] == pre.elements@[p]);
                pre.lemma_spans_disjoint(g as int, p, id as int);
                Self::lemma_group_moved(pre, *self, p, h, id);
            }
            assert forall|i: int, j: int| 0 <= i < j < self.groups@.len() implies #[trigger] self.groups@[i].1 < #[trigger] self.groups@[j].0 by {
                let pi = if i < g { i } else { i + 1 };
                let pj = if j < g { j } else { j + 1 };
                assert(pre.groups@[pi].1 < pre.groups@[pj].0);
            }
            assert forall|x: usize| #[trigger] self.model@.contains_key(x) implies exists|h: int|
                0 <= h < self.groups@.len() && span_contains(#[trigger] self.groups@[h], x as int) by {
                let h = choose|h: int| 0 <= h < pre.groups@.len() && span_contains(#[trigger] pre.groups@[h], x as int);
                assert(h != g);
                let q = if h < g { h } else { h - 1 };
                assert(self.groups@[q] == pre.groups@[h]);
            }
        }
        proof {
            self.lemma_unsync();
        }
        item.value
    }

    /// Remove `id`, the first of several ids of group `g`.
    #[verifier::spinoff_prover]
    fn trim_group_front(&mut self, g: usize, id: usize) -> (item: T)
        requires
            old(self).wf(),
            g < old(self).groups@.len(),
            old(self).groups@[g as int].0 == id,
            id < old(self).groups@[g as int].1,
        ensures
            final(self).wf(),
            old(self)@.contains_key(id),
            item == old(self)@[id],
            final(self)@ == old(self)@.remove(id),
            final(self).layout() == old(self).layout().update(g as int, ((id + 1) as usize, old(self).layout()[g as int].1)),
    {
        self.sync_model();
        proof {
            self.lemma_lookup(g as int, id);
            assert(self.group_wf(g as int));
        }
        let ghost pre = *self;
        let end = self.groups[g].1;
        let mut group: Vec<Entry<T>> = Vec::new();
        std::mem::swap(&mut group, &mut self.elements[g]);
        let ghost old_group = group@;
        let mut removed = group.split_off(0);
        let item = removed.remove(0);
        self.groups.set(g, (id + 1, end));
        std::mem::swap(&mut removed, &mut self.elements[g]);
        proof {
            assert(old_group == pre.elements@[g as int]@);
            assert(item == old_group[0]);
            assert(self.elements@[g as int]@ == old_group.subrange(1, old_group.len() as int));
            assert(forall|h: int| 0 <= h < self.elements@.len() && h != g ==> self.elements@[h] == pre.elements@[h]);
            self.model@ = self.model@.remove(id);
            assert(self.model@.remove(id) =~= pre.model@.remove(id));
            assert forall|h: int| 0 <= h < self.groups@.len() implies #[trigger] self.group_wf(h) by {
                assert(pre.group_wf(h));
                let es = self.elements@[h]@;
                if h != g {
                    pre.lemma_spans_disjoint(g as int, h, id as int);
                    Self::lemma_group_moved(pre, *self, h, h, id);
                } else {
                    assert forall|j: int| 0 <= j < es.len() implies #[trigger] self.entry_wf(h, j) by {
                        assert(es[j] == old_group[j + 1]);
                        assert(pre.entry_wf(h, j + 1));
                    }
                    assert(self.group_wf(h));
                }
            }
            assert forall|i: int, j: int| 0 <= i < j < self.groups@.len() implies #[trigger] self.groups@[i].1 < #[trigger] self.groups@[j].0 by {
                assert(pre.groups@[i].1 < pre.groups@[j].0);
            }
            assert forall|x: usize| #[trigger] self.model@.contains_key(x) implies exists|h: int|
                0 <= h < self.groups@.len() && span_contains(#[trigger] self.groups@[h], x as int) by {
                let h = choose|h: int| 0 <= h < pre.groups@.len() && span_contains(#[trigger] pre.groups@[h], x as int);
                assert(span_contains(self.groups@[h], x as int));
            }
        }
        proof {
            self.lemma_unsync();
        }
        item.value
    }

    /// Remove `id`, which lies after the start of group `g`, splitting the
    /// group in two when ids follow it.
    #[verifier::spinoff_prover]
    fn split_group(&mut self, g: usize, id: usize) -> (item: T)
        requires
            old(self).wf(),
            g < old(self).groups@.len(),
            old(self).groups@[g as int].0 < id <= old(self).groups@[g as int].1,
        ensures
            final(self).wf(),
            old(self)@.contains_key(id),
            item == old(self)@[id],
            final(self)@ == old(self)@.remove(id),
            final(self).layout() == if id == old(self).layout()[g as int].1 {
                old(self).layout().update(g as int, (old(self).layout()[g as int].0, (id - 1) as usize))
            } else {
                old(self).layout().update(g as int, (old(self).layout()[g as int].0, (id - 1) as usize)).insert(
                    g + 1,
                    ((id + 1) as usize, old(self).layout()[g as int].1),
                )
            },
    {
        self.sync_model();
        proof {
            self.lemma_lookup(g as int, id);
            assert(self.group_wf(g as int));
        }
        let ghost pre = *self;
        let (start, end) = self.groups[g];
        let local_index = id - start;
        let mut group: Vec<Entry<T>> = Vec::new();
        std::mem::swap(&mut group, &mut self.elements[g]);
        let ghost old_group = group@;
        let mut removed = group.split_off(local_index);
        let removed_end = end;
        let item = removed.remove(0);
        let new_end = if id == 0 { 0 } else { id - 1 };
        let new_start = if group.len() == 1 { new_end } else { start };
        self.groups.set(g, (new_start, new_end));
        std::mem::swap(&mut group, &mut self.elements[g]);
        let ghost mid = *self;
        if removed.len() > 0 {
            assert(id < end && g < self.groups.len());
            self.groups.insert(g + 1, (id + 1, removed_end));
            self.elements.insert(g + 1, removed);
        }
        proof {
            let k = local_index as int;
            assert(old_group == pre.elements@[g as int]@);
            assert(item == old_group[k]);
            assert(mid.elements@[g as int]@ == old_group.subrange(0, k));
            assert(forall|h: int| 0 <= h < mid.elements@.len() && h != g ==> mid.elements@[h] == pre.elements@[h]);
            assert(mid.groups@ == pre.groups@.update(g as int, (start, (id - 1) as usize)));
            let tail = old_group.subrange(k + 1, old_group.len() as int);
            if id < end {
                assert(self.elements@[g + 1]@ == tail);
                assert(self.groups@ == mid.groups@.insert(g + 1, ((id + 1) as usize, end)));
                assert(self.elements@ == mid.elements@.insert(g + 1, self.elements@[g + 1]));
            } else {
                assert(self.groups@ == mid.groups@);
                assert(self.elements@ == mid.elements@);
            }
            self.model@ = self.model@.remove(id);
            assert(self.model@.remove(id) =~= pre.model@.remove(id));
            assert forall|h: int| 0 <= h < self.groups@.len() implies #[trigger] self.group_wf(h) by {
                let es = self.elements@[h]@;
                if h == g {
                    assert(self.groups@[h] == (start, (id - 1) as usize));
                    assert(es.len() == k);
                    assert forall|j: int| 0 <= j < es.len() implies #[trigger] self.entry_wf(h, j) by {
                        assert(es[j] == old_group[j]);
                        assert(pre.entry_wf(g as int, j));
                    }
                    assert(self.group_wf(h));
                } else if h == g + 1 && id < end {
                    assert(pre.group_wf(g as int));
                    assert(end < usize::MAX);
                    assert(self.groups@[h] == ((id + 1) as usize, end));
                    assert(es.len() == end - id);
                    assert forall|j: int| 0 <= j < es.len() implies #[trigger] self.entry_wf(h, j) by {
                        assert(es[j] == old_group[k + 1 + j]);
                        assert(pre.entry_wf(g as int, k + 1 + j));
                    }
                    assert(self.group_wf(h));
                } else {
                    let p = if h < g || id == end { h } else { h - 1 };
                    assert(pre.group_wf(p));
                    assert(self.groups@[h] == pre.groups@[p]);
                    assert(self.elements@[h] == pre.elements@[p]);
                    pre.lemma_spans_disjoint(g as int, p, id as int);
                    Self::lemma_group_moved(pre, *self, p, h, id);
                }
            }
            assert forall|i: int, j: int| 0 <= i < j < self.groups@.len() implies #[trigger] self.groups@[i].1 < #[trigger] self.groups@[j].0 by {
                let pi = if i <= g || id == end { i } else { i - 1 };
                let pj = if j <= g || id == end { j } else { j - 1 };
                if pi != pj {
                    assert(pre.groups@[pi].1 < pre.groups@[pj].0);
                }
                if j == g + 1 && id < end {
                    if i < g {
                        assert(pre.groups@[i].1 < pre.groups@[g as int].0);
                    }
                } else if i == g + 1 && id < end {
                    assert(pre.groups@[g as int].1 < pre.groups@[pj].0);
                }
            }
            assert forall|x: usize| #[trigger] self.model@.contains_key(x) implies exists|h: int|
                0 <= h < self.groups@.len() && span_contains(#[trigger] self.groups@[h], x as int) by {
                let h = choose|h: int| 0 <= h < pre.groups@.len() && span_contains(#[trigger] pre.groups@[h], x as int);
                if h < g || (h > g && id == end) {
                    assert(self.groups@[h] == pre.groups@[h]);
                } else if h > g {
                    assert(self.groups@[h + 1] == pre.groups@[h]);
                } else if x < id {
                    assert(span_contains(self.groups@[g as int], x as int));
                } else {
                    assert(span_contains(self.groups@[g + 1], x as int));
                }
            }
        }
        proof {
            self.lemma_unsync();
        }
        item.value
    }

    /// Remove the component stored at `id`, returning it if there was one.
    pub fn remove(&mut self, id: usize) -> (r: Option<T>)
        requires
            old(self).wf(),
        ensures
            final(self).wf(),
            final(self)@ == old(self)@.remove(id),
            r == (if old(self)@.contains_key(id) { Some(old(self)@[id]) } else { None::<T> }),
            final(self).layout() == spans_after_remove(old(self).layout(), id),
    {
        let ghost l = self.groups@;
        let mut n: usize = 0;
        while n < self.groups.len()
            invariant
                self.wf(),
                *self == *old(self),
                l == old(self).groups@,
                n <= self.groups@.len(),
                forall|g: int| 0 <= g < n ==> !span_contains(#[trigger] self.groups@[g], id as int),
            decreases self.groups@.len() - n,
        {
            let (start, end) = self.groups[n];
            if id >= start && id <= end {
                proof {
                    assert(span_contains(l[n as int], id as int));
                    lemma_span_unique(l, id, n as int);
                }
                // the group has to be split around `id`
                if id > start {
                    return Some(self.split_group(n, id));
                } else if id < end {
                    return Some(self.trim_group_front(n, id));
                } else {
                    return Some(self.remove_single_group(n, id));
                }
            }
            n += 1;
        }
        proof {
            self.lemma_absent(id);
            assert(!exists|g: int| 0 <= g < l.len() && span_contains(#[trigger] l[g], id as int));
        }
        None
    }

    /// Remove `end`, the last of several ids of group `g`.
    #[verifier::spinoff_prover]
    fn trim_group_back(&mut self, g: usize) -> (item: T)
        requires
            old(self).wf(),
            g < old(self).groups@.len(),
            old(self).groups@[g as int].0 < old(self).groups@[g as int].1,
        ensures
            final(self).wf(),
            old(self)@.contains_key(old(self).groups@[g as int].1),
            item == old(self)@[old(self).groups@[g as int].1],
            final(self)@ == old(self)@.remove(old(self).groups@[g as int].1),
            final(self).layout() == old(self).layout().update(
                g as int,
                (old(self).layout()[g as int].0, (old(self).layout()[g as int].1 - 1) as usize),
            ),
    {
        self.sync_model();
        let ghost pre = *self;
        let (start, end) = self.groups[g];
        proof {
            self.lemma_lookup(g as int, end);
            assert(self.group_wf(g as int));
        }
        self.groups.set(g, (start, end - 1));
        let mut group: Vec<Entry<T>> = Vec::new();
        std::mem::swap(&mut group, &mut self.elements[g]);
        let ghost old_group = group@;
        let item = group.pop().unwrap();
        std::mem::swap(&mut group, &mut self.elements[g]);
        proof {
            let id = end;
            assert(old_group == pre.elements@[g as int]@);
            assert(item == old_group[old_group.len() - 1]);
            assert(self.elements@[g as int]@ == old_group.drop_last());
            assert(forall|h: int| 0 <= h < self.elements@.len() && h != g ==> self.elements@[h] == pre.elements@[h]);
            self.model@ = self.model@.remove(id);
            assert(self.model@.remove(id) =~= pre.model@.remove(id));
            assert forall|h: int| 0 <= h < self.groups@.len() implies #[trigger] self.group_wf(h) by {
                assert(pre.group_wf(h));
                let es = self.elements@[h]@;
                if h != g {
                    pre.lemma_spans_disjoint(g as int, h, id as int);
                    Self::lemma_group_moved(pre, *self, h, h, id);
                } else {
                    assert(es.len() == old_group.len() - 1);
                    assert forall|j: int| 0 <= j < es.len() implies #[trigger] self.entry_wf(h, j) by {
                        assert(es[j] == pre.elements@[h]@[j]);
                        assert(pre.entry_wf(h, j));
                    }
                    assert(self.group_wf(h));
                }
            }
            assert forall|i: int, j: int| 0 <= i < j < self.groups@.len() implies #[trigger] self.groups@[i].1 < #[trigger] self.groups@[j].0 by {
                assert(pre.groups@[i].1 < pre.groups@[j].0);
            }
            assert forall|x: usize| #[trigger] self.model@.contains_key(x) implies exists|h: int|
                0 <= h < self.groups@.len() && span_contains(#[trigger] self.groups@[h], x as int) by {
                let h = choose|h: int| 0 <= h < pre.groups@.len() && span_contains(#[trigger] pre.groups@[h], x as int);
                assert(span_contains(self.groups@[h], x as int));
            }
        }
        proof {
            self.lemma_unsync();
        }
        item.value
    }

    /// Push a component at the id after the last stored one (`0` when the
    /// store is empty), returning that id.
    pub fn push(&mut self, value: T) -> (id: usize)
        requires
            old(self).wf(),
            old(self).layout().len() == 0 || old(self).layout().last().1 + 1 < usize::MAX,
        ensures
            final(self).wf(),
            id == (if old(self).layout().len() == 0 { 0 } else { old(self).layout().last().1 + 1 }),
            !old(self)@.contains_key(id),
            final(self)@ == old(self)@.insert(id, value),
            final(self).layout() == if old(self).layout().len() == 0 {
                seq![(0usize, 0usize)]
            } else {
                old(self).layout().update(old(self).layout().len() - 1, (old(self).layout().last().0, id))
            },
    {
        let len = self.groups.len();
        if len > 0 {
            let end = self.groups[len - 1].1;
            let id = end + 1;
            self.append_to_group(len - 1, id, value);
            id
        } else {
            self.insert_group(0, 0, value);
            proof {
                assert(self.groups@ =~= seq![(0usize, 0usize)]);
            }
            0
        }
    }

    /// Remove the component with the greatest id and return it, if the store
    /// is not empty.
    pub fn pop(&mut self) -> (r: Option<T>)
        requires
            old(self).wf(),
        ensures
            final(self).wf(),
            match r {
                None => old(self).layout().len() == 0 && final(self)@ == old(self)@,
                Some(v) => {
                    let last = old(self).layout().last().1;
                    &&& old(self).layout().len() > 0
                    &&& old(self)@.contains_key(last)
                    &&& v == old(self)@[last]
                    &&& final(self)@ == old(self)@.remove(last)
                    &&& final(self).layout() == if old(self).layout().last().0 < last {
                        old(self).layout().update(old(self).layout().len() - 1, (old(self).layout().last().0, (last - 1) as usize))
                    } else {
                        old(self).layout().drop_last()
                    }
                },
            },
    {
        let len = self.groups.len();
        if len > 0 {
            let (start, end) = self.groups[len - 1];
            if start < end {
                return Some(self.trim_group_back(len - 1));
            }
            proof {
                assert(self.group_shaped(len - 1));
            }
            let ghost l = self.groups@;
            let item = self.remove_single_group(len - 1, end);
            proof {
                assert(l.remove(len - 1) =~= l.drop_last());
            }
            return Some(item);
        }
        None
    }

    /// Merge group `a` with the group after it, which starts right after
    /// `a` ends.
    #[verifier::spinoff_prover]
    fn merge(&mut self, a: usize)
        requires
            old(self).wf(),
            a + 1 < old(self).groups@.len(),
            old(self).groups@[a as int].1 + 1 == old(self).groups@[a + 1].0,
        ensures
            final(self).wf(),
            final(self)@ == old(self)@,
            final(self).layout() == old(self).layout().update(
                a as int,
                (old(self).layout()[a as int].0, old(self).layout()[a + 1].1),
            ).remove(a + 1),
    {
        self.sync_model();
        let ghost pre = *self;
        assert(a + 1 < self.groups.len());
        let b = a + 1;
        proof {
            assert(self.group_wf(a as int));
            assert(self.group_wf(b as int));
        }
        let (_b_start, b_end) = self.groups.remove(b);
        let a_start = self.groups[a].0;
        self.groups.set(a, (a_start, b_end));
        let mut b_group = self.elements.remove(b);
        let mut a_group: Vec<Entry<T>> = Vec::new();
        std::mem::swap(&mut a_group, &mut self.elements[a]);
        let ghost ga = a_group@;
        let ghost gb = b_group@;
        a_group.append(&mut b_group);
        std::mem::swap(&mut a_group, &mut self.elements[a]);
        proof {
            assert(ga == pre.elements@[a as int]@);
            assert(gb == pre.elements@[b as int]@);
            assert(self.elements@[a as int]@ == ga + gb);
            assert forall|h: int| 0 <= h < self.groups@.len() implies #[trigger] self.group_wf(h) by {
                let es = self.elements@[h]@;
                if h == a {
                    assert(self.groups@[h] == (a_start, b_end));
                    assert(es.len() == ga.len() + gb.len());
                    assert forall|j: int| 0 <= j < es.len() implies #[trigger] self.entry_wf(h, j) by {
                        if j < ga.len() {
                            assert(es[j] == ga[j]);
                            assert(pre.entry_wf(a as int, j));
                        } else {
                            assert(es[j] == gb[j - ga.len()]);
                            assert(pre.entry_wf(b as int, j - ga.len()));
                        }
                    }
                } else {
                    let p = if h < a { h } else { h + 1 };
                    assert(pre.group_wf(p));
                    assert(self.groups@[h] == pre.groups@[p]);
                    assert(self.elements@[h] == pre.elements@[p]);
                    Self::lemma_group_moved(pre, *self, p, h, 0);
                }
            }
            assert forall|i: int, j: int| 0 <= i < j < self.groups@.len() implies #[trigger] self.groups@[i].1 < #[trigger] self.groups@[j].0 by {
                let pi = if i <= a { i } else { i + 1 };
                let pj = if j <= a { j } else { j + 1 };
                if i == a {
                    assert(pre.groups@[b as int].1 < pre.groups@[pj].0);
                } else if j == a {
                    assert(pre.groups@[pi].1 < pre.groups@[a as int].0);
                } else {
                    assert(pre.groups@[pi].1 < pre.groups@[pj].0);
                }
            }
            assert forall|x: usize| #[trigger] self.model@.contains_key(x) implies exists|h: int|
                0 <= h < self.groups@.len() && span_contains(#[trigger] self.groups@[h], x as int) by {
                let h = choose|h: int| 0 <= h < pre.groups@.len() && span_contains(#[trigger] pre.groups@[h], x as int);
                if h < a {
                    assert(self.groups@[h] == pre.groups@[h]);
                } else if h <= b {
                    assert(span_contains(self.groups@[a as int], x as int));
                } else {
                    assert(self.groups@[h - 1] == pre.groups@[h]);
                }
            }
        }
        proof {
            self.lemma_unsync();
        }
    }

    /// The index of the first group that ends right before the next group
    /// starts, if any.
    fn next_defrag_pair(&self) -> (r: Option<usize>)
        requires
            self.wf(),
        ensures
            match r {
                Some(i) => i + 1 < self.groups@.len() && self.groups@[i as int].1 + 1 == self.groups@[i + 1].0,
                None => spans_unfragmented(self.groups@),
            },
    {
        let len = self.groups.len();
        let mut i: usize = 0;
        while len > 0 && i < len - 1
            invariant
                self.wf(),
                len == self.groups@.len(),
                forall|k: int| 0 <= k < i && k + 1 < len ==> #[trigger] self.groups@[k].1 + 1 != self.groups@[k + 1].0,
            decreases len - i,
        {
            proof {
                assert(self.group_shaped(i as int));
            }
            if self.groups[i].1 + 1 == self.groups[i + 1].0 {
                return Some(i);
            }
            i += 1;
        }
        None
    }

    /// Defragment the inner memory layout by performing `n` merges of groups
    /// that follow each other without a gap, or as many as there are.
    pub fn defrag_partial(&mut self, n: usize)
        requires
            old(self).wf(),
        ensures
            final(self).wf(),
            final(self)@ == old(self)@,
            final(self).layout().len() == old(self).layout().len() - (if n < adjacent_pairs(old(self).layout()) {
                n as nat
            } else {
                adjacent_pairs(old(self).layout())
            }),
            n >= adjacent_pairs(old(self).layout()) ==> spans_unfragmented(final(self).layout()),
    {
        let mut n = n;
        let ghost n0 = n;
        let ghost len0 = self.groups@.len();
        let ghost f0 = adjacent_pairs(self.groups@);
        proof {
            lemma_adjacent_pairs(self.groups@);
        }
        loop
            invariant
                self.wf(),
                self@ == old(self)@,
                len0 == old(self).groups@.len(),
                f0 == adjacent_pairs(old(self).groups@),
                n <= n0,
                adjacent_pairs(self.groups@) + (n0 - n) == f0,
                self.groups@.len() + (n0 - n) == len0,
            ensures
                self.wf(),
                self@ == old(self)@,
                self.groups@.len() == len0 - (if n0 < f0 { n0 as nat } else { f0 }),
                n0 >= f0 ==> spans_unfragmented(self.groups@),
            decreases self.groups@.len(),
        {
            match self.next_defrag_pair() {
                None => {
                    proof {
                        lemma_adjacent_pairs(self.groups@);
                    }
                    break;
                },
                Some(a) => {
                    if n == 0 {
                        proof {
                            lemma_adjacent_pairs(self.groups@);
                        }
                        break;
                    }
                    proof {
                        lemma_merge_adjacent(self.groups@, a as int);
                    }
                    self.merge(a);
                    n -= 1;
                },
            }
        }
    }

    /// Defragment the inner memory layout, merging every pair of groups that
    /// follow each other without a gap.
    pub fn defrag(&mut self)
        requires
            old(self).wf(),
        ensures
            final(self).wf(),
            final(self)@ == old(self)@,
            spans_unfragmented(final(self).layout()),
    {
        proof {
            lemma_adjacent_pairs(self.groups@);
        }
        self.defrag_partial(self.groups.len())
    }

    /// The components of ids 0 up to the last stored id, each `None` where
    /// no component is stored, in groups that can be split for parallel
    /// work.
    pub fn par_iter(&self) -> (r: RangeStoreParIter<&T>)
        requires
            self.wf(),
        ensures
            r@.len() == (if self.layout().len() == 0 { 0 } else { self.layout().last().1 + 1 }),
            forall|i: int|
                0 <= i < r@.len() ==> match #[trigger] r@[i] {
                    Some(v) => self@.contains_key(i as usize) && *v == self@[i as usize],
                    None => !self@.contains_key(i as usize),
                },
    {
        let mut groups: Vec<ParGroupIter<&T>> = Vec::new();
        let mut next_id: usize = 0;
        let n = self.groups.len();
        let mut g: usize = 0;
        while g < n
            invariant
                self.wf(),
                n == self.groups@.len(),
                g <= n,
                g == 0 ==> next_id == 0,
                g > 0 ==> next_id == self.groups@[g - 1].1 + 1,
                group_items(groups@).len() == next_id,
                forall|i: int|
                    0 <= i < next_id ==> match #[trigger] group_items(groups@)[i] {
                        Some(v) => self@.contains_key(i as usize) && *v == self@[i as usize],
                        None => !self@.contains_key(i as usize),
                    },
            decreases n - g,
        {
            let (start, end) = self.groups[g];
            proof {
                assert(self.group_shaped(g as int));
                if g > 0 {
                    assert(self.groups@[g - 1].1 < self.groups@[g as int].0);
                }
            }
            if next_id < start {
                let ghost before = groups@;
                groups.push(ParGroupIter::Missing(start - next_id));
                proof {
                    crate::par_groups::lemma_group_items_push(before, ParGroupIter::Missing((start - next_id) as usize));
                    assert forall|i: int| next_id <= i < start implies !#[trigger] self@.contains_key(i as usize) by {
                        if self@.contains_key(i as usize) {
                            let h = choose|h: int| 0 <= h < self.groups@.len() && span_contains(#[trigger] self.groups@[h], i);
                            if h < g {
                                if h < g - 1 {
                                    assert(self.groups@[h].1 < self.groups@[g - 1].0);
                                }
                            } else if h > g {
                                assert(self.groups@[g as int].1 < self.groups@[h].0);
                            }
                        }
                    }
                }
                next_id = start;
            }
            let group = &self.elements[g];
            let m = group.len();
            let mut refs: Vec<&T> = Vec::new();
            let mut k: usize = 0;
            while k < m
                invariant
                    self.wf(),
                    g < n,
                    n == self.groups@.len(),
                    start == self.groups@[g as int].0,
                    group == &self.elements@[g as int],
                    m == group@.len(),
                    k <= m,
                    refs@.len() == k,
                    forall|j: int| 0 <= j < k ==> *refs@[j] == self@[(start + j) as usize] && self@.contains_key((start + j) as usize),
                decreases m - k,
            {
                proof {
                    assert(self.group_shaped(g as int));
                    self.lemma_lookup(g as int, (start + k) as usize);
                }
                refs.push(&group[k].value);
                k += 1;
            }
            let ghost before = groups@;
            let ghost rv = refs@;
            groups.push(ParGroupIter::Present(refs));
            proof {
                assert(self.group_shaped(g as int));
                crate::par_groups::lemma_group_items_push(before, ParGroupIter::Present(refs));
            }
            next_id = end + 1;
            g += 1;
        }
        RangeStoreParIter(groups)
    }

    /// The stored components in order of their ids, each with its id.
    pub fn iter(&self) -> (r: Vec<(usize, &T)>)
        requires
            self.wf(),
        ensures
            r@.len() == span_keys(self.layout()).len(),
            forall|i: int|
                0 <= i < r@.len() ==> {
                    &&& (#[trigger] r@[i]).0 == span_keys(self.layout())[i]
                    &&& self@.contains_key(r@[i].0)
                    &&& *r@[i].1 == self@[r@[i].0]
                },
            forall|i: int, j: int| 0 <= i < j < r@.len() ==> (#[trigger] r@[i]).0 < (#[trigger] r@[j]).0,
            forall|id: usize| #[trigger] self@.contains_key(id) ==> exists|i: int| 0 <= i < r@.len() && (#[trigger] r@[i]).0 == id,
    {
        let mut r: Vec<(usize, &T)> = Vec::new();
        let mut g: usize = 0;
        while g < self.groups.len()
            invariant
                self.wf(),
                g <= self.groups@.len(),
                r@.len() == span_keys(self.groups@.take(g as int)).len(),
                forall|i: int|
                    0 <= i < r@.len() ==> {
                        &&& (#[trigger] r@[i]).0 == span_keys(self.groups@.take(g as int))[i]
                        &&& self@.contains_key(r@[i].0)
                        &&& *r@[i].1 == self@[r@[i].0]
                    },
            decreases self.groups@.len() - g,
        {
            let start = self.groups[g].0;
            let group = &self.elements[g];
            let ghost base = r@.len();
            let ghost prefix = span_keys(self.groups@.take(g as int));
            proof {
                assert(self.group_shaped(g as int));
            }
            let mut j: usize = 0;
            while j < group.len()
                invariant
                    self.wf(),
                    g < self.groups@.len(),
                    self.group_shaped(g as int),
                    start == self.groups@[g as int].0,
                    *group == self.elements@[g as int],
                    group@.len() == self.groups@[g as int].1 - start + 1,
                    j <= group@.len(),
                    base == prefix.len(),
                    prefix == span_keys(self.groups@.take(g as int)),
                    r@.len() == base + j,
                    forall|i: int|
                        0 <= i < r@.len() ==> {
                            &&& (#[trigger] r@[i]).0 == (if i < base { prefix[i] } else { (start + (i - base)) as usize })
                            &&& self@.contains_key(r@[i].0)
                            &&& *r@[i].1 == self@[r@[i].0]
                        },
                decreases group@.len() - j,
            {
                proof {
                    self.lemma_lookup(g as int, (start + j) as usize);
                }
                r.push((start + j, &group[j].value));
                j += 1;
            }
            proof {
                let t = self.groups@.take(g + 1);
                assert(t.drop_last() =~= self.groups@.take(g as int));
                assert(t.last() == self.groups@[g as int]);
                let keys = span_keys(t);
                assert(keys == prefix + Seq::new(
                    (self.groups@[g as int].1 - start + 1) as nat,
                    |i: int| (start + i) as usize,
                ));
                assert forall|i: int| 0 <= i < r@.len() implies (#[trigger] r@[i]).0 == keys[i] by {
                    if i >= base {
                        assert(keys[i] == (start + (i - base)) as usize);
                    }
                }
            }
            g += 1;
        }
        proof {
            assert(self.groups@.take(self.groups@.len() as int) =~= self.groups@);
            lemma_span_keys(self.groups@);
            self.lemma_layout_covers();
            assert forall|id: usize| #[trigger] self@.contains_key(id) implies exists|i: int| 0 <= i < r@.len() && (#[trigger] r@[i]).0 == id by {
                let g = choose|g: int| 0 <= g < self.layout().len() && span_contains(#[trigger] self.layout()[g], id as int);
                assert(span_contains(self.groups@[g], id as int));
                let i = span_keys(self.groups@).index_of(id);
                assert(r@[i].0 == id);
            }
        }
        r
    }

    /// The spans of the layout are ordered, and the ids they cover are
    /// exactly the ids of the stored components.
    pub proof fn lemma_layout_covers(&self)
        requires
            self.wf(),
        ensures
            spans_ordered(self.layout()),
            forall|g: int, id: usize|
                0 <= g < self.layout().len() && span_contains(#[trigger] self.layout()[g], id as int)
                    ==> #[trigger] self@.contains_key(id),
            forall|id: usize|
                #[trigger] self@.contains_key(id) ==> exists|g: int|
                    0 <= g < self.layout().len() && span_contains(#[trigger] self.layout()[g], id as int),
    {
        assert forall|g: int, id: usize|
            0 <= g < self.layout().len() && span_contains(#[trigger] self.layout()[g], id as int)
                implies #[trigger] self@.contains_key(id) by {
            self.lemma_lookup(g, id);
        }
        assert forall|id: usize| #[trigger] self@.contains_key(id) implies exists|g: int|
            0 <= g < self.layout().len() && span_contains(#[trigger] self.layout()[g], id as int) by {
            assert(self.covers(id));
            let g = self.group_of(id);
            assert(span_contains(self.layout()[g], id as int));
        }
    }

    /// Whether a component is stored at `id`.
    pub fn contains(&self, id: usize) -> (b: bool)
        requires
            self.wf(),
        ensures
            b == self@.contains_key(id),
    {
        let mut i: usize = 0;
        while i < self.groups.len()
            invariant
                self.wf(),
                i <= self.groups@.len(),
                forall|g: int| 0 <= g < i ==> !span_contains(#[trigger] self.groups@[g], id as int),
            decreases self.groups@.len() - i,
        {
            let (start, end) = self.groups[i];
            if id >= start && id <= end {
                proof {
                    self.lemma_lookup(i as int, id);
                }
                return true;
            }
            i += 1;
        }
        proof {
            self.lemma_absent(id);
        }
        false
    }

    /// The component stored at `id`, if any.
    pub fn get(&self, id: usize) -> (r: Option<&T>)
        requires
            self.wf(),
        ensures
            match r {
                Some(v) => self@.contains_key(id) && *v == self@[id],
                None => !self@.contains_key(id),
            },
    {
        let mut i: usize = 0;
        while i < self.groups.len()
            invariant
                self.wf(),
                i <= self.groups@.len(),
                forall|g: int| 0 <= g < i ==> !span_contains(#[trigger] self.groups@[g], id as int),
            decreases self.groups@.len() - i,
        {
            let (start, end) = self.groups[i];
            if start <= id && id <= end {
                proof {
                    self.lemma_lookup(i as int, id);
                    assert(self.group_shaped(i as int));
                }
                let components = &self.elements[i];
                return Some(&components[id - start].value);
            }
            i += 1;
        }
        proof {
            self.lemma_absent(id);
        }
        None
    }
    spec fn only_value_changed(pre: Self, post: Self, g: int, k: int) -> bool {
        &&& post.groups == pre.groups
        &&& post.elements@.len() == pre.elements@.len()
        &&& forall|h: int| 0 <= h < pre.elements@.len() && h != g ==> #[trigger] post.elements@[h] == pre.elements@[h]
        &&& post.elements@[g]@.len() == pre.elements@[g]@.len()
        &&& forall|j: int| 0 <= j < pre.elements@[g]@.len() && j != k ==> #[trigger] post.elements@[g]@[j] == pre.elements@[g]@[j]
        &&& post.elements@[g]@[k].key == pre.elements@[g]@[k].key
    }

    /// A store that differs from `pre` only in the value of entry `k` of
    /// group `g` is well formed, with the same layout, and its components
    /// differ only at that entry's id.
    proof fn lemma_value_changed(pre: Self, post: Self, g: int, k: int)
        requires
            pre.wf(),
            0 <= g < pre.groups@.len(),
            0 <= k < pre.elements@[g]@.len(),
            Self::only_value_changed(pre, post, g, k),
        ensures
            post.wf(),
            post@ == pre@.insert((pre.groups@[g].0 + k) as usize, post.elements@[g]@[k].value),
            post.layout() == pre.layout(),
    {
        let id = (pre.groups@[g].0 + k) as usize;
        let v = post.elements@[g]@[k].value;
        assert(pre.group_shaped(g));
        assert forall|h: int| 0 <= h < post.groups@.len() implies #[trigger] post.group_shaped(h) by {
            assert(pre.group_shaped(h));
            if h == g {
                assert forall|j: int| 0 <= j < post.elements@[h]@.len() implies (#[trigger] post.elements@[h]@[j]).key
                    == post.groups@[h].0 + j by {
                    assert(pre.elements@[h]@[j].key == pre.groups@[h].0 + j);
                }
            }
        }
        assert(post.wf());
        pre.lemma_lookup(g, id);
        post.lemma_lookup(g, id);
        assert forall|x: usize| #[trigger] post@.contains_key(x) == pre@.insert(id, v).contains_key(x) by {
            assert(post.covers(x) == pre.covers(x));
        }
        assert forall|x: usize| #[trigger] post@.contains_key(x) implies post@[x] == pre@.insert(id, v)[x] by {
            let c = post.group_of(x);
            assert(c == pre.group_of(x));
            post.lemma_lookup(c, x);
            pre.lemma_lookup(c, x);
            if x != id && c == g {
                assert(x - pre.groups@[g].0 != k);
            }
        }
        assert(post@ =~= pre@.insert(id, v));
    }

    /// Every store that differs from `pre` only in the value of entry `k`
    /// of group `g` is as `lemma_value_changed` says.
    proof fn lemma_value_changed_any(pre: Self, g: int, k: int)
        requires
            pre.wf(),
            0 <= g < pre.groups@.len(),
            0 <= k < pre.elements@[g]@.len(),
        ensures
            forall|post: Self|
                #![trigger post.wf()]
                Self::only_value_changed(pre, post, g, k) ==> {
                    &&& post.wf()
                    &&& post@ == pre@.insert((pre.groups@[g].0 + k) as usize, post.elements@[g]@[k].value)
                    &&& post.layout() == pre.layout()
                },
    {
        assert forall|post: Self| #![trigger post.wf()] Self::only_value_changed(pre, post, g, k) implies {
            &&& post.wf()
            &&& post@ == pre@.insert((pre.groups@[g].0 + k) as usize, post.elements@[g]@[k].value)
            &&& post.layout() == pre.layout()
        } by {
            Self::lemma_value_changed(pre, post, g, k);
        }
    }

    /// A mutable reference to the component stored at `id`, if any; what is
    /// written through it becomes the component of `id`.
    pub fn get_mut(&mut self, id: usize) -> (r: Option<&mut T>)
        requires
            old(self).wf(),
        ensures
            final(self).wf(),
            final(self).layout() == old(self).layout(),
            match r {
                Some(v) => {
                    &&& old(self)@.contains_key(id)
                    &&& *v == old(self)@[id]
                    &&& final(self)@ == old(self)@.insert(id, *final(v))
                },
                None => !old(self)@.contains_key(id) && final(self)@ == old(self)@,
            },
    {
        let mut i: usize = 0;
        while i < self.groups.len()
            invariant
                self.wf(),
                *self == *old(self),
                i <= self.groups@.len(),
                forall|g: int| 0 <= g < i ==> !span_contains(#[trigger] self.groups@[g], id as int),
            decreases self.groups@.len() - i,
        {
            let (start, end) = self.groups[i];
            if start <= id && id <= end {
                proof {
                    self.lemma_lookup(i as int, id);
                    assert(self.group_shaped(i as int));
                    Self::lemma_value_changed_any(*self, i as int, id - start);
                }
                let group = &mut self.elements[i];
                let e = &mut group[id - start];
                return Some(&mut e.value);
            }
            i += 1;
        }
        proof {
            self.lemma_absent(id);
        }
        None
    }

    spec fn only_values_changed(pre: Self, post: Self) -> bool {
        &&& post.groups == pre.groups
        &&& post.elements@.len() == pre.elements@.len()
        &&& forall|g: int| 0 <= g < pre.elements@.len() ==> (#[trigger] post.elements@[g])@.len() == pre.elements@[g]@.len()
        &&& forall|g: int, j: int|
            0 <= g < pre.elements@.len() && 0 <= j < pre.elements@[g]@.len() ==> (#[trigger] post.elements@[g]@[j]).key
                == pre.elements@[g]@[j].key
    }

    /// Every store that differs from `pre` only in the values of its
    /// entries is well formed, with the same layout and ids, and the value
    /// of each id is its entry's.
    proof fn lemma_values_changed_any(pre: Self)
        requires
            pre.wf(),
        ensures
            forall|post: Self|
                #![trigger post.wf()]
                Self::only_values_changed(pre, post) ==> {
                    &&& post.wf()
                    &&& post.layout() == pre.layout()
                    &&& post@.dom() == pre@.dom()
                    &&& forall|g: int, j: int|
                        0 <= g < post.groups@.len() && 0 <= j < post.elements@[g]@.len() ==> post@[(post.groups@[g].0 + j) as usize]
                            == (#[trigger] post.elements@[g]@[j]).value
                },
    {
        assert forall|post: Self| #![trigger post.wf()] Self::only_values_changed(pre, post) implies {
            &&& post.wf()
            &&& post.layout() == pre.layout()
            &&& post@.dom() == pre@.dom()
            &&& forall|g: int, j: int|
                0 <= g < post.groups@.len() && 0 <= j < post.elements@[g]@.len() ==> post@[(post.groups@[g].0 + j) as usize]
                    == (#[trigger] post.elements@[g]@[j]).value
        } by {
            assert forall|h: int| 0 <= h < post.groups@.len() implies #[trigger] post.group_shaped(h) by {
                assert(pre.group_shaped(h));
                assert forall|j: int| 0 <= j < post.elements@[h]@.len() implies (#[trigger] post.elements@[h]@[j]).key
                    == post.groups@[h].0 + j by {
                    assert(pre.elements@[h]@[j].key == pre.groups@[h].0 + j);
                }
            }
            assert(post.wf());
            assert forall|x: usize| #[trigger] post@.contains_key(x) == pre@.contains_key(x) by {
                assert(post.covers(x) == pre.covers(x));
            }
            assert(post@.dom() =~= pre@.dom());
            assert forall|g: int, j: int|
                0 <= g < post.groups@.len() && 0 <= j < post.elements@[g]@.len() implies post@[(post.groups@[g].0 + j) as usize]
                == (#[trigger] post.elements@[g]@[j]).value by {
                assert(post.group_shaped(g));
                post.lemma_lookup(g, (post.groups@[g].0 + j) as usize);
            }
        }
    }

    /// Mutable references to the stored components in order of their ids,
    /// each with its id; what is written through a reference becomes the
    /// component of its id.
    #[verifier::rlimit(40)]
    pub fn iter_mut(&mut self) -> (r: Vec<(usize, &mut T)>)
        requires
            old(self).wf(),
        ensures
            final(self).wf(),
            final(self).layout() == old(self).layout(),
            final(self)@.dom() == old(self)@.dom(),
            r@.len() == span_keys(old(self).layout()).len(),
            forall|k: int|
                0 <= k < r@.len() ==> {
                    &&& (#[trigger] r@[k]).0 == span_keys(old(self).layout())[k]
                    &&& old(self)@.contains_key(r@[k].0)
                    &&& *r@[k].1 == old(self)@[r@[k].0]
                    &&& final(self)@[r@[k].0] == *final(r@[k].1)
                },
    {
        let ghost pre = *self;
        let ghost spans = self.groups@;
        let n = self.groups.len();
        proof {
            Self::lemma_values_changed_any(pre);
            assert forall|h: int, j: int| 0 <= h < n && 0 <= j < pre.elements@[h]@.len() implies {
                &&& (#[trigger] pre.elements@[h]@[j]).key == spans[h].0 + j
                &&& pre@.contains_key((spans[h].0 + j) as usize)
                &&& pre@[(spans[h].0 + j) as usize] == pre.elements@[h]@[j].value
            } by {
                assert(pre.group_shaped(h));
                pre.lemma_lookup(h, (spans[h].0 + j) as usize);
            }
            assert forall|h: int| 0 <= h < n implies (#[trigger] pre.elements@[h])@.len() == spans[h].1 - spans[h].0 + 1 by {
                assert(pre.group_shaped(h));
            }
        }
        let elems = self.elements.as_mut_slice();
        let nested = group_refs(elems);
        proof {
            assert forall|h: int| 0 <= h < n implies (#[trigger] nested@[h])@.len() == spans[h].1 - spans[h].0 + 1 by {
                assert(pre.group_shaped(h));
            }
        }
        let ghost nest = nested@;
        let (out, Ghost(pos)) = flatten_refs(nested, Ghost(spans));
        proof {
            assert forall|k: int| 0 <= k < out@.len() implies {
                let (h, j) = pos[k];
                &&& out@[k] == nest[h]@[j]
                &&& (#[trigger] out@[k]).0 == (spans[h].0 + j) as usize
                &&& pre@.contains_key(out@[k].0)
                &&& *out@[k].1 == pre@[out@[k].0]
            } by {
                let (h, j) = pos[k];
                assert(pre.elements@[h]@[j].key == spans[h].0 + j);
            }
        }
        out
    }
}


impl<T: Clone> RangeStore<T> {
    /// Each group's span with clones of its components, in order.
    pub fn groups(&self) -> (r: Vec<((usize, usize), Vec<T>)>)
        requires
            self.wf(),
        ensures
            r@.len() == self.layout().len(),
            forall|g: int|
                0 <= g < r@.len() ==> {
                    &&& (#[trigger] r@[g]).0 == self.layout()[g]
                    &&& r@[g].1@.len() == self.layout()[g].1 - self.layout()[g].0 + 1
                    &&& forall|k: int|
                        0 <= k < r@[g].1@.len() ==> cloned::<T>(self@[(self.layout()[g].0 + k) as usize], #[trigger] r@[g].1@[k])
                },
    {
        let mut r: Vec<((usize, usize), Vec<T>)> = Vec::new();
        let mut g: usize = 0;
        while g < self.groups.len()
            invariant
                self.wf(),
                g <= self.groups@.len(),
                r@.len() == g,
                forall|h: int|
                    0 <= h < r@.len() ==> {
                        &&& (#[trigger] r@[h]).0 == self.groups@[h]
                        &&& r@[h].1@.len() == self.groups@[h].1 - self.groups@[h].0 + 1
                        &&& forall|k: int|
                            0 <= k < r@[h].1@.len() ==> cloned::<T>(self@[(self.groups@[h].0 + k) as usize], #[trigger] r@[h].1@[k])
                    },
            decreases self.groups@.len() - g,
        {
            let group = &self.elements[g];
            let mut values: Vec<T> = Vec::new();
            let mut j: usize = 0;
            proof {
                assert(self.group_shaped(g as int));
            }
            while j < group.len()
                invariant
                    self.wf(),
                    g < self.groups@.len(),
                    self.group_shaped(g as int),
                    *group == self.elements@[g as int],
                    j <= group@.len(),
                    values@.len() == j,
                    forall|k: int|
                        0 <= k < values@.len() ==> cloned::<T>(self@[(self.groups@[g as int].0 + k) as usize], #[trigger] values@[k]),
                decreases group@.len() - j,
            {
                proof {
                    self.lemma_lookup(g as int, (self.groups@[g as int].0 + j) as usize);
                }
                let v = group[j].value.clone();
                proof {
                    assert(vstd::pervasive::strictly_cloned::<T>(group@[j as int].value, v));
                    assert(cloned::<T>(self@[(self.groups@[g as int].0 + j) as usize], v));
                }
                let ghost old_values = values@;
                values.push(v);
                proof {
                    assert forall|k: int| 0 <= k < values@.len() implies cloned::<T>(self@[(self.groups@[g as int].0 + k) as usize], #[trigger] values@[k]) by {
                        if k < j {
                            assert(values@[k] == old_values[k]);
                        }
                    }
                }
                j += 1;
            }
            let ghost vs = values@;
            let ghost old_r = r@;
            assert(vs.len() == self.groups@[g as int].1 - self.groups@[g as int].0 + 1);
            r.push((self.groups[g], values));
            proof {
                assert(r@[g as int].1@ == vs);
                assert forall|h: int| 0 <= h < r@.len() implies {
                    &&& (#[trigger] r@[h]).0 == self.groups@[h]
                    &&& r@[h].1@.len() == self.groups@[h].1 - self.groups@[h].0 + 1
                    &&& forall|k: int|
                        0 <= k < r@[h].1@.len() ==> cloned::<T>(self@[(self.groups@[h].0 + k) as usize], #[trigger] r@[h].1@[k])
                } by {
                    if h < g {
                        assert(r@[h] == old_r[h]);
                    }
                }
            }
            g += 1;
        }
        r
    }
}

impl<T> Default for RangeStore<T> {
    fn default() -> (s: Self)
        ensures
            s.wf(),
            s@ == Map::<usize, T>::empty(),
            s.layout() == Seq::<(usize, usize)>::empty(),
    {
        RangeStore::new()
    }
}

/// Mutable references to the values of the entries, in order, each with
/// the entry's key; what is written through a reference becomes the
/// value of its entry.
fn entry_refs<'a, T>(group: &'a mut [Entry<T>]) -> (r: Vec<(usize, &'a mut T)>)
    ensures
        r@.len() == old(group)@.len(),
        final(group)@.len() == old(group)@.len(),
        forall|j: int| 0 <= j < r@.len() ==> (#[trigger] r@[j]).0 == old(group)@[j].key && *r@[j].1 == old(group)@[j].value,
        forall|j: int| 0 <= j < r@.len() ==> #[trigger] final(group)@[j] == (Entry { key: old(group)@[j].key, value: *final(r@[j].1) }),
    decreases old(group)@.len(),
{
    if group.len() == 0 {
        return Vec::new();
    }
    let n = group.len();
    let (init, last) = group.split_at_mut(n - 1);
    let mut r = entry_refs(init);
    let e = &mut last[0];
    r.push((e.key, &mut e.value));
    r
}

/// For each group, mutable references to the values of its entries, in
/// order, each with the entry's key; what is written through a reference
/// becomes the value of its entry.
fn group_refs<'a, T>(elems: &'a mut [Vec<Entry<T>>]) -> (r: Vec<Vec<(usize, &'a mut T)>>)
    ensures
        r@.len() == old(elems)@.len(),
        final(elems)@.len() == old(elems)@.len(),
        forall|g: int| 0 <= g < r@.len() ==> (#[trigger] r@[g])@.len() == old(elems)@[g]@.len(),
        forall|g: int| 0 <= g < r@.len() ==> (#[trigger] final(elems)@[g])@.len() == old(elems)@[g]@.len(),
        forall|g: int, j: int|
            0 <= g < r@.len() && 0 <= j < r@[g]@.len() ==> (#[trigger] r@[g]@[j]).0 == old(elems)@[g]@[j].key && *r@[g]@[j].1
                == old(elems)@[g]@[j].value,
        forall|g: int, j: int|
            #![trigger r@[g]@[j]]
            #![trigger final(elems)@[g]@[j]]
            0 <= g < r@.len() && 0 <= j < r@[g]@.len() ==> final(elems)@[g]@[j] == (Entry {
                key: old(elems)@[g]@[j].key,
                value: *final(r@[g]@[j].1),
            }),
    decreases old(elems)@.len(),
{
    if elems.len() == 0 {
        return Vec::new();
    }
    let n = elems.len();
    let ghost old_elems = elems@;
    let (init, last) = elems.split_at_mut(n - 1);
    let mut r = group_refs(init);
    let ghost r0 = r@;
    let col = &mut last[0];
    let tail = entry_refs(col.as_mut_slice());
    let ghost t0 = tail@;
    r.push(tail);
    proof {
        assert forall|g: int| 0 <= g < r@.len() implies (#[trigger] r@[g])@ == (if g < n - 1 { r0[g]@ } else { t0 }) by {
        }
    }
    r
}

/// The references of the groups, one group after the other.
fn flatten_refs<'a, T>(nested: Vec<Vec<(usize, &'a mut T)>>, Ghost(spans): Ghost<Seq<(usize, usize)>>) -> (r: (
    Vec<(usize, &'a mut T)>,
    Ghost<Seq<(int, int)>>,
))
    requires
        nested@.len() == spans.len(),
        forall|h: int| 0 <= h < spans.len() ==> (#[trigger] nested@[h])@.len() == spans[h].1 - spans[h].0 + 1,
        forall|h: int, j: int| 0 <= h < spans.len() && 0 <= j < nested@[h]@.len() ==> (#[trigger] nested@[h]@[j]).0 == spans[h].0 + j,
    ensures
        r.0@.len() == span_keys(spans).len(),
        r.1@.len() == r.0@.len(),
        forall|k: int| 0 <= k < r.0@.len() ==> (#[trigger] r.0@[k]).0 == span_keys(spans)[k],
        forall|k: int|
            0 <= k < r.0@.len() ==> {
                let (h, j) = #[trigger] r.1@[k];
                &&& 0 <= h < spans.len()
                &&& 0 <= j < nested@[h]@.len()
                &&& r.0@[k] == nested@[h]@[j]
            },
{
    let n = nested.len();
    let ghost nest = nested@;
    let mut nested = nested;
    let mut rev_groups: Vec<Vec<(usize, &mut T)>> = Vec::new();
    while nested.len() > 0
        invariant
            n == nest.len(),
            rev_groups@.len() + nested@.len() == n,
            nested@ == nest.take(nested@.len() as int),
            forall|i: int| 0 <= i < rev_groups@.len() ==> #[trigger] rev_groups@[i] == nest[n - 1 - i],
        decreases nested@.len(),
    {
        let x = nested.pop().unwrap();
        rev_groups.push(x);
        proof {
            assert(nested@ =~= nest.take(nested@.len() as int));
        }
    }
    let mut out: Vec<(usize, &mut T)> = Vec::new();
    let ghost mut pos: Seq<(int, int)> = Seq::empty();
    let mut g: usize = 0;
    while rev_groups.len() > 0
        invariant
            n == nest.len(),
            n == spans.len(),
            g + rev_groups@.len() == n,
            forall|i: int| 0 <= i < rev_groups@.len() ==> #[trigger] rev_groups@[i] == nest[n - 1 - i],
            forall|h: int| 0 <= h < n ==> (#[trigger] nest[h])@.len() == spans[h].1 - spans[h].0 + 1,
            forall|h: int, j: int| 0 <= h < n && 0 <= j < nest[h]@.len() ==> (#[trigger] nest[h]@[j]).0 == spans[h].0 + j,
            out@.len() == span_keys(spans.take(g as int)).len(),
            forall|k: int| 0 <= k < out@.len() ==> (#[trigger] out@[k]).0 == span_keys(spans.take(g as int))[k],
            pos.len() == out@.len(),
            forall|k: int|
                0 <= k < out@.len() ==> {
                    let (h, j) = #[trigger] pos[k];
                    &&& 0 <= h < g
                    &&& 0 <= j < nest[h]@.len()
                    &&& out@[k] == nest[h]@[j]
                },
        decreases rev_groups@.len(),
    {
        let grp = rev_groups.pop().unwrap();
        let ghost gs = grp@;
        proof {
            assert(grp == nest[g as int]);
        }
        let mut items = grp;
        let m = items.len();
        let mut rev_items: Vec<(usize, &mut T)> = Vec::new();
        while items.len() > 0
            invariant
                m == gs.len(),
                rev_items@.len() + items@.len() == m,
                items@ == gs.take(items@.len() as int),
                forall|i: int| 0 <= i < rev_items@.len() ==> #[trigger] rev_items@[i] == gs[m - 1 - i],
            decreases items@.len(),
        {
            let x = items.pop().unwrap();
            rev_items.push(x);
            proof {
                assert(items@ =~= gs.take(items@.len() as int));
            }
        }
        let ghost base = out@.len();
        let ghost prefix = span_keys(spans.take(g as int));
        let mut j: usize = 0;
        while rev_items.len() > 0
            invariant
                m == gs.len(),
                g < n,
                n == nest.len(),
                n == spans.len(),
                gs == nest[g as int]@,
                m == spans[g as int].1 - spans[g as int].0 + 1,
                forall|jj: int| 0 <= jj < m ==> (#[trigger] gs[jj]).0 == spans[g as int].0 + jj,
                j + rev_items@.len() == m,
                forall|i: int| 0 <= i < rev_items@.len() ==> #[trigger] rev_items@[i] == gs[m - 1 - i],
                base == prefix.len(),
                prefix == span_keys(spans.take(g as int)),
                out@.len() == base + j,
                forall|k: int|
                    0 <= k < out@.len() ==> (#[trigger] out@[k]).0 == (if k < base {
                        prefix[k]
                    } else {
                        (spans[g as int].0 + (k - base)) as usize
                    }),
                pos.len() == out@.len(),
                forall|k: int|
                    0 <= k < out@.len() ==> {
                        let (h, jj) = #[trigger] pos[k];
                        &&& 0 <= h <= g
                        &&& 0 <= jj < nest[h]@.len()
                        &&& out@[k] == nest[h]@[jj]
                    },
            decreases rev_items@.len(),
        {
            let ghost before = out@;
            let x = rev_items.pop().unwrap();
            proof {
                assert(x == gs[j as int]);
                assert(x == nest[g as int]@[j as int]);
            }
            out.push(x);
            proof {
                pos = pos.push((g as int, j as int));
                assert forall|k: int| 0 <= k < out@.len() implies {
                    let (h, jj) = #[trigger] pos[k];
                    &&& 0 <= h <= g
                    &&& 0 <= jj < nest[h]@.len()
                    &&& out@[k] == nest[h]@[jj]
                } by {
                    if k < before.len() {
                        assert(out@[k] == before[k]);
                    }
                }
            }
            j += 1;
        }
        proof {
            let t = spans.take(g + 1);
            assert(t.drop_last() =~= spans.take(g as int));
            assert(t.last() == spans[g as int]);
            let keys = span_keys(t);
            assert(keys == prefix + Seq::new((spans[g as int].1 - spans[g as int].0 + 1) as nat, |i: int| (spans[g as int].0 + i) as usize));
            assert forall|k: int| 0 <= k < out@.len() implies (#[trigger] out@[k]).0 == keys[k] by {
                if k >= base {
                    assert(keys[k] == (spans[g as int].0 + (k - base)) as usize);
                }
            }
        }
        g += 1;
    }
    proof {
        assert(spans.take(n as int) =~= spans);
    }
    (out, Ghost(pos))
}

} // verus!
