//! Tracking of changes to stored components.
use std::marker::PhantomData;
use vstd::prelude::*;

use crate::entry::Entry;
use crate::join::{HasId, IdIter};

verus! {

/// Something that records when it was last changed and whether that change
/// added it.
pub trait HasEntityInfo {
    /// The iteration of the last change.
    spec fn spec_changed(&self) -> u64;

    /// Whether the last change added it.
    spec fn spec_added(&self) -> bool;

    /// The iteration of the last change.
    fn changed_at(&self) -> (c: u64)
        ensures
            c == self.spec_changed(),
    ;

    /// Whether the last change added it.
    fn is_added(&self) -> (a: bool)
        ensures
            a == self.spec_added(),
    ;
}

impl<T> HasEntityInfo for Entry<T> {
    open spec fn spec_changed(&self) -> u64 {
        self.changed
    }

    open spec fn spec_added(&self) -> bool {
        self.added
    }

    fn changed_at(&self) -> (c: u64) {
        self.changed
    }

    fn is_added(&self) -> (a: bool) {
        self.added
    }
}

impl<'a, T> HasEntityInfo for &'a Entry<T> {
    open spec fn spec_changed(&self) -> u64 {
        self.changed
    }

    open spec fn spec_added(&self) -> bool {
        self.added
    }

    fn changed_at(&self) -> (c: u64) {
        self.changed
    }

    fn is_added(&self) -> (a: bool) {
        self.added
    }
}

/// Which changes a tracked iterator keeps.
#[derive(Clone, Copy, Debug, PartialEq, Eq, Structural)]
pub enum Tracking {
    /// Added or modified.
    Changed,
    /// Added.
    Added,
    /// Modified, not added.
    Modified,
}

/// Whether an item changed in the tracked way at or after `since`.
pub open spec fn is_tracked<C: HasEntityInfo>(kind: Tracking, item: C, since: u64) -> bool {
    &&& item.spec_changed() >= since
    &&& match kind {
        Tracking::Changed => true,
        Tracking::Added => item.spec_added(),
        Tracking::Modified => !item.spec_added(),
    }
}

/// The items of a stream that changed in the tracked way since an
/// iteration.
pub struct TrackedIter<C>(pub u64, pub IdIter<C>, pub Tracking);

impl<C: HasEntityInfo> TrackedIter<C> {
    /// The next item that changed in the tracked way, the items before it
    /// being skipped.
    pub fn next(&mut self) -> (r: Option<C>)
        ensures
            final(self).0 == old(self).0,
            final(self).2 == old(self).2,
            ({
                let s = old(self).1@;
                match r {
                    Some(e) => exists|i: int|
                        {
                            &&& 0 <= i < s.len()
                            &&& s[i] == e
                            &&& is_tracked(old(self).2, e, old(self).0)
                            &&& forall|j: int| 0 <= j < i ==> !is_tracked(old(self).2, #[trigger] s[j], old(self).0)
                            &&& final(self).1@ == s.skip(i + 1)
                        },
                    None => forall|j: int| 0 <= j < s.len() ==> !is_tracked(old(self).2, #[trigger] s[j], old(self).0),
                }
            }),
    {
        let ghost s = self.1@;
        let since = self.0;
        let kind = self.2;
        let total = self.1.len();
        let mut skipped: usize = 0;
        let mut found: Option<C> = None;
        while found.is_none()
            invariant_except_break
                found is None,
                forall|j: int| 0 <= j < skipped ==> !is_tracked(kind, #[trigger] s[j], since),
            invariant
                total == s.len(),
                self.0 == since,
                self.2 == kind,
                skipped <= s.len(),
                self.1@ == s.skip(skipped as int),
            ensures
                match found {
                    Some(e) => skipped > 0 && s[skipped - 1] == e && is_tracked(kind, e, since) && forall|j: int|
                        0 <= j < skipped - 1 ==> !is_tracked(kind, #[trigger] s[j], since),
                    None => skipped == s.len() && forall|j: int| 0 <= j < skipped ==> !is_tracked(kind, #[trigger] s[j], since),
                },
            decreases s.len() - skipped,
        {
            match self.1.next() {
                Some(e) => {
                    proof {
                        assert(e == s[skipped as int]);
                        assert(self.1@ =~= s.skip(skipped + 1));
                    }
                    let changed = e.changed_at();
                    let keep = changed >= since && match kind {
                        Tracking::Changed => true,
                        Tracking::Added => e.is_added(),
                        Tracking::Modified => !e.is_added(),
                    };
                    skipped += 1;
                    if keep {
                        found = Some(e);
                        break;
                    }
                },
                None => {
                    break;
                },
            }
        }
        proof {
            if found is Some {
                assert(s.skip(skipped as int) == s.skip(skipped - 1 + 1));
            }
        }
        found
    }
}

/// Tracks changes to the stored components of type `T` since the last
/// time it was cleared, and the ids deleted between two calls.
pub struct Tracker<T> {
    last_changed: u64,
    id_cache: Vec<usize>,
    _phantom: PhantomData<T>,
}

impl<T> Tracker<T> {
    /// The iteration at which the tracker was last cleared.
    pub closed spec fn spec_last_update(&self) -> u64 {
        self.last_changed
    }

    /// The ids seen by the last call of `deleted`.
    pub closed spec fn cached_ids(&self) -> Seq<usize> {
        self.id_cache@
    }

    /// A tracker cleared at iteration 0 that has seen no ids.
    pub fn new() -> (t: Self)
        ensures
            t.spec_last_update() == 0,
            t.cached_ids() == Seq::<usize>::empty(),
    {
        Tracker { last_changed: 0, id_cache: Vec::new(), _phantom: PhantomData }
    }

    /// The iteration at which the tracker was last cleared.
    pub fn last_update(&self) -> (u: u64)
        ensures
            u == self.spec_last_update(),
    {
        self.last_changed
    }

    /// Clear the tracker at the current iteration.
    pub fn clear(&mut self, iteration: u64)
        ensures
            final(self).spec_last_update() == iteration,
            final(self).cached_ids() == old(self).cached_ids(),
    {
        self.last_changed = iteration;
    }

    /// The items of the store changed or added since the tracker was
    /// cleared.
    pub fn changed_iter<C: HasEntityInfo>(&self, store: IdIter<C>) -> (it: TrackedIter<C>)
        ensures
            it == TrackedIter(self.spec_last_update(), store, Tracking::Changed),
    {
        TrackedIter(self.last_changed, store, Tracking::Changed)
    }

    /// The items of the store added since the tracker was cleared.
    pub fn added_iter<C: HasEntityInfo>(&self, store: IdIter<C>) -> (it: TrackedIter<C>)
        ensures
            it == TrackedIter(self.spec_last_update(), store, Tracking::Added),
    {
        TrackedIter(self.last_changed, store, Tracking::Added)
    }

    /// The items of the store modified, not added, since the tracker was
    /// cleared.
    pub fn modified_iter<C: HasEntityInfo>(&self, store: IdIter<C>) -> (it: TrackedIter<C>)
        ensures
            it == TrackedIter(self.spec_last_update(), store, Tracking::Modified),
    {
        TrackedIter(self.last_changed, store, Tracking::Modified)
    }

    /// The ids seen by the last call that the store no longer holds, in the
    /// order they were seen; the store's ids are remembered for the next
    /// call.
    pub fn deleted<C: HasId>(&mut self, store: IdIter<C>) -> (r: Vec<usize>)
        ensures
            final(self).spec_last_update() == old(self).spec_last_update(),
            final(self).cached_ids() == store@.map_values(|c: C| c.spec_id()),
            r@ == old(self).cached_ids().filter(|id: usize| !store@.map_values(|c: C| c.spec_id()).contains(id)),
    {
        let ghost s = store@;
        let mut store = store;
        let mut ids: Vec<usize> = Vec::new();
        while store.len() > 0
            invariant
                ids@.len() + store@.len() == s.len(),
                store@ == s.skip(ids@.len() as int),
                ids@ == s.take(ids@.len() as int).map_values(|c: C| c.spec_id()),
            decreases store@.len(),
        {
            let ghost k: int = ids@.len() as int;
            let c = store.next().unwrap();
            ids.push(c.id());
            proof {
                assert(store@ =~= s.skip(k + 1));
                assert(s.take(k + 1) =~= s.take(k).push(c));
                assert(ids@ =~= s.take(k + 1).map_values(|c: C| c.spec_id()));
            }
        }
        proof {
            assert(s.take(s.len() as int) =~= s);
        }
        let ghost new_ids = ids@;
        let mut old_ids: Vec<usize> = Vec::new();
        std::mem::swap(&mut old_ids, &mut self.id_cache);
        self.id_cache = ids;
        let ghost o = old_ids@;
        let mut r: Vec<usize> = Vec::new();
        let n = old_ids.len();
        let mut i: usize = 0;
        while i < n
            invariant
                n == o.len(),
                o == old_ids@,
                i <= n,
                new_ids == self.id_cache@,
                r@ == o.take(i as int).filter(|id: usize| !new_ids.contains(id)),
            decreases n - i,
        {
            let id = old_ids[i];
            let mut present = false;
            let m = self.id_cache.len();
            let mut j: usize = 0;
            while j < m && !present
                invariant
                    m == new_ids.len(),
                    new_ids == self.id_cache@,
                    j <= m,
                    present <==> (j > 0 && new_ids[j - 1] == id),
                    !present ==> forall|q: int| 0 <= q < j ==> new_ids[q] != id,
                decreases m - j + (if present { 0int } else { 1int }),
            {
                if self.id_cache[j] == id {
                    present = true;
                }
                j += 1;
            }
            proof {
                assert(o.take(i + 1) =~= o.take(i as int).push(id));
                vstd::seq_lib::lemma_seq_skip_nothing(o, 0);
                reveal_with_fuel(Seq::filter, 1);
                assert(o.take(i + 1).filter(|id: usize| !new_ids.contains(id)) =~= if present {
                    o.take(i as int).filter(|id: usize| !new_ids.contains(id))
                } else {
                    o.take(i as int).filter(|id: usize| !new_ids.contains(id)).push(id)
                }) by {
                    assert(o.take(i + 1).drop_last() =~= o.take(i as int));
                    if present {
                        assert(new_ids.contains(id));
                    } else {
                        assert(!new_ids.contains(id));
                    }
                }
            }
            if !present {
                r.push(id);
            }
            i += 1;
        }
        proof {
            assert(o.take(n as int) =~= o);
        }
        r
    }
}

} // verus!
