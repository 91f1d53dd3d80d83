//! Joining streams of components sorted by entity id.
use vstd::prelude::*;

use crate::storage::StorageComponent;

verus! {

/// A stream of items, handed out front to back.
///
/// The items are kept in reverse order, so that the next one is popped
/// from the back.
pub struct IdIter<T> {
    rev: Vec<T>,
}

impl<T> View for IdIter<T> {
    type V = Seq<T>;

    /// The items that are left, in the order they are handed out.
    closed spec fn view(&self) -> Seq<T> {
        Seq::new(self.rev@.len(), |i: int| self.rev@[self.rev@.len() - 1 - i])
    }
}

impl<T> IdIter<T> {
    /// A stream of the given items, in order.
    pub fn new(items: Vec<T>) -> (s: Self)
        ensures
            s@ == items@,
    {
        let ghost vs = items@;
        let mut items = items;
        let mut rev: Vec<T> = Vec::new();
        while items.len() > 0
            invariant
                items@ == vs.take(items@.len() as int),
                rev@.len() + items@.len() == vs.len(),
                forall|j: int| 0 <= j < rev@.len() ==> #[trigger] rev@[j] == vs[vs.len() - 1 - j],
            decreases items@.len(),
        {
            let x = items.pop().unwrap();
            rev.push(x);
            proof {
                assert(items@ =~= vs.take(items@.len() as int));
            }
        }
        let s = IdIter { rev };
        proof {
            assert(s@ =~= vs);
        }
        s
    }

    /// The next item, if any is left.
    pub fn next(&mut self) -> (r: Option<T>)
        ensures
            old(self)@.len() == 0 ==> r is None && final(self)@ == old(self)@,
            old(self)@.len() > 0 ==> r == Some(old(self)@[0]) && final(self)@ == old(self)@.drop_first(),
    {
        let r = self.rev.pop();
        proof {
            if old(self)@.len() > 0 {
                assert(self@ =~= old(self)@.drop_first());
            } else {
                assert(self@ =~= old(self)@);
            }
        }
        r
    }

    /// The number of items left.
    pub fn len(&self) -> (n: usize)
        ensures
            n == self@.len(),
    {
        self.rev.len()
    }
}

/// Whether the items' ids strictly ascend.
pub open spec fn ids_ascending<T: StorageComponent>(s: Seq<T>) -> bool {
    forall|i: int, j: int| 0 <= i < j < s.len() ==> (#[trigger] s[i]).spec_id() < (#[trigger] s[j]).spec_id()
}

/// Whether the two sequences have an item of the same id.
pub open spec fn share_id<A: StorageComponent, B: StorageComponent>(sa: Seq<A>, sb: Seq<B>) -> bool {
    exists|i: int, j: int| 0 <= i < sa.len() && 0 <= j < sb.len() && (#[trigger] sa[i]).spec_id() == (#[trigger] sb[j]).spec_id()
}

/// A suffix of items with ascending ids has ascending ids.
pub proof fn lemma_skip_ascending<T: StorageComponent>(s: Seq<T>, k: int)
    requires
        ids_ascending(s),
        0 <= k <= s.len(),
    ensures
        ids_ascending(s.skip(k)),
{
    assert forall|i: int, j: int| 0 <= i < j < s.skip(k).len() implies (#[trigger] s.skip(k)[i]).spec_id() < (#[trigger] s.skip(k)[j]).spec_id() by {
        assert(s.skip(k)[i] == s[i + k]);
        assert(s.skip(k)[j] == s[j + k]);
    }
}

/// Advance the two sorted streams until their current items, `next_a` and
/// `next_b`, have the same id: the smallest id that both streams hold from
/// their current items on. `None` when there is no such id, one stream then
/// being exhausted.
pub fn sync<A: StorageComponent, B: StorageComponent>(
    a: &mut IdIter<A>,
    next_a: &mut A,
    b: &mut IdIter<B>,
    next_b: &mut B,
) -> (r: Option<()>)
    requires
        old(next_a).spec_id() == old(next_b).spec_id() || {
            &&& ids_ascending(seq![*old(next_a)] + old(a)@)
            &&& ids_ascending(seq![*old(next_b)] + old(b)@)
        },
    ensures
        old(next_a).spec_id() == old(next_b).spec_id() ==> {
            &&& r is Some
            &&& *final(next_a) == *old(next_a)
            &&& final(a)@ == old(a)@
            &&& *final(next_b) == *old(next_b)
            &&& final(b)@ == old(b)@
        },
        ({
            let sa = seq![*old(next_a)] + old(a)@;
            let sb = seq![*old(next_b)] + old(b)@;
            match r {
                Some(_) => exists|i: int, j: int|
                    {
                        &&& 0 <= i < sa.len()
                        &&& 0 <= j < sb.len()
                        &&& *final(next_a) == sa[i]
                        &&& final(a)@ == sa.skip(i + 1)
                        &&& *final(next_b) == sb[j]
                        &&& final(b)@ == sb.skip(j + 1)
                        &&& sa[i].spec_id() == sb[j].spec_id()
                        &&& !share_id(sa.take(i), sb)
                        &&& !share_id(sa, sb.take(j))
                    },
                None => !share_id(sa, sb),
            }
        }),
        ids_ascending(seq![*old(next_a)] + old(a)@) ==> ids_ascending(final(a)@),
        ids_ascending(seq![*old(next_b)] + old(b)@) ==> ids_ascending(final(b)@),
{
    let ghost sa = seq![*next_a] + a@;
    let ghost sb = seq![*next_b] + b@;
    let ghost mut i: int = 0;
    let ghost mut j: int = 0;
    proof {
        assert(a@ =~= sa.skip(1));
        assert(b@ =~= sb.skip(1));
    }
    if next_a.id() == next_b.id() {
        proof {
            assert(sa[0] == *next_a && sb[0] == *next_b);
            assert(a@ == sa.skip(1) && b@ == sb.skip(1));
            assert(sa.take(0) =~= Seq::<A>::empty());
            assert(sb.take(0) =~= Seq::<B>::empty());
            assert(!share_id(sa.take(0), sb));
            assert(!share_id(sa, sb.take(0)));
            if ids_ascending(sa) {
                lemma_skip_ascending(sa, 1);
            }
            if ids_ascending(sb) {
                lemma_skip_ascending(sb, 1);
            }
        }
        return Some(());
    }
    let mut exhausted = false;
    while !exhausted && next_a.id() != next_b.id()
        invariant
            ids_ascending(sa),
            ids_ascending(sb),
            0 <= i < sa.len(),
            0 <= j < sb.len(),
            *next_a == sa[i],
            a@ == sa.skip(i + 1),
            *next_b == sb[j],
            b@ == sb.skip(j + 1),
            forall|p: int, q: int| 0 <= p < i && 0 <= q < sb.len() ==> (#[trigger] sa[p]).spec_id() != (#[trigger] sb[q]).spec_id(),
            forall|p: int, q: int| 0 <= p < sa.len() && 0 <= q < j ==> (#[trigger] sa[p]).spec_id() != (#[trigger] sb[q]).spec_id(),
            exhausted ==> !share_id(sa, sb),
        decreases a@.len() + b@.len() + (if exhausted { 0int } else { 1int }),
    {
        let ghost t0 = a@.len() + b@.len();
        while !exhausted && next_a.id() < next_b.id()
            invariant
                ids_ascending(sa),
                ids_ascending(sb),
                0 <= i < sa.len(),
                0 <= j < sb.len(),
                *next_a == sa[i],
                a@ == sa.skip(i + 1),
                *next_b == sb[j],
                b@ == sb.skip(j + 1),
                forall|p: int, q: int| 0 <= p < i && 0 <= q < sb.len() ==> (#[trigger] sa[p]).spec_id() != (#[trigger] sb[q]).spec_id(),
                forall|p: int, q: int| 0 <= p < sa.len() && 0 <= q < j ==> (#[trigger] sa[p]).spec_id() != (#[trigger] sb[q]).spec_id(),
                exhausted ==> !share_id(sa, sb),
                exhausted || a@.len() + b@.len() < t0 || sa[i].spec_id() != sb[j].spec_id(),
                a@.len() + b@.len() <= t0,
            decreases a@.len() + (if exhausted { 0int } else { 1int }),
        {
            proof {
                assert forall|q: int| 0 <= q < sb.len() implies sa[i].spec_id() != (#[trigger] sb[q]).spec_id() by {
                    if q > j {
                        assert(sb[j].spec_id() < sb[q].spec_id());
                    }
                }
            }
            match a.next() {
                Some(x) => {
                    *next_a = x;
                    proof {
                        i = i + 1;
                        assert(a@ =~= sa.skip(i + 1));
                    }
                },
                None => {
                    proof {
                        assert(i == sa.len() - 1);
                        assert forall|p: int, q: int| 0 <= p < sa.len() && 0 <= q < sb.len() implies (#[trigger] sa[p]).spec_id()
                            != (#[trigger] sb[q]).spec_id() by {
                            if p == i {
                                assert(sa[i].spec_id() != sb[q].spec_id());
                            }
                        }
                        if share_id(sa, sb) {
                            let (p, q) = choose|p: int, q: int|
                                0 <= p < sa.len() && 0 <= q < sb.len() && (#[trigger] sa[p]).spec_id() == (#[trigger] sb[q]).spec_id();
                        }
                    }
                    exhausted = true;
                },
            }
        }
        while !exhausted && next_b.id() < next_a.id()
            invariant
                ids_ascending(sa),
                ids_ascending(sb),
                0 <= i < sa.len(),
                0 <= j < sb.len(),
                *next_a == sa[i],
                a@ == sa.skip(i + 1),
                *next_b == sb[j],
                b@ == sb.skip(j + 1),
                forall|p: int, q: int| 0 <= p < i && 0 <= q < sb.len() ==> (#[trigger] sa[p]).spec_id() != (#[trigger] sb[q]).spec_id(),
                forall|p: int, q: int| 0 <= p < sa.len() && 0 <= q < j ==> (#[trigger] sa[p]).spec_id() != (#[trigger] sb[q]).spec_id(),
                exhausted ==> !share_id(sa, sb),
                exhausted || a@.len() + b@.len() < t0 || sa[i].spec_id() > sb[j].spec_id(),
                a@.len() + b@.len() <= t0,
            decreases b@.len() + (if exhausted { 0int } else { 1int }),
        {
            proof {
                assert forall|p: int| 0 <= p < sa.len() implies (#[trigger] sa[p]).spec_id() != sb[j].spec_id() by {
                    if p > i {
                        assert(sa[i].spec_id() < sa[p].spec_id());
                    }
                }
            }
            match b.next() {
                Some(y) => {
                    *next_b = y;
                    proof {
                        j = j + 1;
                        assert(b@ =~= sb.skip(j + 1));
                    }
                },
                None => {
                    proof {
                        assert(j == sb.len() - 1);
                        assert forall|p: int, q: int| 0 <= p < sa.len() && 0 <= q < sb.len() implies (#[trigger] sa[p]).spec_id()
                            != (#[trigger] sb[q]).spec_id() by {
                            if q == j {
                                assert(sa[p].spec_id() != sb[j].spec_id());
                            }
                        }
                        if share_id(sa, sb) {
                            let (p, q) = choose|p: int, q: int|
                                0 <= p < sa.len() && 0 <= q < sb.len() && (#[trigger] sa[p]).spec_id() == (#[trigger] sb[q]).spec_id();
                        }
                    }
                    exhausted = true;
                },
            }
        }
    }
    proof {
        lemma_skip_ascending(sa, i + 1);
        lemma_skip_ascending(sb, j + 1);
    }
    if exhausted {
        return None;
    }
    proof {
        assert(!share_id(sa.take(i), sb)) by {
            if share_id(sa.take(i), sb) {
                let (p, q) = choose|p: int, q: int|
                    0 <= p < sa.take(i).len() && 0 <= q < sb.len() && (#[trigger] sa.take(i)[p]).spec_id() == (#[trigger] sb[q]).spec_id();
                assert(sa.take(i)[p] == sa[p]);
            }
        }
        assert(!share_id(sa, sb.take(j))) by {
            if share_id(sa, sb.take(j)) {
                let (p, q) = choose|p: int, q: int|
                    0 <= p < sa.len() && 0 <= q < sb.take(j).len() && (#[trigger] sa[p]).spec_id() == (#[trigger] sb.take(j)[q]).spec_id();
                assert(sb.take(j)[q] == sb[q]);
            }
        }
    }
    Some(())
}


/// Sorted streams joined on entity id.
pub struct JoinedIter<T>(pub T);

impl<A: StorageComponent> JoinedIter<(IdIter<A>,)> {
    /// The next item's id and component.
    pub fn next(&mut self) -> (r: Option<(usize, A::Component)>)
        ensures
            old(self).0.0@.len() == 0 ==> r is None && final(self).0.0@ == old(self).0.0@,
            old(self).0.0@.len() > 0 ==> {
                &&& r == Some((old(self).0.0@[0].spec_id(), old(self).0.0@[0].spec_component()))
                &&& final(self).0.0@ == old(self).0.0@.drop_first()
            },
    {
        let next_a = self.0.0.next()?;
        let (id, c) = next_a.split();
        Some((id, c))
    }
}

impl<A: StorageComponent, B: StorageComponent> JoinedIter<(IdIter<A>, IdIter<B>)> {
    /// The id and components of the next id that both streams hold, the
    /// items before it being skipped, or `None` when there is none left.
    pub fn next(&mut self) -> (r: Option<(usize, A::Component, B::Component)>)
        requires
            ids_ascending(old(self).0.0@),
            ids_ascending(old(self).0.1@),
        ensures
            ids_ascending(final(self).0.0@),
            ids_ascending(final(self).0.1@),
            ({
                let sa = old(self).0.0@;
                let sb = old(self).0.1@;
                match r {
                    Some((id, ca, cb)) => exists|i: int, j: int|
                        {
                            &&& 0 <= i < sa.len()
                            &&& 0 <= j < sb.len()
                            &&& sa[i].spec_id() == id
                            &&& sb[j].spec_id() == id
                            &&& ca == sa[i].spec_component()
                            &&& cb == sb[j].spec_component()
                            &&& final(self).0.0@ == sa.skip(i + 1)
                            &&& final(self).0.1@ == sb.skip(j + 1)
                            &&& !share_id(sa.take(i), sb)
                            &&& !share_id(sa, sb.take(j))
                        },
                    None => !share_id(sa, sb),
                }
            }),
    {
        let ghost sa = self.0.0@;
        let ghost sb = self.0.1@;
        let mut next_0 = match self.0.0.next() {
            Some(x) => x,
            None => {
                proof {
                    lemma_skip_ascending(sb, 0);
                    assert(sb.skip(0) =~= sb);
                }
                return None;
            },
        };
        let mut next_1 = match self.0.1.next() {
            Some(y) => y,
            None => {
                proof {
                    lemma_skip_ascending(sa, 1);
                }
                return None;
            },
        };
        proof {
            assert(seq![next_0] + self.0.0@ =~= sa);
            assert(seq![next_1] + self.0.1@ =~= sb);
        }
        match sync(&mut self.0.0, &mut next_0, &mut self.0.1, &mut next_1) {
            Some(()) => {
                let (id, ca) = next_0.split();
                let (_, cb) = next_1.split();
                Some((id, ca, cb))
            },
            None => None,
        }
    }
}

/// The order of an id relative to another.
#[derive(Clone, Copy, Debug, PartialEq, Eq, Structural)]
pub enum IdOrder {
    Less,
    Equal,
    Greater,
}

/// The order of `a` relative to `b`.
pub open spec fn id_order(a: usize, b: usize) -> IdOrder {
    if a < b {
        IdOrder::Less
    } else if a == b {
        IdOrder::Equal
    } else {
        IdOrder::Greater
    }
}

/// Something that carries an entity id.
pub trait HasId {
    /// The entity id.
    spec fn spec_id(&self) -> usize;

    /// The entity id.
    fn id(&self) -> (id: usize)
        ensures
            id == self.spec_id(),
    ;
}

impl HasId for usize {
    open spec fn spec_id(&self) -> usize {
        *self
    }

    fn id(&self) -> (id: usize) {
        *self
    }
}

impl<T> HasId for (usize, T) {
    open spec fn spec_id(&self) -> usize {
        self.0
    }

    fn id(&self) -> (id: usize) {
        self.0
    }
}

impl<T> HasId for crate::storage::Entry<T> {
    open spec fn spec_id(&self) -> usize {
        self.key
    }

    fn id(&self) -> (id: usize) {
        self.key
    }
}

impl<T> HasId for crate::entry::Entry<T> {
    open spec fn spec_id(&self) -> usize {
        self.key
    }

    fn id(&self) -> (id: usize) {
        self.key
    }
}

/// Something that can be ordered against an entity id.
pub trait CompareId {
    /// The order of this thing relative to the id.
    spec fn spec_cmp_id(&self, id: usize) -> IdOrder;

    /// The order of this thing relative to the id.
    fn cmp_id(&self, id: &usize) -> (r: IdOrder)
        ensures
            r == self.spec_cmp_id(*id),
    ;
}

impl CompareId for () {
    open spec fn spec_cmp_id(&self, id: usize) -> IdOrder {
        IdOrder::Equal
    }

    fn cmp_id(&self, id: &usize) -> (r: IdOrder) {
        IdOrder::Equal
    }
}

impl CompareId for usize {
    open spec fn spec_cmp_id(&self, id: usize) -> IdOrder {
        id_order(*self, id)
    }

    fn cmp_id(&self, id: &usize) -> (r: IdOrder) {
        if *self < *id {
            IdOrder::Less
        } else if *self == *id {
            IdOrder::Equal
        } else {
            IdOrder::Greater
        }
    }
}

impl<T> CompareId for crate::entry::Entry<T> {
    open spec fn spec_cmp_id(&self, id: usize) -> IdOrder {
        id_order(self.key, id)
    }

    fn cmp_id(&self, id: &usize) -> (r: IdOrder) {
        self.key.cmp_id(id)
    }
}

impl<T> CompareId for crate::storage::Entry<T> {
    open spec fn spec_cmp_id(&self, id: usize) -> IdOrder {
        id_order(self.key, id)
    }

    fn cmp_id(&self, id: &usize) -> (r: IdOrder) {
        self.key.cmp_id(id)
    }
}

impl<T> CompareId for Maybe<T> {
    open spec fn spec_cmp_id(&self, id: usize) -> IdOrder {
        id_order(self.key, id)
    }

    fn cmp_id(&self, id: &usize) -> (r: IdOrder) {
        self.key.cmp_id(id)
    }
}

impl<A: CompareId, B> CompareId for (A, B) {
    open spec fn spec_cmp_id(&self, id: usize) -> IdOrder {
        self.0.spec_cmp_id(id)
    }

    fn cmp_id(&self, id: &usize) -> (r: IdOrder) {
        self.0.cmp_id(id)
    }
}

/// An entity id together with the item stored there, if any.
#[derive(Clone, Debug, PartialEq)]
pub struct Maybe<T> {
    pub key: usize,
    pub inner: Option<T>,
}

impl<T> HasId for Maybe<T> {
    open spec fn spec_id(&self) -> usize {
        self.key
    }

    fn id(&self) -> (id: usize) {
        self.key
    }
}


/// Whether the items' ids strictly ascend.
pub open spec fn ascending<C: HasId>(s: Seq<C>) -> bool {
    forall|i: int, j: int| 0 <= i < j < s.len() ==> (#[trigger] s[i]).spec_id() < (#[trigger] s[j]).spec_id()
}

/// Whether an item has the id.
pub open spec fn holds_id<C: HasId>(s: Seq<C>, id: int) -> bool {
    exists|i: int| 0 <= i < s.len() && (#[trigger] s[i]).spec_id() == id
}

/// What one call of `WithoutIter::next` does: it hands out `key`, the
/// smallest id from `before`'s position on that is not skipped, and moves
/// past it, skipping the same ids from there on.
pub open spec fn without_step<C: HasId>(before: WithoutIter<C>, after: WithoutIter<C>, key: usize) -> bool {
    &&& after.wf()
    &&& forall|x: int| after.position() <= x < usize::MAX ==> (#[trigger] after.excludes(x) == before.excludes(x))
    &&& before.position() <= key
    &&& !before.excludes(key as int)
    &&& forall|y: int| before.position() <= y < key ==> #[trigger] before.excludes(y)
    &&& after.position() == key + 1
}

/// What one call of `MaybeIter::next` does: it hands out its position with
/// the first pending item when that item has this id, and moves one id on.
pub open spec fn maybe_step<C: HasId>(before: MaybeIter<C>, after: MaybeIter<C>, r: Option<Maybe<C>>) -> bool {
    let p = before.pending();
    let hit = p.len() > 0 && p[0].spec_id() == before.position();
    &&& after.wf()
    &&& after.position() == before.position() + 1
    &&& r == Some(Maybe { key: before.position(), inner: if hit { Some(p[0]) } else { None } })
    &&& after.pending() == if hit { p.drop_first() } else { p }
}

/// The ids that a sorted stream does not hold, in ascending order from 0.
pub struct WithoutIter<C> {
    iter: IdIter<C>,
    id: usize,
    next_id: usize,
}

impl<C: HasId> WithoutIter<C> {
    /// Whether the iterator skips `x`: it is the id of the stream's current
    /// item or of a later one.
    pub closed spec fn excludes(&self, x: int) -> bool {
        x == self.next_id || holds_id(self.iter@, x)
    }

    /// The next id it may yield.
    pub closed spec fn position(&self) -> usize {
        self.id
    }

    /// The stream's ids ascend, the current one before the rest, and the
    /// next id to yield is not past the current one.
    pub closed spec fn wf(&self) -> bool {
        &&& ascending(self.iter@)
        &&& self.iter@.len() > 0 ==> self.next_id < self.iter@[0].spec_id()
        &&& self.id <= self.next_id
    }

    /// Start before id 0, over the stream's ids, which must ascend.
    pub fn new(iter: IdIter<C>) -> (w: Self)
        requires
            ascending(iter@),
        ensures
            w.wf(),
            w.position() == 0,
            forall|x: int| 0 <= x < usize::MAX ==> (#[trigger] w.excludes(x) <==> holds_id(iter@, x)),
    {
        let ghost s = iter@;
        let mut iter = iter;
        let next_id = match iter.next() {
            Some(e) => e.id(),
            None => usize::MAX,
        };
        let w = WithoutIter { iter, id: 0, next_id };
        proof {
            assert forall|x: int| 0 <= x < usize::MAX implies (#[trigger] w.excludes(x) <==> holds_id(s, x)) by {
                if holds_id(s, x) {
                    let i = choose|i: int| 0 <= i < s.len() && (#[trigger] s[i]).spec_id() == x;
                    if i > 0 {
                        assert(w.iter@[i - 1] == s[i]);
                    }
                }
                if holds_id(w.iter@, x) {
                    let i = choose|i: int| 0 <= i < w.iter@.len() && (#[trigger] w.iter@[i]).spec_id() == x;
                    assert(s[i + 1] == w.iter@[i]);
                }
            }
            assert forall|i: int, j: int| 0 <= i < j < w.iter@.len() implies (#[trigger] w.iter@[i]).spec_id() < (#[trigger] w.iter@[j]).spec_id() by {
                assert(w.iter@[i] == s[i + 1] && w.iter@[j] == s[j + 1]);
            }
            if w.iter@.len() > 0 {
                assert(w.iter@[0] == s[1]);
                assert(s[0].spec_id() < s[1].spec_id());
            }
        }
        w
    }

    /// The smallest id from the current position on that the stream does
    /// not hold, as an entry with no value.
    pub fn next(&mut self) -> (r: Option<crate::entry::Entry<()>>)
        requires
            old(self).wf(),
            exists|x: int| old(self).position() <= x < usize::MAX && !(#[trigger] old(self).excludes(x)),
        ensures
            final(self).wf(),
            forall|x: int| final(self).position() <= x < usize::MAX ==> (#[trigger] final(self).excludes(x) == old(self).excludes(x)),
            match r {
                Some(e) => {
                    &&& e == crate::entry::Entry { value: (), key: e.key, changed: 0u64, added: false }
                    &&& without_step(*old(self), *final(self), e.key)
                },
                None => false,
            },
    {
        let ghost pre = *self;
        let ghost target = choose|x: int| pre.id <= x < usize::MAX && !(#[trigger] pre.excludes(x));
        while self.id == self.next_id
            invariant
                self.wf(),
                pre.id <= self.id <= target < usize::MAX,
                !pre.excludes(target),
                forall|x: int| self.id <= x < usize::MAX ==> (#[trigger] self.excludes(x) == pre.excludes(x)),
                forall|y: int| pre.id <= y < self.id ==> #[trigger] pre.excludes(y),
            decreases target - self.id,
        {
            let ghost before = *self;
            proof {
                assert(before.excludes(self.id as int));
                assert(self.id != target);
            }
            self.next_id = match self.iter.next() {
                Some(e) => e.id(),
                None => usize::MAX,
            };
            self.id += 1;
            proof {
                let s = before.iter@;
                assert forall|x: int| self.id <= x < usize::MAX implies (#[trigger] self.excludes(x) == before.excludes(x)) by {
                    if holds_id(s, x) {
                        let i = choose|i: int| 0 <= i < s.len() && (#[trigger] s[i]).spec_id() == x;
                        if i > 0 {
                            assert(self.iter@[i - 1] == s[i]);
                        }
                    }
                    if holds_id(self.iter@, x) {
                        let i = choose|i: int| 0 <= i < self.iter@.len() && (#[trigger] self.iter@[i]).spec_id() == x;
                        assert(s[i + 1] == self.iter@[i]);
                    }
                }
                assert forall|i: int, j: int| 0 <= i < j < self.iter@.len() implies (#[trigger] self.iter@[i]).spec_id() < (#[trigger] self.iter@[j]).spec_id() by {
                    assert(self.iter@[i] == s[i + 1] && self.iter@[j] == s[j + 1]);
                }
                if self.iter@.len() > 0 {
                    assert(self.iter@[0] == s[1]);
                    assert(s[0].spec_id() < s[1].spec_id());
                }
                if s.len() > 0 {
                    assert(before.next_id < s[0].spec_id());
                }
            }
        }
        let key = self.id;
        let entry = crate::entry::Entry { value: (), key, changed: 0, added: false };
        proof {
            assert(!self.excludes(key as int));
            assert(key == target || key < target);
        }
        let ghost mid = *self;
        self.id += 1;
        proof {
            assert forall|x: int| self.id <= x < usize::MAX implies (#[trigger] self.excludes(x) == pre.excludes(x)) by {
                assert(self.excludes(x) == mid.excludes(x));
            }
        }
        Some(entry)
    }
}


/// Every id in ascending order from 0, each with the item a sorted stream
/// holds at that id, if any.
pub struct MaybeIter<C> {
    iter: IdIter<C>,
    id: usize,
    next_id: usize,
    next_entry: Option<C>,
}

impl<C: HasId> MaybeIter<C> {
    /// The items not handed out yet, in order.
    pub closed spec fn pending(&self) -> Seq<C> {
        match self.next_entry {
            Some(e) => seq![e] + self.iter@,
            None => self.iter@,
        }
    }

    /// The next id it yields.
    pub closed spec fn position(&self) -> usize {
        self.id
    }

    /// The pending items' ids ascend, none is before the position, and the
    /// first one is the current item.
    pub closed spec fn wf(&self) -> bool {
        &&& ascending(self.pending())
        &&& self.next_entry is None ==> self.iter@.len() == 0
        &&& self.next_id == (if self.pending().len() > 0 { self.pending()[0].spec_id() } else { usize::MAX })
        &&& self.pending().len() > 0 ==> self.id <= self.pending()[0].spec_id()
    }

    /// Start at id 0, over the stream's items, whose ids must ascend.
    pub fn new(iter: IdIter<C>) -> (m: Self)
        requires
            ascending(iter@),
        ensures
            m.wf(),
            m.position() == 0,
            m.pending() == iter@,
    {
        let ghost s = iter@;
        let mut iter = iter;
        let next_entry = iter.next();
        let next_id = match &next_entry {
            Some(e) => e.id(),
            None => usize::MAX,
        };
        let m = MaybeIter { iter, id: 0, next_id, next_entry };
        proof {
            if s.len() > 0 {
                assert(m.pending() =~= s);
            }
        }
        m
    }

    /// The current id, with the item the stream holds there, if any.
    pub fn next(&mut self) -> (r: Option<Maybe<C>>)
        requires
            old(self).wf(),
            old(self).position() < usize::MAX,
        ensures
            maybe_step(*old(self), *final(self), r),
    {
        let ghost p = self.pending();
        let entry = if self.next_id == self.id {
            match self.next_entry.take() {
                Some(entry) => {
                    self.next_entry = self.iter.next();
                    self.next_id = match &self.next_entry {
                        Some(e) => e.id(),
                        None => usize::MAX,
                    };
                    proof {
                        assert(self.pending() =~= p.drop_first());
                        assert forall|i: int, j: int| 0 <= i < j < self.pending().len() implies (#[trigger] self.pending()[i]).spec_id()
                            < (#[trigger] self.pending()[j]).spec_id() by {
                            assert(self.pending()[i] == p[i + 1] && self.pending()[j] == p[j + 1]);
                        }
                        if self.pending().len() > 0 {
                            assert(self.pending()[0] == p[1]);
                            assert(p[0].spec_id() < p[1].spec_id());
                        }
                    }
                    Some(entry)
                },
                None => None,
            }
        } else {
            None
        };
        let maybe = Maybe { key: self.id, inner: entry };
        self.id += 1;
        Some(maybe)
    }
}

/// Whether `items` lists the entries of `m`, each once, in ascending order
/// of id.
pub open spec fn enumerates<T>(m: Map<usize, T>, items: Seq<(usize, &T)>) -> bool {
    &&& forall|i: int, j: int| 0 <= i < j < items.len() ==> (#[trigger] items[i]).0 < (#[trigger] items[j]).0
    &&& forall|i: int| 0 <= i < items.len() ==> m.contains_key((#[trigger] items[i]).0) && *items[i].1 == m[items[i].0]
    &&& forall|id: usize| #[trigger] m.contains_key(id) ==> exists|i: int| 0 <= i < items.len() && (#[trigger] items[i]).0 == id
}

/// Something that can be turned into a stream of items to join.
pub trait IntoJoinIterator: Sized {
    type Item;

    /// Whether it can be turned into a stream.
    spec fn join_ready(&self) -> bool;

    /// Whether `items` are the items of its stream.
    spec fn join_items(&self, items: Seq<Self::Item>) -> bool;

    /// The stream of its items.
    fn join_iter(self) -> (r: IdIter<Self::Item>)
        requires
            self.join_ready(),
        ensures
            self.join_items(r@),
    ;
}

impl<T> IntoJoinIterator for Vec<T> {
    type Item = T;

    open spec fn join_ready(&self) -> bool {
        true
    }

    open spec fn join_items(&self, items: Seq<T>) -> bool {
        items == self@
    }

    fn join_iter(self) -> (r: IdIter<T>) {
        IdIter::new(self)
    }
}

impl<'a, T> IntoJoinIterator for &'a crate::vec_storage::VecStorage<T> {
    type Item = (usize, &'a T);

    open spec fn join_ready(&self) -> bool {
        self.wf()
    }

    open spec fn join_items(&self, items: Seq<(usize, &'a T)>) -> bool {
        enumerates(self@, items)
    }

    fn join_iter(self) -> (r: IdIter<(usize, &'a T)>) {
        self.iter()
    }
}

impl<'a, T> IntoJoinIterator for &'a crate::btree::BTreeStorage<T> {
    type Item = (usize, &'a T);

    open spec fn join_ready(&self) -> bool {
        true
    }

    open spec fn join_items(&self, items: Seq<(usize, &'a T)>) -> bool {
        enumerates(self@, items)
    }

    fn join_iter(self) -> (r: IdIter<(usize, &'a T)>) {
        self.iter()
    }
}

impl<'a, T> IntoJoinIterator for &'a crate::sparse::SparseStorage<T> {
    type Item = (usize, &'a T);

    open spec fn join_ready(&self) -> bool {
        self.wf()
    }

    open spec fn join_items(&self, items: Seq<(usize, &'a T)>) -> bool {
        &&& items.len() == self.dense_keys().len()
        &&& forall|p: int| 0 <= p < items.len() ==> (#[trigger] items[p]).0 == self.dense_keys()[p] && *items[p].1 == self@[items[p].0]
    }

    fn join_iter(self) -> (r: IdIter<(usize, &'a T)>) {
        self.iter()
    }
}

} // verus!
