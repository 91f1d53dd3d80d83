//! A sequence of items with gaps, in groups, that can be split for parallel
//! work: each group is either a run of missing items or a run of present
//! ones.
use vstd::prelude::*;

verus! {

/// A run of missing items of the given length, or a run of present items.
pub enum ParGroupIter<T> {
    Missing(usize),
    Present(Vec<T>),
}

impl<T> ParGroupIter<T> {
    /// The items of the group: `None` for each missing one.
    pub open spec fn items(&self) -> Seq<Option<T>> {
        match self {
            ParGroupIter::Missing(l) => Seq::new(*l as nat, |i: int| None),
            ParGroupIter::Present(v) => v@.map_values(|t: T| Some(t)),
        }
    }

    /// The number of items of the group.
    pub fn len(&self) -> (n: usize)
        ensures
            n == self.items().len(),
    {
        match self {
            ParGroupIter::Missing(l) => *l,
            ParGroupIter::Present(v) => v.len(),
        }
    }
}

/// The items of the groups, in order.
pub open spec fn group_items<T>(groups: Seq<ParGroupIter<T>>) -> Seq<Option<T>>
    decreases groups.len(),
{
    if groups.len() == 0 {
        Seq::empty()
    } else {
        group_items(groups.drop_last()) + groups.last().items()
    }
}

pub(crate) proof fn lemma_group_items_push<T>(groups: Seq<ParGroupIter<T>>, g: ParGroupIter<T>)
    ensures
        group_items(groups.push(g)) == group_items(groups) + g.items(),
{
    assert(groups.push(g).drop_last() =~= groups);
}

proof fn lemma_group_items_append<T>(a: Seq<ParGroupIter<T>>, b: Seq<ParGroupIter<T>>)
    ensures
        group_items(a + b) == group_items(a) + group_items(b),
    decreases b.len(),
{
    if b.len() == 0 {
        assert(a + b =~= a);
        assert(group_items(a) + group_items(b) =~= group_items(a));
    } else {
        lemma_group_items_append(a, b.drop_last());
        assert((a + b).drop_last() =~= a + b.drop_last());
        assert(group_items(a) + group_items(b) =~= group_items(a) + group_items(b.drop_last()) + b.last().items());
    }
}

/// Groups of items with gaps, to be split for parallel work.
pub struct RangeStoreParIter<T>(pub Vec<ParGroupIter<T>>);

impl<T> View for RangeStoreParIter<T> {
    type V = Seq<Option<T>>;

    /// The items, in order.
    open spec fn view(&self) -> Seq<Option<T>> {
        group_items(self.0@)
    }
}

impl<T> RangeStoreParIter<T> {
    /// The number of items.
    pub fn len(&self) -> (n: usize)
        requires
            self@.len() <= usize::MAX,
        ensures
            n == self@.len(),
    {
        let mut acc: usize = 0;
        let n = self.0.len();
        let mut g: usize = 0;
        while g < n
            invariant
                n == self.0@.len(),
                g <= n,
                acc == group_items(self.0@.take(g as int)).len(),
                group_items(self.0@).len() <= usize::MAX,
            decreases n - g,
        {
            proof {
                assert(self.0@.take(g + 1) =~= self.0@.take(g as int).push(self.0@[g as int]));
                lemma_group_items_push(self.0@.take(g as int), self.0@[g as int]);
                lemma_group_items_append(self.0@.take(g + 1), self.0@.skip(g + 1));
                assert(self.0@.take(g + 1) + self.0@.skip(g + 1) =~= self.0@);
            }
            acc = acc + self.0[g].len();
            g += 1;
        }
        proof {
            assert(self.0@.take(n as int) =~= self.0@);
        }
        acc
    }

    /// The items, in order.
    pub fn into_items(self) -> (r: Vec<Option<T>>)
        ensures
            r@ == self@,
    {
        let ghost all = self.0@;
        let mut rev: Vec<ParGroupIter<T>> = Vec::new();
        let mut groups = self.0;
        while groups.len() > 0
            invariant
                groups@ == all.take(groups@.len() as int),
                rev@.len() + groups@.len() == all.len(),
                forall|j: int| 0 <= j < rev@.len() ==> #[trigger] rev@[j] == all[all.len() - 1 - j],
            decreases groups@.len(),
        {
            let g = groups.pop().unwrap();
            rev.push(g);
            proof {
                assert(groups@ =~= all.take(groups@.len() as int));
            }
        }
        let mut vs: Vec<Option<T>> = Vec::new();
        while rev.len() > 0
            invariant
                rev@.len() <= all.len(),
                forall|j: int| 0 <= j < rev@.len() ==> #[trigger] rev@[j] == all[all.len() - 1 - j],
                vs@ == group_items(all.take(all.len() - rev@.len())),
            decreases rev@.len(),
        {
            let g = rev.pop().unwrap();
            let ghost k = all.len() - rev@.len() - 1;
            let ghost before = vs@;
            proof {
                assert(g == all[k]);
            }
            match g {
                ParGroupIter::Missing(length) => {
                    let mut i: usize = 0;
                    while i < length
                        invariant
                            i <= length,
                            vs@ == before + Seq::new(i as nat, |j: int| None::<T>),
                        decreases length - i,
                    {
                        vs.push(None);
                        i += 1;
                        proof {
                            assert(vs@ =~= before + Seq::new(i as nat, |j: int| None::<T>));
                        }
                    }
                },
                ParGroupIter::Present(slice) => {
                    let ghost sv = slice@;
                    let mut srev: Vec<T> = Vec::new();
                    let mut slice = slice;
                    while slice.len() > 0
                        invariant
                            slice@ == sv.take(slice@.len() as int),
                            srev@.len() + slice@.len() == sv.len(),
                            forall|j: int| 0 <= j < srev@.len() ==> #[trigger] srev@[j] == sv[sv.len() - 1 - j],
                        decreases slice@.len(),
                    {
                        let e = slice.pop().unwrap();
                        srev.push(e);
                        proof {
                            assert(slice@ =~= sv.take(slice@.len() as int));
                        }
                    }
                    while srev.len() > 0
                        invariant
                            srev@.len() <= sv.len(),
                            forall|j: int| 0 <= j < srev@.len() ==> #[trigger] srev@[j] == sv[sv.len() - 1 - j],
                            vs@ == before + sv.take(sv.len() - srev@.len()).map_values(|t: T| Some(t)),
                        decreases srev@.len(),
                    {
                        let e = srev.pop().unwrap();
                        let ghost m = sv.len() - srev@.len() - 1;
                        vs.push(Some(e));
                        proof {
                            assert(sv.take(m + 1) =~= sv.take(m).push(e));
                            assert(vs@ =~= before + sv.take(m + 1).map_values(|t: T| Some(t)));
                        }
                    }
                    proof {
                        assert(sv.take(sv.len() as int) =~= sv);
                    }
                },
            }
            proof {
                assert(all.take(k + 1) =~= all.take(k).push(all[k]));
                lemma_group_items_push(all.take(k), all[k]);
            }
        }
        proof {
            assert(all.take(all.len() as int) =~= all);
        }
        vs
    }

    /// Split into the items before `index` and those from `index` on,
    /// splitting the group that `index` falls into.
    pub fn split_at(self, index: usize) -> (r: (Self, Self))
        requires
            index <= self@.len(),
        ensures
            r.0@ == self@.take(index as int),
            r.1@ == self@.skip(index as int),
    {
        let ghost all = self.0@;
        let ghost items = self@;
        let mut num_items = index;
        let mut left: Vec<ParGroupIter<T>> = Vec::new();
        let mut right: Vec<ParGroupIter<T>> = Vec::new();
        let mut rev: Vec<ParGroupIter<T>> = Vec::new();
        let mut groups = self.0;
        while groups.len() > 0
            invariant
                groups@ == all.take(groups@.len() as int),
                rev@.len() + groups@.len() == all.len(),
                forall|j: int| 0 <= j < rev@.len() ==> #[trigger] rev@[j] == all[all.len() - 1 - j],
            decreases groups@.len(),
        {
            let g = groups.pop().unwrap();
            rev.push(g);
            proof {
                assert(groups@ =~= all.take(groups@.len() as int));
            }
        }
        let mut split = false;
        proof {
            assert(all.skip(0) =~= all);
            assert(items.skip(0) =~= items);
            assert(items.take(0) =~= Seq::<Option<T>>::empty());
            assert(group_items(left@) =~= Seq::<Option<T>>::empty());
            assert(all.take(0) =~= left@);
        }
        while rev.len() > 0 && !split
            invariant
                items == group_items(all),
                rev@.len() <= all.len(),
                forall|j: int| 0 <= j < rev@.len() ==> #[trigger] rev@[j] == all[all.len() - 1 - j],
                !split ==> group_items(left@) == items.take(index - num_items),
                !split ==> left@ == all.take(all.len() - rev@.len()),
                !split ==> right@.len() == 0,
                !split ==> num_items <= index,
                !split ==> index - num_items <= items.len(),
                !split ==> group_items(all.skip(all.len() - rev@.len())) == items.skip(index - num_items),
                !split ==> num_items <= group_items(all.skip(all.len() - rev@.len())).len(),
                split ==> group_items(left@) == items.take(index as int),
                split ==> group_items(right@) + group_items(all.skip(all.len() - rev@.len())) == items.skip(index as int),
            decreases rev@.len() + (if split { 0int } else { 1int }),
        {
            let ghost left0 = left@;
            let group = rev.pop().unwrap();
            let ghost k = all.len() - rev@.len() - 1;
            let ghost rest = all.skip(k + 1);
            let ghost gi = group.items();
            proof {
                assert(group == all[k]);
                assert(all.skip(k) =~= seq![all[k]] + rest);
                lemma_group_items_append(seq![all[k]], rest);
                assert(seq![all[k]] =~= Seq::<ParGroupIter<T>>::empty().push(all[k]));
                lemma_group_items_push(Seq::<ParGroupIter<T>>::empty(), all[k]);
                assert(group_items(Seq::<ParGroupIter<T>>::empty()) + gi =~= gi);
                assert(group_items(seq![all[k]]) =~= gi);
            }
            let length = group.len();
            if length > num_items {
                match group {
                    ParGroupIter::Missing(len) => {
                        left.push(ParGroupIter::Missing(num_items));
                        right.push(ParGroupIter::Missing(len - num_items));
                        proof {
                            let lg = ParGroupIter::<T>::Missing(num_items);
                            let rg = ParGroupIter::<T>::Missing((len - num_items) as usize);
                            assert(lg.items() =~= gi.take(num_items as int));
                            assert(rg.items() =~= gi.skip(num_items as int));
                        }
                    },
                    ParGroupIter::Present(slice) => {
                        let mut slice_left = slice;
                        let slice_right = slice_left.split_off(num_items);
                        proof {
                            let lg = ParGroupIter::Present(slice_left);
                            let rg = ParGroupIter::Present(slice_right);
                            assert(lg.items() =~= gi.take(num_items as int));
                            assert(rg.items() =~= gi.skip(num_items as int));
                        }
                        left.push(ParGroupIter::Present(slice_left));
                        right.push(ParGroupIter::Present(slice_right));
                    },
                }
                proof {
                    assert(left@ =~= left0.push(left@.last()));
                    lemma_group_items_push(left0, left@.last());
                    assert(left@.last().items() =~= gi.take(num_items as int));
                    lemma_group_items_push(Seq::<ParGroupIter<T>>::empty(), right@.last());
                    assert(right@ =~= Seq::<ParGroupIter<T>>::empty().push(right@.last()));
                    assert(group_items(Seq::<ParGroupIter<T>>::empty()) =~= Seq::<Option<T>>::empty());
                    let done = index - num_items;
                    assert(items.skip(done) =~= gi + group_items(rest));
                    assert forall|j: int| 0 <= j < index implies #[trigger] items.take(index as int)[j] == (items.take(done) + gi.take(
                        num_items as int,
                    ))[j] by {
                        if j >= done {
                            assert(items.skip(done)[j - done] == items[j]);
                        }
                    }
                    assert(items.take(index as int) =~= items.take(done) + gi.take(num_items as int));
                    assert forall|j: int| 0 <= j < items.len() - index implies #[trigger] items.skip(index as int)[j] == (gi.skip(
                        num_items as int,
                    ) + group_items(rest))[j] by {
                        assert(items.skip(done)[j + num_items] == items[index + j]);
                    }
                    assert(items.skip(index as int) =~= gi.skip(num_items as int) + group_items(rest));
                }
                split = true;
            } else {
                left.push(group);
                num_items = num_items - length;
                proof {
                    let done = index - (num_items + length);
                    assert(left@ =~= left0.push(group));
                    lemma_group_items_push(left0, group);
                    assert(all.take(k + 1) =~= all.take(k).push(all[k]));
                    assert(items.skip(done) =~= gi + group_items(rest));
                    assert forall|j: int| 0 <= j < done + length implies #[trigger] items.take(done + length)[j] == (items.take(done)
                        + gi)[j] by {
                        if j >= done {
                            assert(items.skip(done)[j - done] == items[j]);
                        }
                    }
                    assert(items.take(done + length) =~= items.take(done) + gi);
                    assert forall|j: int| 0 <= j < items.len() - (done + length) implies #[trigger] items.skip(done + length)[j]
                        == group_items(rest)[j] by {
                        assert(items.skip(done)[j + length] == items[done + length + j]);
                    }
                    assert(items.skip(done + length) =~= group_items(rest));
                }
            }
        }
        if !split {
            proof {
                assert(all.skip(all.len() as int) =~= Seq::<ParGroupIter<T>>::empty());
                assert(num_items == 0);
                assert(group_items(right@) =~= Seq::<Option<T>>::empty());
                assert(items.skip(index as int) =~= Seq::<Option<T>>::empty()) by {
                    assert(items.skip(index - num_items) =~= group_items(Seq::<ParGroupIter<T>>::empty()));
                }
            }
        }
        let ghost tail = rev@;
        let mut rest: Vec<ParGroupIter<T>> = Vec::new();
        while rev.len() > 0
            invariant
                forall|j: int| 0 <= j < rev@.len() ==> #[trigger] rev@[j] == tail[j],
                rev@.len() <= tail.len(),
                rest@.len() + rev@.len() == tail.len(),
                forall|j: int| 0 <= j < rest@.len() ==> #[trigger] rest@[j] == tail[tail.len() - 1 - j],
            decreases rev@.len(),
        {
            let g = rev.pop().unwrap();
            rest.push(g);
        }
        let ghost before_right = right@;
        right.append(&mut rest);
        proof {
            let remaining = all.skip(all.len() - tail.len());
            assert forall|j: int| 0 <= j < tail.len() implies tail[tail.len() - 1 - j] == remaining[j] by {
                assert(tail[tail.len() - 1 - j] == all[all.len() - 1 - (tail.len() - 1 - j)]);
            }
            assert(right@ =~= before_right + remaining);
            lemma_group_items_append(before_right, remaining);
        }
        (RangeStoreParIter(left), RangeStoreParIter(right))
    }
}

} // verus!
