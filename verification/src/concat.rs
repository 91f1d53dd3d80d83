//! A concatenation of item sequences that can be split at any index for
//! parallel work.
use vstd::prelude::*;

verus! {

/// The items of the parts, one part after the other.
pub open spec fn flatten<T>(parts: Seq<Vec<T>>) -> Seq<T>
    decreases parts.len(),
{
    if parts.len() == 0 {
        Seq::empty()
    } else {
        flatten(parts.drop_last()) + parts.last()@
    }
}

proof fn lemma_flatten_push<T>(parts: Seq<Vec<T>>, v: Vec<T>)
    ensures
        flatten(parts.push(v)) == flatten(parts) + v@,
{
    assert(parts.push(v).drop_last() =~= parts);
}

proof fn lemma_flatten_append<T>(a: Seq<Vec<T>>, b: Seq<Vec<T>>)
    ensures
        flatten(a + b) == flatten(a) + flatten(b),
    decreases b.len(),
{
    if b.len() == 0 {
        assert(a + b =~= a);
        assert(flatten(a) + flatten(b) =~= flatten(a));
    } else {
        lemma_flatten_append(a, b.drop_last());
        assert((a + b).drop_last() =~= a + b.drop_last());
        assert(flatten(a) + flatten(b) =~= flatten(a) + flatten(b.drop_last()) + b.last()@);
    }
}

/// The first `j` parts hold no more items than all of them.
proof fn lemma_flatten_take<T>(parts: Seq<Vec<T>>, j: int)
    requires
        0 <= j < parts.len(),
    ensures
        flatten(parts.take(j + 1)) == flatten(parts.take(j)) + parts[j]@,
        flatten(parts.take(j + 1)).len() <= flatten(parts).len(),
{
    assert(parts.take(j + 1) =~= parts.take(j).push(parts[j]));
    lemma_flatten_push(parts.take(j), parts[j]);
    lemma_flatten_append(parts.take(j + 1), parts.skip(j + 1));
    assert(parts.take(j + 1) + parts.skip(j + 1) =~= parts);
}

/// A concatenation of item sequences.
pub struct Concat<T>(pub Vec<Vec<T>>);

impl<T> View for Concat<T> {
    type V = Seq<T>;

    /// The items of all parts, in order.
    open spec fn view(&self) -> Seq<T> {
        flatten(self.0@)
    }
}

/// Part of a concatenation, as a split leaves it: loose items at the
/// front, whole parts, and loose items at the back.
pub struct ConcatProducer<T> {
    front: Vec<T>,
    middle: Vec<Vec<T>>,
    back: Vec<T>,
}

impl<T> View for ConcatProducer<T> {
    type V = Seq<T>;

    /// The items, in order.
    closed spec fn view(&self) -> Seq<T> {
        self.front@ + flatten(self.middle@) + self.back@
    }
}

impl<T> Concat<T> {
    /// The number of items.
    pub fn len(&self) -> (n: usize)
        requires
            self@.len() <= usize::MAX,
        ensures
            n == self@.len(),
    {
        let mut acc: usize = 0;
        let n = self.0.len();
        let mut j: usize = 0;
        while j < n
            invariant
                n == self.0@.len(),
                j <= n,
                acc == flatten(self.0@.take(j as int)).len(),
                flatten(self.0@).len() <= usize::MAX,
            decreases n - j,
        {
            proof {
                lemma_flatten_take(self.0@, j as int);
            }
            acc = acc + self.0[j].len();
            j += 1;
        }
        proof {
            assert(self.0@.take(n as int) =~= self.0@);
        }
        acc
    }

    /// A producer over all the items, every part whole.
    pub fn producer(self) -> (p: ConcatProducer<T>)
        ensures
            p@ == self@,
    {
        let p = ConcatProducer { front: Vec::new(), middle: self.0, back: Vec::new() };
        proof {
            assert(p@ =~= self@);
        }
        p
    }
}

impl<T> ConcatProducer<T> {
    /// The number of items.
    pub fn total_len(&self) -> (n: usize)
        requires
            self@.len() <= usize::MAX,
        ensures
            n == self@.len(),
    {
        let mut acc: usize = self.front.len();
        let n = self.middle.len();
        let mut j: usize = 0;
        while j < n
            invariant
                n == self.middle@.len(),
                j <= n,
                acc == self.front@.len() + flatten(self.middle@.take(j as int)).len(),
                self@.len() <= usize::MAX,
                self@.len() == self.front@.len() + flatten(self.middle@).len() + self.back@.len(),
            decreases n - j,
        {
            proof {
                lemma_flatten_take(self.middle@, j as int);
            }
            acc = acc + self.middle[j].len();
            j += 1;
        }
        proof {
            assert(self.middle@.take(n as int) =~= self.middle@);
        }
        acc + self.back.len()
    }

    /// The items, in order.
    pub fn into_items(self) -> (r: Vec<T>)
        ensures
            r@ == self@,
    {
        let ghost all = self.middle@;
        let ConcatProducer { front, middle, back } = self;
        let mut r = front;
        let ghost f = r@;
        let mut rev = reversed(middle);
        let n = rev.len();
        let mut j: usize = 0;
        while rev.len() > 0
            invariant
                n == all.len(),
                j + rev@.len() == n,
                forall|i: int| 0 <= i < rev@.len() ==> #[trigger] rev@[i] == all[n - 1 - i],
                r@ == f + flatten(all.take(j as int)),
            decreases rev@.len(),
        {
            let mut part = rev.pop().unwrap();
            proof {
                lemma_flatten_take(all, j as int);
            }
            r.append(&mut part);
            j += 1;
        }
        let mut back = back;
        r.append(&mut back);
        proof {
            assert(all.take(n as int) =~= all);
        }
        r
    }

    /// Split at `index`: the first `index` items, and the rest.
    pub fn split_at(self, index: usize) -> (r: (Self, Self))
        requires
            index <= self@.len(),
            self@.len() <= usize::MAX,
        ensures
            r.0@ == self@.take(index as int),
            r.1@ == self@.skip(index as int),
    {
        let ghost s = self@;
        let ghost all = self.middle@;
        let ConcatProducer { front, middle, back } = self;
        let ghost bk = back@;
        let mut front = front;
        let ghost f0 = front@;
        proof {
            assert(s == f0 + flatten(all) + bk);
        }
        let k = if index < front.len() { index } else { front.len() };
        let rest_front = front.split_off(k);
        let mut left = ConcatProducer { front, middle: Vec::new(), back: Vec::new() };
        let mut right = ConcatProducer { front: rest_front, middle: Vec::new(), back };
        let mut left_len: usize = k;
        let mut rev = reversed(middle);
        let n = rev.len();
        let mut j: usize = 0;
        while rev.len() > 0
            invariant
                n == all.len(),
                j + rev@.len() == n,
                forall|i: int| 0 <= i < rev@.len() ==> #[trigger] rev@[i] == all[n - 1 - i],
                s.len() <= usize::MAX,
                index <= s.len(),
                s == f0 + flatten(all) + bk,
                left@ + right.front@ + flatten(right.middle@) == f0 + flatten(all.take(j as int)),
                left_len == left@.len(),
                left_len <= index,
                right.front@.len() + right.middle@.len() > 0 ==> left_len == index,
                left.back@.len() > 0 ==> left_len == index,
                right.back@ == bk,
            decreases rev@.len(),
        {
            let ghost pre_left = left@;
            let ghost pre_right = right.front@ + flatten(right.middle@);
            let mut part = rev.pop().unwrap();
            let ghost p = part@;
            proof {
                lemma_flatten_take(all, j as int);
                assert(p == all[j as int]@);
                assert(pre_left + pre_right =~= left@ + right.front@ + flatten(right.middle@));
                assert(flatten(all.take(j + 1)) == flatten(all.take(j as int)) + p);
                assert((f0 + flatten(all.take(j + 1))).len() <= s.len());
                if right.front@.len() + right.middle@.len() == 0 {
                    assert(right.middle@ =~= Seq::<Vec<T>>::empty());
                    assert(pre_right =~= Seq::<T>::empty());
                }
            }
            let m = part.len();
            if left_len + m < index {
                proof {
                    lemma_flatten_push(left.middle@, part);
                }
                left.middle.push(part);
                left_len = left_len + m;
                proof {
                    assert(left@ =~= pre_left + p);
                    assert(left@ + right.front@ + flatten(right.middle@) =~= f0 + flatten(all.take(j + 1)));
                }
            } else if left_len >= index {
                proof {
                    lemma_flatten_push(right.middle@, part);
                }
                right.middle.push(part);
                proof {
                    assert(right.front@ + flatten(right.middle@) =~= pre_right + p);
                    assert(left@ + right.front@ + flatten(right.middle@) =~= left@ + (pre_right + p));
                    assert(left@ + pre_right == f0 + flatten(all.take(j as int)));
                    assert(left@ + (pre_right + p) =~= (left@ + pre_right) + p);
                    assert(left@ + right.front@ + flatten(right.middle@) =~= f0 + flatten(all.take(j + 1)));
                }
            } else {
                let mut rest = part.split_off(index - left_len);
                left.back.append(&mut part);
                right.front.append(&mut rest);
                left_len = index;
                proof {
                    let x = index - pre_left.len();
                    assert(left@ =~= pre_left + p.take(x));
                    assert(right.front@ =~= p.skip(x));
                    assert(p =~= p.take(x) + p.skip(x));
                    assert(flatten(right.middle@) =~= Seq::<T>::empty());
                    assert(pre_left == f0 + flatten(all.take(j as int)));
                    let lhs = left@ + right.front@ + flatten(right.middle@);
                    assert(lhs =~= pre_left + p.take(x) + p.skip(x));
                    assert(pre_left + p.take(x) + p.skip(x) =~= pre_left + p);
                    assert(f0 + flatten(all.take(j + 1)) =~= pre_left + p);
                }
            }
            j += 1;
        }
        proof {
            assert(all.take(n as int) =~= all);
        }
        if left_len < index {
            let m = index - left_len;
            let mut head = right.back.split_off(m);
            std::mem::swap(&mut head, &mut right.back);
            left.back.append(&mut head);
        }
        proof {
            assert(left@ =~= s.take(index as int));
            assert(right@ =~= s.skip(index as int));
        }
        (left, right)
    }
}

/// The items in reverse order, so that popping gives them in order.
fn reversed<A>(items: Vec<A>) -> (r: Vec<A>)
    ensures
        r@.len() == items@.len(),
        forall|i: int| 0 <= i < r@.len() ==> #[trigger] r@[i] == items@[items@.len() - 1 - i],
{
    let ghost all = items@;
    let mut items = items;
    let mut rev: Vec<A> = Vec::new();
    while items.len() > 0
        invariant
            items@ == all.take(items@.len() as int),
            rev@.len() + items@.len() == all.len(),
            forall|j: int| 0 <= j < rev@.len() ==> #[trigger] rev@[j] == all[all.len() - 1 - j],
        decreases items@.len(),
    {
        let x = items.pop().unwrap();
        rev.push(x);
        proof {
            assert(items@ =~= all.take(items@.len() as int));
        }
    }
    rev
}

} // verus!
