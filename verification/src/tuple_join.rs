//! Joining any number of sorted streams, given as a tuple list
//! `(s0, (s1, (s2, ())))`: each item of the join is a tuple list of one
//! item per stream, all with the same entity id.
use vstd::prelude::*;

use crate::join::{CompareId, HasId, IdIter, IdOrder};

verus! {

/// The merge of a stream with the join of the streams after it: the head
/// item is dropped while the tail item orders after it, the tail item while
/// it orders before it, and both are paired when they are at the same id.
pub open spec fn join_seq<H: HasId, T: CompareId>(a: Seq<H>, b: Seq<T>) -> Seq<(H, T)>
    decreases a.len() + b.len(),
{
    if a.len() == 0 || b.len() == 0 {
        Seq::empty()
    } else {
        match b[0].spec_cmp_id(a[0].spec_id()) {
            IdOrder::Greater => join_seq(a.drop_first(), b),
            IdOrder::Less => join_seq(a, b.drop_first()),
            IdOrder::Equal => seq![(a[0], b[0])] + join_seq(a.drop_first(), b.drop_first()),
        }
    }
}

/// Streams that advance together, yielding only the items that all of them
/// hold at one id.
pub trait TupleListSyncIter {
    type Item;

    /// The items that are left to yield, in order.
    spec fn items(&self) -> Seq<Self::Item>;

    /// The next item of the join, if any is left.
    fn next_item(&mut self) -> (r: Option<Self::Item>)
        ensures
            old(self).items().len() == 0 ==> r is None && final(self).items().len() == 0,
            old(self).items().len() > 0 ==> r == Some(old(self).items()[0]) && final(self).items() == old(
                self,
            ).items().drop_first(),
    ;
}

impl<H> TupleListSyncIter for (IdIter<H>, ()) {
    type Item = (H, ());

    open spec fn items(&self) -> Seq<(H, ())> {
        self.0@.map_values(|h: H| (h, ()))
    }

    fn next_item(&mut self) -> (r: Option<(H, ())>) {
        let r = match self.0.next() {
            Some(h) => Some((h, ())),
            None => None,
        };
        proof {
            if old(self).items().len() > 0 {
                assert(self.items() =~= old(self).items().drop_first());
            }
        }
        r
    }
}

impl<H: HasId, A, B> TupleListSyncIter for (IdIter<H>, (A, B)) where
    (A, B): TupleListSyncIter,
    <(A, B) as TupleListSyncIter>::Item: CompareId,
 {
    type Item = (H, <(A, B) as TupleListSyncIter>::Item);

    open spec fn items(&self) -> Seq<Self::Item> {
        join_seq(self.0@, self.1.items())
    }

    fn next_item(&mut self) -> (r: Option<Self::Item>) {
        let ghost a0 = self.0@;
        let ghost b0 = self.1.items();
        let ghost j0 = self.items();
        let mut head = match self.0.next() {
            Some(h) => h,
            None => {
                return None;
            },
        };
        let mut tail = match self.1.next_item() {
            Some(t) => t,
            None => {
                proof {
                    assert(self.1.items().len() == 0);
                }
                return None;
            },
        };
        proof {
            assert(seq![head] + self.0@ =~= a0);
            assert(seq![tail] + self.1.items() =~= b0);
        }
        let mut r: Option<Self::Item> = None;
        loop
            invariant_except_break
                join_seq(seq![head] + self.0@, seq![tail] + self.1.items()) == j0,
                r is None,
            invariant
                j0 == join_seq(a0, b0),
            ensures
                r is None ==> j0.len() == 0 && self.items().len() == 0,
                r is Some ==> j0.len() > 0 && r == Some(j0[0]) && self.items() == j0.drop_first(),
            decreases self.0@.len() + self.1.items().len(),
        {
            let ghost a = seq![head] + self.0@;
            let ghost b = seq![tail] + self.1.items();
            proof {
                assert(a.drop_first() =~= self.0@);
                assert(b.drop_first() =~= self.1.items());
                assert(a[0] == head && b[0] == tail);
            }
            match tail.cmp_id(&head.id()) {
                IdOrder::Equal => {
                    r = Some((head, tail));
                    break;
                },
                IdOrder::Greater => {
                    match self.0.next() {
                        Some(h) => {
                            head = h;
                            proof {
                                assert(seq![head] + self.0@ =~= a.drop_first());
                            }
                        },
                        None => {
                            proof {
                                assert(join_seq(self.0@, b) =~= Seq::<Self::Item>::empty());
                            }
                            break;
                        },
                    }
                },
                IdOrder::Less => {
                    let ghost bt = self.1.items();
                    match self.1.next_item() {
                        Some(t) => {
                            tail = t;
                            proof {
                                assert(seq![tail] + self.1.items() =~= b.drop_first());
                            }
                        },
                        None => {
                            proof {
                                assert(bt.len() == 0);
                                assert(join_seq(a, bt) =~= Seq::<Self::Item>::empty());
                                assert(join_seq(self.0@, self.1.items()) =~= Seq::<Self::Item>::empty());
                            }
                            break;
                        },
                    }
                },
            }
        }
        r
    }
}

/// A join of the streams of a tuple list.
pub struct JoinIter<T>(pub T);

impl<T: TupleListSyncIter> JoinIter<T> {
    /// The next item that all the streams hold at one id.
    pub fn next(&mut self) -> (r: Option<T::Item>)
        ensures
            old(self).0.items().len() == 0 ==> r is None && final(self).0.items().len() == 0,
            old(self).0.items().len() > 0 ==> r == Some(old(self).0.items()[0]) && final(self).0.items() == old(
                self,
            ).0.items().drop_first(),
    {
        self.0.next_item()
    }
}

/// Turns a tuple list of vectors into a tuple list of streams.
pub trait TupleListIntoIter {
    type Output;

    /// Whether `out` holds the streams of these vectors.
    spec fn streams(&self, out: Self::Output) -> bool;

    /// The streams of the vectors.
    fn tuple_list_into_iter(self) -> (r: Self::Output)
        ensures
            self.streams(r),
    ;
}

impl TupleListIntoIter for () {
    type Output = ();

    open spec fn streams(&self, out: ()) -> bool {
        true
    }

    fn tuple_list_into_iter(self) -> (r: ()) {
    }
}

impl<H, Tail: TupleListIntoIter> TupleListIntoIter for (Vec<H>, Tail) {
    type Output = (IdIter<H>, Tail::Output);

    open spec fn streams(&self, out: Self::Output) -> bool {
        out.0@ == self.0@ && self.1.streams(out.1)
    }

    fn tuple_list_into_iter(self) -> (r: Self::Output) {
        let (head, tail) = self;
        (IdIter::new(head), tail.tuple_list_into_iter())
    }
}

/// A tuple of options that is turned into an option of a tuple, present
/// when every option is.
pub trait TupleOfOptions {
    type Output;

    /// Whether every option is present.
    spec fn all_some(&self) -> bool;

    /// The tuple of the present values.
    spec fn values(&self) -> Self::Output;

    /// The tuple of the values, when every one is present.
    fn into_option_of_tuple(self) -> (r: Option<Self::Output>)
        ensures
            self.all_some() ==> r == Some(self.values()),
            !self.all_some() ==> r is None,
    ;
}

impl<A> TupleOfOptions for (Option<A>,) {
    type Output = (A,);

    open spec fn all_some(&self) -> bool {
        self.0 is Some
    }

    open spec fn values(&self) -> (A,) {
        (self.0->Some_0,)
    }

    fn into_option_of_tuple(self) -> (r: Option<(A,)>) {
        match self {
            (Some(a),) => Some((a,)),
            _ => None,
        }
    }
}

impl<A, B> TupleOfOptions for (Option<A>, Option<B>) {
    type Output = (A, B);

    open spec fn all_some(&self) -> bool {
        self.0 is Some && self.1 is Some
    }

    open spec fn values(&self) -> (A, B) {
        (self.0->Some_0, self.1->Some_0)
    }

    fn into_option_of_tuple(self) -> (r: Option<(A, B)>) {
        match self {
            (Some(a), Some(b)) => Some((a, b)),
            _ => None,
        }
    }
}

impl<A, B, C> TupleOfOptions for (Option<A>, Option<B>, Option<C>) {
    type Output = (A, B, C);

    open spec fn all_some(&self) -> bool {
        self.0 is Some && self.1 is Some && self.2 is Some
    }

    open spec fn values(&self) -> (A, B, C) {
        (self.0->Some_0, self.1->Some_0, self.2->Some_0)
    }

    fn into_option_of_tuple(self) -> (r: Option<(A, B, C)>) {
        match self {
            (Some(a), Some(b), Some(c)) => Some((a, b, c)),
            _ => None,
        }
    }
}

} // verus!
