//! Short lists of component type keys, kept inline in a `SmallVec`.
use vstd::prelude::*;

verus! {

/// A short list of component type keys, kept inline in a `SmallVec`.
#[verifier::external_body]
pub struct TypeList {
    inner: smallvec::SmallVec<[u64; 4]>,
}

/// The keys that a type list holds, in order.
pub uninterp spec fn type_list_items(list: TypeList) -> Seq<u64>;

impl View for TypeList {
    type V = Seq<u64>;

    open spec fn view(&self) -> Seq<u64> {
        type_list_items(*self)
    }
}

impl TypeList {
    /// `SmallVec::new`: an empty list.
    #[verifier::external_body]
    pub(crate) fn new() -> (list: TypeList)
        ensures
            type_list_items(list) == Seq::<u64>::empty(),
    {
        TypeList { inner: smallvec::SmallVec::new() }
    }

    /// `SmallVec::push`: appends a key at the end.
    #[verifier::external_body]
    pub(crate) fn push(&mut self, key: u64)
        ensures
            type_list_items(*final(self)) == type_list_items(*old(self)).push(key),
    {
        self.inner.push(key)
    }

    /// `SmallVec::insert`: inserts a key at `index`, shifting the later keys.
    #[verifier::external_body]
    pub(crate) fn insert(&mut self, index: usize, key: u64)
        requires
            index <= type_list_items(*old(self)).len(),
        ensures
            type_list_items(*final(self)) == type_list_items(*old(self)).insert(index as int, key),
    {
        self.inner.insert(index, key)
    }

    /// `SmallVec::remove`: removes and returns the key at `index`, shifting
    /// the later keys.
    #[verifier::external_body]
    pub(crate) fn remove(&mut self, index: usize) -> (key: u64)
        requires
            index < type_list_items(*old(self)).len(),
        ensures
            key == type_list_items(*old(self))[index as int],
            type_list_items(*final(self)) == type_list_items(*old(self)).remove(index as int),
    {
        self.inner.remove(index)
    }

    /// `SmallVec::len`: the number of keys.
    #[verifier::external_body]
    pub(crate) fn len(&self) -> (n: usize)
        ensures
            n == type_list_items(*self).len(),
    {
        self.inner.len()
    }

    /// `SmallVec::is_empty`: whether there are no keys.
    #[verifier::external_body]
    pub(crate) fn is_empty(&self) -> (b: bool)
        ensures
            b == (type_list_items(*self).len() == 0),
    {
        self.inner.is_empty()
    }

    /// Indexing a `SmallVec`: the key at `index`.
    #[verifier::external_body]
    pub(crate) fn get(&self, index: usize) -> (key: u64)
        requires
            index < type_list_items(*self).len(),
        ensures
            key == type_list_items(*self)[index as int],
    {
        self.inner[index]
    }

    /// `SmallVec::clone`: a list with the same keys.
    #[verifier::external_body]
    pub(crate) fn duplicate(&self) -> (list: TypeList)
        ensures
            type_list_items(list) == type_list_items(*self),
    {
        TypeList { inner: self.inner.clone() }
    }

    /// `SmallVec::as_slice`: the keys as a slice.
    #[verifier::external_body]
    pub(crate) fn as_slice(&self) -> (s: &[u64])
        ensures
            s@ == type_list_items(*self),
    {
        self.inner.as_slice()
    }
    /// The keys, in order, as a vector.
    pub fn to_vec(&self) -> (v: Vec<u64>)
        ensures
            v@ == self@,
    {
        let mut v: Vec<u64> = Vec::new();
        let n = self.len();
        let mut i: usize = 0;
        while i < n
            invariant
                n == self@.len(),
                i <= n,
                v@ == self@.take(i as int),
            decreases n - i,
        {
            v.push(self.get(i));
            i += 1;
            proof {
                assert(v@ =~= self@.take(i as int));
            }
        }
        proof {
            assert(self@.take(n as int) =~= self@);
        }
        v
    }
}

} // verus!
