//! An append-only vector whose indices can be branded with the token of
//! an identifier, so that they are known to be in bounds.

use vstd::prelude::*;

use crate::ident::{Identifier, OneShotIdentifier};

verus! {

/// An index branded with the token of the identifier of a [`PuiVec`]
#[derive(Debug, Clone, Copy, PartialEq, Eq, Structural)]
pub struct Id<T> {
    index: usize,
    token: T,
}

/// A `Vec` together with an identifier; with a one-shot identifier the
/// vector is append-only, so that the ids it hands out stay in bounds
#[derive(Debug, Clone)]
pub struct PuiVec<T, I> {
    ident: I,
    vec: Vec<T>,
}

impl<T> Id<T> {
    /// The index of this id
    pub closed spec fn spec_index(&self) -> usize {
        self.index
    }

    /// The token of this id
    pub closed spec fn spec_token(&self) -> T {
        self.token
    }

    /// Create a branded index from an index and the token that brands it
    pub fn new_unchecked(index: usize, token: T) -> (r: Self)
        ensures
            r.spec_index() == index,
            r.spec_token() == token,
    {
        Id { index, token }
    }

    /// Get the index and the token of this id
    pub fn into_raw_parts(self) -> (r: (usize, T))
        ensures
            r == (self.spec_index(), self.spec_token()),
    {
        (self.index, self.token)
    }

    /// The index of this id
    pub fn get(&self) -> (r: usize)
        ensures
            r == self.spec_index(),
    {
        self.index
    }

    /// The token of this id
    pub fn token(&self) -> (r: &T)
        ensures
            *r == self.spec_token(),
    {
        &self.token
    }
}

impl<T, I> PuiVec<T, I> {
    /// The elements of the vector
    pub closed spec fn view(&self) -> Seq<T> {
        self.vec@
    }

    /// The identifier of the vector
    pub closed spec fn spec_ident(&self) -> I {
        self.ident
    }

    /// A vector never holds more elements than a `usize` can count
    pub proof fn lemma_len_bound(&self)
        ensures
            self@.len() <= usize::MAX,
    {
        broadcast use vstd::std_specs::vec::axiom_spec_len;

        assert(self.vec.len() == self.vec@.len());
    }

    /// Creates an empty `PuiVec` with the given identifier
    pub fn new(ident: I) -> (r: Self)
        ensures
            r@ == Seq::<T>::empty(),
            r.spec_ident() == ident,
    {
        PuiVec { ident, vec: Vec::new() }
    }

    /// Creates a `PuiVec` from a `Vec` and an identifier
    pub fn from_raw_parts(vec: Vec<T>, ident: I) -> (r: Self)
        ensures
            r@ == vec@,
            r.spec_ident() == ident,
    {
        PuiVec { ident, vec }
    }

    /// The identifier of the vector
    pub fn ident(&self) -> (r: &I)
        ensures
            *r == self.spec_ident(),
    {
        &self.ident
    }

    /// Returns true if the vector holds no element
    pub fn is_empty(&self) -> (r: bool)
        ensures
            r == (self@.len() == 0),
    {
        self.vec.len() == 0
    }

    /// The number of elements of the vector
    pub fn len(&self) -> (r: usize)
        ensures
            r == self@.len(),
    {
        self.vec.len()
    }

    /// The number of elements that the vector can hold without reallocating
    pub fn capacity(&self) -> (r: usize)
        ensures
            r >= self@.len(),
    {
        vec_capacity(&self.vec)
    }

    /// Reserves room for at least `additional` more elements
    pub fn reserve(&mut self, additional: usize)
        ensures
            final(self)@ == old(self)@,
            final(self).spec_ident() == old(self).spec_ident(),
    {
        self.vec.reserve(additional)
    }

    /// The element at `index`, if it is in bounds
    pub fn get(&self, index: usize) -> (r: Option<&T>)
        ensures
            index < self@.len() ==> r == Some(&self@[index as int]),
            index >= self@.len() ==> r is None,
    {
        if index < self.vec.len() {
            Some(&self.vec[index])
        } else {
            None
        }
    }

    /// The elements in `range`, if it lies within the vector
    pub fn get_range(&self, range: core::ops::Range<usize>) -> (r: Option<&[T]>)
        ensures
            range.start <= range.end <= self@.len() ==> r is Some && r.unwrap()@ == self@.subrange(
                range.start as int,
                range.end as int,
            ),
            !(range.start <= range.end <= self@.len()) ==> r is None,
    {
        if range.start <= range.end && range.end <= self.vec.len() {
            Some(&self.vec.as_slice()[range])
        } else {
            None
        }
    }

    /// A unique reference to the element at `index`, if it is in bounds
    pub fn get_mut(&mut self, index: usize) -> (r: Option<&mut T>)
        ensures
            final(self).spec_ident() == old(self).spec_ident(),
            index < old(self)@.len() ==> r is Some && *r.unwrap() == old(self)@[index as int]
                && final(self)@ == old(self)@.update(index as int, *final(r.unwrap())),
            index >= old(self)@.len() ==> r is None && final(self)@ == old(self)@,
    {
        if index < self.vec.len() {
            Some(&mut self.vec[index])
        } else {
            None
        }
    }

    /// The element at `index`, which must be in bounds
    pub fn index(&self, index: usize) -> (r: &T)
        requires
            index < self@.len(),
        ensures
            *r == self@[index as int],
    {
        &self.vec[index]
    }

    /// Put `value` at `index`, which must be in bounds, and return the
    /// element that was there
    pub fn replace(&mut self, index: usize, value: T) -> (r: T)
        requires
            index < old(self)@.len(),
        ensures
            r == old(self)@[index as int],
            final(self)@ == old(self)@.update(index as int, value),
            final(self).spec_ident() == old(self).spec_ident(),
    {
        let mut value = value;
        core::mem::swap(&mut self.vec[index], &mut value);
        value
    }

    /// The identifier, and the elements as a slice
    pub fn as_mut_parts(&mut self) -> (r: (&I, &mut [T]))
        ensures
            *r.0 == old(self).spec_ident(),
            r.1@ == old(self)@,
            final(self).spec_ident() == old(self).spec_ident(),
            final(self)@ == final(r.1)@,
    {
        (&self.ident, self.vec.as_mut_slice())
    }

    /// Take the vector apart into its identifier and its `Vec`
    pub fn into_raw_parts(self) -> (r: (I, Vec<T>))
        ensures
            r.0 == self.spec_ident(),
            r.1@ == self@,
    {
        (self.ident, self.vec)
    }

    /// Appends an element to the back, and returns its index
    pub fn push(&mut self, value: T) -> (r: usize)
        ensures
            r == old(self)@.len(),
            final(self)@ == old(self)@.push(value),
            final(self).spec_ident() == old(self).spec_ident(),
    {
        let index = self.vec.len();
        self.vec.push(value);
        index
    }

    /// Moves all the elements of `other` to the back, leaving `other` empty
    pub fn append(&mut self, other: &mut Vec<T>)
        ensures
            final(self)@ == old(self)@ + old(other)@,
            final(other)@ == Seq::<T>::empty(),
            final(self).spec_ident() == old(self).spec_ident(),
    {
        self.vec.append(other)
    }

    /// Clones and appends the elements of `slice`, in order
    pub fn extend_from_slice(&mut self, slice: &[T]) where T: Clone
        ensures
            final(self)@.len() == old(self)@.len() + slice@.len(),
            forall|i: int|
                #![trigger final(self)@[i]]
                0 <= i < final(self)@.len() ==> if i < old(self)@.len() {
                    final(self)@[i] == old(self)@[i]
                } else {
                    cloned::<T>(slice@[i - old(self)@.len()], final(self)@[i])
                },
            final(self).spec_ident() == old(self).spec_ident(),
    {
        self.vec.extend_from_slice(slice)
    }
}

impl<T> PuiVec<T, ()> {
    /// The underlying `Vec`; without an identifier no id can be branded,
    /// so that the vector need not stay append-only
    pub fn vec_mut(&mut self) -> (r: &mut Vec<T>)
        ensures
            r@ == old(self)@,
            final(self)@ == final(r)@,
    {
        &mut self.vec
    }
}

impl<T, I: OneShotIdentifier> PuiVec<T, I> {
    /// The ids of all the elements, in order
    pub fn ids(&self) -> (r: Vec<Id<I::Token>>)
        ensures
            r@.len() == self@.len(),
            forall|i: int|
                0 <= i < r@.len() ==> #[trigger] r@[i].spec_index() == i && r@[i].spec_token()
                    == self.spec_ident().spec_token(),
            self.spec_ident().spec_owns(self.spec_ident().spec_token()),
    {
        proof {
            self.ident.lemma_owns_own_token();
        }
        let mut ids: Vec<Id<I::Token>> = Vec::new();
        let len = self.vec.len();
        let mut index: usize = 0;
        while index < len
            invariant
                index <= len,
                len == self@.len(),
                ids@.len() == index,
                forall|i: int|
                    0 <= i < index ==> #[trigger] ids@[i].spec_index() == i && ids@[i].spec_token()
                        == self.spec_ident().spec_token(),
            decreases len - index,
        {
            ids.push(Id { index, token: self.ident.token() });
            index = index + 1;
        }
        ids
    }

    /// The id of `index`, if it is in bounds
    pub fn parse_id(&self, index: usize) -> (r: Option<Id<I::Token>>)
        ensures
            index < self@.len() ==> r is Some && r.unwrap().spec_index() == index
                && r.unwrap().spec_token() == self.spec_ident().spec_token(),
            index >= self@.len() ==> r is None,
            r is Some ==> self.spec_ident().spec_owns(r.unwrap().spec_token()),
    {
        proof {
            self.ident.lemma_owns_own_token();
        }
        if index < self.vec.len() {
            Some(Id { index, token: self.ident.token() })
        } else {
            None
        }
    }

    /// Swap the elements at two ids of this vector
    pub fn swap(&mut self, a: Id<I::Token>, b: Id<I::Token>)
        requires
            old(self).spec_ident().spec_owns(a.spec_token()),
            old(self).spec_ident().spec_owns(b.spec_token()),
            a.spec_index() < old(self)@.len(),
            b.spec_index() < old(self)@.len(),
        ensures
            final(self)@ == old(self)@.update(a.spec_index() as int, old(self)@[b.spec_index() as int]).update(
                b.spec_index() as int,
                old(self)@[a.spec_index() as int],
            ),
            final(self).spec_ident() == old(self).spec_ident(),
    {
        vec_swap(&mut self.vec, a.index, b.index)
    }

    /// Divides the elements at an id: those before it, and the rest
    pub fn split_at(&self, mid: Id<I::Token>) -> (r: (&[T], &[T]))
        requires
            self.spec_ident().spec_owns(mid.spec_token()),
            mid.spec_index() <= self@.len(),
        ensures
            r.0@ == self@.subrange(0, mid.spec_index() as int),
            r.1@ == self@.subrange(mid.spec_index() as int, self@.len() as int),
    {
        self.vec.as_slice().split_at(mid.index)
    }
}

/// `Vec::capacity`: the number of elements that `v` can hold without
/// reallocating, which is never less than its length
#[verifier::external_body]
pub(crate) fn vec_capacity<T>(v: &Vec<T>) -> (r: usize)
    ensures
        r >= v@.len(),
{
    v.capacity()
}

/// `<[T]>::swap` on the elements of a `Vec`: exchanges the elements at `a`
/// and `b`, which must both be in bounds
#[verifier::external_body]
fn vec_swap<T>(v: &mut Vec<T>, a: usize, b: usize)
    requires
        a < old(v)@.len(),
        b < old(v)@.len(),
    ensures
        final(v)@ == old(v)@.update(a as int, old(v)@[b as int]).update(b as int, old(v)@[a as int]),
{
    v.swap(a, b)
}

} // verus!
