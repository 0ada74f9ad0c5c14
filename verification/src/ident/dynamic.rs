//! Identifiers made of a value that an allocator hands out at most once.
//!
//! A [`Dynamic`] first asks its pool for a value that an earlier identifier
//! gave back; when the pool holds none, it asks its allocator for a new
//! one. Its tokens carry the same value, and it recognizes a token when
//! the values are the same. With no pool, no value is ever used twice, so
//! a `Dynamic` is then a [`OneShotIdentifier`].

use vstd::prelude::*;

use crate::ident::pool::PoolMut;
use crate::ident::scalar::{OpaqueScalar, Scalar, ScalarAllocator};
use crate::ident::{Identifier, Init, OneShotIdentifier, Token, Trivial};

verus! {

/// Marks identifiers that must stay on the thread they were made on
pub struct NoSendSync(core::marker::PhantomData<std::rc::Rc<()>>);

/// An identifier made of a value that its allocator hands out at most once
pub struct Dynamic<A: ScalarAllocator, P: PoolMut<A> = ()> {
    scalar: A::Scalar,
    pool: P,
    auto: core::marker::PhantomData<A::AutoTraits>,
}

/// A token recognized by the [`Dynamic`] that carries the same value
pub struct DynamicToken<A: ScalarAllocator> {
    scalar: A::Scalar,
    auto: core::marker::PhantomData<A::AutoTraits>,
}

impl<A: ScalarAllocator> DynamicToken<A> {
    /// The value the token carries
    pub closed spec fn spec_scalar(&self) -> A::Scalar {
        self.scalar
    }

    /// A token carrying `scalar`
    pub fn new(scalar: A::Scalar) -> (r: Self)
        ensures
            r.spec_scalar() == scalar,
    {
        DynamicToken { scalar, auto: core::marker::PhantomData }
    }
}

impl<A: ScalarAllocator<Scalar = ()>> Default for DynamicToken<A> {
    fn default() -> (r: Self)
        ensures
            r.spec_scalar() == (),
    {
        DynamicToken { scalar: (), auto: core::marker::PhantomData }
    }
}

impl<A: ScalarAllocator> Dynamic<A> {
    /// An identifier with a new value from the allocator, and no pool.
    /// Nothing is stated of the value: the allocator is the caller's.
    pub fn with_alloc() -> (r: Self) {
        Self::with_alloc_and_pool(())
    }
}

impl<A: ScalarAllocator, P: PoolMut<A>> Dynamic<A, P> {
    /// The value of the identifier
    pub closed spec fn spec_scalar(&self) -> A::Scalar {
        self.scalar
    }

    /// The pool the identifier gives its value back to
    pub closed spec fn spec_pool(&self) -> P {
        self.pool
    }

    /// An identifier with a value taken out of `pool`, or else, when the
    /// pool gives none, a new value from the allocator (of which nothing is
    /// stated: the allocator is the caller's). The identifier keeps the
    /// pool as the removal left it.
    pub fn with_alloc_and_pool(pool: P) -> (r: Self)
        ensures
            exists|taken: Option<OpaqueScalar<A>>|
                {
                    &&& #[trigger] pool.spec_remove_mut(&r.spec_pool(), taken)
                    &&& taken is Some ==> r.spec_scalar() == taken.unwrap().spec_scalar()
                },
    {
        let mut pool = pool;
        let ghost before = pool;
        let taken = pool.remove_mut();
        let ghost t = taken;
        let scalar = match taken {
            Some(scalar) => scalar.into_inner(),
            None => A::allocate(),
        };
        let r = Dynamic { scalar, pool, auto: core::marker::PhantomData };
        proof {
            assert(before.spec_remove_mut(&r.spec_pool(), t));
        }
        r
    }

    /// Whether `token` carries the value of this identifier
    pub fn owns_token(&self, token: &DynamicToken<A>) -> (r: bool)
        ensures
            r == (self.spec_scalar() == token.spec_scalar()),
    {
        self.scalar.same(&token.scalar)
    }

    /// A token carrying the value of this identifier
    pub fn token(&self) -> (r: DynamicToken<A>)
        ensures
            r.spec_scalar() == self.spec_scalar(),
    {
        DynamicToken { scalar: self.scalar.duplicate(), auto: core::marker::PhantomData }
    }

    /// Give the value back to the pool, for a later identifier to use, and
    /// return the pool as the insertion of the value left it
    pub fn release(self) -> (r: P)
        ensures
            exists|given: OpaqueScalar<A>, back: Option<OpaqueScalar<A>>|
                {
                    &&& given.spec_scalar() == self.spec_scalar()
                    &&& #[trigger] self.spec_pool().spec_insert_mut(given, &r, back)
                },
    {
        let Dynamic { scalar, pool, auto: _ } = self;
        let mut pool = pool;
        let given = OpaqueScalar::new(scalar);
        let ghost g = given;
        let back = pool.insert_mut(given);
        proof {
            assert(self.spec_pool().spec_insert_mut(g, &pool, back));
        }
        pool
    }
}

impl<A: ScalarAllocator> Clone for DynamicToken<A> {
    fn clone(&self) -> (r: Self)
        ensures
            r == *self,
    {
        DynamicToken { scalar: self.scalar.duplicate(), auto: core::marker::PhantomData }
    }
}

impl<A: ScalarAllocator> Copy for DynamicToken<A> where A::Scalar: Copy {}

impl<A: ScalarAllocator> PartialEq for DynamicToken<A> {
    fn eq(&self, other: &Self) -> (r: bool) {
        self.scalar.same(&other.scalar)
    }
}

impl<A: ScalarAllocator> vstd::std_specs::cmp::PartialEqSpecImpl for DynamicToken<A> {
    open spec fn obeys_eq_spec() -> bool {
        true
    }

    open spec fn eq_spec(&self, other: &Self) -> bool {
        self.spec_scalar() == other.spec_scalar()
    }
}

impl<A: ScalarAllocator> Eq for DynamicToken<A> {}

impl<A: ScalarAllocator> Token for DynamicToken<A> {}

impl<A: ScalarAllocator<Scalar = ()>> Init for DynamicToken<A> {
    open spec fn spec_initial(value: DynamicToken<A>) -> bool {
        value == DynamicToken::<A>::spec_new(())
    }

    fn init() -> (r: Self) {
        DynamicToken { scalar: (), auto: core::marker::PhantomData }
    }
}

impl<A: ScalarAllocator<Scalar = ()>> Trivial for DynamicToken<A> {
    open spec fn spec_init() -> Self {
        DynamicToken::<A>::spec_new(())
    }

    proof fn lemma_initial_is_init(value: Self) {
    }
}

impl<A: ScalarAllocator, P: PoolMut<A>> Identifier for Dynamic<A, P> {
    type Token = DynamicToken<A>;

    open spec fn spec_owns(&self, token: DynamicToken<A>) -> bool {
        self.spec_scalar() == token.spec_scalar()
    }

    open spec fn spec_token(&self) -> DynamicToken<A> {
        DynamicToken::spec_new(self.spec_scalar())
    }

    fn owns_token(&self, token: &DynamicToken<A>) -> (r: bool) {
        self.scalar.same(&token.scalar)
    }

    fn token(&self) -> (r: DynamicToken<A>) {
        DynamicToken { scalar: self.scalar.duplicate(), auto: core::marker::PhantomData }
    }

    proof fn lemma_owns_own_token(&self) {
    }
}

impl<A: ScalarAllocator> DynamicToken<A> {
    /// The token carrying `scalar`
    pub closed spec fn spec_new(scalar: A::Scalar) -> Self {
        DynamicToken { scalar, auto: core::marker::PhantomData }
    }
}

impl<A: ScalarAllocator> OneShotIdentifier for Dynamic<A> {}

} // verus!
