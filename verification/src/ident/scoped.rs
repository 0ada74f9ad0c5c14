//! Identifiers that are unique to a lexical scope, branded by a lifetime.

use vstd::prelude::*;

use crate::ident::{Identifier, Init, OneShotIdentifier, Token, Trivial};

verus! {

/// An identifier that is unique to the scope that holds the lifetime `'a`
pub struct Scoped<'a> {
    invariant: core::marker::PhantomData<&'a mut &'a ()>,
}

/// The token recognized by [`Scoped`]
pub struct ScopedToken<'a> {
    invariant: core::marker::PhantomData<&'a mut &'a ()>,
}

/// Ties the lifetime of a [`Scoped`] to a local variable of the scope
pub struct AssertUniqueScope<'a> {
    invariant: core::marker::PhantomData<&'a mut &'a ()>,
}

impl<'a> AssertUniqueScope<'a> {
    /// Start binding the scope of `_scoped`
    pub fn new(_scoped: &Scoped<'a>) -> (r: Self) {
        AssertUniqueScope { invariant: core::marker::PhantomData }
    }

    /// Bind the scope to the lifetime of `_local`
    pub fn bind(&self, _local: &'a ()) {
    }
}

impl<'a> Scoped<'a> {
    /// Build a scoped identifier; the caller keeps its lifetime unique
    pub fn new_unchecked() -> (r: Self) {
        Scoped { invariant: core::marker::PhantomData }
    }

    /// Run `f` with a fresh scoped identifier
    pub fn with<R, F: for <'b> FnOnce(Scoped<'b>) -> R>(f: F) -> (r: R)
        requires
            forall|s: Scoped| #[trigger] f.requires((s,)),
        ensures
            exists|s: Scoped| #[trigger] f.ensures((s,), r),
    {
        f(Scoped { invariant: core::marker::PhantomData })
    }
}

impl<'a> ScopedToken<'a> {
    /// The token; all tokens of a scope are the same
    pub closed spec fn spec_new() -> Self {
        ScopedToken { invariant: core::marker::PhantomData }
    }

    /// Create a token
    pub fn new() -> (r: Self)
        ensures
            r == Self::spec_new(),
    {
        ScopedToken { invariant: core::marker::PhantomData }
    }
}

impl<'a> Default for ScopedToken<'a> {
    fn default() -> (r: Self)
        ensures
            r == ScopedToken::<'a>::spec_new(),
    {
        ScopedToken::new()
    }
}

impl<'a> Clone for ScopedToken<'a> {
    fn clone(&self) -> (r: Self)
        ensures
            r == *self,
    {
        ScopedToken { invariant: core::marker::PhantomData }
    }
}

impl<'a> Copy for ScopedToken<'a> {}

impl<'a> PartialEq for ScopedToken<'a> {
    fn eq(&self, _other: &Self) -> (r: bool) {
        true
    }
}

impl<'a> vstd::std_specs::cmp::PartialEqSpecImpl for ScopedToken<'a> {
    open spec fn obeys_eq_spec() -> bool {
        true
    }

    open spec fn eq_spec(&self, other: &Self) -> bool {
        true
    }
}

impl<'a> Eq for ScopedToken<'a> {}

impl<'a> Init for ScopedToken<'a> {
    open spec fn spec_initial(value: ScopedToken<'a>) -> bool {
        value == ScopedToken::<'a>::spec_new()
    }

    fn init() -> (r: Self) {
        ScopedToken::new()
    }
}

impl<'a> Token for ScopedToken<'a> {}

impl<'a> Trivial for ScopedToken<'a> {
    open spec fn spec_init() -> Self {
        ScopedToken::<'a>::spec_new()
    }

    proof fn lemma_initial_is_init(value: Self) {
    }
}

impl<'a> Identifier for Scoped<'a> {
    type Token = ScopedToken<'a>;

    open spec fn spec_owns(&self, token: ScopedToken<'a>) -> bool {
        true
    }

    open spec fn spec_token(&self) -> ScopedToken<'a> {
        ScopedToken::<'a>::spec_new()
    }

    fn owns_token(&self, _token: &ScopedToken<'a>) -> (r: bool) {
        true
    }

    fn token(&self) -> (r: ScopedToken<'a>) {
        ScopedToken::new()
    }

    proof fn lemma_owns_own_token(&self) {
    }
}

impl<'a> OneShotIdentifier for Scoped<'a> {}

} // verus!
