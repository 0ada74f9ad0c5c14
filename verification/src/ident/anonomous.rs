//! An identifier that is unique by construction of its type parameter.

use vstd::prelude::*;

use crate::ident::{Identifier, Init, Token, Trivial};

verus! {

/// An identifier whose uniqueness comes from a type that only one
/// value of `Anonomous` is ever built for
pub struct Anonomous<T> {
    invariant: core::marker::PhantomData<T>,
}

/// The token recognized by [`Anonomous`]
pub struct AnonomousToken<T> {
    invariant: core::marker::PhantomData<T>,
}

impl<T> Anonomous<T> {
    /// Build the identifier for the type `T`, from a witness value of it
    pub fn new(_witness: &T) -> (r: Self) {
        Anonomous { invariant: core::marker::PhantomData }
    }

    /// Every [`AnonomousToken<T>`] is recognized
    pub fn owns_token(&self, _token: &AnonomousToken<T>) -> (r: bool)
        ensures
            r,
    {
        true
    }

    /// Create a token
    pub fn token(&self) -> (r: AnonomousToken<T>)
        ensures
            r == AnonomousToken::<T>::spec_new(),
    {
        AnonomousToken::new()
    }
}

impl<T> AnonomousToken<T> {
    /// The token; all tokens of a type are the same
    pub closed spec fn spec_new() -> Self {
        AnonomousToken { invariant: core::marker::PhantomData }
    }

    /// Create a token
    pub fn new() -> (r: Self)
        ensures
            r == Self::spec_new(),
    {
        AnonomousToken { invariant: core::marker::PhantomData }
    }
}

impl<T> Clone for AnonomousToken<T> {
    fn clone(&self) -> (r: Self)
        ensures
            r == *self,
    {
        AnonomousToken { invariant: core::marker::PhantomData }
    }
}

impl<T> Copy for AnonomousToken<T> {}

impl<T> Default for AnonomousToken<T> {
    fn default() -> (r: Self)
        ensures
            r == AnonomousToken::<T>::spec_new(),
    {
        AnonomousToken::new()
    }
}

impl<T> PartialEq for AnonomousToken<T> {
    fn eq(&self, _other: &Self) -> (r: bool) {
        true
    }
}

impl<T> vstd::std_specs::cmp::PartialEqSpecImpl for AnonomousToken<T> {
    open spec fn obeys_eq_spec() -> bool {
        true
    }

    open spec fn eq_spec(&self, other: &Self) -> bool {
        true
    }
}

impl<T> Eq for AnonomousToken<T> {}

impl<T> Init for AnonomousToken<T> {
    open spec fn spec_initial(value: AnonomousToken<T>) -> bool {
        value == AnonomousToken::<T>::spec_new()
    }

    fn init() -> (r: Self) {
        AnonomousToken::new()
    }
}

impl<T> Token for AnonomousToken<T> {}

impl<T> Trivial for AnonomousToken<T> {
    open spec fn spec_init() -> Self {
        AnonomousToken::<T>::spec_new()
    }

    proof fn lemma_initial_is_init(value: Self) {
    }
}

impl<T> Identifier for Anonomous<T> {
    type Token = AnonomousToken<T>;

    open spec fn spec_owns(&self, token: AnonomousToken<T>) -> bool {
        true
    }

    open spec fn spec_token(&self) -> AnonomousToken<T> {
        AnonomousToken::<T>::spec_new()
    }

    fn owns_token(&self, _token: &AnonomousToken<T>) -> (r: bool) {
        true
    }

    fn token(&self) -> (r: AnonomousToken<T>) {
        AnonomousToken::new()
    }

    proof fn lemma_owns_own_token(&self) {
    }
}

} // verus!
