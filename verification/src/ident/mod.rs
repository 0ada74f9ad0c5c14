//! Identifiers: values that are unique within a process (or a thread),
//! together with the tokens that they recognize.

use vstd::prelude::*;

pub mod anonomous;
pub mod dynamic;
pub mod pool;
pub mod scalar;
pub mod scoped;
mod seal;

verus! {

/// A constant initializer
pub trait Init: Sized {
    /// Whether `value` is the initial value of `Self`
    spec fn spec_initial(value: Self) -> bool;

    /// The initial value of `Self`
    fn init() -> (r: Self)
        ensures
            Self::spec_initial(r),
    ;
}

/// A type that an [`Identifier`] produces and owns.
///
/// Clones of a token compare equal to each other, and equal tokens are
/// treated the same by [`Identifier::owns_token`].
pub trait Token: Clone + Eq {}

/// A [`Token`] that is trivial to construct: its type has one initial
/// value, `spec_init`, which [`Init::init`] returns
pub trait Trivial: Token + Init {
    /// The one initial token
    spec fn spec_init() -> Self;

    /// The initial value is the one initial token
    proof fn lemma_initial_is_init(value: Self)
        requires
            Self::spec_initial(value),
        ensures
            value == Self::spec_init(),
    ;
}

/// An identifier that is unique in its process (or thread).
///
/// `spec_token` is the token that the identifier hands out, and
/// `spec_owns` says which tokens it recognizes. Every implementation
/// must recognize the tokens that it hands out.
pub trait Identifier {
    /// The tokens that this identifier hands out
    type Token: Token;

    /// Whether this identifier recognizes `token`
    spec fn spec_owns(&self, token: Self::Token) -> bool;

    /// The token that this identifier hands out
    spec fn spec_token(&self) -> Self::Token;

    /// Check if this token was created by this identifier
    fn owns_token(&self, token: &Self::Token) -> (r: bool)
        ensures
            r == self.spec_owns(*token),
    ;

    /// Create a new token
    fn token(&self) -> (r: Self::Token)
        ensures
            r == self.spec_token(),
    ;

    /// An identifier recognizes the tokens that it hands out
    proof fn lemma_owns_own_token(&self)
        ensures
            self.spec_owns(self.spec_token()),
    ;
}

/// An [`Identifier`] whose tokens are never recognized by another identifier,
/// even after this one is gone
pub trait OneShotIdentifier: Identifier {}

impl<I: Identifier> Identifier for &mut I {
    type Token = I::Token;

    open spec fn spec_owns(&self, token: I::Token) -> bool {
        (**self).spec_owns(token)
    }

    open spec fn spec_token(&self) -> I::Token {
        (**self).spec_token()
    }

    fn owns_token(&self, token: &I::Token) -> (r: bool) {
        (**self).owns_token(token)
    }

    fn token(&self) -> (r: I::Token) {
        (**self).token()
    }

    proof fn lemma_owns_own_token(&self) {
        (**self).lemma_owns_own_token();
    }
}

impl<I: Identifier> Identifier for Box<I> {
    type Token = I::Token;

    open spec fn spec_owns(&self, token: I::Token) -> bool {
        (**self).spec_owns(token)
    }

    open spec fn spec_token(&self) -> I::Token {
        (**self).spec_token()
    }

    fn owns_token(&self, token: &I::Token) -> (r: bool) {
        (**self).owns_token(token)
    }

    fn token(&self) -> (r: I::Token) {
        (**self).token()
    }

    proof fn lemma_owns_own_token(&self) {
        (**self).lemma_owns_own_token();
    }
}

impl<I: OneShotIdentifier> OneShotIdentifier for Box<I> {}

} // verus!
