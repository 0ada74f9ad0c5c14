//! Cells whose value is reached through the identifier that owns them.
//!
//! An [`IdCell`] carries a token next to its value. The identifier that
//! recognizes the token is the key to the value: [`IdentifierExt::get`]
//! hands out the value only to that identifier.

use vstd::prelude::*;

use crate::ident::{Identifier, Init, Trivial};

verus! {

/// A value, and the token of the identifier that owns it
pub struct IdCell<V, T> {
    /// The token of the owning identifier
    pub token: T,
    value: V,
}

impl<V, T> IdCell<V, T> {
    /// The value held
    pub closed spec fn spec_value(&self) -> V {
        self.value
    }

    /// The token held
    pub closed spec fn spec_token(&self) -> T {
        self.token
    }

    /// A cell holding `value`, owned by the identifier of `token`
    pub fn with_token(value: V, token: T) -> (r: Self)
        ensures
            r.spec_value() == value,
            r.spec_token() == token,
    {
        IdCell { token, value }
    }

    /// The value and the token
    pub fn into_raw_parts(self) -> (r: (V, T))
        ensures
            r == (self.spec_value(), self.spec_token()),
    {
        (self.value, self.token)
    }

    /// The token held
    pub fn token(&self) -> (r: &T)
        ensures
            *r == self.spec_token(),
    {
        &self.token
    }

    /// A unique reference to the value, through a unique reference to the cell
    pub fn get_mut(&mut self) -> (r: &mut V)
        ensures
            *r == old(self).spec_value(),
            final(self).spec_value() == *final(r),
            final(self).spec_token() == old(self).spec_token(),
    {
        &mut self.value
    }
}

impl<V, T: Trivial> IdCell<V, T> {
    /// A cell holding `value`, with the one token of its kind
    pub fn new(value: V) -> (r: Self)
        ensures
            r.spec_value() == value,
            r.spec_token() == T::spec_init(),
    {
        let token = T::init();
        proof {
            T::lemma_initial_is_init(token);
        }
        Self::with_token(value, token)
    }
}

/// Access to cells through the identifier that owns them
pub trait IdentifierExt: Identifier + Sized {
    /// Whether this identifier owns `cell`
    fn owns<V>(&self, cell: &IdCell<V, Self::Token>) -> (r: bool)
        ensures
            r == self.spec_owns(cell.spec_token()),
    {
        self.owns_token(&cell.token)
    }

    /// A cell holding `value`, owned by this identifier
    fn cell<V>(&self, value: V) -> (r: IdCell<V, Self::Token>)
        ensures
            r.spec_value() == value,
            r.spec_token() == self.spec_token(),
            self.spec_owns(r.spec_token()),
    {
        proof {
            self.lemma_owns_own_token();
        }
        IdCell::with_token(value, self.token())
    }

    /// The value of a cell that this identifier owns
    fn get<'a, V>(&'a self, cell: &'a IdCell<V, Self::Token>) -> (r: &'a V)
        requires
            self.spec_owns(cell.spec_token()),
        ensures
            *r == cell.spec_value(),
    {
        &cell.value
    }
}

impl<I: Identifier> IdentifierExt for I {}

} // verus!
