//! Keys into arenas: an index, and optionally the saved version of the slot.

use vstd::prelude::*;

use crate::ident::OneShotIdentifier;
use crate::pui_vec::Id;
use crate::version::{SavedDefaultVersion, Version};

verus! {

/// A key into an arena: an id and a version; two keys are equal when
/// their ids and versions are
#[derive(Debug, Clone, Copy, PartialEq, Eq, Structural)]
pub struct Key<Id, V = SavedDefaultVersion> {
    id: Id,
    version: V,
}

/// An index that the arena may trust to be in bounds
#[derive(Debug, Clone, Copy)]
pub struct TrustedIndex(usize);

/// An index validator
pub struct Validator<'a> {
    scope: core::marker::PhantomData<&'a mut &'a ()>,
}

/// A completed index validator: whether the index may go unchecked
pub struct CompleteValidator<'a>(bool, Validator<'a>);

impl<Id, V> Key<Id, V> {
    /// The id of the key
    pub closed spec fn spec_id(&self) -> Id {
        self.id
    }

    /// The version of the key
    pub closed spec fn spec_saved(&self) -> V {
        self.version
    }

    /// Create a new key from an id and a version
    pub fn new(id: Id, version: V) -> (r: Self)
        ensures
            r.spec_id() == id,
            r.spec_saved() == version,
    {
        Key { id, version }
    }

    /// The id of the key
    pub fn id(&self) -> (r: &Id)
        ensures
            *r == self.spec_id(),
    {
        &self.id
    }

    /// The version of the key
    pub fn version(&self) -> (r: &V)
        ensures
            *r == self.spec_saved(),
    {
        &self.version
    }
}

/// Two keys are equal exactly when their ids and their versions are
pub proof fn lemma_key_eq<Id, V>(a: Key<Id, V>, b: Key<Id, V>)
    ensures
        a == b <==> (a.spec_id() == b.spec_id() && a.spec_saved() == b.spec_saved()),
{
}

impl TrustedIndex {
    /// The index
    pub closed spec fn spec_index(&self) -> usize {
        self.0
    }

    /// Wrap an index
    pub fn new(index: usize) -> (r: Self)
        ensures
            r.spec_index() == index,
    {
        TrustedIndex(index)
    }
}

impl<'a> Validator<'a> {
    /// Start a validation
    pub fn new() -> (r: Self) {
        Validator { scope: core::marker::PhantomData }
    }

    /// Complete the validation with an index that may go unchecked, for a
    /// key that the arena with the identifier `_ident` handed out
    pub fn unchecked_index<I>(self, _ident: &'a I) -> (r: CompleteValidator<'a>)
        ensures
            r.spec_unchecked(),
    {
        CompleteValidator(true, self)
    }

    /// Complete the validation with an index that the arena checks
    pub fn checked_index(self) -> (r: CompleteValidator<'a>)
        ensures
            !r.spec_unchecked(),
    {
        CompleteValidator(false, self)
    }
}

impl<'a> CompleteValidator<'a> {
    /// Whether the index may go unchecked
    pub closed spec fn spec_unchecked(&self) -> bool {
        self.0
    }

    /// Whether the index may go unchecked
    pub fn into_inner(self) -> (r: bool)
        ensures
            r == self.spec_unchecked(),
    {
        self.0
    }
}

/// A key into an arena with the identifier `I` and the versions `V`:
/// the index of a slot, and, for a versioned key, the saved version that
/// the slot must still match
pub trait ArenaKey<I, V: Version> {
    /// The index of the slot
    spec fn spec_index(&self) -> usize;

    /// The saved version, if the key has one
    spec fn spec_version(&self) -> Option<V::Save>;

    /// Whether an arena with the identifier `ident` may leave the index of
    /// this key unchecked
    spec fn spec_trusted(&self, ident: I) -> bool;

    /// Validate the key against the identifier of an arena: the index may
    /// go unchecked exactly when the key is trusted there
    fn validate_ident<'a>(&self, ident: &'a I, validator: Validator<'a>) -> (r: CompleteValidator<'a>)
        ensures
            r.spec_unchecked() == self.spec_trusted(*ident),
    ;

    /// The index of the slot
    fn index(&self) -> (r: usize)
        ensures
            r == self.spec_index(),
    ;

    /// The saved version, if the key has one
    fn version(&self) -> (r: Option<V::Save>)
        ensures
            r == self.spec_version(),
    ;
}

/// A key that an arena can build from a slot
pub trait BuildArenaKey<I, V: Version>: ArenaKey<I, V> + Sized {
    /// Build the key of the slot at `index` whose version saves to `save`
    fn new_unchecked(index: usize, save: V::Save, ident: &I) -> (r: Self)
        ensures
            r.spec_index() == index,
            r.spec_version() is Some ==> r.spec_version() == Some(save),
    ;
}

impl<I, V: Version> ArenaKey<I, V> for usize {
    open spec fn spec_trusted(&self, ident: I) -> bool {
        false
    }

    /// An index the arena always checks
    fn validate_ident<'a>(&self, _ident: &'a I, validator: Validator<'a>) -> (r: CompleteValidator<'a>) {
        validator.checked_index()
    }

    open spec fn spec_index(&self) -> usize {
        *self
    }

    open spec fn spec_version(&self) -> Option<V::Save> {
        None
    }

    fn index(&self) -> (r: usize) {
        *self
    }

    fn version(&self) -> (r: Option<V::Save>) {
        None
    }
}

impl<I, V: Version> BuildArenaKey<I, V> for usize {
    fn new_unchecked(index: usize, _save: V::Save, _ident: &I) -> (r: usize) {
        index
    }
}

impl<I, V: Version> ArenaKey<I, V> for TrustedIndex {
    open spec fn spec_trusted(&self, ident: I) -> bool {
        true
    }

    open spec fn spec_index(&self) -> usize {
        TrustedIndex::spec_index(self)
    }

    open spec fn spec_version(&self) -> Option<V::Save> {
        None
    }

    /// A trusted index is always reported as safe to leave unchecked
    fn validate_ident<'a>(&self, ident: &'a I, validator: Validator<'a>) -> (r: CompleteValidator<'a>) {
        validator.unchecked_index(ident)
    }

    fn index(&self) -> (r: usize) {
        self.0
    }

    fn version(&self) -> (r: Option<V::Save>) {
        None
    }
}

impl<I: OneShotIdentifier, V: Version> ArenaKey<I, V> for Id<I::Token> {
    open spec fn spec_trusted(&self, ident: I) -> bool {
        ident.spec_owns(self.spec_token())
    }

    open spec fn spec_index(&self) -> usize {
        Id::<I::Token>::spec_index(self)
    }

    /// An id may go unchecked exactly when the identifier of the arena owns
    /// its token
    fn validate_ident<'a>(&self, ident: &'a I, validator: Validator<'a>) -> (r: CompleteValidator<'a>) {
        if ident.owns_token(self.token()) {
            validator.unchecked_index(ident)
        } else {
            validator.checked_index()
        }
    }

    open spec fn spec_version(&self) -> Option<V::Save> {
        None
    }

    fn index(&self) -> (r: usize) {
        self.get()
    }

    fn version(&self) -> (r: Option<V::Save>) {
        None
    }
}

impl<I: OneShotIdentifier, V: Version> BuildArenaKey<I, V> for Id<I::Token> {
    fn new_unchecked(index: usize, _save: V::Save, ident: &I) -> (r: Id<I::Token>) {
        Id::new_unchecked(index, ident.token())
    }
}

impl<I, V: Version> ArenaKey<I, V> for Key<usize, V::Save> {
    open spec fn spec_trusted(&self, ident: I) -> bool {
        false
    }

    /// An index the arena always checks
    fn validate_ident<'a>(&self, _ident: &'a I, validator: Validator<'a>) -> (r: CompleteValidator<'a>) {
        validator.checked_index()
    }

    open spec fn spec_index(&self) -> usize {
        self.spec_id()
    }

    open spec fn spec_version(&self) -> Option<V::Save> {
        Some(self.spec_saved())
    }

    fn index(&self) -> (r: usize) {
        self.id
    }

    fn version(&self) -> (r: Option<V::Save>) {
        Some(self.version)
    }
}

impl<I, V: Version> BuildArenaKey<I, V> for Key<usize, V::Save> {
    fn new_unchecked(index: usize, save: V::Save, _ident: &I) -> (r: Key<usize, V::Save>) {
        Key { id: index, version: save }
    }
}

impl<I, V: Version> ArenaKey<I, V> for Key<TrustedIndex, V::Save> {
    open spec fn spec_trusted(&self, ident: I) -> bool {
        true
    }

    open spec fn spec_index(&self) -> usize {
        TrustedIndex::spec_index(&self.spec_id())
    }

    open spec fn spec_version(&self) -> Option<V::Save> {
        Some(self.spec_saved())
    }

    /// A trusted index is always reported as safe to leave unchecked
    fn validate_ident<'a>(&self, ident: &'a I, validator: Validator<'a>) -> (r: CompleteValidator<'a>) {
        validator.unchecked_index(ident)
    }

    fn index(&self) -> (r: usize) {
        self.id.0
    }

    fn version(&self) -> (r: Option<V::Save>) {
        Some(self.version)
    }
}

impl<I: OneShotIdentifier, V: Version> ArenaKey<I, V> for Key<Id<I::Token>, V::Save> {
    open spec fn spec_trusted(&self, ident: I) -> bool {
        ident.spec_owns(self.spec_id().spec_token())
    }

    open spec fn spec_index(&self) -> usize {
        self.spec_id().spec_index()
    }

    open spec fn spec_version(&self) -> Option<V::Save> {
        Some(self.spec_saved())
    }

    /// A branded id may go unchecked exactly when the identifier of the
    /// arena owns its token
    fn validate_ident<'a>(&self, ident: &'a I, validator: Validator<'a>) -> (r: CompleteValidator<'a>) {
        if ident.owns_token(self.id.token()) {
            validator.unchecked_index(ident)
        } else {
            validator.checked_index()
        }
    }

    fn index(&self) -> (r: usize) {
        self.id.get()
    }

    fn version(&self) -> (r: Option<V::Save>) {
        Some(self.version)
    }
}

impl<I: OneShotIdentifier, V: Version> BuildArenaKey<I, V> for Key<Id<I::Token>, V::Save> {
    fn new_unchecked(index: usize, save: V::Save, ident: &I) -> (r: Key<Id<I::Token>, V::Save>) {
        Key { id: Id::new_unchecked(index, ident.token()), version: save }
    }
}

} // verus!
