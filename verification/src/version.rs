//! Versioning strategies for the slots of an arena.
//!
//! Each slot of an arena holds a version next to its value. A version is
//! either full (the slot holds a value) or empty. Filling a slot and
//! emptying it again moves the version forward, so that a key saved while
//! the slot was full no longer matches once the value is gone: this is how
//! the arenas avoid the ABA problem. A version that can move no further is
//! exhausted, and the arenas never reuse its slot. [`Unversioned`] tracks
//! only whether a slot is full, and so never exhausts, but a stale key
//! matches again once its slot is refilled.

use vstd::prelude::*;

verus! {

/// A versioning strategy
pub trait Version: Copy + Sized {
    /// A saved full version, held by the keys of an arena
    type Save: Copy;

    /// Whether the version is full
    spec fn spec_is_full(self) -> bool;

    /// Whether the version can no longer move forward
    spec fn spec_is_exhausted(self) -> bool;

    /// The save of a full version
    spec fn spec_save(self) -> Self::Save;

    /// Whether a saved version matches this version
    spec fn spec_equals_saved(self, saved: Self::Save) -> bool;

    /// The full version that follows an empty one
    spec fn spec_mark_full(self) -> Self;

    /// The empty version that follows a full one: `Err` when it is exhausted
    spec fn spec_mark_empty(self) -> Result<Self, Self>;

    /// The version of a new slot
    spec fn spec_empty() -> Self;

    /// The version of a new slot, which is empty and not exhausted
    fn empty() -> (r: Self)
        ensures
            r == Self::spec_empty(),
            !r.spec_is_full(),
            !r.spec_is_exhausted(),
    ;

    /// Move a full version to the next empty one; `Err` if the new
    /// version is exhausted
    fn mark_empty(self) -> (r: Result<Self, Self>)
        requires
            self.spec_is_full(),
        ensures
            r == self.spec_mark_empty(),
            match r {
                Ok(v) => !v.spec_is_full() && !v.spec_is_exhausted(),
                Err(v) => !v.spec_is_full() && v.spec_is_exhausted(),
            },
    ;

    /// Move an empty version to the next full one
    fn mark_full(self) -> (r: Self)
        requires
            !self.spec_is_full(),
        ensures
            r == self.spec_mark_full(),
            r.spec_is_full(),
    ;

    /// Whether the version is exhausted
    fn is_exhausted(&self) -> (r: bool)
        ensures
            r == self.spec_is_exhausted(),
    ;

    /// Whether the version is empty
    fn is_empty(self) -> (r: bool)
        ensures
            r == !self.spec_is_full(),
    {
        !self.is_full()
    }

    /// Whether the version is full
    fn is_full(self) -> (r: bool)
        ensures
            r == self.spec_is_full(),
    ;

    /// Save a full version
    fn save(self) -> (r: Self::Save)
        requires
            self.spec_is_full(),
        ensures
            r == self.spec_save(),
    ;

    /// Check if a saved version matches this version
    fn equals_saved(self, saved: Self::Save) -> (r: bool)
        ensures
            r == self.spec_equals_saved(saved),
    ;

    /// A full version matches its own save
    proof fn lemma_save_matches(v: Self)
        requires
            v.spec_is_full(),
        ensures
            v.spec_equals_saved(v.spec_save()),
    ;
}

/// The default versioning strategy, backed by a `u32`: it tracks up to
/// 2^31 insertion/removal pairs per slot
#[derive(Debug, Clone, Copy, PartialEq, Eq, Structural)]
pub struct DefaultVersion(u32);

/// The save of a [`DefaultVersion`]
#[derive(Debug, Clone, Copy, PartialEq, Eq, Structural)]
pub struct SavedDefaultVersion(u32);

/// A small versioning strategy, backed by a `u8`: it tracks up to 2^7
/// insertion/removal pairs per slot
#[derive(Debug, Clone, Copy, PartialEq, Eq, Structural)]
pub struct TinyVersion(u8);

/// The save of a [`TinyVersion`]
#[derive(Debug, Clone, Copy, PartialEq, Eq, Structural)]
pub struct SavedTinyVersion(u8);

/// A versioning strategy that only tracks whether a slot is full
#[derive(Debug, Clone, Copy, PartialEq, Eq, Structural)]
pub enum Unversioned {
    /// The slot is empty
    Empty,
    /// The slot is full
    Full,
}

/// The save of [`Unversioned`]
#[derive(Debug, Clone, Copy, PartialEq, Eq)]
pub struct UnversionedFull(());

impl DefaultVersion {
    /// The counter behind the version: odd when empty, even when full
    pub closed spec fn spec_count(self) -> u32 {
        self.0
    }
}

impl SavedDefaultVersion {
    /// The counter of the saved version
    pub closed spec fn spec_count(self) -> u32 {
        self.0
    }
}

impl TinyVersion {
    /// The counter behind the version: odd when empty, even when full
    pub closed spec fn spec_count(self) -> u8 {
        self.0
    }
}

impl SavedTinyVersion {
    /// The counter of the saved version
    pub closed spec fn spec_count(self) -> u8 {
        self.0
    }
}

impl Version for DefaultVersion {
    type Save = SavedDefaultVersion;

    closed spec fn spec_is_full(self) -> bool {
        self.0 % 2 == 0
    }

    closed spec fn spec_is_exhausted(self) -> bool {
        self.0 == u32::MAX
    }

    closed spec fn spec_save(self) -> SavedDefaultVersion {
        SavedDefaultVersion(self.0)
    }

    closed spec fn spec_equals_saved(self, saved: SavedDefaultVersion) -> bool {
        self.0 == saved.0
    }

    closed spec fn spec_mark_full(self) -> DefaultVersion {
        if self.0 == u32::MAX {
            DefaultVersion(0)
        } else {
            DefaultVersion((self.0 + 1) as u32)
        }
    }

    closed spec fn spec_mark_empty(self) -> Result<DefaultVersion, DefaultVersion> {
        if self.0 + 2 <= u32::MAX {
            Ok(DefaultVersion((self.0 + 1) as u32))
        } else {
            Err(DefaultVersion((self.0 + 1) as u32))
        }
    }

    closed spec fn spec_empty() -> DefaultVersion {
        DefaultVersion(1)
    }

    fn empty() -> (r: DefaultVersion) {
        DefaultVersion(1)
    }

    fn mark_empty(self) -> (r: Result<DefaultVersion, DefaultVersion>) {
        let next = DefaultVersion(self.0 + 1);
        match self.0.checked_add(2) {
            Some(_) => Ok(next),
            None => Err(next),
        }
    }

    fn mark_full(self) -> (r: DefaultVersion) {
        DefaultVersion(self.0.wrapping_add(1))
    }

    fn is_exhausted(&self) -> (r: bool) {
        self.0 == u32::MAX
    }

    fn is_full(self) -> (r: bool) {
        self.0 % 2 == 0
    }

    fn save(self) -> (r: SavedDefaultVersion) {
        SavedDefaultVersion(self.0)
    }

    fn equals_saved(self, saved: SavedDefaultVersion) -> (r: bool) {
        self.0 == saved.0
    }

    proof fn lemma_save_matches(v: DefaultVersion) {
    }
}

impl Version for TinyVersion {
    type Save = SavedTinyVersion;

    closed spec fn spec_is_full(self) -> bool {
        self.0 % 2 == 0
    }

    closed spec fn spec_is_exhausted(self) -> bool {
        self.0 == u8::MAX
    }

    closed spec fn spec_save(self) -> SavedTinyVersion {
        SavedTinyVersion(self.0)
    }

    closed spec fn spec_equals_saved(self, saved: SavedTinyVersion) -> bool {
        self.0 == saved.0
    }

    closed spec fn spec_mark_full(self) -> TinyVersion {
        if self.0 == u8::MAX {
            TinyVersion(0)
        } else {
            TinyVersion((self.0 + 1) as u8)
        }
    }

    closed spec fn spec_mark_empty(self) -> Result<TinyVersion, TinyVersion> {
        if self.0 + 2 <= u8::MAX {
            Ok(TinyVersion((self.0 + 1) as u8))
        } else {
            Err(TinyVersion((self.0 + 1) as u8))
        }
    }

    closed spec fn spec_empty() -> TinyVersion {
        TinyVersion(1)
    }

    fn empty() -> (r: TinyVersion) {
        TinyVersion(1)
    }

    fn mark_empty(self) -> (r: Result<TinyVersion, TinyVersion>) {
        let next = TinyVersion(self.0 + 1);
        match self.0.checked_add(2) {
            Some(_) => Ok(next),
            None => Err(next),
        }
    }

    fn mark_full(self) -> (r: TinyVersion) {
        TinyVersion(self.0.wrapping_add(1))
    }

    fn is_exhausted(&self) -> (r: bool) {
        self.0 == u8::MAX
    }

    fn is_full(self) -> (r: bool) {
        self.0 % 2 == 0
    }

    fn save(self) -> (r: SavedTinyVersion) {
        SavedTinyVersion(self.0)
    }

    fn equals_saved(self, saved: SavedTinyVersion) -> (r: bool) {
        self.0 == saved.0
    }

    proof fn lemma_save_matches(v: TinyVersion) {
    }
}

impl Version for Unversioned {
    type Save = UnversionedFull;

    open spec fn spec_is_full(self) -> bool {
        self is Full
    }

    open spec fn spec_is_exhausted(self) -> bool {
        false
    }

    closed spec fn spec_save(self) -> UnversionedFull {
        UnversionedFull(())
    }

    open spec fn spec_equals_saved(self, saved: UnversionedFull) -> bool {
        self is Full
    }

    open spec fn spec_mark_full(self) -> Unversioned {
        Unversioned::Full
    }

    open spec fn spec_mark_empty(self) -> Result<Unversioned, Unversioned> {
        Ok(Unversioned::Empty)
    }

    open spec fn spec_empty() -> Unversioned {
        Unversioned::Empty
    }

    fn empty() -> (r: Unversioned) {
        Unversioned::Empty
    }

    fn mark_empty(self) -> (r: Result<Unversioned, Unversioned>) {
        Ok(Unversioned::Empty)
    }

    fn mark_full(self) -> (r: Unversioned) {
        Unversioned::Full
    }

    fn is_exhausted(&self) -> (r: bool) {
        false
    }

    fn is_full(self) -> (r: bool) {
        match self {
            Unversioned::Full => true,
            Unversioned::Empty => false,
        }
    }

    fn save(self) -> (r: UnversionedFull) {
        UnversionedFull(())
    }

    fn equals_saved(self, _saved: UnversionedFull) -> (r: bool) {
        self.is_full()
    }

    proof fn lemma_save_matches(v: Unversioned) {
    }
}

/// A default version matches exactly the saves of equal counters, and it
/// is exhausted exactly when its counter is at its maximum
pub proof fn lemma_default_equals_saved(v: DefaultVersion, s: SavedDefaultVersion)
    ensures
        v.spec_equals_saved(s) <==> v.spec_count() == s.spec_count(),
        v.spec_is_full() ==> v.spec_save().spec_count() == v.spec_count(),
        v.spec_is_exhausted() <==> v.spec_count() == u32::MAX,
{
}

/// Emptying a full default version, and filling it again, moves its
/// counter strictly forward: a key saved before no longer matches
pub proof fn lemma_default_version_moves_forward(v: DefaultVersion)
    requires
        v.spec_is_full(),
    ensures
        v.spec_mark_empty() is Ok ==> {
            let e = v.spec_mark_empty()->Ok_0;
            &&& e.spec_count() > v.spec_count()
            &&& e.spec_mark_full().spec_count() > v.spec_count()
            &&& !e.spec_mark_full().spec_equals_saved(v.spec_save())
        },
        v.spec_mark_empty() is Err ==> {
            let e = v.spec_mark_empty()->Err_0;
            &&& e.spec_count() == u32::MAX
            &&& e.spec_is_exhausted()
            &&& !e.spec_mark_full().spec_equals_saved(v.spec_save())
        },
{
}

/// Without versions, a key saved before a slot was emptied matches again
/// as soon as the slot is refilled
pub proof fn lemma_unversioned_matches_again(v: Unversioned, saved: UnversionedFull)
    requires
        v.spec_is_full(),
    ensures
        v.spec_mark_empty()->Ok_0.spec_mark_full().spec_equals_saved(saved),
{
}

/// The version of a slot after `k` insertion/removal pairs, starting from
/// the version of a new slot; an exhausted version stays as the removal
/// left it
pub open spec fn version_after_pairs<V: Version>(k: nat) -> V
    decreases k,
{
    if k == 0 {
        V::spec_empty()
    } else {
        match version_after_pairs::<V>((k - 1) as nat).spec_mark_full().spec_mark_empty() {
            Ok(e) => e,
            Err(e) => e,
        }
    }
}

/// What a default version is, in terms of its counter: a new slot starts
/// at 1; a version is full when its counter is even, and exhausted at the
/// maximum, so a full version is never exhausted; filling and emptying
/// each move the counter on by one, and emptying succeeds while the
/// counter can move on by two more; a save keeps the counter, and a save
/// matches the versions with the same counter
pub proof fn lemma_default_version(v: DefaultVersion)
    ensures
        DefaultVersion::spec_empty().spec_count() == 1,
        v.spec_is_full() <==> v.spec_count() % 2 == 0,
        v.spec_is_exhausted() <==> v.spec_count() == u32::MAX,
        v.spec_is_full() ==> !v.spec_is_exhausted(),
        v.spec_mark_full().spec_count() == if v.spec_count() == u32::MAX {
            0
        } else {
            v.spec_count() + 1
        },
        v.spec_mark_empty() is Ok <==> v.spec_count() + 2 <= u32::MAX,
        v.spec_count() < u32::MAX ==> match v.spec_mark_empty() {
            Ok(e) => e.spec_count() == v.spec_count() + 1,
            Err(e) => e.spec_count() == v.spec_count() + 1,
        },
        v.spec_save().spec_count() == v.spec_count(),
        forall|s: SavedDefaultVersion| #[trigger] v.spec_equals_saved(s) <==> v.spec_count() == s.spec_count(),
{
}

/// What a tiny version is, in terms of its counter, as for
/// [`lemma_default_version`] with a `u8` counter
pub proof fn lemma_tiny_version(v: TinyVersion)
    ensures
        TinyVersion::spec_empty().spec_count() == 1,
        v.spec_is_full() <==> v.spec_count() % 2 == 0,
        v.spec_is_exhausted() <==> v.spec_count() == u8::MAX,
        v.spec_is_full() ==> !v.spec_is_exhausted(),
        v.spec_mark_full().spec_count() == if v.spec_count() == u8::MAX {
            0
        } else {
            v.spec_count() + 1
        },
        v.spec_mark_empty() is Ok <==> v.spec_count() + 2 <= u8::MAX,
        v.spec_count() < u8::MAX ==> match v.spec_mark_empty() {
            Ok(e) => e.spec_count() == v.spec_count() + 1,
            Err(e) => e.spec_count() == v.spec_count() + 1,
        },
        v.spec_save().spec_count() == v.spec_count(),
        forall|s: SavedTinyVersion| #[trigger] v.spec_equals_saved(s) <==> v.spec_count() == s.spec_count(),
{
}

/// A new slot survives its first removal, whatever the versions: the
/// slot can be reused
pub proof fn lemma_new_slot_reusable()
    ensures
        DefaultVersion::spec_empty().spec_mark_full().spec_mark_empty() is Ok,
        TinyVersion::spec_empty().spec_mark_full().spec_mark_empty() is Ok,
        Unversioned::spec_empty().spec_mark_full().spec_mark_empty() is Ok,
{
}

/// Emptying a full default or tiny version gives a version that matches
/// no save of the full one, exhausted or not
pub proof fn lemma_emptied_never_matches(d: DefaultVersion, t: TinyVersion)
    ensures
        d.spec_is_full() ==> match d.spec_mark_empty() {
            Ok(e) => !e.spec_equals_saved(d.spec_save()) && !e.spec_is_full(),
            Err(e) => !e.spec_equals_saved(d.spec_save()) && !e.spec_is_full(),
        },
        t.spec_is_full() ==> match t.spec_mark_empty() {
            Ok(e) => !e.spec_equals_saved(t.spec_save()) && !e.spec_is_full(),
            Err(e) => !e.spec_equals_saved(t.spec_save()) && !e.spec_is_full(),
        },
{
}

/// After `k` pairs (up to the one that exhausts it) a tiny version's
/// counter is `2k + 1`
proof fn lemma_tiny_after_pairs(k: nat)
    requires
        k <= 127,
    ensures
        version_after_pairs::<TinyVersion>(k).spec_count() == 2 * k + 1,
    decreases k,
{
    if k > 0 {
        lemma_tiny_after_pairs((k - 1) as nat);
    }
}

/// A tiny version exhausts after exactly 127 insertion/removal pairs: the
/// `k`th removal succeeds for `k` up to 126, the 127th fails and leaves
/// the version exhausted
pub proof fn lemma_tiny_version_exhaustion(k: nat)
    requires
        1 <= k <= 127,
    ensures
        version_after_pairs::<TinyVersion>((k - 1) as nat).spec_mark_full().spec_is_full(),
        version_after_pairs::<TinyVersion>((k - 1) as nat).spec_mark_full().spec_mark_empty() is Ok <==> k <= 126,
        k == 127 ==> version_after_pairs::<TinyVersion>(k).spec_is_exhausted(),
        k <= 126 ==> !version_after_pairs::<TinyVersion>(k).spec_is_exhausted(),
{
    lemma_tiny_after_pairs((k - 1) as nat);
    lemma_tiny_after_pairs(k);
}

/// After `k` pairs (up to the one that exhausts it) a default version's
/// counter is `2k + 1`
proof fn lemma_default_after_pairs(k: nat)
    requires
        k <= 0x7fff_ffff,
    ensures
        version_after_pairs::<DefaultVersion>(k).spec_count() == 2 * k + 1,
    decreases k,
{
    if k > 0 {
        lemma_default_after_pairs((k - 1) as nat);
    }
}

/// A default version exhausts after exactly 2^31 - 1 insertion/removal
/// pairs: the `k`th removal succeeds for `k` below that
pub proof fn lemma_default_version_exhaustion(k: nat)
    requires
        1 <= k <= 0x7fff_ffff,
    ensures
        version_after_pairs::<DefaultVersion>((k - 1) as nat).spec_mark_full().spec_is_full(),
        version_after_pairs::<DefaultVersion>((k - 1) as nat).spec_mark_full().spec_mark_empty() is Ok <==> k
            < 0x7fff_ffff,
        k == 0x7fff_ffff ==> version_after_pairs::<DefaultVersion>(k).spec_is_exhausted(),
        k < 0x7fff_ffff ==> !version_after_pairs::<DefaultVersion>(k).spec_is_exhausted(),
{
    lemma_default_after_pairs((k - 1) as nat);
    lemma_default_after_pairs(k);
}

} // verus!
