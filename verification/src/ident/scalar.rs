//! Scalars: the values that identifiers are made of, and the allocators
//! that hand them out.
//!
//! A counter of a [`Scalar`] type hands out `spec_nth(0)`, `spec_nth(1)`,
//! ... and no value twice; once `spec_capacity()` values are out, it
//! fails for good. A counter for one thread is a plain value; a counter
//! shared between threads is an atomic, of which nothing is known but
//! that every value it hands out is one of the counter's values.

use vstd::prelude::*;

use crate::ident::seal::Seal;

verus! {

/// A value that an allocator hands out at most once
pub trait Scalar: Seal + Sized {
    /// The counter of an allocator used from one thread
    type Local;

    /// The counter of an allocator shared between threads
    type Atomic;

    /// How many values a counter hands out
    spec fn spec_capacity() -> nat;

    /// The `n`th value that a counter hands out
    spec fn spec_nth(n: nat) -> Self;

    /// How many values a counter has handed out
    spec fn spec_count(local: Self::Local) -> nat;

    /// A fresh counter
    fn local_init() -> (r: Self::Local)
        ensures
            Self::spec_count(r) == 0,
    ;

    /// A fresh shared counter
    fn atomic_init() -> (r: Self::Atomic);

    /// Hand out the next value, or `None` once every value is out
    fn inc_local(local: &mut Self::Local) -> (r: Option<Self>)
        ensures
            Self::spec_count(*old(local)) < Self::spec_capacity() ==> {
                &&& r == Some(Self::spec_nth(Self::spec_count(*old(local))))
                &&& Self::spec_count(*final(local)) == Self::spec_count(*old(local)) + 1
            },
            Self::spec_count(*old(local)) >= Self::spec_capacity() ==> {
                &&& r is None
                &&& Self::spec_count(*final(local)) == Self::spec_count(*old(local))
            },
    ;

    /// Hand out a value from a shared counter, or `None` once every value
    /// is out
    fn inc_atomic(atomic: &Self::Atomic) -> (r: Option<Self>)
        ensures
            r is Some ==> exists|n: nat| n < Self::spec_capacity() && r == Some(Self::spec_nth(n)),
    ;

    /// Whether two values are the same
    fn same(&self, other: &Self) -> (r: bool)
        ensures
            r == (*self == *other),
    ;

    /// A copy of the value
    fn duplicate(&self) -> (r: Self)
        ensures
            r == *self,
    ;

    /// A counter never hands out a value twice
    proof fn lemma_nth_unique(n: nat, m: nat)
        ensures
            n < m < Self::spec_capacity() ==> Self::spec_nth(n) != Self::spec_nth(m),
    ;

    /// A counter never counts past its capacity
    proof fn lemma_count_bound(local: Self::Local)
        ensures
            Self::spec_count(local) <= Self::spec_capacity(),
    ;
}

/// A value handed out by the allocator `S`.
///
/// Whoever builds one promises that no live identifier uses the value, so
/// that a pool can hand it out again.
pub struct OpaqueScalar<S: ScalarAllocator>(S::Scalar);

impl<S: ScalarAllocator> OpaqueScalar<S> {
    /// The value held
    pub closed spec fn spec_scalar(&self) -> S::Scalar {
        self.0
    }

    /// Wrap a value that no live identifier uses
    pub fn new(scalar: S::Scalar) -> (r: Self)
        ensures
            r.spec_scalar() == scalar,
    {
        OpaqueScalar(scalar)
    }

    /// The value held
    pub fn into_inner(self) -> (r: S::Scalar)
        ensures
            r == self.spec_scalar(),
    {
        self.0
    }
}

impl<S: ScalarAllocator> PartialEq for OpaqueScalar<S> {
    fn eq(&self, other: &Self) -> (r: bool) {
        self.0.same(&other.0)
    }
}

impl<S: ScalarAllocator> vstd::std_specs::cmp::PartialEqSpecImpl for OpaqueScalar<S> {
    open spec fn obeys_eq_spec() -> bool {
        true
    }

    open spec fn eq_spec(&self, other: &Self) -> bool {
        self.spec_scalar() == other.spec_scalar()
    }
}

impl<S: ScalarAllocator> Eq for OpaqueScalar<S> {}

/// A source of values that are unique in the process (or thread).
///
/// Every value that `alloc` returns must differ from every other value
/// it returned; it panics once it has no more.
pub trait ScalarAllocator {
    /// The values handed out
    type Scalar: Scalar;

    /// Marks the identifiers built from these values as tied to a thread
    /// or not
    type AutoTraits;

    /// Hand out a value never handed out before
    fn allocate() -> Self::Scalar;
}

impl Seal for () {}

impl Scalar for () {
    type Local = bool;

    type Atomic = core::sync::atomic::AtomicBool;

    open spec fn spec_capacity() -> nat {
        1
    }

    open spec fn spec_nth(n: nat) -> () {
        ()
    }

    open spec fn spec_count(local: bool) -> nat {
        if local {
            1
        } else {
            0
        }
    }

    fn local_init() -> (r: bool) {
        false
    }

    fn atomic_init() -> (r: core::sync::atomic::AtomicBool) {
        core::sync::atomic::AtomicBool::new(false)
    }

    fn inc_local(local: &mut bool) -> (r: Option<()>) {
        let used = *local;
        *local = true;
        if used {
            None
        } else {
            Some(())
        }
    }

    fn inc_atomic(atomic: &core::sync::atomic::AtomicBool) -> (r: Option<()>) {
        if atomic.swap(true, core::sync::atomic::Ordering::Relaxed) {
            None
        } else {
            proof {
                assert(Self::spec_nth(0) == ());
            }
            Some(())
        }
    }

    fn same(&self, other: &()) -> (r: bool) {
        true
    }

    fn duplicate(&self) -> (r: ()) {
        ()
    }

    proof fn lemma_nth_unique(n: nat, m: nat) {
    }

    proof fn lemma_count_bound(local: bool) {
    }
}

impl Seal for u8 {}

impl Scalar for u8 {
    type Local = u8;

    type Atomic = core::sync::atomic::AtomicU8;

    open spec fn spec_capacity() -> nat {
        u8::MAX as nat
    }

    open spec fn spec_nth(n: nat) -> u8 {
        n as u8
    }

    open spec fn spec_count(local: u8) -> nat {
        local as nat
    }

    fn local_init() -> (r: u8) {
        0
    }

    fn atomic_init() -> (r: core::sync::atomic::AtomicU8) {
        core::sync::atomic::AtomicU8::new(0)
    }

    fn inc_local(local: &mut u8) -> (r: Option<u8>) {
        let value = *local;
        match value.checked_add(1) {
            Some(next) => {
                *local = next;
                Some(value)
            },
            None => None,
        }
    }

    fn inc_atomic(atomic: &core::sync::atomic::AtomicU8) -> (r: Option<u8>) {
        let mut value = atomic.load(core::sync::atomic::Ordering::Relaxed);
        loop
            decreases u8::MAX - value,
        {
            let next = match value.checked_add(1) {
                Some(next) => next,
                None => {
                    return None;
                },
            };
            // the counter only moves forward, so a failed exchange reads a
            // larger value
            match atomic.compare_exchange(
                value,
                next,
                core::sync::atomic::Ordering::Acquire,
                core::sync::atomic::Ordering::Relaxed,
            ) {
                Ok(_) => {
                    proof {
                        lemma_nth_u8(value);
                    }
                    return Some(value);
                },
                Err(current) => {
                    if current <= value {
                        return None;
                    }
                    value = current;
                },
            }
        }
    }

    fn same(&self, other: &u8) -> (r: bool) {
        *self == *other
    }

    fn duplicate(&self) -> (r: u8) {
        *self
    }

    proof fn lemma_nth_unique(n: nat, m: nat) {
    }

    proof fn lemma_count_bound(local: u8) {
    }
}

/// Every value below the maximum is one that a counter hands out
proof fn lemma_nth_u8(value: u8)
    requires
        value < u8::MAX,
    ensures
        value < <u8 as Scalar>::spec_capacity(),
        <u8 as Scalar>::spec_nth(value as nat) == value,
{
}

impl Seal for u16 {}

impl Scalar for u16 {
    type Local = u16;

    type Atomic = core::sync::atomic::AtomicU16;

    open spec fn spec_capacity() -> nat {
        u16::MAX as nat
    }

    open spec fn spec_nth(n: nat) -> u16 {
        n as u16
    }

    open spec fn spec_count(local: u16) -> nat {
        local as nat
    }

    fn local_init() -> (r: u16) {
        0
    }

    fn atomic_init() -> (r: core::sync::atomic::AtomicU16) {
        core::sync::atomic::AtomicU16::new(0)
    }

    fn inc_local(local: &mut u16) -> (r: Option<u16>) {
        let value = *local;
        match value.checked_add(1) {
            Some(next) => {
                *local = next;
                Some(value)
            },
            None => None,
        }
    }

    fn inc_atomic(atomic: &core::sync::atomic::AtomicU16) -> (r: Option<u16>) {
        let mut value = atomic.load(core::sync::atomic::Ordering::Relaxed);
        loop
            decreases u16::MAX - value,
        {
            let next = match value.checked_add(1) {
                Some(next) => next,
                None => {
                    return None;
                },
            };
            // the counter only moves forward, so a failed exchange reads a
            // larger value
            match atomic.compare_exchange(
                value,
                next,
                core::sync::atomic::Ordering::Acquire,
                core::sync::atomic::Ordering::Relaxed,
            ) {
                Ok(_) => {
                    proof {
                        lemma_nth_u16(value);
                    }
                    return Some(value);
                },
                Err(current) => {
                    if current <= value {
                        return None;
                    }
                    value = current;
                },
            }
        }
    }

    fn same(&self, other: &u16) -> (r: bool) {
        *self == *other
    }

    fn duplicate(&self) -> (r: u16) {
        *self
    }

    proof fn lemma_nth_unique(n: nat, m: nat) {
    }

    proof fn lemma_count_bound(local: u16) {
    }
}

/// Every value below the maximum is one that a counter hands out
proof fn lemma_nth_u16(value: u16)
    requires
        value < u16::MAX,
    ensures
        value < <u16 as Scalar>::spec_capacity(),
        <u16 as Scalar>::spec_nth(value as nat) == value,
{
}

impl Seal for u32 {}

impl Scalar for u32 {
    type Local = u32;

    type Atomic = core::sync::atomic::AtomicU32;

    open spec fn spec_capacity() -> nat {
        u32::MAX as nat
    }

    open spec fn spec_nth(n: nat) -> u32 {
        n as u32
    }

    open spec fn spec_count(local: u32) -> nat {
        local as nat
    }

    fn local_init() -> (r: u32) {
        0
    }

    fn atomic_init() -> (r: core::sync::atomic::AtomicU32) {
        core::sync::atomic::AtomicU32::new(0)
    }

    fn inc_local(local: &mut u32) -> (r: Option<u32>) {
        let value = *local;
        match value.checked_add(1) {
            Some(next) => {
                *local = next;
                Some(value)
            },
            None => None,
        }
    }

    fn inc_atomic(atomic: &core::sync::atomic::AtomicU32) -> (r: Option<u32>) {
        let mut value = atomic.load(core::sync::atomic::Ordering::Relaxed);
        loop
            decreases u32::MAX - value,
        {
            let next = match value.checked_add(1) {
                Some(next) => next,
                None => {
                    return None;
                },
            };
            // the counter only moves forward, so a failed exchange reads a
            // larger value
            match atomic.compare_exchange(
                value,
                next,
                core::sync::atomic::Ordering::Acquire,
                core::sync::atomic::Ordering::Relaxed,
            ) {
                Ok(_) => {
                    proof {
                        lemma_nth_u32(value);
                    }
                    return Some(value);
                },
                Err(current) => {
                    if current <= value {
                        return None;
                    }
                    value = current;
                },
            }
        }
    }

    fn same(&self, other: &u32) -> (r: bool) {
        *self == *other
    }

    fn duplicate(&self) -> (r: u32) {
        *self
    }

    proof fn lemma_nth_unique(n: nat, m: nat) {
    }

    proof fn lemma_count_bound(local: u32) {
    }
}

/// Every value below the maximum is one that a counter hands out
proof fn lemma_nth_u32(value: u32)
    requires
        value < u32::MAX,
    ensures
        value < <u32 as Scalar>::spec_capacity(),
        <u32 as Scalar>::spec_nth(value as nat) == value,
{
}

impl Seal for u64 {}

impl Scalar for u64 {
    type Local = u64;

    type Atomic = core::sync::atomic::AtomicU64;

    open spec fn spec_capacity() -> nat {
        u64::MAX as nat
    }

    open spec fn spec_nth(n: nat) -> u64 {
        n as u64
    }

    open spec fn spec_count(local: u64) -> nat {
        local as nat
    }

    fn local_init() -> (r: u64) {
        0
    }

    fn atomic_init() -> (r: core::sync::atomic::AtomicU64) {
        core::sync::atomic::AtomicU64::new(0)
    }

    fn inc_local(local: &mut u64) -> (r: Option<u64>) {
        let value = *local;
        match value.checked_add(1) {
            Some(next) => {
                *local = next;
                Some(value)
            },
            None => None,
        }
    }

    fn inc_atomic(atomic: &core::sync::atomic::AtomicU64) -> (r: Option<u64>) {
        let mut value = atomic.load(core::sync::atomic::Ordering::Relaxed);
        loop
            decreases u64::MAX - value,
        {
            let next = match value.checked_add(1) {
                Some(next) => next,
                None => {
                    return None;
                },
            };
            // the counter only moves forward, so a failed exchange reads a
            // larger value
            match atomic.compare_exchange(
                value,
                next,
                core::sync::atomic::Ordering::Acquire,
                core::sync::atomic::Ordering::Relaxed,
            ) {
                Ok(_) => {
                    proof {
                        lemma_nth_u64(value);
                    }
                    return Some(value);
                },
                Err(current) => {
                    if current <= value {
                        return None;
                    }
                    value = current;
                },
            }
        }
    }

    fn same(&self, other: &u64) -> (r: bool) {
        *self == *other
    }

    fn duplicate(&self) -> (r: u64) {
        *self
    }

    proof fn lemma_nth_unique(n: nat, m: nat) {
    }

    proof fn lemma_count_bound(local: u64) {
    }
}

/// Every value below the maximum is one that a counter hands out
proof fn lemma_nth_u64(value: u64)
    requires
        value < u64::MAX,
    ensures
        value < <u64 as Scalar>::spec_capacity(),
        <u64 as Scalar>::spec_nth(value as nat) == value,
{
}

} // verus!
