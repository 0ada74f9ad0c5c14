//! Pools that identifiers give their values back to, so that later
//! identifiers can use them again.

use vstd::prelude::*;

use crate::ident::scalar::{OpaqueScalar, ScalarAllocator};
use crate::ident::Init;

verus! {

/// A pool of values, used through a unique reference.
///
/// Each pool says, by its spec functions, what its methods do: which pool
/// and which result an insertion or a removal can lead to.
pub trait PoolMut<A: ScalarAllocator> {
    /// Whether inserting `scalar` into `before` can leave `after` and
    /// return `r`
    spec fn spec_insert_mut(&self, scalar: OpaqueScalar<A>, after: &Self, r: Option<OpaqueScalar<A>>) -> bool;

    /// Whether removing a value from `before` can leave `after` and
    /// return `r`
    spec fn spec_remove_mut(&self, after: &Self, r: Option<OpaqueScalar<A>>) -> bool;

    /// Put a value into the pool; the value comes back when the pool has
    /// no room for it
    fn insert_mut(&mut self, scalar: OpaqueScalar<A>) -> (r: Option<OpaqueScalar<A>>)
        ensures
            old(self).spec_insert_mut(scalar, final(self), r),
    ;

    /// Take a value out of the pool, if it holds one
    fn remove_mut(&mut self) -> (r: Option<OpaqueScalar<A>>)
        ensures
            old(self).spec_remove_mut(final(self), r),
    ;
}

/// A pool of values that can be shared
pub trait Pool<A: ScalarAllocator>: PoolMut<A> {
    /// Whether inserting `scalar` can return `r`
    spec fn spec_insert(&self, scalar: OpaqueScalar<A>, r: Option<OpaqueScalar<A>>) -> bool;

    /// Whether removing a value can return `r`
    spec fn spec_remove(&self, r: Option<OpaqueScalar<A>>) -> bool;

    /// Put a value into the pool; the value comes back when the pool has
    /// no room for it
    fn insert(&self, scalar: OpaqueScalar<A>) -> (r: Option<OpaqueScalar<A>>)
        ensures
            self.spec_insert(scalar, r),
    ;

    /// Take a value out of the pool, if it holds one
    fn remove(&self) -> (r: Option<OpaqueScalar<A>>)
        ensures
            self.spec_remove(r),
    ;
}

impl Init for () {
    open spec fn spec_initial(value: ()) -> bool {
        true
    }

    fn init() -> (r: ()) {
        ()
    }
}

/// The empty pool: it keeps nothing
impl<A: ScalarAllocator> PoolMut<A> for () {
    open spec fn spec_insert_mut(&self, scalar: OpaqueScalar<A>, after: &(), r: Option<OpaqueScalar<A>>) -> bool {
        r == Some(scalar)
    }

    open spec fn spec_remove_mut(&self, after: &(), r: Option<OpaqueScalar<A>>) -> bool {
        r is None
    }

    fn insert_mut(&mut self, scalar: OpaqueScalar<A>) -> Option<OpaqueScalar<A>> {
        Some(scalar)
    }

    fn remove_mut(&mut self) -> Option<OpaqueScalar<A>> {
        None
    }
}

impl<A: ScalarAllocator> Pool<A> for () {
    open spec fn spec_insert(&self, scalar: OpaqueScalar<A>, r: Option<OpaqueScalar<A>>) -> bool {
        r == Some(scalar)
    }

    open spec fn spec_remove(&self, r: Option<OpaqueScalar<A>>) -> bool {
        r is None
    }

    fn insert(&self, scalar: OpaqueScalar<A>) -> Option<OpaqueScalar<A>> {
        Some(scalar)
    }

    fn remove(&self) -> Option<OpaqueScalar<A>> {
        None
    }
}

impl<T> Init for Option<T> {
    open spec fn spec_initial(value: Option<T>) -> bool {
        value is None
    }

    fn init() -> (r: Option<T>) {
        None
    }
}

/// A pool of one value: a new value replaces the one held, which comes back
impl<A: ScalarAllocator> PoolMut<A> for Option<OpaqueScalar<A>> {
    open spec fn spec_insert_mut(
        &self,
        scalar: OpaqueScalar<A>,
        after: &Option<OpaqueScalar<A>>,
        r: Option<OpaqueScalar<A>>,
    ) -> bool {
        r == *self && *after == Some(scalar)
    }

    open spec fn spec_remove_mut(&self, after: &Option<OpaqueScalar<A>>, r: Option<OpaqueScalar<A>>) -> bool {
        r == *self && *after is None
    }

    fn insert_mut(&mut self, scalar: OpaqueScalar<A>) -> (r: Option<OpaqueScalar<A>>) {
        let mut held = Some(scalar);
        core::mem::swap(self, &mut held);
        held
    }

    fn remove_mut(&mut self) -> (r: Option<OpaqueScalar<A>>) {
        let mut held = None;
        core::mem::swap(self, &mut held);
        held
    }
}

impl<T> Init for Vec<T> {
    open spec fn spec_initial(value: Vec<T>) -> bool {
        value@ == Seq::<T>::empty()
    }

    fn init() -> (r: Vec<T>) {
        Vec::new()
    }
}

/// A stack of values: the last value put in is the first taken out. The
/// methods carry no contract: Verus resolves a contract on `insert_mut`
/// here to the inherent `Vec::insert_mut`.
impl<A: ScalarAllocator> PoolMut<A> for Vec<OpaqueScalar<A>> {
    open spec fn spec_insert_mut(
        &self,
        scalar: OpaqueScalar<A>,
        after: &Vec<OpaqueScalar<A>>,
        r: Option<OpaqueScalar<A>>,
    ) -> bool {
        r is None && after@ == self@.push(scalar)
    }

    open spec fn spec_remove_mut(&self, after: &Vec<OpaqueScalar<A>>, r: Option<OpaqueScalar<A>>) -> bool {
        if self@.len() > 0 {
            r == Some(self@.last()) && after@ == self@.drop_last()
        } else {
            r is None && after@ == self@
        }
    }

    fn insert_mut(&mut self, scalar: OpaqueScalar<A>) -> Option<OpaqueScalar<A>> {
        self.push(scalar);
        None
    }

    fn remove_mut(&mut self) -> Option<OpaqueScalar<A>> {
        self.pop()
    }
}

/// A queue of values: the first value put in is the first taken out. The
/// methods carry no contract: Verus resolves a contract on `insert_mut`
/// here to the inherent `VecDeque::insert_mut`.
impl<A: ScalarAllocator> PoolMut<A> for std::collections::VecDeque<OpaqueScalar<A>> {
    open spec fn spec_insert_mut(
        &self,
        scalar: OpaqueScalar<A>,
        after: &std::collections::VecDeque<OpaqueScalar<A>>,
        r: Option<OpaqueScalar<A>>,
    ) -> bool {
        r is None && after@ == self@.push(scalar)
    }

    open spec fn spec_remove_mut(
        &self,
        after: &std::collections::VecDeque<OpaqueScalar<A>>,
        r: Option<OpaqueScalar<A>>,
    ) -> bool {
        if self@.len() > 0 {
            r == Some(self@[0]) && after@ == self@.drop_first()
        } else {
            r is None && after@ == self@
        }
    }

    fn insert_mut(&mut self, scalar: OpaqueScalar<A>) -> Option<OpaqueScalar<A>> {
        self.push_back(scalar);
        None
    }

    fn remove_mut(&mut self) -> Option<OpaqueScalar<A>> {
        self.pop_front()
    }
}

impl<A: ScalarAllocator, P: PoolMut<A>> PoolMut<A> for &mut P {
    open spec fn spec_insert_mut(&self, scalar: OpaqueScalar<A>, after: &&mut P, r: Option<OpaqueScalar<A>>) -> bool {
        (**self).spec_insert_mut(scalar, &**after, r)
    }

    open spec fn spec_remove_mut(&self, after: &&mut P, r: Option<OpaqueScalar<A>>) -> bool {
        (**self).spec_remove_mut(&**after, r)
    }

    fn insert_mut(&mut self, scalar: OpaqueScalar<A>) -> (r: Option<OpaqueScalar<A>>) {
        (**self).insert_mut(scalar)
    }

    fn remove_mut(&mut self) -> (r: Option<OpaqueScalar<A>>) {
        (**self).remove_mut()
    }
}

impl<A: ScalarAllocator, P: Pool<A>> Pool<A> for &mut P {
    open spec fn spec_insert(&self, scalar: OpaqueScalar<A>, r: Option<OpaqueScalar<A>>) -> bool {
        (**self).spec_insert(scalar, r)
    }

    open spec fn spec_remove(&self, r: Option<OpaqueScalar<A>>) -> bool {
        (**self).spec_remove(r)
    }

    fn insert(&self, scalar: OpaqueScalar<A>) -> (r: Option<OpaqueScalar<A>>) {
        (**self).insert(scalar)
    }

    fn remove(&self) -> (r: Option<OpaqueScalar<A>>) {
        (**self).remove()
    }
}

impl<A: ScalarAllocator, P: Pool<A>> PoolMut<A> for &P {
    open spec fn spec_insert_mut(&self, scalar: OpaqueScalar<A>, after: &&P, r: Option<OpaqueScalar<A>>) -> bool {
        (**self).spec_insert(scalar, r)
    }

    open spec fn spec_remove_mut(&self, after: &&P, r: Option<OpaqueScalar<A>>) -> bool {
        (**self).spec_remove(r)
    }

    fn insert_mut(&mut self, scalar: OpaqueScalar<A>) -> (r: Option<OpaqueScalar<A>>) {
        (**self).insert(scalar)
    }

    fn remove_mut(&mut self) -> (r: Option<OpaqueScalar<A>>) {
        (**self).remove()
    }
}

impl<A: ScalarAllocator, P: Pool<A>> Pool<A> for &P {
    open spec fn spec_insert(&self, scalar: OpaqueScalar<A>, r: Option<OpaqueScalar<A>>) -> bool {
        (**self).spec_insert(scalar, r)
    }

    open spec fn spec_remove(&self, r: Option<OpaqueScalar<A>>) -> bool {
        (**self).spec_remove(r)
    }

    fn insert(&self, scalar: OpaqueScalar<A>) -> (r: Option<OpaqueScalar<A>>) {
        (**self).insert(scalar)
    }

    fn remove(&self) -> (r: Option<OpaqueScalar<A>>) {
        (**self).remove()
    }
}

/// A pool that holds at most one value, for allocators of `()`. The flag
/// is atomic, and nothing is known of what an atomic holds: the methods
/// state only that a value that comes back is the one put in.
pub struct Flag<A> {
    flag: core::sync::atomic::AtomicBool,
    alloc: core::marker::PhantomData<A>,
}

impl<A> Flag<A> {
    /// An empty flag
    pub fn new() -> (r: Self) {
        Flag { flag: core::sync::atomic::AtomicBool::new(false), alloc: core::marker::PhantomData }
    }
}

/// A new flag is lowered, but an atomic has no view to say so: every
/// flag counts as initial
impl<A> Init for Flag<A> {
    open spec fn spec_initial(value: Flag<A>) -> bool {
        true
    }

    fn init() -> (r: Self) {
        Self::new()
    }
}

/// Raise the flag; the value comes back when the flag was already up
fn flag_insert<A: ScalarAllocator<Scalar = ()>>(
    flag: &core::sync::atomic::AtomicBool,
    scalar: OpaqueScalar<A>,
) -> (r: Option<OpaqueScalar<A>>)
    ensures
        r is Some ==> r == Some(scalar),
{
    if flag.swap(true, core::sync::atomic::Ordering::Acquire) {
        Some(scalar)
    } else {
        None
    }
}

/// Lower the flag; the value comes out when the flag was up
fn flag_remove<A: ScalarAllocator<Scalar = ()>>(flag: &core::sync::atomic::AtomicBool) -> (r: Option<OpaqueScalar<A>>) {
    if flag.swap(false, core::sync::atomic::Ordering::Release) {
        Some(OpaqueScalar::new(()))
    } else {
        None
    }
}

impl<A: ScalarAllocator<Scalar = ()>> PoolMut<A> for Flag<A> {
    open spec fn spec_insert_mut(&self, scalar: OpaqueScalar<A>, after: &Flag<A>, r: Option<OpaqueScalar<A>>) -> bool {
        r is Some ==> r == Some(scalar)
    }

    open spec fn spec_remove_mut(&self, after: &Flag<A>, r: Option<OpaqueScalar<A>>) -> bool {
        true
    }

    fn insert_mut(&mut self, scalar: OpaqueScalar<A>) -> Option<OpaqueScalar<A>> {
        flag_insert(&self.flag, scalar)
    }

    fn remove_mut(&mut self) -> Option<OpaqueScalar<A>> {
        flag_remove(&self.flag)
    }
}

impl<A: ScalarAllocator<Scalar = ()>> Pool<A> for Flag<A> {
    open spec fn spec_insert(&self, scalar: OpaqueScalar<A>, r: Option<OpaqueScalar<A>>) -> bool {
        r is Some ==> r == Some(scalar)
    }

    open spec fn spec_remove(&self, r: Option<OpaqueScalar<A>>) -> bool {
        true
    }

    fn insert(&self, scalar: OpaqueScalar<A>) -> Option<OpaqueScalar<A>> {
        flag_insert(&self.flag, scalar)
    }

    fn remove(&self) -> Option<OpaqueScalar<A>> {
        flag_remove(&self.flag)
    }
}

/// A pool made of pools, tried one after the other from `index` on,
/// each at most once per call
pub struct Sequence<R, P> {
    /// Where the next call starts
    pub index: R,
    /// The pools
    pub pools: P,
}

/// How far after `start` the pool at `k` comes, in a round over `n` pools
/// that begins at `start` and wraps around at the end
pub open spec fn sequence_offset(start: int, k: int, n: int) -> int {
    if start <= k {
        k - start
    } else {
        k + n - start
    }
}

/// One round of insertions over `before`, from `start` on, that tried `c`
/// pools and left `after`: the pool tried `o`th was given `given[o]`; each
/// pool tried before the last gave back the value handed to the next one;
/// the last returned `r`; the pools not tried are unchanged; a value
/// comes back only when every pool was tried
pub open spec fn sequence_insertion_round<A: ScalarAllocator, Q: PoolMut<A>>(
    before: Seq<Q>,
    after: Seq<Q>,
    start: int,
    c: int,
    given: Seq<OpaqueScalar<A>>,
    r: Option<OpaqueScalar<A>>,
) -> bool {
    let n = before.len() as int;
    &&& 1 <= c <= n
    &&& given.len() == c
    &&& r is Some ==> c == n
    &&& forall|k: int|
        #![trigger before[k]]
        0 <= k < n ==> {
            let o = sequence_offset(start, k, n);
            &&& o < c - 1 ==> before[k].spec_insert_mut(given[o], &after[k], Some(given[o + 1]))
            &&& o == c - 1 ==> before[k].spec_insert_mut(given[o], &after[k], r)
            &&& o >= c ==> after[k] == before[k]
        }
}

/// One round of removals over `before`, from `start` on, that tried `c`
/// pools and left `after`: each pool tried before the last gave nothing;
/// the last returned `r`; the pools not tried are unchanged; nothing comes
/// out only when every pool was tried
pub open spec fn sequence_removal_round<A: ScalarAllocator, Q: PoolMut<A>>(
    before: Seq<Q>,
    after: Seq<Q>,
    start: int,
    c: int,
    r: Option<OpaqueScalar<A>>,
) -> bool {
    let n = before.len() as int;
    &&& 1 <= c <= n
    &&& r is None ==> c == n
    &&& forall|k: int|
        #![trigger before[k]]
        0 <= k < n ==> {
            let o = sequence_offset(start, k, n);
            &&& o < c - 1 ==> before[k].spec_remove_mut(&after[k], None::<OpaqueScalar<A>>)
            &&& o == c - 1 ==> before[k].spec_remove_mut(&after[k], r)
            &&& o >= c ==> after[k] == before[k]
        }
}

/// Inserting `scalar` into the pools `before`, with the round starting at
/// `index`: with no pool the value comes back and the index stays; else
/// the pools are tried one after the other from `index % n` on, until one
/// keeps what it was given or every pool was tried, and the index moves on
/// by the number of pools that gave a value back
pub open spec fn sequence_inserted<A: ScalarAllocator, Q: PoolMut<A>>(
    before: Seq<Q>,
    scalar: OpaqueScalar<A>,
    after: Seq<Q>,
    index: usize,
    next: usize,
    r: Option<OpaqueScalar<A>>,
) -> bool {
    &&& after.len() == before.len()
    &&& before.len() == 0 ==> r == Some(scalar) && next == index
    &&& before.len() > 0 ==> exists|c: int, given: Seq<OpaqueScalar<A>>|
        {
            &&& #[trigger] sequence_insertion_round(
                before,
                after,
                index as int % before.len() as int,
                c,
                given,
                r,
            )
            &&& given[0] == scalar
            &&& next == vstd::wrapping::usize_specs::wrapping_add(
                index,
                (if r is Some { c } else { c - 1 }) as usize,
            )
        }
}

/// Removing a value from the pools `before`, with the round starting at
/// `index`: with no pool nothing comes out and the index stays; else the
/// pools are tried one after the other from `index % n` on, until one
/// gives a value or every pool was tried, and the index moves on by the
/// number of pools that gave nothing
pub open spec fn sequence_removed<A: ScalarAllocator, Q: PoolMut<A>>(
    before: Seq<Q>,
    after: Seq<Q>,
    index: usize,
    next: usize,
    r: Option<OpaqueScalar<A>>,
) -> bool {
    &&& after.len() == before.len()
    &&& before.len() == 0 ==> r is None && next == index
    &&& before.len() > 0 ==> exists|c: int|
        {
            &&& #[trigger] sequence_removal_round(before, after, index as int % before.len() as int, c, r)
            &&& next == vstd::wrapping::usize_specs::wrapping_add(
                index,
                (if r is Some { c - 1 } else { c }) as usize,
            )
        }
}

/// The pool after `current` in a round over `n` pools
fn sequence_next(current: usize, n: usize) -> (r: usize)
    requires
        current < n,
    ensures
        r < n,
        r == if current + 1 == n { 0 } else { current + 1 },
{
    if current + 1 == n {
        0
    } else {
        current + 1
    }
}

/// Put `scalar` into the first of `pools`, from `index` on, that keeps
/// what it is given
fn sequence_insert<A: ScalarAllocator, Q: PoolMut<A>>(
    index: &mut usize,
    pools: &mut Vec<Q>,
    scalar: OpaqueScalar<A>,
) -> (r: Option<OpaqueScalar<A>>)
    ensures
        sequence_inserted(old(pools)@, scalar, final(pools)@, *old(index), *final(index), r),
{
    let n = pools.len();
    if n == 0 {
        return Some(scalar);
    }
    let ghost before = pools@;
    let ghost first = scalar;
    let start = *index % n;
    let mut current = start;
    let mut held = scalar;
    let mut tried: usize = 0;
    let ghost mut given: Seq<OpaqueScalar<A>> = seq![held];
    loop
        invariant
            0 < n,
            n == before.len(),
            pools@.len() == n,
            start < n,
            start as int == *old(index) as int % n as int,
            *index == *old(index),
            before == old(pools)@,
            current < n,
            tried < n,
            sequence_offset(start as int, current as int, n as int) == tried,
            given.len() == tried + 1,
            first == scalar,
            given[0] == first,
            given[tried as int] == held,
            forall|k: int|
                #![trigger before[k]]
                0 <= k < n ==> {
                    let o = sequence_offset(start as int, k, n as int);
                    &&& o < tried ==> before[k].spec_insert_mut(
                        given[o],
                        &pools@[k],
                        Some(given[o + 1]),
                    )
                    &&& o >= tried ==> pools@[k] == before[k]
                },
        decreases n - tried,
    {
        let ghost b = pools@[current as int];
        let ghost s = held;
        let back = pools[current].insert_mut(held);
        proof {
            assert(b == before[current as int]);
            assert(b.spec_insert_mut(s, &pools@[current as int], back));
        }
        match back {
            None => {
                *index = index.wrapping_add(tried);
                proof {
                    assert(sequence_insertion_round(
                        before,
                        pools@,
                        start as int,
                        tried + 1,
                        given,
                        None::<OpaqueScalar<A>>,
                    ));
                }
                return None;
            },
            Some(returned) => {
                if tried + 1 == n {
                    *index = index.wrapping_add(n);
                    proof {
                        assert(sequence_insertion_round(
                            before,
                            pools@,
                            start as int,
                            n as int,
                            given,
                            Some(returned),
                        ));
                    }
                    return Some(returned);
                }
                proof {
                    given = given.push(returned);
                }
                held = returned;
                current = sequence_next(current, n);
                tried = tried + 1;
            },
        }
    }
}

/// Take a value out of the first of `pools`, from `index` on, that holds one
fn sequence_remove<A: ScalarAllocator, Q: PoolMut<A>>(index: &mut usize, pools: &mut Vec<Q>) -> (r: Option<
    OpaqueScalar<A>,
>)
    ensures
        sequence_removed(old(pools)@, final(pools)@, *old(index), *final(index), r),
{
    let n = pools.len();
    if n == 0 {
        return None;
    }
    let ghost before = pools@;
    let start = *index % n;
    let mut current = start;
    let mut tried: usize = 0;
    loop
        invariant
            0 < n,
            n == before.len(),
            pools@.len() == n,
            start < n,
            start as int == *old(index) as int % n as int,
            *index == *old(index),
            before == old(pools)@,
            current < n,
            tried < n,
            sequence_offset(start as int, current as int, n as int) == tried,
            forall|k: int|
                #![trigger before[k]]
                0 <= k < n ==> {
                    let o = sequence_offset(start as int, k, n as int);
                    &&& o < tried ==> before[k].spec_remove_mut(
                        &pools@[k],
                        None::<OpaqueScalar<A>>,
                    )
                    &&& o >= tried ==> pools@[k] == before[k]
                },
        decreases n - tried,
    {
        let ghost b = pools@[current as int];
        let taken = pools[current].remove_mut();
        proof {
            assert(b == before[current as int]);
            assert(b.spec_remove_mut(&pools@[current as int], taken));
        }
        match taken {
            Some(value) => {
                *index = index.wrapping_add(tried);
                proof {
                    assert(sequence_removal_round(before, pools@, start as int, tried + 1, Some(value)));
                }
                return Some(value);
            },
            None => {
                if tried + 1 == n {
                    *index = index.wrapping_add(n);
                    proof {
                        assert(sequence_removal_round(
                            before,
                            pools@,
                            start as int,
                            n as int,
                            None::<OpaqueScalar<A>>,
                        ));
                    }
                    return None;
                }
                current = sequence_next(current, n);
                tried = tried + 1;
            },
        }
    }
}

impl<A: ScalarAllocator, Q: PoolMut<A>> PoolMut<A> for Sequence<usize, Vec<Q>> {
    open spec fn spec_insert_mut(
        &self,
        scalar: OpaqueScalar<A>,
        after: &Sequence<usize, Vec<Q>>,
        r: Option<OpaqueScalar<A>>,
    ) -> bool {
        sequence_inserted(self.pools@, scalar, after.pools@, self.index, after.index, r)
    }

    open spec fn spec_remove_mut(&self, after: &Sequence<usize, Vec<Q>>, r: Option<OpaqueScalar<A>>) -> bool {
        sequence_removed(self.pools@, after.pools@, self.index, after.index, r)
    }

    fn insert_mut(&mut self, scalar: OpaqueScalar<A>) -> Option<OpaqueScalar<A>> {
        sequence_insert(&mut self.index, &mut self.pools, scalar)
    }

    fn remove_mut(&mut self) -> Option<OpaqueScalar<A>> {
        sequence_remove(&mut self.index, &mut self.pools)
    }
}

/// With an atomic index, the round starts wherever the index stands, of
/// which nothing is known
impl<A: ScalarAllocator, Q: PoolMut<A>> PoolMut<A> for Sequence<core::sync::atomic::AtomicUsize, Vec<Q>> {
    open spec fn spec_insert_mut(
        &self,
        scalar: OpaqueScalar<A>,
        after: &Sequence<core::sync::atomic::AtomicUsize, Vec<Q>>,
        r: Option<OpaqueScalar<A>>,
    ) -> bool {
        exists|index: usize, next: usize| #[trigger]
            sequence_inserted(self.pools@, scalar, after.pools@, index, next, r)
    }

    open spec fn spec_remove_mut(
        &self,
        after: &Sequence<core::sync::atomic::AtomicUsize, Vec<Q>>,
        r: Option<OpaqueScalar<A>>,
    ) -> bool {
        exists|index: usize, next: usize| #[trigger] sequence_removed(self.pools@, after.pools@, index, next, r)
    }

    fn insert_mut(&mut self, scalar: OpaqueScalar<A>) -> Option<OpaqueScalar<A>> {
        let mut index = self.index.load(core::sync::atomic::Ordering::Relaxed);
        let ghost start = index;
        let ghost before = self.pools@;
        let r = sequence_insert(&mut index, &mut self.pools, scalar);
        proof {
            assert(sequence_inserted(before, scalar, self.pools@, start, index, r));
        }
        self.index.store(index, core::sync::atomic::Ordering::Relaxed);
        r
    }

    fn remove_mut(&mut self) -> Option<OpaqueScalar<A>> {
        let mut index = self.index.load(core::sync::atomic::Ordering::Relaxed);
        let ghost start = index;
        let ghost before = self.pools@;
        let r = sequence_remove(&mut index, &mut self.pools);
        proof {
            assert(sequence_removed(before, self.pools@, start, index, r));
        }
        self.index.store(index, core::sync::atomic::Ordering::Relaxed);
        r
    }
}

/// Claim the next place in a round over shared pools: the index moves on by
/// one, and the place it stood at is returned
fn sequence_claim(index: &core::sync::atomic::AtomicUsize) -> usize {
    index.fetch_add(1, core::sync::atomic::Ordering::Relaxed)
}

/// The pools that a shared insertion tried, in order, at the places `ks`:
/// at least one and at most every pool; the `i`th was given `given[i]`,
/// each one before the last gave back the value handed to the next, and
/// the last returned `r`
pub open spec fn shared_insertion_trace<A: ScalarAllocator, Q: Pool<A>>(
    pools: Seq<Q>,
    ks: Seq<int>,
    given: Seq<OpaqueScalar<A>>,
    r: Option<OpaqueScalar<A>>,
) -> bool {
    &&& 1 <= ks.len() <= pools.len()
    &&& given.len() == ks.len() + 1
    &&& forall|i: int|
        #![trigger ks[i]]
        0 <= i < ks.len() ==> {
            &&& 0 <= ks[i] < pools.len()
            &&& pools[ks[i]].spec_insert(given[i], if i + 1 < ks.len() { Some(given[i + 1]) } else { r })
        }
}

/// The pools that a shared removal tried, in order, at the places `ks`:
/// at least one and at most every pool; each one before the last gave
/// nothing, and the last returned `r`
pub open spec fn shared_removal_trace<A: ScalarAllocator, Q: Pool<A>>(
    pools: Seq<Q>,
    ks: Seq<int>,
    r: Option<OpaqueScalar<A>>,
) -> bool {
    &&& 1 <= ks.len() <= pools.len()
    &&& forall|i: int|
        #![trigger ks[i]]
        0 <= i < ks.len() ==> {
            &&& 0 <= ks[i] < pools.len()
            &&& pools[ks[i]].spec_remove(if i + 1 < ks.len() { None } else { r })
        }
}

/// With a shared index, other threads move the round on, so which pools a
/// call tries is not known; what is known is the chain of pools it tried,
/// and that it gives up only after as many tries as there are pools
impl<A: ScalarAllocator, Q: Pool<A>> Pool<A> for Sequence<core::sync::atomic::AtomicUsize, Vec<Q>> {
    open spec fn spec_insert(&self, scalar: OpaqueScalar<A>, r: Option<OpaqueScalar<A>>) -> bool {
        &&& self.pools@.len() == 0 ==> r == Some(scalar)
        &&& self.pools@.len() > 0 ==> exists|ks: Seq<int>, given: Seq<OpaqueScalar<A>>|
            {
                &&& #[trigger] shared_insertion_trace(self.pools@, ks, given, r)
                &&& given[0] == scalar
                &&& r is Some ==> ks.len() == self.pools@.len()
            }
    }

    open spec fn spec_remove(&self, r: Option<OpaqueScalar<A>>) -> bool {
        &&& self.pools@.len() == 0 ==> r is None
        &&& self.pools@.len() > 0 ==> exists|ks: Seq<int>|
            {
                &&& #[trigger] shared_removal_trace(self.pools@, ks, r)
                &&& r is None ==> ks.len() == self.pools@.len()
            }
    }

    fn insert(&self, scalar: OpaqueScalar<A>) -> Option<OpaqueScalar<A>> {
        let n = self.pools.len();
        if n == 0 {
            return Some(scalar);
        }
        let ghost first = scalar;
        let mut held = scalar;
        let mut tried: usize = 0;
        let ghost mut ks: Seq<int> = Seq::empty();
        let ghost mut given: Seq<OpaqueScalar<A>> = seq![held];
        while tried < n
            invariant
                self.pools@.len() == n,
                0 < n,
                tried <= n,
                first == scalar,
                ks.len() == tried,
                given.len() == tried + 1,
                given[0] == first,
                given[tried as int] == held,
                forall|i: int|
                    #![trigger ks[i]]
                    0 <= i < tried ==> {
                        &&& 0 <= ks[i] < n
                        &&& self.pools@[ks[i]].spec_insert(given[i], Some(given[i + 1]))
                    },
            decreases n - tried,
        {
            let current = sequence_claim(&self.index) % n;
            let ghost handed = held;
            match self.pools[current].insert(held) {
                None => {
                    proof {
                        let ks2 = ks.push(current as int);
                        let given2 = given.push(handed);
                        assert(self.pools@[current as int].spec_insert(handed, None::<OpaqueScalar<A>>));
                        assert(ks2[tried as int] == current as int);
                        assert forall|i: int| 0 <= i < ks2.len() implies {
                            &&& 0 <= #[trigger] ks2[i] < n
                            &&& self.pools@[ks2[i]].spec_insert(
                                given2[i],
                                if i + 1 < ks2.len() { Some(given2[i + 1]) } else { None::<OpaqueScalar<A>> },
                            )
                        } by {
                            if i < tried {
                                assert(ks2[i] == ks[i]);
                            }
                        }
                        assert(shared_insertion_trace(self.pools@, ks2, given2, None::<OpaqueScalar<A>>));
                    }
                    return None;
                },
                Some(back) => {
                    proof {
                        assert(self.pools@[current as int].spec_insert(handed, Some(back)));
                        let ks2 = ks.push(current as int);
                        let given2 = given.push(back);
                        assert forall|i: int| 0 <= i < tried + 1 implies {
                            &&& 0 <= #[trigger] ks2[i] < n
                            &&& self.pools@[ks2[i]].spec_insert(given2[i], Some(given2[i + 1]))
                        } by {
                            if i < tried {
                                assert(ks2[i] == ks[i]);
                            }
                        }
                        ks = ks2;
                        given = given2;
                    }
                    held = back;
                },
            }
            tried = tried + 1;
        }
        proof {
            assert(shared_insertion_trace(self.pools@, ks, given, Some(held)));
        }
        Some(held)
    }

    fn remove(&self) -> Option<OpaqueScalar<A>> {
        let n = self.pools.len();
        if n == 0 {
            return None;
        }
        let mut tried: usize = 0;
        let ghost mut ks: Seq<int> = Seq::empty();
        while tried < n
            invariant
                self.pools@.len() == n,
                0 < n,
                tried <= n,
                ks.len() == tried,
                forall|i: int|
                    #![trigger ks[i]]
                    0 <= i < tried ==> {
                        &&& 0 <= ks[i] < n
                        &&& self.pools@[ks[i]].spec_remove(None::<OpaqueScalar<A>>)
                    },
            decreases n - tried,
        {
            let current = sequence_claim(&self.index) % n;
            let taken = self.pools[current].remove();
            proof {
                assert(self.pools@[current as int].spec_remove(taken));
                let ks2 = ks.push(current as int);
                assert forall|i: int| 0 <= i < ks2.len() implies {
                    &&& 0 <= #[trigger] ks2[i] < n
                    &&& self.pools@[ks2[i]].spec_remove(if i + 1 < ks2.len() { None } else { taken })
                } by {
                    if i < tried {
                        assert(ks2[i] == ks[i]);
                    }
                }
                if taken is Some {
                    assert(shared_removal_trace(self.pools@, ks2, taken));
                }
                ks = ks2;
            }
            match taken {
                Some(scalar) => {
                    return Some(scalar);
                },
                None => {},
            }
            tried = tried + 1;
        }
        proof {
            assert(shared_removal_trace(self.pools@, ks, None::<OpaqueScalar<A>>));
        }
        None
    }
}

/// A shared sequence of pools gives nothing only after as many tries as it
/// has pools, each of which gave nothing; a value it gives comes out of
/// one of its pools
pub proof fn lemma_shared_sequence_removal<A: ScalarAllocator, Q: Pool<A>>(
    pools: &Sequence<core::sync::atomic::AtomicUsize, Vec<Q>>,
    r: Option<OpaqueScalar<A>>,
)
    requires
        pools.spec_remove(r),
        pools.pools@.len() > 0,
    ensures
        r is None ==> exists|ks: Seq<int>|
            {
                &&& ks.len() == pools.pools@.len()
                &&& forall|i: int|
                    0 <= i < ks.len() ==> 0 <= #[trigger] ks[i] < pools.pools@.len()
                        && pools.pools@[ks[i]].spec_remove(None::<OpaqueScalar<A>>)
            },
        r is Some ==> exists|k: int| 0 <= k < pools.pools@.len() && #[trigger] pools.pools@[k].spec_remove(r),
{
    let ks = choose|ks: Seq<int>|
        {
            &&& #[trigger] shared_removal_trace(pools.pools@, ks, r)
            &&& r is None ==> ks.len() == pools.pools@.len()
        };
    let last = ks.len() - 1;
    assert(0 <= ks[last] < pools.pools@.len());
    if r is None {
        assert forall|i: int| 0 <= i < ks.len() implies 0 <= #[trigger] ks[i] < pools.pools@.len()
            && pools.pools@[ks[i]].spec_remove(None::<OpaqueScalar<A>>) by {
        }
    } else {
        assert(pools.pools@[ks[last]].spec_remove(r));
    }
}

/// A shared sequence of pools hands a value back only after as many tries
/// as it has pools, each of which handed back what it was given, starting
/// with the value inserted; a value it keeps is kept by one of its pools
pub proof fn lemma_shared_sequence_insertion<A: ScalarAllocator, Q: Pool<A>>(
    pools: &Sequence<core::sync::atomic::AtomicUsize, Vec<Q>>,
    scalar: OpaqueScalar<A>,
    r: Option<OpaqueScalar<A>>,
)
    requires
        pools.spec_insert(scalar, r),
        pools.pools@.len() > 0,
    ensures
        r is Some ==> exists|ks: Seq<int>, given: Seq<OpaqueScalar<A>>|
            {
                &&& ks.len() == pools.pools@.len()
                &&& given.len() == ks.len() + 1
                &&& given[0] == scalar
                &&& r == Some(given[ks.len() as int])
                &&& forall|i: int|
                    0 <= i < ks.len() ==> 0 <= #[trigger] ks[i] < pools.pools@.len()
                        && pools.pools@[ks[i]].spec_insert(given[i], Some(given[i + 1]))
            },
        r is None ==> exists|k: int, s: OpaqueScalar<A>|
            0 <= k < pools.pools@.len() && #[trigger] pools.pools@[k].spec_insert(s, r),
{
    let (ks, given) = choose|ks: Seq<int>, given: Seq<OpaqueScalar<A>>|
        {
            &&& #[trigger] shared_insertion_trace(pools.pools@, ks, given, r)
            &&& given[0] == scalar
            &&& r is Some ==> ks.len() == pools.pools@.len()
        };
    let last = ks.len() - 1;
    assert(0 <= ks[last] < pools.pools@.len());
    if r is Some {
        let given2 = given.update(ks.len() as int, r.unwrap());
        assert forall|i: int| 0 <= i < ks.len() implies 0 <= #[trigger] ks[i] < pools.pools@.len()
            && pools.pools@[ks[i]].spec_insert(given2[i], Some(given2[i + 1])) by {
        }
        assert(given2[0] == scalar);
    } else {
        assert(pools.pools@[ks[last]].spec_insert(given[last], r));
    }
}

} // verus!
