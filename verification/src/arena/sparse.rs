//! Sparse arenas: fast access and mutation, slow iteration, small footprint.
//!
//! Every slot holds either a value or the link to the next free slot, so
//! the free slots form a list threaded through the arena: insertion takes
//! the head of that list, and removal pushes the emptied slot back on it.
//! Each slot carries a [`Version`]; once a slot's version is exhausted the
//! slot is left out of the free list and never used again.

use vstd::prelude::*;

use crate::arena::access::{ArenaKey, BuildArenaKey};
use crate::arena::occupancy::{
    count_occupied, lemma_count_bound, lemma_count_push, lemma_count_skip, lemma_count_update,
    lemma_occupied_indices_take, occupied_indices,
};
use crate::pui_vec::PuiVec;
use crate::version::{lemma_default_equals_saved, lemma_default_version_moves_forward, DefaultVersion, Version};

verus! {

/// The contents of a slot: a value, or the link to the next free slot
#[derive(Debug, Clone)]
enum Data<T> {
    Value(T),
    Next(usize),
}

/// A slot of a sparse arena
#[derive(Debug, Clone)]
struct Slot<T, V> {
    version: V,
    data: Data<T>,
}

/// A sparse arena
#[derive(Clone)]
pub struct Arena<T, I = (), V = DefaultVersion> {
    slots: PuiVec<Slot<T, V>, I>,
    next: usize,
    num_elements: usize,
    free: Ghost<Seq<usize>>,
    occupied: Ghost<Seq<bool>>,
}

spec fn view_slot<T, V>(s: Slot<T, V>) -> (V, Option<T>) {
    (
        s.version,
        match s.data {
            Data::Value(v) => Some(v),
            Data::Next(_) => None,
        },
    )
}

/// The slots that hold a value in `before` and none in `after`
pub open spec fn removed_mask<T, V>(before: Seq<(V, Option<T>)>, after: Seq<(V, Option<T>)>) -> Seq<bool> {
    Seq::new(before.len(), |i: int| before[i].1 is Some && after[i].1 is None)
}

/// Which slots of a view are occupied
pub open spec fn occupancy<T, V>(s: Seq<(V, Option<T>)>) -> Seq<bool> {
    s.map_values(|e: (V, Option<T>)| e.1 is Some)
}

/// The link held by the `j`th free slot: the next free slot, or the end
/// of the arena for the last one
spec fn free_link(free: Seq<usize>, j: int, end: usize) -> usize {
    if j + 1 < free.len() {
        free[j + 1]
    } else {
        end
    }
}

impl<T, I, V: Version> Arena<T, I, V> {
    /// The slots of the arena: their versions, and the values of the occupied ones
    pub closed spec fn view(&self) -> Seq<(V, Option<T>)> {
        self.slots@.map_values(|s: Slot<T, V>| view_slot(s))
    }

    /// The identifier of the arena
    pub closed spec fn spec_ident(&self) -> I {
        self.slots.spec_ident()
    }

    /// The number of values in the arena
    pub closed spec fn spec_len(&self) -> nat {
        self.num_elements as nat
    }

    /// The slot that the next insertion fills: the most recently freed
    /// slot that is still on the free list, or a new slot at the end
    pub closed spec fn spec_next(&self) -> usize {
        self.next
    }

    /// Whether the arena holds a value for `key`: the slot is occupied and,
    /// for a versioned key, its version matches the key's
    pub open spec fn spec_contains<K: ArenaKey<I, V>>(&self, key: K) -> bool {
        let i = key.spec_index() as int;
        &&& 0 <= i < self@.len()
        &&& self@[i].1 is Some
        &&& match key.spec_version() {
            Some(saved) => self@[i].0.spec_equals_saved(saved),
            None => true,
        }
    }

    /// The version that the slot at `i` has before it is filled
    pub open spec fn spec_vacant_version(&self, i: int) -> V {
        if i < self@.len() {
            self@[i].0
        } else {
            V::spec_empty()
        }
    }

    /// The internal consistency of the arena
    pub closed spec fn wf(&self) -> bool {
        let slots = self.slots@;
        let free = self.free@;
        &&& slots.len() <= usize::MAX
        &&& forall|i: int|
            0 <= i < slots.len() ==> (#[trigger] slots[i].version.spec_is_full() <==> slots[i].data is Value)
        &&& forall|j: int|
            0 <= j < free.len() ==> {
                &&& #[trigger] free[j] < slots.len()
                &&& slots[free[j] as int].data == Data::<T>::Next(free_link(free, j, slots.len() as usize))
                &&& !slots[free[j] as int].version.spec_is_exhausted()
            }
        &&& forall|j: int, k: int| 0 <= j < k < free.len() ==> free[j] != free[k]
        &&& self.next == if free.len() > 0 {
            free[0]
        } else {
            slots.len() as usize
        }
        &&& self.occupied@.len() == slots.len()
        &&& forall|i: int| 0 <= i < slots.len() ==> #[trigger] self.occupied@[i] == (slots[i].data is Value)
        &&& self.num_elements == count_occupied(self.occupied@)
    }

    /// The next slot to fill is either past the end or a vacant slot, and
    /// the number of values is the number of occupied slots
    pub proof fn lemma_wf(&self)
        requires
            self.wf(),
        ensures
            self.spec_next() <= self@.len(),
            self.spec_next() < self@.len() ==> self@[self.spec_next() as int].1 is None,
            self.spec_len() == count_occupied(occupancy(self@)),
            self.spec_len() <= self@.len(),
            forall|i: int| 0 <= i < self@.len() ==> (#[trigger] self@[i].0.spec_is_full() <==> self@[i].1 is Some),
    {
        assert(occupancy(self@) =~= self.occupied@);
        lemma_count_bound(occupancy(self@));
        assert(self@.len() == self.slots@.len());
        if self.free@.len() > 0 {
            assert(self.free@[0] < self.slots@.len());
            assert(self.slots@[self.free@[0] as int].data is Next);
        }
    }

    /// Create an empty arena with the given identifier
    pub fn with_ident(ident: I) -> (r: Self)
        ensures
            r.wf(),
            r@ == Seq::<(V, Option<T>)>::empty(),
            r.spec_len() == 0,
            r.spec_next() == 0,
            r.spec_ident() == ident,
    {
        Arena {
            slots: PuiVec::new(ident),
            next: 0,
            num_elements: 0,
            free: Ghost(Seq::empty()),
            occupied: Ghost(Seq::empty()),
        }
    }

    /// The identifier of the arena
    pub fn ident(&self) -> (r: &I)
        ensures
            *r == self.spec_ident(),
    {
        self.slots.ident()
    }

    /// Returns true if the arena holds no value
    pub fn is_empty(&self) -> (r: bool)
        ensures
            r == (self.spec_len() == 0),
    {
        self.num_elements == 0
    }

    /// The number of values in the arena
    pub fn len(&self) -> (r: usize)
        ensures
            r == self.spec_len(),
    {
        self.num_elements
    }

    /// The number of slots in the arena, occupied or not
    pub fn slots(&self) -> (r: usize)
        ensures
            r == self@.len(),
    {
        self.slots.len()
    }

    /// The number of slots the arena can hold without reallocating
    pub fn capacity(&self) -> (r: usize)
        ensures
            r >= self@.len(),
    {
        self.slots.capacity()
    }

    /// Reserve room for at least `additional` more slots
    pub fn reserve(&mut self, additional: usize)
        requires
            old(self).wf(),
        ensures
            final(self).wf(),
            final(self)@ == old(self)@,
            final(self).spec_len() == old(self).spec_len(),
            final(self).spec_next() == old(self).spec_next(),
            final(self).spec_ident() == old(self).spec_ident(),
    {
        self.slots.reserve(additional);
        proof {
            assert(self@ =~= old(self)@);
        }
    }

    /// Whether the arena holds a value for `key`
    pub fn contains<K: ArenaKey<I, V>>(&self, key: K) -> (r: bool)
        requires
            self.wf(),
        ensures
            r == self.spec_contains(key),
    {
        self.contains_ref(&key)
    }

    fn contains_ref<K: ArenaKey<I, V>>(&self, key: &K) -> (r: bool)
        requires
            self.wf(),
        ensures
            r == self.spec_contains(*key),
    {
        let index = key.index();
        if index >= self.slots.len() {
            return false;
        }
        let slot = self.slots.index(index);
        match slot.data {
            Data::Value(_) => match key.version() {
                Some(saved) => slot.version.equals_saved(saved),
                None => true,
            },
            Data::Next(_) => false,
        }
    }
}

impl<T, I, V: Version> Arena<T, I, V> {
    /// The free list: the vacant slots that insertion reuses, most
    /// recently freed first
    pub closed spec fn spec_free(&self) -> Seq<usize> {
        self.free@
    }

    /// The slots once the slot for the next insertion is there
    pub open spec fn spec_with_vacant(&self) -> Seq<(V, Option<T>)> {
        if self.spec_next() < self@.len() {
            self@
        } else {
            self@.push((V::spec_empty(), None))
        }
    }

    /// The slots after inserting `value`
    pub open spec fn spec_after_insert(&self, value: T) -> Seq<(V, Option<T>)> {
        let i = self.spec_next() as int;
        self.spec_with_vacant().update(i, (self.spec_vacant_version(i).spec_mark_full(), Some(value)))
    }

    /// The version of the slot at `i` once its value is removed
    pub open spec fn spec_removed_version(&self, i: int) -> V {
        match self@[i].0.spec_mark_empty() {
            Ok(v) => v,
            Err(v) => v,
        }
    }

    /// The free list is the list of slots that the next insertions take
    pub proof fn lemma_free(&self)
        requires
            self.wf(),
        ensures
            self.spec_free().len() > 0 ==> self.spec_next() == self.spec_free()[0],
            self.spec_free().len() == 0 ==> self.spec_next() == self@.len(),
            forall|j: int|
                0 <= j < self.spec_free().len() ==> #[trigger] self.spec_free()[j] < self@.len()
                    && self@[self.spec_free()[j] as int].1 is None,
            forall|j: int, k: int|
                0 <= j < k < self.spec_free().len() ==> self.spec_free()[j] != self.spec_free()[k],
    {
        assert(self@.len() == self.slots@.len());
        assert forall|j: int| 0 <= j < self.spec_free().len() implies #[trigger] self.spec_free()[j] < self@.len()
            && self@[self.spec_free()[j] as int].1 is None by {
            assert(self.slots@[self.free@[j] as int].data is Next);
        }
    }

    /// Make sure that the slot for the next insertion exists
    pub(crate) fn make_vacant(&mut self)
        requires
            old(self).wf(),
        ensures
            final(self).wf(),
            final(self)@ == old(self).spec_with_vacant(),
            final(self).spec_next() == old(self).spec_next(),
            final(self).spec_next() < final(self)@.len(),
            final(self).spec_len() == old(self).spec_len(),
            final(self).spec_ident() == old(self).spec_ident(),
            old(self).spec_free().len() > 0 ==> final(self).spec_free() == old(self).spec_free(),
            old(self).spec_free().len() == 0 ==> final(self).spec_free() == seq![old(self).spec_next()],
    {
        proof {
            self.lemma_free();
        }
        if self.next == self.slots.len() {
            let len = self.slots.len();
            let link = len.wrapping_add(1);
            let _ = self.slots.push(Slot { version: V::empty(), data: Data::Next(link) });
            proof {
                self.slots.lemma_len_bound();
                assert(self@ =~= old(self)@.push((V::spec_empty(), None)));
                lemma_count_push(self.occupied@, false);
                self.occupied@ = self.occupied@.push(false);
                self.free@ = seq![len];
                assert(self.slots@[len as int].data == Data::<T>::Next(free_link(self.free@, 0, self.slots@.len() as usize)));
            }
        }
    }

    /// Insert a value in the arena, and return its key
    ///
    /// The value goes into the slot of [`spec_next`](Self::spec_next): the
    /// most recently freed slot, or a new one at the end.
    pub fn insert<K: BuildArenaKey<I, V>>(&mut self, value: T) -> (k: K)
        requires
            old(self).wf(),
        ensures
            final(self).wf(),
            k.spec_index() == old(self).spec_next(),
            final(self).spec_contains(k),
            final(self)@ == old(self).spec_after_insert(value),
            k.spec_version() is Some ==> k.spec_version() == Some(
                final(self)@[k.spec_index() as int].0.spec_save(),
            ),
            final(self).spec_len() == old(self).spec_len() + 1,
            final(self).spec_ident() == old(self).spec_ident(),
            old(self).spec_free().len() > 0 ==> final(self).spec_free() == old(self).spec_free().drop_first(),
            old(self).spec_free().len() == 0 ==> final(self).spec_free() == Seq::<usize>::empty(),
    {
        self.make_vacant();
        let ghost mid = *self;
        let index = self.next;
        let version = self.slots.index(index).version;
        let new_next = match self.slots.index(index).data {
            Data::Next(link) => link,
            Data::Value(_) => {
                proof {
                    assert(self.free@[0] < self.slots@.len());
                }
                0
            },
        };
        proof {
            assert(self.free@[0] < self.slots@.len());
            assert(mid@[index as int] == view_slot(mid.slots@[index as int]));
            assert(version == old(self).spec_vacant_version(index as int));
        }
        let full = version.mark_full();
        let _ = self.slots.replace(index, Slot { version: full, data: Data::Value(value) });
        self.next = new_next;
        proof {
            assert(self@ =~= mid@.update(index as int, (full, Some(value))));
            lemma_count_update(mid.occupied@, index as int, true);
            self.occupied@ = mid.occupied@.update(index as int, true);
            lemma_count_bound(self.occupied@);
            assert(self@.len() == self.slots@.len());
            self.free@ = mid.free@.drop_first();
            assert forall|j: int| 0 <= j < self.free@.len() implies {
                &&& #[trigger] self.free@[j] < self.slots@.len()
                &&& self.slots@[self.free@[j] as int].data == Data::<T>::Next(
                    free_link(self.free@, j, self.slots@.len() as usize),
                )
            } by {
                assert(self.free@[j] == mid.free@[j + 1]);
                assert(mid.free@[j + 1] < mid.slots@.len());
                assert(mid.free@[0] != mid.free@[j + 1]);
            }
            if self.free@.len() > 0 {
                assert(mid.free@[1] < mid.slots@.len());
            }
        }
        self.num_elements = self.num_elements + 1;
        let k = K::new_unchecked(index, full.save(), self.slots.ident());
        proof {
            V::lemma_save_matches(full);
        }
        k
    }
}

impl<T, I, V: Version> Arena<T, I, V> {
    /// The slots after removing the value at `i`
    pub open spec fn spec_after_remove(&self, i: int) -> Seq<(V, Option<T>)> {
        self@.update(i, (self.spec_removed_version(i), None))
    }

    /// The free list after removing the value at `i`: the slot goes in
    /// front, unless its version is exhausted
    pub open spec fn spec_free_after_remove(&self, i: int) -> Seq<usize> {
        if self@[i].0.spec_mark_empty() is Ok {
            seq![i as usize] + self.spec_free()
        } else {
            self.spec_free()
        }
    }

    /// Take the value out of the occupied slot at `index`
    fn remove_at(&mut self, index: usize) -> (r: T)
        requires
            old(self).wf(),
            index < old(self)@.len(),
            old(self)@[index as int].1 is Some,
        ensures
            final(self).wf(),
            r == old(self)@[index as int].1.unwrap(),
            final(self)@ == old(self).spec_after_remove(index as int),
            final(self).spec_len() + 1 == old(self).spec_len(),
            final(self).spec_free() == old(self).spec_free_after_remove(index as int),
            final(self).spec_ident() == old(self).spec_ident(),
    {
        proof {
            assert(self@.len() == self.slots@.len());
            assert(self@[index as int] == view_slot(self.slots@[index as int]));
        }
        let version = self.slots.index(index).version;
        let (new_version, relink) = match version.mark_empty() {
            Ok(v) => (v, true),
            Err(v) => (v, false),
        };
        let old_next = self.next;
        let slot = self.slots.replace(index, Slot { version: new_version, data: Data::Next(old_next) });
        if relink {
            self.next = index;
        }
        proof {
            assert(self@ =~= old(self).spec_after_remove(index as int));
            lemma_count_update(old(self).occupied@, index as int, false);
            self.occupied@ = old(self).occupied@.update(index as int, false);
            assert(self@.len() == self.slots@.len());
            if relink {
                self.free@ = seq![index] + old(self).free@;
                assert forall|j: int| 0 <= j < old(self).free@.len() implies old(self).free@[j] != index by {
                    assert(old(self).slots@[old(self).free@[j] as int].data is Next);
                }
                assert forall|j: int| 0 <= j < self.free@.len() implies {
                    &&& #[trigger] self.free@[j] < self.slots@.len()
                    &&& self.slots@[self.free@[j] as int].data == Data::<T>::Next(
                        free_link(self.free@, j, self.slots@.len() as usize),
                    )
                } by {
                    if j > 0 {
                        assert(self.free@[j] == old(self).free@[j - 1]);
                        assert(old(self).free@[j - 1] < old(self).slots@.len());
                    } else if old(self).free@.len() > 0 {
                        assert(old(self).free@[0] < old(self).slots@.len());
                    }
                }
            } else {
                assert forall|j: int| 0 <= j < self.free@.len() implies {
                    &&& #[trigger] self.free@[j] < self.slots@.len()
                    &&& self.slots@[self.free@[j] as int].data == Data::<T>::Next(
                        free_link(self.free@, j, self.slots@.len() as usize),
                    )
                } by {
                    assert(old(self).slots@[old(self).free@[j] as int].data is Next);
                }
            }
        }
        self.num_elements = self.num_elements - 1;
        match slot.data {
            Data::Value(value) => value,
            Data::Next(_) => vstd::pervasive::unreached(),
        }
    }

    /// Remove and return the value of `key`, which the arena must hold
    pub fn remove<K: ArenaKey<I, V>>(&mut self, key: K) -> (r: T)
        requires
            old(self).wf(),
            old(self).spec_contains(key),
        ensures
            final(self).wf(),
            r == old(self)@[key.spec_index() as int].1.unwrap(),
            final(self)@ == old(self).spec_after_remove(key.spec_index() as int),
            !final(self).spec_contains(key),
            final(self).spec_len() + 1 == old(self).spec_len(),
            final(self).spec_free() == old(self).spec_free_after_remove(key.spec_index() as int),
            final(self).spec_ident() == old(self).spec_ident(),
    {
        let index = key.index();
        self.remove_at(index)
    }

    /// Remove and return the value of `key`, if the arena holds one
    pub fn try_remove<K: ArenaKey<I, V>>(&mut self, key: K) -> (r: Option<T>)
        requires
            old(self).wf(),
        ensures
            final(self).wf(),
            old(self).spec_contains(key) ==> {
                &&& r == Some(old(self)@[key.spec_index() as int].1.unwrap())
                &&& final(self)@ == old(self).spec_after_remove(key.spec_index() as int)
                &&& final(self).spec_len() + 1 == old(self).spec_len()
                &&& final(self).spec_free() == old(self).spec_free_after_remove(key.spec_index() as int)
            },
            !old(self).spec_contains(key) ==> {
                &&& r is None
                &&& final(self)@ == old(self)@
                &&& final(self).spec_len() == old(self).spec_len()
                &&& final(self).spec_free() == old(self).spec_free()
                &&& final(self).spec_next() == old(self).spec_next()
            },
            !final(self).spec_contains(key),
            final(self).spec_ident() == old(self).spec_ident(),
    {
        if self.contains_ref(&key) {
            Some(self.remove_at(key.index()))
        } else {
            None
        }
    }

    /// Remove the value of `key`; returns whether there was one
    pub fn delete<K: ArenaKey<I, V>>(&mut self, key: K) -> (r: bool)
        requires
            old(self).wf(),
        ensures
            final(self).wf(),
            r == old(self).spec_contains(key),
            r ==> final(self)@ == old(self).spec_after_remove(key.spec_index() as int)
                && final(self).spec_len() + 1 == old(self).spec_len()
                && final(self).spec_free() == old(self).spec_free_after_remove(key.spec_index() as int),
            !r ==> final(self)@ == old(self)@ && final(self).spec_len() == old(self).spec_len()
                && final(self).spec_free() == old(self).spec_free() && final(self).spec_next() == old(
                self,
            ).spec_next(),
            !final(self).spec_contains(key),
            final(self).spec_ident() == old(self).spec_ident(),
    {
        if self.contains_ref(&key) {
            let _ = self.remove_at(key.index());
            true
        } else {
            false
        }
    }

    /// The value of `key`, if the arena holds one
    pub fn get<K: ArenaKey<I, V>>(&self, key: K) -> (r: Option<&T>)
        requires
            self.wf(),
        ensures
            self.spec_contains(key) ==> r == Some(&self@[key.spec_index() as int].1.unwrap()),
            !self.spec_contains(key) ==> r is None,
    {
        if self.contains_ref(&key) {
            match &self.slots.index(key.index()).data {
                Data::Value(value) => Some(value),
                Data::Next(_) => None,
            }
        } else {
            None
        }
    }

    /// A unique reference to the value of `key`, if the arena holds one
    pub fn get_mut<K: ArenaKey<I, V>>(&mut self, key: K) -> (r: Option<&mut T>)
        requires
            old(self).wf(),
        ensures
            old(self).spec_contains(key) ==> {
                &&& r is Some
                &&& *r.unwrap() == old(self)@[key.spec_index() as int].1.unwrap()
                &&& final(self)@ == old(self)@.update(
                    key.spec_index() as int,
                    (old(self)@[key.spec_index() as int].0, Some(*final(r.unwrap()))),
                )
            },
            !old(self).spec_contains(key) ==> r is None && final(self)@ == old(self)@,
            final(self).wf(),
            final(self).spec_len() == old(self).spec_len(),
            final(self).spec_next() == old(self).spec_next(),
            final(self).spec_free() == old(self).spec_free(),
            final(self).spec_ident() == old(self).spec_ident(),
    {
        if self.contains_ref(&key) {
            let index = key.index();
            let r = match self.slots.get_mut(index) {
                Some(slot) => match &mut slot.data {
                    Data::Value(value) => Some(value),
                    Data::Next(_) => None,
                },
                None => None,
            };
            r
        } else {
            None
        }
    }

    /// The key of the slot at `index`, if it is occupied
    pub fn parse_key<K: BuildArenaKey<I, V>>(&self, index: usize) -> (r: Option<K>)
        requires
            self.wf(),
        ensures
            (index < self@.len() && self@[index as int].1 is Some) <==> r is Some,
            r is Some ==> {
                &&& r.unwrap().spec_index() == index
                &&& self.spec_contains(r.unwrap())
                &&& r.unwrap().spec_version() is Some ==> r.unwrap().spec_version() == Some(
                    self@[index as int].0.spec_save(),
                )
            },
    {
        match self.slots.get(index) {
            Some(slot) => match slot.data {
                Data::Value(_) => {
                    proof {
                        assert(self@[index as int] == view_slot(self.slots@[index as int]));
                        V::lemma_save_matches(slot.version);
                    }
                    Some(K::new_unchecked(index, slot.version.save(), self.slots.ident()))
                },
                Data::Next(_) => None,
            },
            None => None,
        }
    }
}

impl<T, I, V: Version> Arena<T, I, V> {
    /// The indices of the occupied slots, in increasing order
    pub open spec fn spec_occupied(&self) -> Seq<int> {
        occupied_indices(occupancy(self@))
    }

    /// The values of the arena, in the order of their slots
    pub open spec fn spec_values(&self) -> Seq<T> {
        self.spec_occupied().map_values(|i: int| self@[i].1.unwrap())
    }

    /// What remains of a slot once `retain` or `drain_filter` is done with it:
    /// an occupied slot either keeps its value, when `keep` holds of it,
    /// or loses it
    pub open spec fn spec_filtered(
        &self,
        after: (V, Option<T>),
        i: int,
        kept: spec_fn(T) -> bool,
        removed: spec_fn(T) -> bool,
    ) -> bool {
        if self@[i].1 is Some {
            ||| after == self@[i] && kept(self@[i].1.unwrap())
            ||| after == (self.spec_removed_version(i), None::<T>) && removed(self@[i].1.unwrap())
        } else {
            after == self@[i]
        }
    }

    /// Remove every value
    pub fn delete_all(&mut self)
        requires
            old(self).wf(),
        ensures
            final(self).wf(),
            final(self)@.len() == old(self)@.len(),
            forall|i: int|
                0 <= i < old(self)@.len() ==> #[trigger] final(self)@[i] == if old(self)@[i].1 is Some {
                    (old(self).spec_removed_version(i), None)
                } else {
                    old(self)@[i]
                },
            final(self).spec_len() == 0,
            final(self).spec_ident() == old(self).spec_ident(),
    {
        let _ = self.drain();
    }

    /// Keep only the values for which `f` returns true
    pub fn retain<F: Fn(&T) -> bool>(&mut self, f: F)
        requires
            old(self).wf(),
            forall|x: &T| #[trigger] f.requires((x,)),
        ensures
            final(self).wf(),
            final(self)@.len() == old(self)@.len(),
            forall|i: int|
                0 <= i < old(self)@.len() ==> old(self).spec_filtered(
                    #[trigger] final(self)@[i],
                    i,
                    |x: T| f.ensures((&x,), true),
                    |x: T| f.ensures((&x,), false),
                ),
            final(self).spec_ident() == old(self).spec_ident(),
    {
        let _ = self.drain_filter_by(&f, true);
    }

    /// Remove the values for which `f` returns true, and return them in
    /// the order of their slots
    pub fn drain_filter<F: Fn(&T) -> bool>(&mut self, f: F) -> (r: Vec<T>)
        requires
            old(self).wf(),
            forall|x: &T| #[trigger] f.requires((x,)),
        ensures
            final(self).wf(),
            final(self)@.len() == old(self)@.len(),
            forall|i: int|
                0 <= i < old(self)@.len() ==> old(self).spec_filtered(
                    #[trigger] final(self)@[i],
                    i,
                    |x: T| f.ensures((&x,), false),
                    |x: T| f.ensures((&x,), true),
                ),
            r@ == occupied_indices(removed_mask(old(self)@, final(self)@)).map_values(
                |i: int| old(self)@[i].1.unwrap(),
            ),
            final(self).spec_ident() == old(self).spec_ident(),
    {
        self.drain_filter_by(&f, false)
    }

    /// Remove every value, and return them in the order of their slots
    pub fn drain(&mut self) -> (r: Vec<T>)
        requires
            old(self).wf(),
        ensures
            final(self).wf(),
            final(self)@.len() == old(self)@.len(),
            forall|i: int|
                0 <= i < old(self)@.len() ==> #[trigger] final(self)@[i] == if old(self)@[i].1 is Some {
                    (old(self).spec_removed_version(i), None)
                } else {
                    old(self)@[i]
                },
            r@ == old(self).spec_values(),
            final(self).spec_len() == 0,
            final(self).spec_ident() == old(self).spec_ident(),
    {
        let ghost old_self = *self;
        let mut out: Vec<T> = Vec::new();
        let len = self.slots.len();
        let mut i: usize = 0;
        proof {
            self.lemma_wf();
            assert(occupancy(old_self@).skip(0) =~= occupancy(old_self@));
        }
        while i < len
            invariant
                self.wf(),
                len == self@.len(),
                len == old_self@.len(),
                i <= len,
                forall|j: int| i <= j < len ==> #[trigger] self@[j] == old_self@[j],
                forall|j: int|
                    0 <= j < i ==> #[trigger] self@[j] == if old_self@[j].1 is Some {
                        (old_self.spec_removed_version(j), None)
                    } else {
                        old_self@[j]
                    },
                out@ == occupied_indices(occupancy(old_self@).take(i as int)).map_values(
                    |j: int| old_self@[j].1.unwrap(),
                ),
                self.spec_len() == count_occupied(occupancy(old_self@).skip(i as int)),
                self.spec_ident() == old_self.spec_ident(),
            decreases len - i,
        {
            proof {
                lemma_occupied_indices_take(occupancy(old_self@), i as int);
                lemma_count_skip(occupancy(old_self@), i as int);
                self.lemma_wf();
            }
            if self.slot_is_occupied(i) {
                let value = self.remove_at(i);
                out.push(value);
            }
            proof {
                assert(occupancy(old_self@).take(i as int + 1).drop_last() =~= occupancy(old_self@).take(i as int));
                let ghost prev = occupied_indices(occupancy(old_self@).take(i as int));
                assert(out@ =~= occupied_indices(occupancy(old_self@).take(i as int + 1)).map_values(
                    |j: int| old_self@[j].1.unwrap(),
                ));
            }
            i = i + 1;
        }
        proof {
            assert(occupancy(old_self@).take(len as int) =~= occupancy(old_self@));
            assert(occupancy(old_self@).skip(len as int) =~= Seq::<bool>::empty());
        }
        out
    }

    fn drain_filter_by<F: Fn(&T) -> bool>(&mut self, f: &F, keep: bool) -> (r: Vec<T>)
        requires
            old(self).wf(),
            forall|x: &T| #[trigger] f.requires((x,)),
        ensures
            final(self).wf(),
            final(self)@.len() == old(self)@.len(),
            forall|i: int|
                0 <= i < old(self)@.len() ==> old(self).spec_filtered(
                    #[trigger] final(self)@[i],
                    i,
                    |x: T| f.ensures((&x,), keep),
                    |x: T| f.ensures((&x,), !keep),
                ),
            r@ == occupied_indices(removed_mask(old(self)@, final(self)@)).map_values(
                |i: int| old(self)@[i].1.unwrap(),
            ),
            final(self).spec_ident() == old(self).spec_ident(),
    {
        let ghost old_self = *self;
        let mut out: Vec<T> = Vec::new();
        let len = self.slots.len();
        let mut i: usize = 0;
        while i < len
            invariant
                self.wf(),
                len == self@.len(),
                len == old_self@.len(),
                i <= len,
                forall|x: &T| #[trigger] f.requires((x,)),
                forall|j: int| i <= j < len ==> #[trigger] self@[j] == old_self@[j],
                forall|j: int|
                    0 <= j < i ==> old_self.spec_filtered(
                        #[trigger] self@[j],
                        j,
                        |x: T| f.ensures((&x,), keep),
                        |x: T| f.ensures((&x,), !keep),
                    ),
                out@ == occupied_indices(removed_mask(old_self@, self@).take(i as int)).map_values(
                    |j: int| old_self@[j].1.unwrap(),
                ),
                self.spec_ident() == old_self.spec_ident(),
            decreases len - i,
        {
            let ghost before = *self;
            proof {
                self.lemma_wf();
                assert(self@[i as int] == view_slot(self.slots@[i as int]));
            }
            match &self.slots.index(i).data {
                Data::Value(value) => {
                    let b = f(value);
                    if b != keep {
                        let v = self.remove_at(i);
                        out.push(v);
                    }
                },
                Data::Next(_) => {},
            }
            proof {
                let m0 = removed_mask(old_self@, before@);
                let m1 = removed_mask(old_self@, self@);
                assert(m1.take(i as int) =~= m0.take(i as int));
                lemma_occupied_indices_take(m1, i as int);
                assert(out@ =~= occupied_indices(m1.take(i as int + 1)).map_values(
                    |j: int| old_self@[j].1.unwrap(),
                ));
            }
            i = i + 1;
        }
        proof {
            assert(removed_mask(old_self@, self@).take(len as int) =~= removed_mask(old_self@, self@));
        }
        out
    }

    /// The keys of the values, in the order of their slots
    pub fn keys<K: BuildArenaKey<I, V>>(&self) -> (r: Vec<K>)
        requires
            self.wf(),
        ensures
            r@.len() == self.spec_occupied().len(),
            forall|j: int|
                0 <= j < r@.len() ==> {
                    &&& #[trigger] r@[j].spec_index() == self.spec_occupied()[j]
                    &&& self.spec_contains(r@[j])
                },
    {
        let entries: Vec<(K, &T)> = self.entries();
        let mut out: Vec<K> = Vec::new();
        let mut entries = entries;
        let n = entries.len();
        let ghost all = entries@;
        while entries.len() > 0
            invariant
                n == all.len(),
                entries@.len() + out@.len() == n,
                entries@ == all.take(entries@.len() as int),
                forall|j: int|
                    0 <= j < out@.len() ==> #[trigger] out@[j] == all[n - 1 - j].0,
            decreases entries@.len(),
        {
            let (key, _) = entries.pop().unwrap();
            proof {
                assert(entries@ =~= all.take(entries@.len() as int));
            }
            out.push(key);
        }
        let mut keys: Vec<K> = Vec::new();
        while out.len() > 0
            invariant
                n == all.len(),
                out@.len() + keys@.len() == n,
                forall|j: int|
                    0 <= j < out@.len() ==> #[trigger] out@[j] == all[n - 1 - j].0,
                forall|j: int| 0 <= j < keys@.len() ==> #[trigger] keys@[j] == all[j].0,
            decreases out@.len(),
        {
            let key = out.pop().unwrap();
            keys.push(key);
        }
        keys
    }

    /// The values, in the order of their slots
    pub fn iter(&self) -> (r: Vec<&T>)
        requires
            self.wf(),
        ensures
            r@.len() == self.spec_values().len(),
            forall|j: int| 0 <= j < r@.len() ==> *#[trigger] r@[j] == self.spec_values()[j],
    {
        let mut out: Vec<&T> = Vec::new();
        let len = self.slots.len();
        let mut i: usize = 0;
        proof {
            self.lemma_wf();
        }
        while i < len
            invariant
                self.wf(),
                len == self@.len(),
                i <= len,
                out@.len() == occupied_indices(occupancy(self@).take(i as int)).len(),
                forall|j: int|
                    0 <= j < out@.len() ==> *#[trigger] out@[j] == self@[occupied_indices(
                        occupancy(self@).take(i as int),
                    )[j]].1.unwrap(),
            decreases len - i,
        {
            proof {
                lemma_occupied_indices_take(occupancy(self@), i as int);
                assert(self@[i as int] == view_slot(self.slots@[i as int]));
            }
            match &self.slots.index(i).data {
                Data::Value(value) => {
                    out.push(value);
                },
                Data::Next(_) => {},
            }
            i = i + 1;
        }
        proof {
            assert(occupancy(self@).take(len as int) =~= occupancy(self@));
        }
        out
    }

    /// The keys and values, in the order of their slots
    pub fn entries<K: BuildArenaKey<I, V>>(&self) -> (r: Vec<(K, &T)>)
        requires
            self.wf(),
        ensures
            r@.len() == self.spec_occupied().len(),
            forall|j: int|
                0 <= j < r@.len() ==> {
                    &&& #[trigger] r@[j].0.spec_index() == self.spec_occupied()[j]
                    &&& self.spec_contains(r@[j].0)
                    &&& *r@[j].1 == self.spec_values()[j]
                },
    {
        let mut out: Vec<(K, &T)> = Vec::new();
        let len = self.slots.len();
        let mut i: usize = 0;
        proof {
            self.lemma_wf();
        }
        while i < len
            invariant
                self.wf(),
                len == self@.len(),
                i <= len,
                out@.len() == occupied_indices(occupancy(self@).take(i as int)).len(),
                forall|j: int|
                    0 <= j < out@.len() ==> {
                        let idx = occupied_indices(occupancy(self@).take(i as int))[j];
                        &&& #[trigger] out@[j].0.spec_index() == idx
                        &&& self.spec_contains(out@[j].0)
                        &&& *out@[j].1 == self@[idx].1.unwrap()
                    },
            decreases len - i,
        {
            proof {
                lemma_occupied_indices_take(occupancy(self@), i as int);
                assert(self@[i as int] == view_slot(self.slots@[i as int]));
            }
            let slot = self.slots.index(i);
            match &slot.data {
                Data::Value(value) => {
                    proof {
                        V::lemma_save_matches(slot.version);
                    }
                    let key = K::new_unchecked(i, slot.version.save(), self.slots.ident());
                    out.push((key, value));
                },
                Data::Next(_) => {},
            }
            i = i + 1;
        }
        proof {
            assert(occupancy(self@).take(len as int) =~= occupancy(self@));
        }
        out
    }

    /// Take the arena apart into its values, in the order of their slots
    pub fn into_iter(self) -> (r: Vec<T>)
        requires
            self.wf(),
        ensures
            r@ == self.spec_values(),
    {
        let mut arena = self;
        arena.drain()
    }

    /// Take the arena apart into its keys and values, in the order of their slots
    pub fn into_entries<K: BuildArenaKey<I, V>>(self) -> (r: Vec<(K, T)>)
        requires
            self.wf(),
        ensures
            r@.len() == self.spec_occupied().len(),
            forall|j: int|
                0 <= j < r@.len() ==> {
                    &&& #[trigger] r@[j].0.spec_index() == self.spec_occupied()[j]
                    &&& self.spec_contains(r@[j].0)
                    &&& r@[j].1 == self.spec_values()[j]
                },
    {
        let keys: Vec<K> = self.keys();
        let mut arena = self;
        let values = arena.drain();
        let mut out: Vec<(K, T)> = Vec::new();
        let mut keys = keys;
        let mut values = values;
        let n = keys.len();
        let ghost all_keys = keys@;
        let ghost all_values = values@;
        let mut rev: Vec<(K, T)> = Vec::new();
        while keys.len() > 0
            invariant
                n == all_keys.len(),
                n == all_values.len(),
                keys@.len() == values@.len(),
                keys@.len() + rev@.len() == n,
                keys@ == all_keys.take(keys@.len() as int),
                values@ == all_values.take(values@.len() as int),
                forall|j: int|
                    0 <= j < rev@.len() ==> #[trigger] rev@[j] == (all_keys[n - 1 - j], all_values[n - 1 - j]),
            decreases keys@.len(),
        {
            let key = keys.pop().unwrap();
            let value = values.pop().unwrap();
            proof {
                assert(keys@ =~= all_keys.take(keys@.len() as int));
                assert(values@ =~= all_values.take(values@.len() as int));
            }
            rev.push((key, value));
        }
        while rev.len() > 0
            invariant
                n == all_keys.len(),
                n == all_values.len(),
                rev@.len() + out@.len() == n,
                forall|j: int|
                    0 <= j < rev@.len() ==> #[trigger] rev@[j] == (all_keys[n - 1 - j], all_values[n - 1 - j]),
                forall|j: int| 0 <= j < out@.len() ==> #[trigger] out@[j] == (all_keys[j], all_values[j]),
            decreases rev@.len(),
        {
            let entry = rev.pop().unwrap();
            out.push(entry);
        }
        out
    }

    fn slot_is_occupied(&self, i: usize) -> (r: bool)
        requires
            self.wf(),
            i < self@.len(),
        ensures
            r == (self@[i as int].1 is Some),
    {
        proof {
            assert(self@[i as int] == view_slot(self.slots@[i as int]));
        }
        match self.slots.index(i).data {
            Data::Value(_) => true,
            Data::Next(_) => false,
        }
    }
}

impl<T, V: Version> Arena<T, (), V> {
    /// Remove every slot, keeping the allocation
    pub fn clear(&mut self)
        requires
            old(self).wf(),
        ensures
            final(self).wf(),
            final(self)@ == Seq::<(V, Option<T>)>::empty(),
            final(self).spec_len() == 0,
            final(self).spec_next() == 0,
    {
        self.slots.vec_mut().clear();
        self.next = 0;
        self.num_elements = 0;
        proof {
            self.free@ = Seq::empty();
            self.occupied@ = Seq::empty();
            assert(self@ =~= Seq::<(V, Option<T>)>::empty());
        }
    }
}

impl<T> Arena<T> {
    /// Create an empty arena
    pub fn new() -> (r: Self)
        ensures
            r.wf(),
            r@ == Seq::<(DefaultVersion, Option<T>)>::empty(),
            r.spec_len() == 0,
            r.spec_next() == 0,
    {
        Self::with_ident(())
    }
}

impl<T, I, V: Version> Arena<T, I, V> {
    /// What an insertion writes is what a read gives back: the slot that
    /// the insertion fills holds the value, and the other slots stay as
    /// they were
    pub proof fn lemma_insert_then_get(&self, value: T)
        requires
            self.wf(),
        ensures
            self.spec_next() <= self@.len(),
            self.spec_after_insert(value)[self.spec_next() as int].1 == Some(value),
            forall|i: int|
                0 <= i < self@.len() && i != self.spec_next() ==> #[trigger] self.spec_after_insert(value)[i]
                    == self@[i],
    {
        self.lemma_free();
        if self.spec_free().len() > 0 {
            assert(self.spec_free()[0] < self@.len());
        }
    }

    /// A removal empties its slot and leaves the others as they were
    pub proof fn lemma_remove_then_absent(&self, i: int)
        requires
            self.wf(),
            0 <= i < self@.len(),
            self@[i].1 is Some,
        ensures
            self.spec_after_remove(i).len() == self@.len(),
            self.spec_after_remove(i)[i].1 is None,
            forall|j: int| 0 <= j < self@.len() && j != i ==> #[trigger] self.spec_after_remove(i)[j] == self@[j],
    {
    }
}

/// One step of a sparse arena's life: `b` is `a` after an insertion, or
/// after the removal of a value it held
pub open spec fn sparse_step<T, I, V: Version>(a: Arena<T, I, V>, b: Arena<T, I, V>) -> bool {
    &&& a.wf()
    &&& b.wf()
    &&& {
        ||| exists|value: T| b@ == #[trigger] a.spec_after_insert(value)
        ||| exists|j: int| 0 <= j < a@.len() && a@[j].1 is Some && b@ == #[trigger] a.spec_after_remove(j)
    }
}

impl<T, I, V: Version> Arena<T, I, V> {
    /// A vacant slot whose version is exhausted is neither on the free list
    /// nor the slot that the next insertion takes
    pub proof fn lemma_exhausted_not_free(&self, i: int)
        requires
            self.wf(),
            0 <= i < self@.len(),
            self@[i].1 is None,
            self@[i].0.spec_is_exhausted(),
        ensures
            !self.spec_free().contains(i as usize),
            self.spec_next() != i,
    {
        assert(self@[i] == view_slot(self.slots@[i]));
        if self.spec_free().contains(i as usize) {
            let j = choose|j: int| 0 <= j < self.free@.len() && self.free@[j] == i as usize;
            assert(!self.slots@[self.free@[j] as int].version.spec_is_exhausted());
        }
        if self.free@.len() > 0 {
            assert(self.free@[0] == self.spec_free()[0]);
            assert(!self.slots@[self.free@[0] as int].version.spec_is_exhausted());
        }
    }

    /// A slot whose version is exhausted is never handed out again: along
    /// any run of insertions and removals it stays vacant with the same
    /// version, off the free list, and no insertion takes it
    pub proof fn lemma_exhausted_slot_retired(states: Seq<Self>, i: int)
        requires
            states.len() > 0,
            forall|k: int| 0 <= k < states.len() - 1 ==> #[trigger] sparse_step(states[k], states[k + 1]),
            states[0].wf(),
            0 <= i < states[0]@.len(),
            states[0]@[i].1 is None,
            states[0]@[i].0.spec_is_exhausted(),
        ensures
            forall|k: int|
                0 <= k < states.len() ==> {
                    &&& i < (#[trigger] states[k])@.len()
                    &&& states[k]@[i] == states[0]@[i]
                    &&& !states[k].spec_free().contains(i as usize)
                    &&& states[k].spec_next() != i
                },
        decreases states.len(),
    {
        if states.len() > 1 {
            let prefix = states.drop_last();
            assert forall|k: int| 0 <= k < prefix.len() - 1 implies #[trigger] sparse_step(prefix[k], prefix[k + 1]) by {
                assert(sparse_step(states[k], states[k + 1]));
            }
            Self::lemma_exhausted_slot_retired(prefix, i);
            let n = states.len() - 1;
            let a = states[n - 1];
            let b = states[n];
            assert(prefix[n - 1] == a);
            assert(sparse_step(states[n - 1], states[(n - 1) + 1]));
            assert(sparse_step(a, b));
            a.lemma_exhausted_not_free(i);
            a.lemma_wf();
            if exists|value: T| b@ == #[trigger] a.spec_after_insert(value) {
                let value = choose|value: T| b@ == #[trigger] a.spec_after_insert(value);
                assert(b@[i] == a@[i]);
            } else {
                let j = choose|j: int| 0 <= j < a@.len() && a@[j].1 is Some && b@ == #[trigger] a.spec_after_remove(j);
                assert(b@[i] == a@[i]);
            }
            b.lemma_exhausted_not_free(i);
            assert forall|k: int| 0 <= k < states.len() implies {
                &&& i < (#[trigger] states[k])@.len()
                &&& states[k]@[i] == states[0]@[i]
                &&& !states[k].spec_free().contains(i as usize)
                &&& states[k].spec_next() != i
            } by {
                if k < n {
                    assert(states[k] == prefix[k]);
                }
            }
        }
    }
}

impl<T, I> Arena<T, I, DefaultVersion> {
    /// A key stops matching once its value is removed, and keeps failing
    /// once the slot is filled again: versions rule out the ABA problem
    pub proof fn lemma_stale_key<K: ArenaKey<I, DefaultVersion>>(a: Self, b: Self, c: Self, key: K, value: T)
        requires
            a.wf(),
            b.wf(),
            a.spec_contains(key),
            key.spec_version() is Some,
            b@ == a.spec_after_remove(key.spec_index() as int),
            c@ == b.spec_after_insert(value),
        ensures
            !b.spec_contains(key),
            !c.spec_contains(key),
    {
        let i = key.spec_index() as int;
        let saved = key.spec_version().unwrap();
        let v = a@[i].0;
        a.lemma_wf();
        lemma_default_equals_saved(v, saved);
        lemma_default_version_moves_forward(v);
        let e = b@[i].0;
        lemma_default_equals_saved(e, saved);
        lemma_default_equals_saved(e.spec_mark_full(), saved);
        lemma_default_equals_saved(e.spec_mark_full(), v.spec_save());
        assert(v.spec_is_full());
        if b.spec_next() as int == i {
            assert(c@[i] == (e.spec_mark_full(), Some(value)));
            assert(!e.spec_mark_full().spec_equals_saved(saved));
        } else {
            assert(c@[i] == b@[i]);
        }
    }
}

/// The slot that the next value goes into, reserved before the value is
/// there, so that its key is known first
pub struct VacantEntry<'a, T, I, V: Version> {
    /// The arena of the slot
    pub arena: &'a mut Arena<T, I, V>,
}

impl<T, I, V: Version> Arena<T, I, V> {
    /// The key that the slot of [`spec_next`](Self::spec_next) gets when it
    /// is filled
    pub(crate) fn next_key<K: BuildArenaKey<I, V>>(&self) -> (r: K)
        requires
            self.wf(),
            self.spec_next() < self@.len(),
        ensures
            r.spec_index() == self.spec_next(),
            r.spec_version() is Some ==> r.spec_version() == Some(
                self@[self.spec_next() as int].0.spec_mark_full().spec_save(),
            ),
    {
        proof {
            self.lemma_wf();
            self.lemma_free();
            assert(self@[self.spec_next() as int] == view_slot(self.slots@[self.spec_next() as int]));
        }
        let index = self.next;
        let full = self.slots.index(index).version.mark_full();
        proof {
            V::lemma_save_matches(full);
        }
        K::new_unchecked(index, full.save(), self.slots.ident())
    }

    /// Reserve the slot for the next value: the most recently freed slot,
    /// or a new slot at the end
    pub fn vacant_entry(&mut self) -> (r: VacantEntry<'_, T, I, V>)
        requires
            old(self).wf(),
        ensures
            r.arena.wf(),
            r.arena@ == old(self).spec_with_vacant(),
            r.arena.spec_next() == old(self).spec_next(),
            r.arena.spec_next() < r.arena@.len(),
            r.arena.spec_len() == old(self).spec_len(),
            r.arena.spec_ident() == old(self).spec_ident(),
            *final(self) == *final(r.arena),
    {
        self.make_vacant();
        VacantEntry { arena: self }
    }
}

impl<'a, T, I, V: Version> VacantEntry<'a, T, I, V> {
    /// The key that the value will have
    pub fn key<K: BuildArenaKey<I, V>>(&self) -> (r: K)
        requires
            old(self.arena).wf(),
            old(self.arena).spec_next() < old(self.arena)@.len(),
        ensures
            r.spec_index() == old(self.arena).spec_next(),
            r.spec_version() is Some ==> r.spec_version() == Some(
                old(self.arena)@[r.spec_index() as int].0.spec_mark_full().spec_save(),
            ),
    {
        self.arena.next_key()
    }

    /// Put the value in the reserved slot, and return its key
    pub fn insert<K: BuildArenaKey<I, V>>(self, value: T) -> (r: K)
        requires
            old(self.arena).wf(),
        ensures
            final(self.arena).wf(),
            r.spec_index() == old(self.arena).spec_next(),
            final(self.arena).spec_contains(r),
            final(self.arena)@ == old(self.arena).spec_after_insert(value),
            r.spec_version() is Some ==> r.spec_version() == Some(
                final(self.arena)@[r.spec_index() as int].0.spec_save(),
            ),
            final(self.arena).spec_len() == old(self.arena).spec_len() + 1,
            final(self.arena).spec_ident() == old(self.arena).spec_ident(),
    {
        self.arena.insert(value)
    }
}

} // verus!
