//! Dense arenas: the values are packed together in one vector, so that
//! iteration is as fast as over a slice.
//!
//! The slots of a dense arena live in a [sparse arena](crate::arena::sparse)
//! and hold the position of their value; each value in turn remembers its
//! slot, so that removing a value can move the last value into its place.

use vstd::prelude::*;

use crate::arena::access::{ArenaKey, BuildArenaKey};
use crate::arena::occupancy::{lemma_occupied_indices_take, occupied_indices};
use crate::arena::sparse::{removed_mask, Arena as SparseArena};
use crate::pui_vec::vec_capacity;
use crate::version::{lemma_default_equals_saved, lemma_default_version_moves_forward, DefaultVersion, Version};

verus! {

/// A dense arena
pub struct Arena<T, I = (), V = DefaultVersion> {
    slots: SparseArena<usize, I, V>,
    keys: Vec<usize>,
    values: Vec<T>,
}

/// A sequence with the element at `p` taken out and the last element
/// moved into its place
pub open spec fn swap_removed<X>(s: Seq<X>, p: int) -> Seq<X> {
    s.update(p, s.last()).drop_last()
}

/// A slot of the arena of positions, seen with the values it points to
pub open spec fn lookup<T, V>(values: Seq<T>, e: (V, Option<usize>)) -> (V, Option<T>) {
    (
        e.0,
        match e.1 {
            Some(j) => Some(values[j as int]),
            None => None,
        },
    )
}

impl<T, I, V: Version> Arena<T, I, V> {
    /// The slots of the arena: their versions, and the values of the occupied ones
    pub closed spec fn view(&self) -> Seq<(V, Option<T>)> {
        self.slots@.map_values(|e: (V, Option<usize>)| lookup(self.values@, e))
    }

    /// The values, packed in the order in which they are stored
    pub closed spec fn spec_values(&self) -> Seq<T> {
        self.values@
    }

    /// The slot of each value, in the order of the values
    pub closed spec fn spec_order(&self) -> Seq<usize> {
        self.keys@
    }

    /// The identifier of the arena
    pub closed spec fn spec_ident(&self) -> I {
        self.slots.spec_ident()
    }

    /// The number of values in the arena
    pub open spec fn spec_len(&self) -> nat {
        self.spec_values().len()
    }

    /// The slot that the next insertion fills: the most recently freed
    /// slot that is still on the free list, or a new slot at the end
    pub closed spec fn spec_next(&self) -> usize {
        self.slots.spec_next()
    }

    /// The free list: the vacant slots that insertion reuses, most
    /// recently freed first
    pub closed spec fn spec_free(&self) -> Seq<usize> {
        self.slots.spec_free()
    }

    /// The position of the value of the occupied slot at `i`, in
    /// [`spec_values`](Self::spec_values)
    pub closed spec fn spec_position(&self, i: int) -> int {
        self.slots@[i].1.unwrap() as int
    }

    /// The free list after removing the value at `i`: the slot goes in
    /// front, unless its version is exhausted
    pub open spec fn spec_free_after_remove(&self, i: int) -> Seq<usize> {
        if self@[i].0.spec_mark_empty() is Ok {
            seq![i as usize] + self.spec_free()
        } else {
            self.spec_free()
        }
    }

    /// Whether the arena holds a value for `key`
    pub open spec fn spec_contains<K: ArenaKey<I, V>>(&self, key: K) -> bool {
        let i = key.spec_index() as int;
        &&& 0 <= i < self@.len()
        &&& self@[i].1 is Some
        &&& match key.spec_version() {
            Some(saved) => self@[i].0.spec_equals_saved(saved),
            None => true,
        }
    }

    /// The version that the slot at `i` has before it is filled
    pub open spec fn spec_vacant_version(&self, i: int) -> V {
        if i < self@.len() {
            self@[i].0
        } else {
            V::spec_empty()
        }
    }

    /// The slots once the slot for the next insertion is there
    pub open spec fn spec_with_vacant(&self) -> Seq<(V, Option<T>)> {
        if self.spec_next() < self@.len() {
            self@
        } else {
            self@.push((V::spec_empty(), None))
        }
    }

    /// The slots after inserting `value`
    pub open spec fn spec_after_insert(&self, value: T) -> Seq<(V, Option<T>)> {
        let i = self.spec_next() as int;
        self.spec_with_vacant().update(i, (self.spec_vacant_version(i).spec_mark_full(), Some(value)))
    }

    /// The version of the slot at `i` once its value is removed
    pub open spec fn spec_removed_version(&self, i: int) -> V {
        match self@[i].0.spec_mark_empty() {
            Ok(v) => v,
            Err(v) => v,
        }
    }

    /// The slots after removing the value at `i`
    pub open spec fn spec_after_remove(&self, i: int) -> Seq<(V, Option<T>)> {
        self@.update(i, (self.spec_removed_version(i), None))
    }

    /// The internal consistency of the arena: every value knows its slot,
    /// and every occupied slot knows the position of its value
    pub closed spec fn wf(&self) -> bool {
        let s = self.slots@;
        &&& self.slots.wf()
        &&& self.keys@.len() == self.values@.len()
        &&& self.values@.len() == self.slots.spec_len()
        &&& forall|j: int|
            0 <= j < self.keys@.len() ==> #[trigger] self.keys@[j] < s.len() && s[self.keys@[j] as int].1
                == Some(j as usize)
        &&& forall|i: int|
            0 <= i < s.len() && (#[trigger] s[i]).1 is Some ==> s[i].1.unwrap() < self.values@.len()
                && self.keys@[s[i].1.unwrap() as int] == i
    }

    proof fn lemma_view(&self)
        ensures
            self@.len() == self.slots@.len(),
            forall|i: int| 0 <= i < self.slots@.len() ==> #[trigger] self@[i] == lookup(self.values@, self.slots@[i]),
    {
    }

    /// The slots of the values are distinct occupied slots, and the values
    /// are those of the occupied slots
    pub proof fn lemma_wf(&self)
        requires
            self.wf(),
        ensures
            self.spec_order().len() == self.spec_values().len(),
            forall|j: int|
                0 <= j < self.spec_order().len() ==> #[trigger] self.spec_order()[j] < self@.len()
                    && self@[self.spec_order()[j] as int].1 == Some(self.spec_values()[j]),
            forall|j: int, k: int|
                0 <= j < k < self.spec_order().len() ==> self.spec_order()[j] != self.spec_order()[k],
            forall|i: int|
                0 <= i < self@.len() && (#[trigger] self@[i]).1 is Some ==> exists|j: int|
                    0 <= j < self.spec_order().len() && self.spec_order()[j] == i,
            forall|i: int|
                0 <= i < self@.len() && (#[trigger] self@[i]).1 is Some ==> 0 <= self.spec_position(i)
                    < self.spec_order().len() && self.spec_order()[self.spec_position(i)] == i,
            self.spec_next() <= self@.len(),
            self.spec_next() < self@.len() ==> self@[self.spec_next() as int].1 is None,
            forall|i: int| 0 <= i < self@.len() ==> (#[trigger] self@[i].0.spec_is_full() <==> self@[i].1 is Some),
    {
        self.slots.lemma_wf();
        assert forall|i: int| 0 <= i < self@.len() && (#[trigger] self@[i]).1 is Some implies 0 <= self.spec_position(i)
            < self.spec_order().len() && self.spec_order()[self.spec_position(i)] == i by {
            assert(self@[i] == lookup(self.values@, self.slots@[i]));
        }
        vstd::std_specs::vec::axiom_spec_len(&self.keys);
        assert forall|j: int, k: int| 0 <= j < k < self.spec_order().len() implies self.spec_order()[j]
            != self.spec_order()[k] by {
            assert(self.slots@[self.keys@[j] as int].1 == Some(j as usize));
            assert(self.slots@[self.keys@[k] as int].1 == Some(k as usize));
        }
        assert forall|i: int| 0 <= i < self@.len() && (#[trigger] self@[i]).1 is Some implies exists|j: int|
            0 <= j < self.spec_order().len() && self.spec_order()[j] == i by {
            assert(self@[i] == lookup(self.values@, self.slots@[i]));
            let j = self.slots@[i].1.unwrap() as int;
            assert(self.spec_order()[j] == i);
        }
        assert forall|i: int| 0 <= i < self@.len() implies (#[trigger] self@[i].0.spec_is_full() <==> self@[i].1 is Some) by {
            assert(self@[i] == lookup(self.values@, self.slots@[i]));
        }
        if self.spec_next() < self@.len() {
            assert(self@[self.spec_next() as int] == lookup(self.values@, self.slots@[self.spec_next() as int]));
        }
    }

    /// The next insertion takes the head of the free list, or a new slot
    /// when the list is empty; the free list holds distinct vacant slots
    pub proof fn lemma_free(&self)
        requires
            self.wf(),
        ensures
            self.spec_free().len() > 0 ==> self.spec_next() == self.spec_free()[0],
            self.spec_free().len() == 0 ==> self.spec_next() == self@.len(),
            forall|j: int|
                0 <= j < self.spec_free().len() ==> #[trigger] self.spec_free()[j] < self@.len()
                    && self@[self.spec_free()[j] as int].1 is None,
            forall|j: int, k: int|
                0 <= j < k < self.spec_free().len() ==> self.spec_free()[j] != self.spec_free()[k],
    {
        self.slots.lemma_free();
        assert forall|j: int| 0 <= j < self.spec_free().len() implies #[trigger] self.spec_free()[j] < self@.len()
            && self@[self.spec_free()[j] as int].1 is None by {
            assert(self.slots.spec_free()[j] < self.slots@.len());
            assert(self@[self.spec_free()[j] as int] == lookup(self.values@, self.slots@[self.spec_free()[j] as int]));
        }
    }

    /// Create an empty arena with the given identifier
    pub fn with_ident(ident: I) -> (r: Self)
        ensures
            r.wf(),
            r@ == Seq::<(V, Option<T>)>::empty(),
            r.spec_len() == 0,
            r.spec_next() == 0,
            r.spec_ident() == ident,
    {
        let r = Arena { slots: SparseArena::with_ident(ident), keys: Vec::new(), values: Vec::new() };
        proof {
            assert(r@ =~= Seq::<(V, Option<T>)>::empty());
        }
        r
    }

    /// The identifier of the arena
    pub fn ident(&self) -> (r: &I)
        ensures
            *r == self.spec_ident(),
    {
        self.slots.ident()
    }

    /// Returns true if the arena holds no value
    pub fn is_empty(&self) -> (r: bool)
        ensures
            r == (self.spec_len() == 0),
    {
        self.values.len() == 0
    }

    /// The number of values in the arena
    pub fn len(&self) -> (r: usize)
        ensures
            r == self.spec_len(),
    {
        self.values.len()
    }

    /// The number of values the arena can hold without reallocating
    pub fn capacity(&self) -> (r: usize)
        ensures
            r >= self.spec_len(),
    {
        vec_capacity(&self.values)
    }

    /// Reserve room for at least `additional` more values
    pub fn reserve(&mut self, additional: usize)
        requires
            old(self).wf(),
        ensures
            final(self).wf(),
            final(self)@ == old(self)@,
            final(self).spec_values() == old(self).spec_values(),
            final(self).spec_order() == old(self).spec_order(),
            final(self).spec_next() == old(self).spec_next(),
            final(self).spec_ident() == old(self).spec_ident(),
    {
        self.values.reserve(additional);
        self.keys.reserve(additional);
        self.slots.reserve(additional);
        proof {
            assert(self@ =~= old(self)@);
        }
    }

    /// Whether the arena holds a value for `key`
    pub fn contains<K: ArenaKey<I, V>>(&self, key: K) -> (r: bool)
        requires
            self.wf(),
        ensures
            r == self.spec_contains(key),
    {
        proof {
            self.lemma_key(&key);
        }
        self.slots.contains(key)
    }

    proof fn lemma_key<K: ArenaKey<I, V>>(&self, key: &K)
        ensures
            self.spec_contains(*key) == self.slots.spec_contains(*key),
            self.spec_contains(*key) ==> self.slots@[key.spec_index() as int].1.unwrap() < self.values@.len() || !self.wf(),
    {
        let i = key.spec_index() as int;
        if 0 <= i < self@.len() {
            assert(self@[i] == lookup(self.values@, self.slots@[i]));
        }
    }

    /// The value of `key`, if the arena holds one
    pub fn get<K: ArenaKey<I, V>>(&self, key: K) -> (r: Option<&T>)
        requires
            self.wf(),
        ensures
            self.spec_contains(key) ==> r == Some(&self@[key.spec_index() as int].1.unwrap()),
            !self.spec_contains(key) ==> r is None,
    {
        proof {
            self.lemma_key(&key);
        }
        match self.slots.get(key) {
            Some(position) => Some(&self.values[*position]),
            None => None,
        }
    }

    /// A unique reference to the value of `key`, if the arena holds one
    pub fn get_mut<K: ArenaKey<I, V>>(&mut self, key: K) -> (r: Option<&mut T>)
        requires
            old(self).wf(),
        ensures
            old(self).spec_contains(key) ==> {
                &&& r is Some
                &&& *r.unwrap() == old(self)@[key.spec_index() as int].1.unwrap()
                &&& final(self)@ == old(self)@.update(
                    key.spec_index() as int,
                    (old(self)@[key.spec_index() as int].0, Some(*final(r.unwrap()))),
                )
            },
            !old(self).spec_contains(key) ==> r is None && final(self)@ == old(self)@,
            final(self).wf(),
            final(self).spec_order() == old(self).spec_order(),
            final(self).spec_len() == old(self).spec_len(),
            final(self).spec_next() == old(self).spec_next(),
            final(self).spec_ident() == old(self).spec_ident(),
    {
        proof {
            self.lemma_key(&key);
        }
        match self.slots.get(key) {
            Some(position) => {
                let position = *position;
                Some(&mut self.values[position])
            },
            None => None,
        }
    }

    /// The key of the slot at `index`, if it is occupied
    pub fn parse_key<K: BuildArenaKey<I, V>>(&self, index: usize) -> (r: Option<K>)
        requires
            self.wf(),
        ensures
            (index < self@.len() && self@[index as int].1 is Some) <==> r is Some,
            r is Some ==> {
                &&& r.unwrap().spec_index() == index
                &&& self.spec_contains(r.unwrap())
                &&& r.unwrap().spec_version() is Some ==> r.unwrap().spec_version() == Some(
                    self@[index as int].0.spec_save(),
                )
            },
    {
        proof {
            if index < self@.len() {
                assert(self@[index as int] == lookup(self.values@, self.slots@[index as int]));
            }
        }
        let r: Option<K> = self.slots.parse_key(index);
        proof {
            if r is Some {
                self.lemma_key(&r.unwrap());
            }
        }
        r
    }

    /// Insert a value in the arena, and return its key
    pub fn insert<K: BuildArenaKey<I, V>>(&mut self, value: T) -> (k: K)
        requires
            old(self).wf(),
        ensures
            final(self).wf(),
            k.spec_index() == old(self).spec_next(),
            final(self).spec_contains(k),
            final(self)@ == old(self).spec_after_insert(value),
            k.spec_version() is Some ==> k.spec_version() == Some(
                final(self)@[k.spec_index() as int].0.spec_save(),
            ),
            final(self).spec_values() == old(self).spec_values().push(value),
            final(self).spec_order() == old(self).spec_order().push(k.spec_index()),
            old(self).spec_free().len() > 0 ==> final(self).spec_free() == old(self).spec_free().drop_first(),
            old(self).spec_free().len() == 0 ==> final(self).spec_free() == Seq::<usize>::empty(),
            final(self).spec_ident() == old(self).spec_ident(),
    {
        proof {
            self.slots.lemma_wf();
            vstd::std_specs::vec::axiom_spec_len(&self.values);
        }
        let position = self.values.len();
        self.values.push(value);
        let k: K = self.slots.insert(position);
        let index = k.index();
        self.keys.push(index);
        proof {
            let s0 = old(self).slots@;
            let s1 = self.slots@;
            assert(self@ =~= old(self).spec_after_insert(value)) by {
                assert(old(self)@.len() == s0.len());
                assert forall|i: int| 0 <= i < s1.len() implies #[trigger] self@[i] == old(self).spec_after_insert(value)[i] by {
                    assert(self@[i] == lookup(self.values@, s1[i]));
                    if i != index as int && i < s0.len() {
                        assert(old(self)@[i] == lookup(old(self).values@, s0[i]));
                    }
                }
            }
            assert forall|j: int| 0 <= j < self.keys@.len() implies #[trigger] self.keys@[j] < s1.len()
                && s1[self.keys@[j] as int].1 == Some(j as usize) by {
                if j < old(self).keys@.len() {
                    assert(old(self).keys@[j] != index) by {
                        assert(s0[old(self).keys@[j] as int].1 is Some);
                    }
                }
            }
        }
        k
    }

    /// Take out the value at `position`, whose slot is already vacated,
    /// moving the last value into its place
    fn take_value(&mut self, position: usize, ghost_slot: Ghost<int>) -> (r: T)
        requires
            old(self).slots.wf(),
            old(self).keys@.len() == old(self).values@.len(),
            old(self).values@.len() == old(self).slots.spec_len() + 1,
            position < old(self).values@.len(),
            old(self).keys@[position as int] == ghost_slot@,
            0 <= ghost_slot@ < old(self).slots@.len(),
            old(self).slots@[ghost_slot@].1 is None,
            forall|j: int|
                0 <= j < old(self).keys@.len() && j != position ==> #[trigger] old(self).keys@[j]
                    < old(self).slots@.len() && old(self).slots@[old(self).keys@[j] as int].1 == Some(j as usize),
            forall|i: int|
                0 <= i < old(self).slots@.len() && (#[trigger] old(self).slots@[i]).1 is Some ==> old(self).slots@[i].1.unwrap()
                    < old(self).values@.len() && old(self).slots@[i].1.unwrap() != position
                    && old(self).keys@[old(self).slots@[i].1.unwrap() as int] == i,
        ensures
            final(self).wf(),
            r == old(self).values@[position as int],
            final(self).spec_ident() == old(self).spec_ident(),
            final(self).slots.spec_next() == old(self).slots.spec_next(),
            final(self).slots.spec_free() == old(self).slots.spec_free(),
            forall|i: int|
                0 <= i < old(self).slots@.len() ==> #[trigger] final(self)@[i] == lookup(
                    old(self).values@,
                    old(self).slots@[i],
                ),
            final(self)@.len() == old(self).slots@.len(),
            final(self).values@.len() + 1 == old(self).values@.len(),
            final(self).values@ == swap_removed(old(self).values@, position as int),
            final(self).keys@ == swap_removed(old(self).keys@, position as int),
    {
        let last = self.values.len() - 1;
        let value = self.values.swap_remove(position);
        let _ = self.keys.swap_remove(position);
        if position < last {
            let moved = self.keys[position];
            proof {
                assert(old(self).keys@[last as int] == moved);
                assert(old(self).slots@[moved as int].1 == Some(last));
            }
            match self.slots.get_mut(moved) {
                Some(slot) => {
                    *slot = position;
                },
                None => {},
            }
        }
        proof {
            let s0 = old(self).slots@;
            let s1 = self.slots@;
            assert forall|j: int| 0 <= j < self.keys@.len() implies #[trigger] self.keys@[j] < s1.len()
                && s1[self.keys@[j] as int].1 == Some(j as usize) by {
                if j == position && position < last {
                } else {
                    assert(old(self).keys@[j] != old(self).keys@[last as int]);
                }
            }
            assert forall|i: int| 0 <= i < s1.len() && (#[trigger] s1[i]).1 is Some implies s1[i].1.unwrap()
                < self.values@.len() && self.keys@[s1[i].1.unwrap() as int] == i by {
                assert(s0[i].1 is Some);
            }
            assert forall|i: int| 0 <= i < s0.len() implies #[trigger] self@[i] == lookup(old(self).values@, s0[i]) by {
                assert(self@[i] == lookup(self.values@, s1[i]));
            }
        }
        value
    }

    /// Remove and return the value of `key`, if the arena holds one
    pub fn try_remove<K: ArenaKey<I, V>>(&mut self, key: K) -> (r: Option<T>)
        requires
            old(self).wf(),
        ensures
            final(self).wf(),
            old(self).spec_contains(key) ==> {
                let i = key.spec_index() as int;
                let p = old(self).spec_position(i);
                &&& r == Some(old(self)@[i].1.unwrap())
                &&& final(self)@ == old(self).spec_after_remove(i)
                &&& final(self).spec_len() + 1 == old(self).spec_len()
                &&& final(self).spec_values() == swap_removed(old(self).spec_values(), p)
                &&& final(self).spec_order() == swap_removed(old(self).spec_order(), p)
                &&& final(self).spec_free() == old(self).spec_free_after_remove(i)
            },
            !old(self).spec_contains(key) ==> {
                &&& r is None
                &&& final(self)@ == old(self)@
                &&& final(self).spec_values() == old(self).spec_values()
                &&& final(self).spec_order() == old(self).spec_order()
                &&& final(self).spec_free() == old(self).spec_free()
                &&& final(self).spec_next() == old(self).spec_next()
            },
            !final(self).spec_contains(key),
            final(self).spec_ident() == old(self).spec_ident(),
    {
        proof {
            self.lemma_key(&key);
            self.slots.lemma_wf();
        }
        let ghost index = key.spec_index() as int;
        match self.slots.try_remove(key) {
            Some(position) => {
                proof {
                    vstd::std_specs::vec::axiom_spec_len(&self.keys);
                    assert(old(self)@[index] == lookup(old(self).values@, old(self).slots@[index]));
                    assert(old(self).keys@[position as int] == index);
                    assert forall|j: int|
                        0 <= j < self.keys@.len() && j != position implies #[trigger] self.keys@[j]
                            < self.slots@.len() && self.slots@[self.keys@[j] as int].1 == Some(j as usize) by {
                        assert(old(self).slots@[old(self).keys@[j] as int].1 == Some(j as usize));
                    }
                    assert forall|i: int|
                        0 <= i < self.slots@.len() && (#[trigger] self.slots@[i]).1 is Some implies self.slots@[i].1.unwrap()
                            != position by {
                        assert(old(self).slots@[i].1 is Some);
                    }
                }
                let value = self.take_value(position, Ghost(index));
                proof {
                    assert(old(self)@[index].0 == old(self).slots@[index].0);
                    assert(self@ =~= old(self).spec_after_remove(index)) by {
                        assert forall|i: int| 0 <= i < self@.len() implies #[trigger] self@[i]
                            == old(self).spec_after_remove(index)[i] by {
                            assert(old(self)@[i] == lookup(old(self).values@, old(self).slots@[i]));
                        }
                    }
                }
                Some(value)
            },
            None => {
                proof {
                    assert(self@ =~= old(self)@);
                }
                None
            },
        }
    }

    /// Remove and return the value of `key`, which the arena must hold
    pub fn remove<K: ArenaKey<I, V>>(&mut self, key: K) -> (r: T)
        requires
            old(self).wf(),
            old(self).spec_contains(key),
        ensures
            final(self).wf(),
            r == old(self)@[key.spec_index() as int].1.unwrap(),
            final(self)@ == old(self).spec_after_remove(key.spec_index() as int),
            !final(self).spec_contains(key),
            final(self).spec_len() + 1 == old(self).spec_len(),
            final(self).spec_values() == swap_removed(
                old(self).spec_values(),
                old(self).spec_position(key.spec_index() as int),
            ),
            final(self).spec_order() == swap_removed(
                old(self).spec_order(),
                old(self).spec_position(key.spec_index() as int),
            ),
            final(self).spec_free() == old(self).spec_free_after_remove(key.spec_index() as int),
            final(self).spec_ident() == old(self).spec_ident(),
    {
        match self.try_remove(key) {
            Some(value) => value,
            None => vstd::pervasive::unreached(),
        }
    }

    /// Remove the value of `key`; returns whether there was one
    pub fn delete<K: ArenaKey<I, V>>(&mut self, key: K) -> (r: bool)
        requires
            old(self).wf(),
        ensures
            final(self).wf(),
            r == old(self).spec_contains(key),
            r ==> {
                let i = key.spec_index() as int;
                let p = old(self).spec_position(i);
                &&& final(self)@ == old(self).spec_after_remove(i)
                &&& final(self).spec_len() + 1 == old(self).spec_len()
                &&& final(self).spec_values() == swap_removed(old(self).spec_values(), p)
                &&& final(self).spec_order() == swap_removed(old(self).spec_order(), p)
                &&& final(self).spec_free() == old(self).spec_free_after_remove(i)
            },
            !r ==> {
                &&& final(self)@ == old(self)@
                &&& final(self).spec_values() == old(self).spec_values()
                &&& final(self).spec_order() == old(self).spec_order()
                &&& final(self).spec_free() == old(self).spec_free()
                &&& final(self).spec_next() == old(self).spec_next()
            },
            !final(self).spec_contains(key),
            final(self).spec_ident() == old(self).spec_ident(),
    {
        match self.try_remove(key) {
            Some(_) => true,
            None => false,
        }
    }
}

impl<T, I, V: Version> Arena<T, I, V> {
    /// What remains of a slot once `retain` or `drain_filter` is done with it:
    /// an occupied slot either keeps its value, when `kept` holds of it,
    /// or loses it, when `removed` holds of it
    pub open spec fn spec_filtered(
        &self,
        after: (V, Option<T>),
        i: int,
        kept: spec_fn(T) -> bool,
        removed: spec_fn(T) -> bool,
    ) -> bool {
        if self@[i].1 is Some {
            ||| after == self@[i] && kept(self@[i].1.unwrap())
            ||| after == (self.spec_removed_version(i), None::<T>) && removed(self@[i].1.unwrap())
        } else {
            after == self@[i]
        }
    }

    /// The keys of the values, in the order in which the values are stored
    pub fn keys<K: BuildArenaKey<I, V>>(&self) -> (r: Vec<K>)
        requires
            self.wf(),
        ensures
            r@.len() == self.spec_order().len(),
            forall|j: int|
                0 <= j < r@.len() ==> #[trigger] r@[j].spec_index() == self.spec_order()[j] && self.spec_contains(
                    r@[j],
                ),
    {
        proof {
            self.lemma_wf();
        }
        let mut out: Vec<K> = Vec::new();
        let len = self.keys.len();
        let mut j: usize = 0;
        while j < len
            invariant
                self.wf(),
                len == self.spec_order().len(),
                j <= len,
                out@.len() == j,
                forall|m: int|
                    0 <= m < j ==> #[trigger] out@[m].spec_index() == self.spec_order()[m] && self.spec_contains(
                        out@[m],
                    ),
            decreases len - j,
        {
            proof {
                self.lemma_wf();
            }
            let slot = self.keys[j];
            match self.parse_key(slot) {
                Some(key) => {
                    out.push(key);
                },
                None => {
                    proof {
                        assert(false);
                    }
                },
            }
            j = j + 1;
        }
        out
    }

    /// The values, in the order in which they are stored
    pub fn iter(&self) -> (r: Vec<&T>)
        ensures
            r@.len() == self.spec_values().len(),
            forall|j: int| 0 <= j < r@.len() ==> *#[trigger] r@[j] == self.spec_values()[j],
    {
        let mut out: Vec<&T> = Vec::new();
        let len = self.values.len();
        let mut j: usize = 0;
        while j < len
            invariant
                len == self.spec_values().len(),
                j <= len,
                out@.len() == j,
                forall|m: int| 0 <= m < j ==> *#[trigger] out@[m] == self.spec_values()[m],
            decreases len - j,
        {
            out.push(&self.values[j]);
            j = j + 1;
        }
        out
    }

    /// The keys and values, in the order in which the values are stored
    pub fn entries<K: BuildArenaKey<I, V>>(&self) -> (r: Vec<(K, &T)>)
        requires
            self.wf(),
        ensures
            r@.len() == self.spec_order().len(),
            forall|j: int|
                0 <= j < r@.len() ==> {
                    &&& #[trigger] r@[j].0.spec_index() == self.spec_order()[j]
                    &&& self.spec_contains(r@[j].0)
                    &&& *r@[j].1 == self.spec_values()[j]
                },
    {
        proof {
            self.lemma_wf();
        }
        let mut out: Vec<(K, &T)> = Vec::new();
        let len = self.keys.len();
        let mut j: usize = 0;
        while j < len
            invariant
                self.wf(),
                len == self.spec_order().len(),
                len == self.spec_values().len(),
                j <= len,
                out@.len() == j,
                forall|m: int|
                    0 <= m < j ==> {
                        &&& #[trigger] out@[m].0.spec_index() == self.spec_order()[m]
                        &&& self.spec_contains(out@[m].0)
                        &&& *out@[m].1 == self.spec_values()[m]
                    },
            decreases len - j,
        {
            proof {
                self.lemma_wf();
            }
            let slot = self.keys[j];
            match self.parse_key(slot) {
                Some(key) => {
                    out.push((key, &self.values[j]));
                },
                None => {
                    proof {
                        assert(false);
                    }
                },
            }
            j = j + 1;
        }
        out
    }

    /// Take the arena apart into its values, in the order in which they are stored
    pub fn into_iter(self) -> (r: Vec<T>)
        ensures
            r@ == self.spec_values(),
    {
        self.values
    }

    /// Take the arena apart into its keys and values, in the order in
    /// which the values are stored
    pub fn into_entries<K: BuildArenaKey<I, V>>(self) -> (r: Vec<(K, T)>)
        requires
            self.wf(),
        ensures
            r@.len() == self.spec_order().len(),
            forall|j: int|
                0 <= j < r@.len() ==> {
                    &&& #[trigger] r@[j].0.spec_index() == self.spec_order()[j]
                    &&& self.spec_contains(r@[j].0)
                    &&& r@[j].1 == self.spec_values()[j]
                },
    {
        let keys: Vec<K> = self.keys();
        let mut values = self.values;
        let mut keys = keys;
        let n = keys.len();
        let ghost all_keys = keys@;
        let ghost all_values = values@;
        let mut rev: Vec<(K, T)> = Vec::new();
        while keys.len() > 0
            invariant
                n == all_keys.len(),
                n == all_values.len(),
                keys@.len() == values@.len(),
                keys@.len() + rev@.len() == n,
                keys@ == all_keys.take(keys@.len() as int),
                values@ == all_values.take(values@.len() as int),
                forall|j: int|
                    0 <= j < rev@.len() ==> #[trigger] rev@[j] == (all_keys[n - 1 - j], all_values[n - 1 - j]),
            decreases keys@.len(),
        {
            let key = keys.pop().unwrap();
            let value = values.pop().unwrap();
            proof {
                assert(keys@ =~= all_keys.take(keys@.len() as int));
                assert(values@ =~= all_values.take(values@.len() as int));
            }
            rev.push((key, value));
        }
        let mut out: Vec<(K, T)> = Vec::new();
        while rev.len() > 0
            invariant
                n == all_keys.len(),
                n == all_values.len(),
                rev@.len() + out@.len() == n,
                forall|j: int|
                    0 <= j < rev@.len() ==> #[trigger] rev@[j] == (all_keys[n - 1 - j], all_values[n - 1 - j]),
                forall|j: int| 0 <= j < out@.len() ==> #[trigger] out@[j] == (all_keys[j], all_values[j]),
            decreases rev@.len(),
        {
            let entry = rev.pop().unwrap();
            out.push(entry);
        }
        out
    }

    /// Remove every value, and return them in the order in which they are stored
    pub fn drain(&mut self) -> (r: Vec<T>)
        requires
            old(self).wf(),
        ensures
            final(self).wf(),
            final(self)@.len() == old(self)@.len(),
            forall|i: int|
                0 <= i < old(self)@.len() ==> #[trigger] final(self)@[i] == if old(self)@[i].1 is Some {
                    (old(self).spec_removed_version(i), None)
                } else {
                    old(self)@[i]
                },
            r@ == old(self).spec_values(),
            final(self).spec_len() == 0,
            final(self).spec_ident() == old(self).spec_ident(),
    {
        self.slots.delete_all();
        let mut values: Vec<T> = Vec::new();
        core::mem::swap(&mut values, &mut self.values);
        self.keys.clear();
        proof {
            assert forall|i: int| 0 <= i < old(self)@.len() implies #[trigger] self@[i] == if old(self)@[i].1 is Some {
                (old(self).spec_removed_version(i), None)
            } else {
                old(self)@[i]
            } by {
                assert(old(self)@[i] == lookup(old(self).values@, old(self).slots@[i]));
                assert(self@[i] == lookup(self.values@, self.slots@[i]));
            }
        }
        values
    }

    /// Remove every value
    pub fn delete_all(&mut self)
        requires
            old(self).wf(),
        ensures
            final(self).wf(),
            final(self)@.len() == old(self)@.len(),
            forall|i: int|
                0 <= i < old(self)@.len() ==> #[trigger] final(self)@[i] == if old(self)@[i].1 is Some {
                    (old(self).spec_removed_version(i), None)
                } else {
                    old(self)@[i]
                },
            final(self).spec_len() == 0,
            final(self).spec_ident() == old(self).spec_ident(),
    {
        let _ = self.drain();
    }

    /// Keep only the values for which `f` returns true
    pub fn retain<F: Fn(&T) -> bool>(&mut self, f: F)
        requires
            old(self).wf(),
            forall|x: &T| #[trigger] f.requires((x,)),
        ensures
            final(self).wf(),
            final(self)@.len() == old(self)@.len(),
            forall|i: int|
                0 <= i < old(self)@.len() ==> old(self).spec_filtered(
                    #[trigger] final(self)@[i],
                    i,
                    |x: T| f.ensures((&x,), true),
                    |x: T| f.ensures((&x,), false),
                ),
            final(self).spec_ident() == old(self).spec_ident(),
    {
        let _ = self.drain_filter_by(&f, true);
    }

    /// Remove the values for which `f` returns true, and return them in
    /// the order of their slots
    pub fn drain_filter<F: Fn(&T) -> bool>(&mut self, f: F) -> (r: Vec<T>)
        requires
            old(self).wf(),
            forall|x: &T| #[trigger] f.requires((x,)),
        ensures
            final(self).wf(),
            final(self)@.len() == old(self)@.len(),
            forall|i: int|
                0 <= i < old(self)@.len() ==> old(self).spec_filtered(
                    #[trigger] final(self)@[i],
                    i,
                    |x: T| f.ensures((&x,), false),
                    |x: T| f.ensures((&x,), true),
                ),
            r@ == occupied_indices(removed_mask(old(self)@, final(self)@)).map_values(
                |i: int| old(self)@[i].1.unwrap(),
            ),
            final(self).spec_ident() == old(self).spec_ident(),
    {
        self.drain_filter_by(&f, false)
    }

    fn drain_filter_by<F: Fn(&T) -> bool>(&mut self, f: &F, keep: bool) -> (r: Vec<T>)
        requires
            old(self).wf(),
            forall|x: &T| #[trigger] f.requires((x,)),
        ensures
            final(self).wf(),
            final(self)@.len() == old(self)@.len(),
            forall|i: int|
                0 <= i < old(self)@.len() ==> old(self).spec_filtered(
                    #[trigger] final(self)@[i],
                    i,
                    |x: T| f.ensures((&x,), keep),
                    |x: T| f.ensures((&x,), !keep),
                ),
            r@ == occupied_indices(removed_mask(old(self)@, final(self)@)).map_values(
                |i: int| old(self)@[i].1.unwrap(),
            ),
            final(self).spec_ident() == old(self).spec_ident(),
    {
        let ghost old_self = *self;
        let mut out: Vec<T> = Vec::new();
        let len = self.slots.slots();
        let mut i: usize = 0;
        while i < len
            invariant
                self.wf(),
                len == self@.len(),
                len == old_self@.len(),
                i <= len,
                forall|x: &T| #[trigger] f.requires((x,)),
                forall|j: int| i <= j < len ==> #[trigger] self@[j] == old_self@[j],
                forall|j: int|
                    0 <= j < i ==> old_self.spec_filtered(
                        #[trigger] self@[j],
                        j,
                        |x: T| f.ensures((&x,), keep),
                        |x: T| f.ensures((&x,), !keep),
                    ),
                out@ == occupied_indices(removed_mask(old_self@, self@).take(i as int)).map_values(
                    |j: int| old_self@[j].1.unwrap(),
                ),
                self.spec_ident() == old_self.spec_ident(),
            decreases len - i,
        {
            let ghost before = *self;
            match self.get(i) {
                Some(value) => {
                    let b = f(value);
                    if b != keep {
                        let v = self.remove(i);
                        out.push(v);
                    }
                },
                None => {},
            }
            proof {
                let m0 = removed_mask(old_self@, before@);
                let m1 = removed_mask(old_self@, self@);
                assert(m1.take(i as int) =~= m0.take(i as int));
                lemma_occupied_indices_take(m1, i as int);
                assert(out@ =~= occupied_indices(m1.take(i as int + 1)).map_values(
                    |j: int| old_self@[j].1.unwrap(),
                ));
            }
            i = i + 1;
        }
        proof {
            assert(removed_mask(old_self@, self@).take(len as int) =~= removed_mask(old_self@, self@));
        }
        out
    }
}

impl<T, V: Version> Arena<T, (), V> {
    /// Remove every slot, keeping the allocation
    pub fn clear(&mut self)
        requires
            old(self).wf(),
        ensures
            final(self).wf(),
            final(self)@ == Seq::<(V, Option<T>)>::empty(),
            final(self).spec_len() == 0,
            final(self).spec_next() == 0,
    {
        self.slots.clear();
        self.values.clear();
        self.keys.clear();
        proof {
            assert(self@ =~= Seq::<(V, Option<T>)>::empty());
        }
    }
}

impl<T> Arena<T> {
    /// Create an empty arena
    pub fn new() -> (r: Self)
        ensures
            r.wf(),
            r@ == Seq::<(DefaultVersion, Option<T>)>::empty(),
            r.spec_len() == 0,
            r.spec_next() == 0,
    {
        Self::with_ident(())
    }
}

impl<T, I, V: Version> Arena<T, I, V> {
    /// What an insertion writes is what a read gives back: the slot that
    /// the insertion fills holds the value, and the other slots stay as
    /// they were
    pub proof fn lemma_insert_then_get(&self, value: T)
        requires
            self.wf(),
        ensures
            self.spec_next() <= self@.len(),
            self.spec_after_insert(value)[self.spec_next() as int].1 == Some(value),
            forall|i: int|
                0 <= i < self@.len() && i != self.spec_next() ==> #[trigger] self.spec_after_insert(value)[i]
                    == self@[i],
    {
        self.lemma_view();
        self.slots.lemma_free();
        if self.slots.spec_free().len() > 0 {
            assert(self.slots.spec_free()[0] < self.slots@.len());
        }
    }

    /// A removal empties its slot and leaves the others as they were
    pub proof fn lemma_remove_then_absent(&self, i: int)
        requires
            self.wf(),
            0 <= i < self@.len(),
            self@[i].1 is Some,
        ensures
            self.spec_after_remove(i).len() == self@.len(),
            self.spec_after_remove(i)[i].1 is None,
            forall|j: int| 0 <= j < self@.len() && j != i ==> #[trigger] self.spec_after_remove(i)[j] == self@[j],
    {
    }
}

impl<T, I> Arena<T, I, DefaultVersion> {
    /// A key stops matching once its value is removed, and keeps failing
    /// once the slot is filled again: versions rule out the ABA problem
    pub proof fn lemma_stale_key<K: ArenaKey<I, DefaultVersion>>(a: Self, b: Self, c: Self, key: K, value: T)
        requires
            a.wf(),
            b.wf(),
            a.spec_contains(key),
            key.spec_version() is Some,
            b@ == a.spec_after_remove(key.spec_index() as int),
            c@ == b.spec_after_insert(value),
        ensures
            !b.spec_contains(key),
            !c.spec_contains(key),
    {
        let i = key.spec_index() as int;
        let saved = key.spec_version().unwrap();
        let v = a@[i].0;
        a.lemma_wf();
        a.lemma_view();
        assert(a.slots.spec_contains(key)) by {
            a.lemma_key(&key);
        }
        a.slots.lemma_wf();
        b.lemma_view();
        b.slots.lemma_free();
        if b.slots.spec_free().len() > 0 {
            assert(b.slots.spec_free()[0] < b.slots@.len());
        }
        assert(v == a.slots@[i].0);
        lemma_default_equals_saved(v, saved);
        lemma_default_version_moves_forward(v);
        let e = b@[i].0;
        lemma_default_equals_saved(e, saved);
        lemma_default_equals_saved(e.spec_mark_full(), saved);
        lemma_default_equals_saved(e.spec_mark_full(), v.spec_save());
        assert(v.spec_is_full());
        if b.spec_next() as int == i {
            assert(c@[i] == (e.spec_mark_full(), Some(value)));
            assert(!e.spec_mark_full().spec_equals_saved(saved));
        } else {
            assert(c@[i] == b@[i]);
        }
    }
}

/// The slot that the next value goes into, reserved before the value is
/// there, so that its key is known first
pub struct VacantEntry<'a, T, I, V: Version> {
    /// The arena of the slot
    pub arena: &'a mut Arena<T, I, V>,
}

impl<T, I, V: Version> Arena<T, I, V> {
    /// Reserve the slot for the next value: the most recently freed slot,
    /// or a new slot at the end
    pub fn vacant_entry(&mut self) -> (r: VacantEntry<'_, T, I, V>)
        requires
            old(self).wf(),
        ensures
            r.arena.wf(),
            r.arena@ == old(self).spec_with_vacant(),
            r.arena.spec_next() == old(self).spec_next(),
            r.arena.spec_next() < r.arena@.len(),
            r.arena.spec_values() == old(self).spec_values(),
            r.arena.spec_order() == old(self).spec_order(),
            r.arena.spec_ident() == old(self).spec_ident(),
            *final(self) == *final(r.arena),
    {
        self.slots.make_vacant();
        proof {
            let s0 = old(self).slots@;
            let s1 = self.slots@;
            assert(self@ =~= old(self).spec_with_vacant()) by {
                assert forall|i: int| 0 <= i < s1.len() implies #[trigger] self@[i] == old(self).spec_with_vacant()[i] by {
                    assert(self@[i] == lookup(self.values@, s1[i]));
                    if i < s0.len() {
                        assert(old(self)@[i] == lookup(old(self).values@, s0[i]));
                    }
                }
            }
        }
        VacantEntry { arena: self }
    }
}

impl<'a, T, I, V: Version> VacantEntry<'a, T, I, V> {
    /// The key that the value will have
    pub fn key<K: BuildArenaKey<I, V>>(&self) -> (r: K)
        requires
            old(self.arena).wf(),
            old(self.arena).spec_next() < old(self.arena)@.len(),
        ensures
            r.spec_index() == old(self.arena).spec_next(),
            r.spec_version() is Some ==> r.spec_version() == Some(
                old(self.arena)@[r.spec_index() as int].0.spec_mark_full().spec_save(),
            ),
    {
        proof {
            self.arena.lemma_view();
        }
        self.arena.slots.next_key()
    }

    /// Put the value in the reserved slot, and return its key
    pub fn insert<K: BuildArenaKey<I, V>>(self, value: T) -> (r: K)
        requires
            old(self.arena).wf(),
        ensures
            final(self.arena).wf(),
            r.spec_index() == old(self.arena).spec_next(),
            final(self.arena).spec_contains(r),
            final(self.arena)@ == old(self.arena).spec_after_insert(value),
            r.spec_version() is Some ==> r.spec_version() == Some(
                final(self.arena)@[r.spec_index() as int].0.spec_save(),
            ),
            final(self.arena).spec_values() == old(self.arena).spec_values().push(value),
            final(self.arena).spec_order() == old(self.arena).spec_order().push(r.spec_index()),
            final(self.arena).spec_ident() == old(self.arena).spec_ident(),
    {
        self.arena.insert(value)
    }
}

} // verus!
