//! Hop arenas: fast access, fast iteration, fast mutation.
//!
//! The vacant slots of a hop arena form blocks of consecutive slots. The
//! first and the last slot of each block point to each other, so that
//! iteration hops over a whole block at once, and the blocks are kept in a
//! doubly linked list whose head is the sentinel slot 0. The block that
//! touches the sentinel is not on the list: the sentinel points to its end
//! instead. Insertion takes the end of the sentinel's block, or else the
//! start of the first block on the list; removal joins the emptied slot to
//! the blocks beside it. A slot whose version is exhausted stays vacant on
//! its own, outside every block, and is never used again.

use vstd::prelude::*;

use crate::arena::access::{ArenaKey, BuildArenaKey};
use crate::arena::occupancy::{
    count_occupied, lemma_count_bound, lemma_count_push, lemma_count_skip, lemma_count_update,
    lemma_occupied_indices_take, lemma_occupied_indices_vacant, occupied_indices,
};
use crate::arena::sparse::{occupancy, removed_mask};
use crate::pui_vec::PuiVec;
use crate::version::{lemma_default_equals_saved, lemma_default_version_moves_forward, DefaultVersion, Version};

verus! {

/// The links of a vacant slot: the blocks before and after it on the list,
/// and the other end of its block
#[derive(Debug, Clone, Copy)]
struct FreeNode {
    next: usize,
    prev: usize,
    other_end: usize,
}

/// The state of a slot: its version, and its links while it is vacant
#[derive(Debug, Clone, Copy)]
struct Slot<V> {
    version: V,
    free: Option<FreeNode>,
}

/// A hop arena: the states of the slots, and beside them the values of
/// the occupied ones
#[derive(Clone)]
pub struct Arena<T, I = (), V = DefaultVersion> {
    slots: PuiVec<Slot<V>, I>,
    values: Vec<Option<T>>,
    num_elements: usize,
    list: Ghost<Seq<usize>>,
    run: Ghost<Seq<(int, int)>>,
    pos: Ghost<Seq<int>>,
    occupied: Ghost<Seq<bool>>,
}

spec fn node<V>(s: Seq<Slot<V>>, i: int) -> FreeNode {
    s[i].free->Some_0
}

/// A vacant slot that can be used again
spec fn reusable<V: Version>(s: Seq<Slot<V>>, i: int) -> bool {
    s[i].free is Some && !s[i].version.spec_is_exhausted()
}

spec fn list_next(list: Seq<usize>, k: int) -> usize {
    if k + 1 < list.len() {
        list[k + 1]
    } else {
        0
    }
}

spec fn list_prev(list: Seq<usize>, k: int) -> usize {
    if k > 0 {
        list[k - 1]
    } else {
        0
    }
}

/// The block `run[i]` of the reusable slot `i`: its ends point to each
/// other, and it is as long as it can be
spec fn run_ok<V: Version>(s: Seq<Slot<V>>, run: Seq<(int, int)>, i: int) -> bool {
    let a = run[i].0;
    let b = run[i].1;
    &&& 0 <= a <= i <= b < s.len()
    &&& node(s, a).other_end == b
    &&& node(s, b).other_end == a
    &&& (a == 0 || !reusable(s, a - 1))
    &&& (b + 1 == s.len() || !reusable(s, b + 1))
}

/// The `k`th block on the list: the start of a block, linked to its
/// neighbours on the list
spec fn list_ok<V: Version>(s: Seq<Slot<V>>, list: Seq<usize>, run: Seq<(int, int)>, k: int) -> bool {
    let x = list[k] as int;
    &&& 0 < x < s.len()
    &&& reusable(s, x)
    &&& run[x].0 == x
    &&& node(s, x).next == list_next(list, k)
    &&& node(s, x).prev == list_prev(list, k)
}

/// A slot is vacant exactly when its version is empty
spec fn versions_ok<V: Version>(s: Seq<Slot<V>>) -> bool {
    forall|i: int| 0 <= i < s.len() ==> (#[trigger] s[i].version.spec_is_full() <==> s[i].free is None)
}

/// A vacant slot whose version is exhausted is a block of its own
spec fn dead_ok<V: Version>(s: Seq<Slot<V>>) -> bool {
    forall|i: int|
        0 < i < s.len() && #[trigger] s[i].free is Some && s[i].version.spec_is_exhausted() ==> node(s, i).other_end == i
}

/// Every reusable slot lies in its block
spec fn runs_ok<V: Version>(s: Seq<Slot<V>>, run: Seq<(int, int)>) -> bool {
    forall|i: int| 0 <= i < s.len() && #[trigger] reusable(s, i) ==> run_ok(s, run, i)
}

/// The slots of a block are reusable, and lie in the same block
spec fn runs_coherent<V: Version>(s: Seq<Slot<V>>, run: Seq<(int, int)>) -> bool {
    &&& forall|i: int, j: int|
        #![trigger run[i], reusable(s, j)]
        0 <= i < s.len() && reusable(s, i) && run[i].0 <= j <= run[i].1 ==> reusable(s, j)
    &&& forall|i: int, j: int|
        #![trigger run[i], run[j]]
        0 <= i < s.len() && reusable(s, i) && run[i].0 <= j <= run[i].1 ==> run[j] == run[i]
}

/// The blocks on the list are linked in order, from the sentinel
spec fn list_linked<V: Version>(s: Seq<Slot<V>>, list: Seq<usize>, run: Seq<(int, int)>) -> bool {
    &&& forall|k: int| 0 <= k < list.len() ==> #[trigger] list_ok(s, list, run, k)
    &&& node(s, 0).next == (if list.len() > 0 {
        list[0]
    } else {
        0
    })
    &&& forall|j: int, k: int| 0 <= j < k < list.len() ==> list[j] != list[k]
}

/// Every block but the sentinel's is on the list, at its position
spec fn starts_listed<V: Version>(s: Seq<Slot<V>>, list: Seq<usize>, run: Seq<(int, int)>, pos: Seq<int>) -> bool {
    forall|i: int|
        0 < i < s.len() && #[trigger] reusable(s, i) && run[i].0 == i ==> 0 <= pos[i] < list.len() && list[pos[i]] == i
}

/// The free blocks of the slots `s`, given the list of blocks, the block of
/// each reusable slot, and the position on the list of each block start
spec fn blocks_wf<V: Version>(
    s: Seq<Slot<V>>,
    list: Seq<usize>,
    run: Seq<(int, int)>,
    pos: Seq<int>,
) -> bool {
    &&& 1 <= s.len() <= usize::MAX
    &&& run.len() == s.len()
    &&& pos.len() == s.len()
    &&& reusable(s, 0)
    &&& versions_ok(s)
    &&& dead_ok(s)
    &&& runs_ok(s, run)
    &&& runs_coherent(s, run)
    &&& list_linked(s, list, run)
    &&& starts_listed(s, list, run, pos)
}

/// Whether the slot at `i` of the view `v` is vacant and can be used
/// again: it exists, holds no value, and its version is not exhausted
pub open spec fn hop_reusable<T, V: Version>(v: Seq<(V, Option<T>)>, i: int) -> bool {
    &&& 0 <= i < v.len()
    &&& v[i].1 is None
    &&& !v[i].0.spec_is_exhausted()
}

impl<T, I, V: Version> Arena<T, I, V> {
    /// The slots of the arena: their versions, and the values of the occupied ones
    pub closed spec fn view(&self) -> Seq<(V, Option<T>)> {
        Seq::new(self.slots@.len(), |i: int| (self.slots@[i].version, self.values@[i]))
    }

    /// The identifier of the arena
    pub closed spec fn spec_ident(&self) -> I {
        self.slots.spec_ident()
    }

    /// The number of values in the arena
    pub closed spec fn spec_len(&self) -> nat {
        self.num_elements as nat
    }

    /// Whether the arena holds a value for `key`
    pub open spec fn spec_contains<K: ArenaKey<I, V>>(&self, key: K) -> bool {
        let i = key.spec_index() as int;
        &&& 0 <= i < self@.len()
        &&& self@[i].1 is Some
        &&& match key.spec_version() {
            Some(saved) => self@[i].0.spec_equals_saved(saved),
            None => true,
        }
    }

    /// The internal consistency of the arena
    pub closed spec fn wf(&self) -> bool {
        &&& blocks_wf(self.slots@, self.list@, self.run@, self.pos@)
        &&& self.values@.len() == self.slots@.len()
        &&& self.occupied@.len() == self.slots@.len()
        &&& forall|i: int|
            0 <= i < self.slots@.len() ==> #[trigger] self.occupied@[i] == (self.slots@[i].free is None)
                && self.occupied@[i] == (self.values@[i] is Some)
        &&& self.num_elements == count_occupied(self.occupied@)
    }


    /// Slot 0 is the sentinel, never occupied; an occupied slot has a full
    /// version; the number of values is the number of occupied slots
    pub proof fn lemma_wf(&self)
        requires
            self.wf(),
        ensures
            self@.len() >= 1,
            self@[0].1 is None,
            forall|i: int| 0 <= i < self@.len() ==> (#[trigger] self@[i].0.spec_is_full() <==> self@[i].1 is Some),
            self.spec_len() <= self@.len(),
    {
        assert(self.occupied@[0] == (self.slots@[0].free is None));
        assert forall|i: int| 0 <= i < self@.len() implies (#[trigger] self@[i].0.spec_is_full() <==> self@[i].1 is Some) by {
            assert(self.occupied@[i] == (self.slots@[i].free is None));
        }
        lemma_count_bound(self.occupied@);
    }

    /// Create an empty arena with the given identifier
    pub fn with_ident(ident: I) -> (r: Self)
        ensures
            r.wf(),
            r@ == seq![(V::spec_empty(), None::<T>)],
            r.spec_len() == 0,
            r.spec_ident() == ident,
    {
        let sentinel = Slot { version: V::empty(), free: Some(FreeNode { next: 0, prev: 0, other_end: 0 }) };
        let mut slots = PuiVec::new(ident);
        let _ = slots.push(sentinel);
        let mut values: Vec<Option<T>> = Vec::new();
        values.push(None);
        let ghost run0: Seq<(int, int)> = seq![(0int, 0int)];
        let ghost pos0: Seq<int> = seq![0int];
        let ghost occupied0: Seq<bool> = seq![false];
        let r = Arena {
            slots,
            values,
            num_elements: 0,
            list: Ghost(Seq::empty()),
            run: Ghost(run0),
            pos: Ghost(pos0),
            occupied: Ghost(occupied0),
        };
        proof {
            assert(r@ =~= seq![(V::spec_empty(), None::<T>)]);
            assert(r.occupied@.drop_last() =~= Seq::<bool>::empty());
            let sl = r.slots@;
            assert(sl.len() == 1);
            assert(reusable(sl, 0));
            assert(run_ok(sl, r.run@, 0));
            assert(forall|i: int| 0 <= i < sl.len() && #[trigger] reusable(sl, i) ==> run_ok(sl, r.run@, i));
            assert(blocks_wf(sl, r.list@, r.run@, r.pos@));
            assert(count_occupied(r.occupied@.drop_last()) == 0);
            assert(!r.occupied@.last());
            assert(count_occupied(r.occupied@) == 0);
            assert forall|i: int, j: int|
                0 <= i < r.slots@.len() && reusable(r.slots@, i) && r.run@[i].0 <= j <= r.run@[i].1 implies reusable(
                r.slots@,
                j,
            ) && r.run@[j] == r.run@[i] by {}
        }
        r
    }

    /// The identifier of the arena
    pub fn ident(&self) -> (r: &I)
        ensures
            *r == self.spec_ident(),
    {
        self.slots.ident()
    }

    /// Returns true if the arena holds no value
    pub fn is_empty(&self) -> (r: bool)
        ensures
            r == (self.spec_len() == 0),
    {
        self.num_elements == 0
    }

    /// The number of values in the arena
    pub fn len(&self) -> (r: usize)
        ensures
            r == self.spec_len(),
    {
        self.num_elements
    }

    /// The number of slots the arena can hold without reallocating
    pub fn capacity(&self) -> (r: usize)
        ensures
            r >= self@.len(),
    {
        self.slots.capacity()
    }

    /// Reserve room for at least `additional` more slots
    pub fn reserve(&mut self, additional: usize)
        requires
            old(self).wf(),
        ensures
            final(self).wf(),
            final(self)@ == old(self)@,
            final(self).spec_len() == old(self).spec_len(),
            final(self).spec_ident() == old(self).spec_ident(),
    {
        self.slots.reserve(additional);
        proof {
            assert(self@ =~= old(self)@);
        }
    }

    /// Whether the arena holds a value for `key`
    pub fn contains<K: ArenaKey<I, V>>(&self, key: K) -> (r: bool)
        requires
            self.wf(),
        ensures
            r == self.spec_contains(key),
    {
        self.contains_ref(&key)
    }

    fn contains_ref<K: ArenaKey<I, V>>(&self, key: &K) -> (r: bool)
        requires
            self.wf(),
        ensures
            r == self.spec_contains(*key),
    {
        let index = key.index();
        if index >= self.slots.len() {
            return false;
        }
        let slot = self.slots.index(index);
        proof {
            assert(self.occupied@[index as int] == (self.values@[index as int] is Some));
        }
        match slot.free {
            None => match key.version() {
                Some(saved) => slot.version.equals_saved(saved),
                None => true,
            },
            Some(_) => false,
        }
    }

    /// The value of `key`, if the arena holds one
    pub fn get<K: ArenaKey<I, V>>(&self, key: K) -> (r: Option<&T>)
        requires
            self.wf(),
        ensures
            self.spec_contains(key) ==> r == Some(&self@[key.spec_index() as int].1.unwrap()),
            !self.spec_contains(key) ==> r is None,
    {
        if self.contains_ref(&key) {
            self.values[key.index()].as_ref()
        } else {
            None
        }
    }

    /// A unique reference to the value of `key`, if the arena holds one
    pub fn get_mut<K: ArenaKey<I, V>>(&mut self, key: K) -> (r: Option<&mut T>)
        requires
            old(self).wf(),
        ensures
            old(self).spec_contains(key) ==> {
                &&& r is Some
                &&& *r.unwrap() == old(self)@[key.spec_index() as int].1.unwrap()
                &&& final(self)@ == old(self)@.update(
                    key.spec_index() as int,
                    (old(self)@[key.spec_index() as int].0, Some(*final(r.unwrap()))),
                )
            },
            !old(self).spec_contains(key) ==> r is None && final(self)@ == old(self)@,
            final(self).wf(),
            final(self).spec_len() == old(self).spec_len(),
            final(self).spec_ident() == old(self).spec_ident(),
    {
        if self.contains_ref(&key) {
            let index = key.index();
            proof {
                assert(self.occupied@[index as int] == (self.values@[index as int] is Some));
            }
            match &mut self.values[index] {
                Some(value) => Some(value),
                None => None,
            }
        } else {
            None
        }
    }

    /// The key of the slot at `index`, if it is occupied
    pub fn parse_key<K: BuildArenaKey<I, V>>(&self, index: usize) -> (r: Option<K>)
        requires
            self.wf(),
        ensures
            (index < self@.len() && self@[index as int].1 is Some) <==> r is Some,
            r is Some ==> {
                &&& r.unwrap().spec_index() == index
                &&& self.spec_contains(r.unwrap())
                &&& r.unwrap().spec_version() is Some ==> r.unwrap().spec_version() == Some(
                    self@[index as int].0.spec_save(),
                )
            },
    {
        match self.slots.get(index) {
            Some(slot) => {
                proof {
                    assert(self.occupied@[index as int] == (self.values@[index as int] is Some));
                }
                match slot.free {
                    None => {
                        proof {
                            V::lemma_save_matches(slot.version);
                        }
                        Some(K::new_unchecked(index, slot.version.save(), self.slots.ident()))
                    },
                    Some(_) => None,
                }
            },
            None => None,
        }
    }
}

impl<T, I, V: Version> Arena<T, I, V> {
    fn get_node(&self, i: usize) -> (r: FreeNode)
        requires
            i < self.slots@.len(),
            self.slots@[i as int].free is Some,
        ensures
            r == node(self.slots@, i as int),
    {
        match self.slots.index(i).free {
            Some(n) => n,
            None => FreeNode { next: 0, prev: 0, other_end: 0 },
        }
    }

    fn set_node(&mut self, i: usize, n: FreeNode)
        requires
            i < old(self).slots@.len(),
        ensures
            final(self).slots@ == old(self).slots@.update(
                i as int,
                Slot { version: old(self).slots@[i as int].version, free: Some(n) },
            ),
            final(self).slots.spec_ident() == old(self).slots.spec_ident(),
            final(self).values == old(self).values,
            final(self).num_elements == old(self).num_elements,
            final(self).list == old(self).list,
            final(self).run == old(self).run,
            final(self).pos == old(self).pos,
            final(self).occupied == old(self).occupied,
    {
        let version = self.slots.index(i).version;
        let _ = self.slots.replace(i, Slot { version, free: Some(n) });
    }

    fn set_other_end(&mut self, i: usize, other_end: usize)
        requires
            i < old(self).slots@.len(),
            old(self).slots@[i as int].free is Some,
        ensures
            final(self).slots@ == old(self).slots@.update(
                i as int,
                Slot {
                    version: old(self).slots@[i as int].version,
                    free: Some(FreeNode { other_end, ..node(old(self).slots@, i as int) }),
                },
            ),
            final(self).slots.spec_ident() == old(self).slots.spec_ident(),
            final(self).values == old(self).values,
            final(self).num_elements == old(self).num_elements,
            final(self).list == old(self).list,
            final(self).run == old(self).run,
            final(self).pos == old(self).pos,
            final(self).occupied == old(self).occupied,
    {
        let n = self.get_node(i);
        self.set_node(i, FreeNode { other_end, ..n });
    }

    fn set_next(&mut self, i: usize, next: usize)
        requires
            i < old(self).slots@.len(),
            old(self).slots@[i as int].free is Some,
        ensures
            final(self).slots@ == old(self).slots@.update(
                i as int,
                Slot {
                    version: old(self).slots@[i as int].version,
                    free: Some(FreeNode { next, ..node(old(self).slots@, i as int) }),
                },
            ),
            final(self).slots.spec_ident() == old(self).slots.spec_ident(),
            final(self).values == old(self).values,
            final(self).num_elements == old(self).num_elements,
            final(self).list == old(self).list,
            final(self).run == old(self).run,
            final(self).pos == old(self).pos,
            final(self).occupied == old(self).occupied,
    {
        let n = self.get_node(i);
        self.set_node(i, FreeNode { next, ..n });
    }

    fn set_prev(&mut self, i: usize, prev: usize)
        requires
            i < old(self).slots@.len(),
            old(self).slots@[i as int].free is Some,
        ensures
            final(self).slots@ == old(self).slots@.update(
                i as int,
                Slot {
                    version: old(self).slots@[i as int].version,
                    free: Some(FreeNode { prev, ..node(old(self).slots@, i as int) }),
                },
            ),
            final(self).slots.spec_ident() == old(self).slots.spec_ident(),
            final(self).values == old(self).values,
            final(self).num_elements == old(self).num_elements,
            final(self).list == old(self).list,
            final(self).run == old(self).run,
            final(self).pos == old(self).pos,
            final(self).occupied == old(self).occupied,
    {
        let n = self.get_node(i);
        self.set_node(i, FreeNode { prev, ..n });
    }

    /// The slot that the next insertion fills: the last slot of the block
    /// beside the sentinel, or else the first slot of the first block on
    /// the list, or else a new slot at the end
    pub closed spec fn spec_next(&self) -> int {
        let sentinel = node(self.slots@, 0);
        if sentinel.other_end != 0 {
            sentinel.other_end as int
        } else if sentinel.next != 0 {
            sentinel.next as int
        } else {
            self.slots@.len() as int
        }
    }

    /// The slot that the next insertion fills is past the end or vacant,
    /// and it is past the end only when no vacant slot can be used again:
    /// the arena grows only when every vacant slot is exhausted
    pub proof fn lemma_next(&self)
        requires
            self.wf(),
        ensures
            0 < self.spec_next() <= self@.len(),
            self.spec_next() < self@.len() ==> self@[self.spec_next()].1 is None && !self@[self.spec_next()].0.spec_is_exhausted(),
            self.spec_next() == self@.len() <==> forall|i: int|
                0 < i < self@.len() && #[trigger] self@[i].1 is None ==> self@[i].0.spec_is_exhausted(),
    {
        let s = self.slots@;
        let run = self.run@;
        assert(reusable(s, 0));
        assert(run_ok(s, run, 0));
        if node(s, 0).other_end != 0 {
            let e = node(s, 0).other_end as int;
            assert(run[e] == run[0]);
            assert(reusable(s, e));
            assert(self.occupied@[e] == (s[e].free is None));
            assert(self.occupied@[e] == (self.values@[e] is Some));
        } else if node(s, 0).next != 0 {
            assert(list_ok(s, self.list@, run, 0));
            let h = self.list@[0] as int;
            assert(self.occupied@[h] == (s[h].free is None));
            assert(self.occupied@[h] == (self.values@[h] is Some));
        } else {
            assert forall|i: int| 0 < i < self@.len() && #[trigger] self@[i].1 is None implies self@[i].0.spec_is_exhausted() by {
                assert(self.occupied@[i] == (s[i].free is None));
                assert(self.occupied@[i] == (self.values@[i] is Some));
                if !s[i].version.spec_is_exhausted() {
                    assert(reusable(s, i));
                    assert(run_ok(s, run, i));
                    let a = run[i].0;
                    assert(run[a] == run[i]);
                    assert(reusable(s, a));
                    if a == 0 {
                        assert(run[0] == run[i]);
                        assert(run[0].1 == 0);
                    } else {
                        assert(0 <= self.pos@[a] < self.list@.len());
                        assert(list_ok(s, self.list@, run, 0));
                    }
                }
            }
        }
    }

    /// The starts of the free blocks on the list, in list order; the block
    /// that touches the sentinel is not on it
    pub closed spec fn spec_free_blocks(&self) -> Seq<usize> {
        self.list@
    }

    /// The free blocks, seen through the slots: the sentinel is vacant and
    /// reusable; the list holds, once each, the start of every maximal run
    /// of reusable slots but the one that begins at the sentinel; and the
    /// next insertion takes the end of the sentinel's run when slot 1 is
    /// in it, else the start of the first block on the list, else a new
    /// slot at the end
    pub proof fn lemma_blocks(&self)
        requires
            self.wf(),
        ensures
            hop_reusable(self@, 0),
            forall|k: int|
                0 <= k < self.spec_free_blocks().len() ==> {
                    let x = #[trigger] self.spec_free_blocks()[k] as int;
                    &&& 0 < x < self@.len()
                    &&& hop_reusable(self@, x)
                    &&& !hop_reusable(self@, x - 1)
                },
            forall|j: int, k: int|
                0 <= j < k < self.spec_free_blocks().len() ==> self.spec_free_blocks()[j]
                    != self.spec_free_blocks()[k],
            forall|x: int|
                0 < x < self@.len() && #[trigger] hop_reusable(self@, x) && !hop_reusable(self@, x - 1)
                    ==> self.spec_free_blocks().contains(x as usize),
            hop_reusable(self@, 1) ==> {
                let e = self.spec_next();
                &&& 1 <= e < self@.len()
                &&& forall|j: int| 1 <= j <= e ==> #[trigger] hop_reusable(self@, j)
                &&& !hop_reusable(self@, e + 1)
            },
            !hop_reusable(self@, 1) ==> self.spec_next() == if self.spec_free_blocks().len() > 0 {
                self.spec_free_blocks()[0] as int
            } else {
                self@.len() as int
            },
    {
        let s = self.slots@;
        let run = self.run@;
        let list = self.list@;
        assert forall|i: int| 0 <= i < s.len() implies #[trigger] hop_reusable(self@, i) == reusable(s, i) by {
            assert(self.occupied@[i] == (s[i].free is None));
            assert(self.occupied@[i] == (self.values@[i] is Some));
        }
        assert(hop_reusable(self@, 0) == reusable(s, 0));
        assert(run_ok(s, run, 0));
        assert forall|k: int| 0 <= k < list.len() implies {
            let x = #[trigger] list[k] as int;
            &&& 0 < x < self@.len()
            &&& hop_reusable(self@, x)
            &&& !hop_reusable(self@, x - 1)
        } by {
            assert(list_ok(s, list, run, k));
            let x = list[k] as int;
            assert(run_ok(s, run, x));
            assert(hop_reusable(self@, x) == reusable(s, x));
            assert(hop_reusable(self@, x - 1) == reusable(s, x - 1));
        }
        assert forall|x: int|
            0 < x < self@.len() && #[trigger] hop_reusable(self@, x) && !hop_reusable(self@, x - 1) implies list.contains(
            x as usize,
        ) by {
            assert(hop_reusable(self@, x) == reusable(s, x));
            assert(hop_reusable(self@, x - 1) == reusable(s, x - 1));
            assert(run_ok(s, run, x));
            let a = run[x].0;
            if a < x {
                assert(reusable(s, x - 1));
            }
            assert(0 <= self.pos@[x] < list.len() && list[self.pos@[x]] == x);
        }
        let b = run[0].1;
        if 1 < s.len() && reusable(s, 1) {
            assert(hop_reusable(self@, 1) == reusable(s, 1));
            if b == 0 {
                assert(!reusable(s, 1));
            }
            assert forall|j: int| 1 <= j <= b implies #[trigger] hop_reusable(self@, j) by {
                assert(reusable(s, j));
                assert(hop_reusable(self@, j) == reusable(s, j));
            }
            if b + 1 < s.len() {
                assert(hop_reusable(self@, b + 1) == reusable(s, b + 1));
            }
        } else {
            if 1 < s.len() {
                assert(hop_reusable(self@, 1) == reusable(s, 1));
            }
            if b != 0 {
                assert(reusable(s, 1));
            }
            if list.len() > 0 {
                assert(list_ok(s, list, run, 0));
            }
        }
    }

    /// The version that the slot at `i` has before it is filled
    pub open spec fn spec_vacant_version(&self, i: int) -> V {
        if i < self@.len() {
            self@[i].0
        } else {
            V::spec_empty()
        }
    }

    /// The slots after inserting `value`
    pub open spec fn spec_after_insert(&self, value: T) -> Seq<(V, Option<T>)> {
        let i = self.spec_next();
        let grown = if i < self@.len() {
            self@
        } else {
            self@.push((V::spec_empty(), None))
        };
        grown.update(i, (self.spec_vacant_version(i).spec_mark_full(), Some(value)))
    }

    /// Insert a value in the arena, and return its key
    pub fn insert<K: BuildArenaKey<I, V>>(&mut self, value: T) -> (k: K)
        requires
            old(self).wf(),
        ensures
            final(self).wf(),
            k.spec_index() == old(self).spec_next(),
            final(self).spec_contains(k),
            final(self)@ == old(self).spec_after_insert(value),
            k.spec_version() is Some ==> k.spec_version() == Some(
                final(self)@[k.spec_index() as int].0.spec_save(),
            ),
            final(self).spec_len() == old(self).spec_len() + 1,
            final(self).spec_ident() == old(self).spec_ident(),
    {
        proof {
            self.lemma_next();
            self.slots.lemma_len_bound();
            assert(reusable(self.slots@, 0));
            assert(run_ok(self.slots@, self.run@, 0));
        }
        let ghost s0 = self.slots@;
        let ghost list0 = self.list@;
        let ghost run0 = self.run@;
        let ghost pos0 = self.pos@;
        let sentinel = self.get_node(0);
        let end = sentinel.other_end;
        let head = sentinel.next;
        let index: usize;
        let ghost mut case: int = 0;
        if end != 0 {
            index = end;
            proof {
                assert(run0[end as int] == run0[0]);
                assert(reusable(s0, end as int));
                assert(run0[end - 1] == run0[0]);
                assert(reusable(s0, end - 1));
            }
            self.set_other_end(0, end - 1);
            self.set_other_end(end - 1, 0);
            proof {
                self.run@ = Seq::new(run0.len(), |j: int| if 0 <= j < end { (0int, end - 1) } else { run0[j] });
            }
        } else if head != 0 {
            index = head;
            proof {
                assert(list_ok(s0, list0, run0, 0));
            }
            let free = self.get_node(head);
            if free.other_end == head {
                proof {
                    if free.next != 0 {
                        assert(list_ok(s0, list0, run0, 1));
                    }
                }
                self.set_next(0, free.next);
                if free.next != 0 {
                    self.set_prev(free.next, 0);
                }
                proof {
                    self.list@ = list0.drop_first();
                    self.pos@ = Seq::new(pos0.len(), |j: int| pos0[j] - 1);
                    case = 1;
                }
            } else {
                let start = head + 1;
                proof {
                    assert(run_ok(s0, run0, head as int));
                    assert(run0[start as int] == run0[head as int]);
                    assert(run0[free.other_end as int] == run0[head as int]);
                    assert(reusable(s0, free.other_end as int));
                    if free.next != 0 {
                        assert(list_ok(s0, list0, run0, 1));
                    }
                }
                self.set_node(start, FreeNode { next: free.next, prev: 0, other_end: free.other_end });
                self.set_other_end(free.other_end, start);
                if free.next != 0 {
                    self.set_prev(free.next, start);
                }
                self.set_next(0, start);
                proof {
                    let e = free.other_end as int;
                    self.list@ = list0.update(0, start);
                    self.pos@ = pos0.update(start as int, 0);
                    self.run@ = Seq::new(run0.len(), |j: int| if start <= j <= e { (start as int, e) } else { run0[j] });
                    case = 2;
                }
            }
        } else {
            index = self.slots.len();
            let _ = self.slots.push(Slot { version: V::empty(), free: Some(FreeNode { next: 0, prev: 0, other_end: index }) });
            self.values.push(None);
            proof {
                self.slots.lemma_len_bound();
                self.run@ = run0.push((index as int, index as int));
                self.pos@ = pos0.push(0);
                lemma_count_push(self.occupied@, false);
                self.occupied@ = self.occupied@.push(false);
                case = 3;
            }
        }
        let ghost s1 = self.slots@;
        let version = self.slots.index(index).version;
        let full = version.mark_full();
        let _ = self.slots.replace(index, Slot { version: full, free: None });
        let _ = replace_value(&mut self.values, index, Some(value));
        proof {
            lemma_count_update(self.occupied@, index as int, true);
            self.occupied@ = self.occupied@.update(index as int, true);
            lemma_count_bound(self.occupied@);
        }
        self.num_elements = self.num_elements + 1;
        proof {
            V::lemma_save_matches(full);
            let s = self.slots@;
            if case == 0 {
                Self::lemma_insert_sentinel_block(s0, list0, run0, pos0, s, self.run@, end as int);
            } else if case == 1 {
                Self::lemma_insert_single_block(s0, list0, run0, pos0, s1, s, full);
            } else if case == 2 {
                Self::lemma_insert_block_start(s0, list0, run0, pos0, s1, s, full);
            } else {
                Self::lemma_insert_new_slot(s0, list0, run0, pos0, s);
            }
            assert(blocks_wf(self.slots@, self.list@, self.run@, self.pos@));
            assert(self.values@.len() == self.slots@.len());
            assert(self.occupied@.len() == self.slots@.len());
            assert(self.num_elements == count_occupied(self.occupied@));
            assert forall|i: int| 0 <= i < self.slots@.len() implies #[trigger] self.occupied@[i] == (self.slots@[i].free
                is None) && self.occupied@[i] == (self.values@[i] is Some) by {
                if i != index {
                    if i < s0.len() {
                        assert(old(self).occupied@[i] == (s0[i].free is None));
                        assert(old(self).occupied@[i] == (old(self).values@[i] is Some));
                    }
                }
            }
        }
        K::new_unchecked(index, full.save(), self.slots.ident())
    }
}

impl<T, I, V: Version> Arena<T, I, V> {
    /// Filling the last slot of the sentinel's block shortens the block
    #[verifier::spinoff_prover]
    #[verifier::rlimit(60)]
    proof fn lemma_insert_sentinel_block(
        s0: Seq<Slot<V>>,
        list: Seq<usize>,
        run0: Seq<(int, int)>,
        pos: Seq<int>,
        s: Seq<Slot<V>>,
        run: Seq<(int, int)>,
        end: int,
    )
        requires
            blocks_wf(s0, list, run0, pos),
            end == node(s0, 0).other_end,
            end != 0,
            s.len() == s0.len(),
            s[0] == (Slot { version: s0[0].version, free: Some(FreeNode { other_end: (end - 1) as usize, ..node(s0, 0) }) }),
            end - 1 != 0 ==> s[end - 1] == (Slot {
                version: s0[end - 1].version,
                free: Some(FreeNode { other_end: 0, ..node(s0, end - 1) }),
            }),
            s[end].free is None,
            s[end].version.spec_is_full(),
            forall|j: int| 0 <= j < s.len() && j != 0 && j != end - 1 && j != end ==> s[j] == s0[j],
            run == Seq::new(run0.len(), |j: int| if 0 <= j < end { (0int, end - 1) } else { run0[j] }),
        ensures
            blocks_wf(s, list, run, pos),
    {
        assert(run_ok(s0, run0, 0));
        assert(run0[end] == run0[0]);
        assert(reusable(s0, end));
        assert(reusable(s, 0));
        assert(run.len() == s.len());
        assert forall|i: int| 0 <= i < s.len() implies (#[trigger] s[i].version.spec_is_full() <==> s[i].free is None) by {
            assert(s0[i].version.spec_is_full() <==> s0[i].free is None);
            if i != 0 && i != end - 1 && i != end {
                assert(s[i] == s0[i]);
            }
            if i == end - 1 && i != 0 {
                assert(run0[end - 1] == run0[0]);
                assert(reusable(s0, end - 1));
            }
        }
        assert(node(s, 0).next == (if list.len() > 0 {
            list[0]
        } else {
            0
        }));
        assert forall|i: int| 0 <= i < s.len() && #[trigger] reusable(s, i) implies run_ok(s, run, i) by {
            if i >= end {
                assert(i > end);
                assert(s[i] == s0[i]);
                assert(reusable(s0, i));
                assert(run_ok(s0, run0, i));
                let a = run0[i].0;
                let b = run0[i].1;
                if a <= end {
                    assert(run0[end] == run0[i]);
                }
                assert(a > end);
                if a == end + 1 {
                    assert(reusable(s0, a - 1));
                }
                assert(s[a] == s0[a]);
                assert(s[b] == s0[b]);
                if b + 1 < s.len() {
                    assert(s[b + 1] == s0[b + 1]);
                }
                assert(s[a - 1] == s0[a - 1]);
            } else {
                assert(run[i] == (0int, end - 1));
            }
        }
        assert forall|i: int, j: int|
            #![trigger run[i], reusable(s, j)]
            0 <= i < s.len() && reusable(s, i) && run[i].0 <= j <= run[i].1 implies reusable(s, j) by {
            if i < end {
                assert(run0[j] == run0[0]);
                assert(reusable(s0, j));
                assert(j != end);
            } else {
                assert(s[i] == s0[i]);
                assert(reusable(s0, i));
                assert(run0[j] == run0[i]);
                assert(reusable(s0, j));
                if j <= end {
                    assert(run0[end] == run0[i]);
                }
                assert(s[j] == s0[j]);
            }
        }
        assert forall|i: int, j: int|
            #![trigger run[i], run[j]]
            0 <= i < s.len() && reusable(s, i) && run[i].0 <= j <= run[i].1 implies run[j] == run[i] by {
            if i < end {
                assert(run0[j] == run0[0]);
                assert(reusable(s0, j));
                assert(j != end);
            } else {
                assert(s[i] == s0[i]);
                assert(reusable(s0, i));
                assert(run0[j] == run0[i]);
                assert(reusable(s0, j));
                if j <= end {
                    assert(run0[end] == run0[i]);
                }
                assert(s[j] == s0[j]);
            }
        }
        assert forall|k: int| 0 <= k < list.len() implies #[trigger] list_ok(s, list, run, k) by {
            assert(list_ok(s0, list, run0, k));
            let x = list[k] as int;
            if x <= end {
                assert(run0[x] == run0[0]);
            }
            assert(s[x] == s0[x]);
        }
        assert forall|i: int| 0 < i < s.len() && #[trigger] reusable(s, i) && run[i].0 == i implies 0 <= pos[i] < list.len()
            && list[pos[i]] == i by {
            if i < end {
                assert(run[i] == (0int, end - 1));
            }
            assert(i > end);
            assert(run[i] == run0[i]);
            assert(s[i] == s0[i]);
            assert(reusable(s0, i));
        }
        assert forall|i: int|
            0 < i < s.len() && #[trigger] s[i].free is Some && s[i].version.spec_is_exhausted() implies node(s, i).other_end
            == i by {
            if i == end - 1 {
                assert(reusable(s0, end - 1)) by {
                    assert(run0[end - 1] == run0[0]);
                }
            }
        }
        assert(versions_ok(s));
        assert(dead_ok(s));
        assert(runs_ok(s, run));
        assert(runs_coherent(s, run));
        assert(list_linked(s, list, run));
        assert(starts_listed(s, list, run, pos));
    }
}

impl<T, I, V: Version> Arena<T, I, V> {
    /// A reusable slot outside the block `[x, e]` lies in a block wholly
    /// before or wholly after it
    proof fn lemma_apart(s: Seq<Slot<V>>, run: Seq<(int, int)>, x: int, e: int, i: int)
        requires
            1 <= s.len(),
            run.len() == s.len(),
            runs_ok(s, run),
            runs_coherent(s, run),
            0 <= x < s.len(),
            reusable(s, x),
            run[x] == (x, e),
            0 <= i < s.len(),
            reusable(s, i),
            !(x <= i <= e),
        ensures
            run[i].1 < x || run[i].0 > e,
            run_ok(s, run, i),
    {
        assert(run_ok(s, run, i));
        assert(run_ok(s, run, x));
        let a = run[i].0;
        let b = run[i].1;
        if a <= x <= b {
            assert(run[x] == run[i]);
        }
        if a <= e <= b {
            assert(run[e] == run[i]);
            assert(run[e] == run[x]);
        }
    }

    /// Filling the only slot of the first block on the list drops the
    /// block from the list
    #[verifier::spinoff_prover]
    #[verifier::rlimit(60)]
    proof fn lemma_insert_single_block(
        s0: Seq<Slot<V>>,
        list0: Seq<usize>,
        run: Seq<(int, int)>,
        pos0: Seq<int>,
        s1: Seq<Slot<V>>,
        s: Seq<Slot<V>>,
        full: V,
    )
        requires
            blocks_wf(s0, list0, run, pos0),
            list0.len() > 0,
            node(s0, list0[0] as int).other_end == list0[0],
            s1.len() == s0.len(),
            s1[0] == (Slot {
                version: s0[0].version,
                free: Some(FreeNode { next: node(s0, list0[0] as int).next, ..node(s0, 0) }),
            }),
            node(s0, list0[0] as int).next != 0 ==> s1[node(s0, list0[0] as int).next as int] == (Slot {
                version: s0[node(s0, list0[0] as int).next as int].version,
                free: Some(FreeNode { prev: 0, ..node(s0, node(s0, list0[0] as int).next as int) }),
            }),
            forall|j: int|
                0 <= j < s1.len() && j != 0 && j != node(s0, list0[0] as int).next ==> #[trigger] s1[j] == s0[j],
            s == s1.update(list0[0] as int, Slot { version: full, free: None }),
            full.spec_is_full(),
        ensures
            blocks_wf(s, list0.drop_first(), run, Seq::new(pos0.len(), |j: int| pos0[j] - 1)),
            forall|j: int| 0 <= j < s0.len() && j != list0[0] ==> (#[trigger] s[j].free is None) == (s0[j].free is None),
    {
        let x = list0[0] as int;
        let n = node(s0, x).next as int;
        let list = list0.drop_first();
        let pos = Seq::new(pos0.len(), |j: int| pos0[j] - 1);
        assert(list_ok(s0, list0, run, 0));
        assert(run_ok(s0, run, x));
        assert(run[x] == (x, x));
        if n != 0 {
            assert(list_ok(s0, list0, run, 1));
        }
        assert(run_ok(s0, run, 0));
        assert forall|j: int| 0 <= j < s.len() && j != x implies #[trigger] reusable(s, j) == reusable(s0, j) && (s[j].free
            is Some ==> node(s, j).other_end == node(s0, j).other_end) && s[j].version == s0[j].version && (s[j].free is Some
            <==> s0[j].free is Some) by {
            if j != 0 && j != n {
                assert(s1[j] == s0[j]);
            }
        }
        assert(reusable(s, 0));
        assert forall|i: int| 0 <= i < s.len() implies (#[trigger] s[i].version.spec_is_full() <==> s[i].free is None) by {
            assert(s0[i].version.spec_is_full() <==> s0[i].free is None);
            if i != x {
                assert(reusable(s, i) == reusable(s0, i));
            }
        }
        assert forall|i: int|
            0 < i < s.len() && #[trigger] s[i].free is Some && s[i].version.spec_is_exhausted() implies node(s, i).other_end
            == i by {
            assert(reusable(s, i) == reusable(s0, i));
        }
        assert forall|i: int| 0 <= i < s.len() && #[trigger] reusable(s, i) implies run_ok(s, run, i) by {
            assert(reusable(s, i) == reusable(s0, i));
            Self::lemma_apart(s0, run, x, x, i);
            let a = run[i].0;
            let b = run[i].1;
            assert(reusable(s, a) == reusable(s0, a));
            assert(reusable(s, b) == reusable(s0, b));
            if a > 0 {
                assert(reusable(s, a - 1) == reusable(s0, a - 1));
            }
            if b + 1 < s.len() {
                assert(reusable(s, b + 1) == reusable(s0, b + 1));
            }
        }
        assert forall|i: int, j: int|
            #![trigger run[i], reusable(s, j)]
            0 <= i < s.len() && reusable(s, i) && run[i].0 <= j <= run[i].1 implies reusable(s, j) by {
            assert(reusable(s, i) == reusable(s0, i));
            Self::lemma_apart(s0, run, x, x, i);
            assert(reusable(s0, j));
            assert(reusable(s, j) == reusable(s0, j));
        }
        assert forall|i: int, j: int|
            #![trigger run[i], run[j]]
            0 <= i < s.len() && reusable(s, i) && run[i].0 <= j <= run[i].1 implies run[j] == run[i] by {
            assert(reusable(s, i) == reusable(s0, i));
            assert(reusable(s0, i));
        }
        assert forall|k: int| 0 <= k < list.len() implies #[trigger] list_ok(s, list, run, k) by {
            assert(list_ok(s0, list0, run, k + 1));
            let y = list0[k + 1] as int;
            assert(y != x);
            assert(reusable(s, y) == reusable(s0, y));
            if y != n {
                assert(s1[y] == s0[y]);
            }
        }
        assert forall|i: int|
            0 < i < s.len() && #[trigger] reusable(s, i) && run[i].0 == i implies 0 <= pos[i] < list.len() && list[pos[i]]
            == i by {
            assert(reusable(s, i) == reusable(s0, i));
        }
        assert(versions_ok(s));
        assert(dead_ok(s));
        assert(runs_ok(s, run));
        assert(runs_coherent(s, run));
        assert(list_linked(s, list, run));
        assert(starts_listed(s, list, run, pos));
    }
}

impl<T, I, V: Version> Arena<T, I, V> {
    /// Filling the first slot of the first block on the list, when the
    /// block has more slots, moves the block's start one slot forward
    #[verifier::spinoff_prover]
    #[verifier::rlimit(60)]
    proof fn lemma_insert_block_start(
        s0: Seq<Slot<V>>,
        list0: Seq<usize>,
        run0: Seq<(int, int)>,
        pos0: Seq<int>,
        s1: Seq<Slot<V>>,
        s: Seq<Slot<V>>,
        full: V,
    )
        requires
            blocks_wf(s0, list0, run0, pos0),
            list0.len() > 0,
            node(s0, list0[0] as int).other_end != list0[0],
            s1.len() == s0.len(),
            s1[list0[0] + 1] == (Slot {
                version: s0[list0[0] + 1].version,
                free: Some(
                    FreeNode {
                        next: node(s0, list0[0] as int).next,
                        prev: 0,
                        other_end: node(s0, list0[0] as int).other_end,
                    },
                ),
            }),
            node(s0, list0[0] as int).other_end != list0[0] + 1 ==> s1[node(s0, list0[0] as int).other_end as int] == (Slot {
                version: s0[node(s0, list0[0] as int).other_end as int].version,
                free: Some(
                    FreeNode {
                        other_end: (list0[0] + 1) as usize,
                        ..node(s0, node(s0, list0[0] as int).other_end as int)
                    },
                ),
            }),
            node(s0, list0[0] as int).next != 0 ==> s1[node(s0, list0[0] as int).next as int] == (Slot {
                version: s0[node(s0, list0[0] as int).next as int].version,
                free: Some(
                    FreeNode { prev: (list0[0] + 1) as usize, ..node(s0, node(s0, list0[0] as int).next as int) },
                ),
            }),
            s1[0] == (Slot {
                version: s0[0].version,
                free: Some(FreeNode { next: (list0[0] + 1) as usize, ..node(s0, 0) }),
            }),
            forall|j: int|
                0 <= j < s1.len() && j != 0 && j != list0[0] + 1 && j != node(s0, list0[0] as int).other_end && j != node(
                    s0,
                    list0[0] as int,
                ).next ==> #[trigger] s1[j] == s0[j],
            s == s1.update(list0[0] as int, Slot { version: full, free: None }),
            full.spec_is_full(),
        ensures
            blocks_wf(
                s,
                list0.update(0, (list0[0] + 1) as usize),
                Seq::new(
                    run0.len(),
                    |j: int|
                        if list0[0] + 1 <= j <= node(s0, list0[0] as int).other_end {
                            (list0[0] + 1, node(s0, list0[0] as int).other_end as int)
                        } else {
                            run0[j]
                        },
                ),
                pos0.update(list0[0] + 1, 0),
            ),
            forall|j: int| 0 <= j < s0.len() && j != list0[0] ==> (#[trigger] s[j].free is None) == (s0[j].free is None),
    {
        let x = list0[0] as int;
        let e = node(s0, x).other_end as int;
        let n = node(s0, x).next as int;
        let st = x + 1;
        let list = list0.update(0, st as usize);
        let run = Seq::new(run0.len(), |j: int| if st <= j <= e { (st, e) } else { run0[j] });
        let pos = pos0.update(st, 0);
        assert(list_ok(s0, list0, run0, 0));
        assert(run_ok(s0, run0, x));
        assert(run0[x] == (x, e));
        assert(e > x);
        assert(run0[st] == run0[x]);
        assert(reusable(s0, st));
        assert(run0[e] == run0[x]);
        assert(reusable(s0, e));
        if n != 0 {
            assert(list_ok(s0, list0, run0, 1));
            assert(n != x);
            Self::lemma_apart(s0, run0, x, e, n);
        }
        assert(run_ok(s0, run0, 0));
        assert(!(x <= 0 <= e));
        Self::lemma_apart(s0, run0, x, e, 0);
        assert forall|j: int| 0 <= j < s.len() && j != x implies #[trigger] reusable(s, j) == reusable(s0, j) && s[j].version
            == s0[j].version && (s[j].free is Some <==> s0[j].free is Some) by {
            if j != 0 && j != st && j != e && j != n {
                assert(s1[j] == s0[j]);
            }
        }
        assert forall|j: int|
            0 <= j < s.len() && !(x <= j <= e) && #[trigger] s[j].free is Some implies node(s, j).other_end == node(s0, j).other_end by {
            if j != 0 && j != st && j != e && j != n {
                assert(s1[j] == s0[j]);
            }
        }
        assert(reusable(s, 0));
        assert forall|i: int| 0 <= i < s.len() implies (#[trigger] s[i].version.spec_is_full() <==> s[i].free is None) by {
            assert(s0[i].version.spec_is_full() <==> s0[i].free is None);
            if i != x {
                assert(reusable(s, i) == reusable(s0, i));
            }
        }
        assert forall|i: int|
            0 < i < s.len() && #[trigger] s[i].free is Some && s[i].version.spec_is_exhausted() implies node(s, i).other_end
            == i by {
            assert(reusable(s, i) == reusable(s0, i));
            if x <= i <= e {
                assert(run0[i] == run0[x]);
                assert(reusable(s0, i));
            }
        }
        assert forall|i: int| 0 <= i < s.len() && #[trigger] reusable(s, i) implies run_ok(s, run, i) by {
            assert(reusable(s, i) == reusable(s0, i));
            if st <= i <= e {
                assert(run[i] == (st, e));
                if e + 1 < s.len() {
                    assert(reusable(s, e + 1) == reusable(s0, e + 1));
                }
            } else {
                Self::lemma_apart(s0, run0, x, e, i);
                assert(run[i] == run0[i]);
                let a = run0[i].0;
                let b = run0[i].1;
                assert(reusable(s0, a)) by {
                    assert(run0[i] == run0[i]);
                }
                assert(reusable(s, a) == reusable(s0, a));
                assert(reusable(s, b) == reusable(s0, b));
                if a > 0 {
                    assert(reusable(s, a - 1) == reusable(s0, a - 1));
                }
                if b + 1 < s.len() {
                    assert(reusable(s, b + 1) == reusable(s0, b + 1));
                }
            }
        }
        assert forall|i: int, j: int|
            #![trigger run[i], reusable(s, j)]
            0 <= i < s.len() && reusable(s, i) && run[i].0 <= j <= run[i].1 implies reusable(s, j) by {
            assert(reusable(s, i) == reusable(s0, i));
            if st <= i <= e {
                assert(run0[j] == run0[x]);
                assert(reusable(s0, j));
            } else {
                Self::lemma_apart(s0, run0, x, e, i);
                assert(run[i] == run0[i]);
                assert(reusable(s0, j));
            }
            assert(reusable(s, j) == reusable(s0, j));
        }
        assert forall|i: int, j: int|
            #![trigger run[i], run[j]]
            0 <= i < s.len() && reusable(s, i) && run[i].0 <= j <= run[i].1 implies run[j] == run[i] by {
            assert(reusable(s, i) == reusable(s0, i));
            if !(st <= i <= e) {
                Self::lemma_apart(s0, run0, x, e, i);
                assert(run[i] == run0[i]);
                assert(run0[j] == run0[i]);
            }
        }
        assert forall|k: int| 0 <= k < list.len() implies #[trigger] list_ok(s, list, run, k) by {
            if k > 0 {
                assert(list_ok(s0, list0, run0, k));
                let y = list0[k] as int;
                assert(y != x);
                Self::lemma_apart(s0, run0, x, e, y);
                assert(reusable(s, y) == reusable(s0, y));
                assert(run[y] == run0[y]);
                if y != n {
                    assert(s1[y] == s0[y]);
                }
            }
        }
        assert forall|j: int, k: int| 0 <= j < k < list.len() implies list[j] != list[k] by {
            if j == 0 {
                assert(list_ok(s0, list0, run0, k));
                Self::lemma_apart(s0, run0, x, e, list0[k] as int);
            }
        }
        assert forall|i: int|
            0 < i < s.len() && #[trigger] reusable(s, i) && run[i].0 == i implies 0 <= pos[i] < list.len() && list[pos[i]]
            == i by {
            assert(reusable(s, i) == reusable(s0, i));
            if i != st {
                Self::lemma_apart(s0, run0, x, e, i);
                assert(run[i] == run0[i]);
            }
        }
        assert(versions_ok(s));
        assert(dead_ok(s));
        assert(runs_ok(s, run));
        assert(runs_coherent(s, run));
        assert(list_linked(s, list, run));
        assert(starts_listed(s, list, run, pos));
    }

    /// Filling a new slot at the end leaves the blocks as they are
    #[verifier::spinoff_prover]
    #[verifier::rlimit(60)]
    proof fn lemma_insert_new_slot(
        s0: Seq<Slot<V>>,
        list: Seq<usize>,
        run0: Seq<(int, int)>,
        pos0: Seq<int>,
        s: Seq<Slot<V>>,
    )
        requires
            blocks_wf(s0, list, run0, pos0),
            s.len() == s0.len() + 1,
            s.len() <= usize::MAX,
            forall|j: int| 0 <= j < s0.len() ==> #[trigger] s[j] == s0[j],
            s[s0.len() as int].free is None,
            s[s0.len() as int].version.spec_is_full(),
        ensures
            blocks_wf(s, list, run0.push((s0.len() as int, s0.len() as int)), pos0.push(0)),
            forall|j: int| 0 <= j < s0.len() ==> (#[trigger] s[j].free is None) == (s0[j].free is None),
    {
        let n = s0.len() as int;
        let run = run0.push((n, n));
        let pos = pos0.push(0);
        assert forall|j: int| 0 <= j < n implies #[trigger] reusable(s, j) == reusable(s0, j) by {
            assert(s[j] == s0[j]);
        }
        assert(!reusable(s, n));
        assert(reusable(s, 0));
        assert forall|i: int| 0 <= i < s.len() implies (#[trigger] s[i].version.spec_is_full() <==> s[i].free is None) by {
            if i < n {
                assert(s[i] == s0[i]);
            }
        }
        assert forall|i: int|
            0 < i < s.len() && #[trigger] s[i].free is Some && s[i].version.spec_is_exhausted() implies node(s, i).other_end
            == i by {
            assert(s[i] == s0[i]);
        }
        assert forall|i: int| 0 <= i < s.len() && #[trigger] reusable(s, i) implies run_ok(s, run, i) by {
            assert(reusable(s0, i));
            assert(run_ok(s0, run0, i));
            let a = run0[i].0;
            let b = run0[i].1;
            assert(s[a] == s0[a]);
            assert(s[b] == s0[b]);
            if a > 0 {
                assert(reusable(s, a - 1) == reusable(s0, a - 1));
            }
            if b + 1 < n {
                assert(reusable(s, b + 1) == reusable(s0, b + 1));
            }
        }
        assert forall|i: int, j: int|
            #![trigger run[i], reusable(s, j)]
            0 <= i < s.len() && reusable(s, i) && run[i].0 <= j <= run[i].1 implies reusable(s, j) by {
            assert(reusable(s0, i));
            assert(run_ok(s0, run0, i));
            assert(run[i] == run0[i]);
            assert(reusable(s0, j));
        }
        assert forall|i: int, j: int|
            #![trigger run[i], run[j]]
            0 <= i < s.len() && reusable(s, i) && run[i].0 <= j <= run[i].1 implies run[j] == run[i] by {
            assert(reusable(s0, i));
            assert(run_ok(s0, run0, i));
            assert(run[i] == run0[i]);
            assert(run0[j] == run0[i]);
            assert(run[j] == run0[j]);
        }
        assert forall|k: int| 0 <= k < list.len() implies #[trigger] list_ok(s, list, run, k) by {
            assert(list_ok(s0, list, run0, k));
            let y = list[k] as int;
            assert(s[y] == s0[y]);
        }
        assert(s[0] == s0[0]);
        assert forall|i: int|
            0 < i < s.len() && #[trigger] reusable(s, i) && run[i].0 == i implies 0 <= pos[i] < list.len() && list[pos[i]]
            == i by {
            assert(reusable(s0, i));
        }
        assert(versions_ok(s));
        assert(dead_ok(s));
        assert(runs_ok(s, run));
        assert(runs_coherent(s, run));
        assert(list_linked(s, list, run));
        assert(starts_listed(s, list, run, pos));
    }
}

impl<T, I, V: Version> Arena<T, I, V> {
    /// The version of the slot at `i` once its value is removed
    pub open spec fn spec_removed_version(&self, i: int) -> V {
        match self@[i].0.spec_mark_empty() {
            Ok(v) => v,
            Err(v) => v,
        }
    }

    /// The slots after removing the value at `i`
    pub open spec fn spec_after_remove(&self, i: int) -> Seq<(V, Option<T>)> {
        self@.update(i, (self.spec_removed_version(i), None))
    }

    fn is_reusable(&self, i: usize) -> (r: bool)
        requires
            i < self.slots@.len(),
        ensures
            r == reusable(self.slots@, i as int),
    {
        let slot = self.slots.index(i);
        match slot.free {
            Some(_) => !slot.version.is_exhausted(),
            None => false,
        }
    }

    /// The blocks beside an occupied slot end and start right next to it
    proof fn lemma_neighbors(s: Seq<Slot<V>>, list: Seq<usize>, run: Seq<(int, int)>, pos: Seq<int>, index: int)
        requires
            blocks_wf(s, list, run, pos),
            0 < index < s.len(),
            s[index].free is None,
        ensures
            reusable(s, index - 1) ==> {
                &&& run_ok(s, run, index - 1)
                &&& run[index - 1].1 == index - 1
                &&& node(s, index - 1).other_end == run[index - 1].0
                &&& reusable(s, run[index - 1].0)
                &&& run[run[index - 1].0] == run[index - 1]
            },
            index + 1 < s.len() && reusable(s, index + 1) ==> {
                &&& run_ok(s, run, index + 1)
                &&& run[index + 1].0 == index + 1
                &&& node(s, index + 1).other_end == run[index + 1].1
                &&& reusable(s, run[index + 1].1)
                &&& run[run[index + 1].1] == run[index + 1]
                &&& 0 <= pos[index + 1] < list.len()
                &&& list[pos[index + 1]] == index + 1
                &&& list_ok(s, list, run, pos[index + 1])
            },
    {
        if reusable(s, index - 1) {
            assert(run_ok(s, run, index - 1));
            let a = run[index - 1].0;
            let b = run[index - 1].1;
            if b >= index {
                assert(reusable(s, index));
            }
            assert(run[a] == run[index - 1]);
            assert(reusable(s, a));
        }
        if index + 1 < s.len() && reusable(s, index + 1) {
            assert(run_ok(s, run, index + 1));
            let a = run[index + 1].0;
            let b = run[index + 1].1;
            if a <= index {
                assert(reusable(s, index));
            }
            assert(run[b] == run[index + 1]);
            assert(reusable(s, b));
            assert(list_ok(s, list, run, pos[index + 1]));
        }
    }

    /// An exhausted slot stays out of every block
    #[verifier::spinoff_prover]
    #[verifier::rlimit(60)]
    proof fn lemma_remove_dead(
        s0: Seq<Slot<V>>,
        list: Seq<usize>,
        run: Seq<(int, int)>,
        pos: Seq<int>,
        s: Seq<Slot<V>>,
        index: int,
        v: V,
    )
        requires
            blocks_wf(s0, list, run, pos),
            0 < index < s0.len(),
            s0[index].free is None,
            !v.spec_is_full(),
            v.spec_is_exhausted(),
            s == s0.update(index, Slot { version: v, free: Some(FreeNode { next: 0, prev: 0, other_end: index as usize }) }),
        ensures
            blocks_wf(s, list, run, pos),
    {
        assert forall|j: int| 0 <= j < s.len() implies #[trigger] reusable(s, j) == reusable(s0, j) by {}
        assert(reusable(s, 0));
        assert forall|i: int| 0 <= i < s.len() implies (#[trigger] s[i].version.spec_is_full() <==> s[i].free is None) by {
            assert(s0[i].version.spec_is_full() <==> s0[i].free is None);
        }
        assert forall|i: int| 0 <= i < s.len() && #[trigger] reusable(s, i) implies run_ok(s, run, i) by {
            assert(reusable(s0, i));
            assert(run_ok(s0, run, i));
            let a = run[i].0;
            let b = run[i].1;
            assert(reusable(s0, a)) by {
                assert(run[i] == run[i]);
            }
            assert(reusable(s0, b));
            if a > 0 {
                assert(reusable(s, a - 1) == reusable(s0, a - 1));
            }
            if b + 1 < s.len() {
                assert(reusable(s, b + 1) == reusable(s0, b + 1));
            }
        }
        assert forall|i: int, j: int|
            #![trigger run[i], reusable(s, j)]
            0 <= i < s.len() && reusable(s, i) && run[i].0 <= j <= run[i].1 implies reusable(s, j) by {
            assert(reusable(s0, i));
            assert(reusable(s0, j));
        }
        assert forall|i: int, j: int|
            #![trigger run[i], run[j]]
            0 <= i < s.len() && reusable(s, i) && run[i].0 <= j <= run[i].1 implies run[j] == run[i] by {
            assert(reusable(s0, i));
        }
        assert forall|k: int| 0 <= k < list.len() implies #[trigger] list_ok(s, list, run, k) by {
            assert(list_ok(s0, list, run, k));
        }
        assert forall|i: int|
            0 < i < s.len() && #[trigger] reusable(s, i) && run[i].0 == i implies 0 <= pos[i] < list.len() && list[pos[i]]
            == i by {
            assert(reusable(s0, i));
        }
        assert(versions_ok(s));
        assert(dead_ok(s));
        assert(runs_ok(s, run));
        assert(runs_coherent(s, run));
        assert(list_linked(s, list, run));
        assert(starts_listed(s, list, run, pos));
    }

    /// A vacant slot with no vacant neighbour becomes a block of its own,
    /// at the front of the list
    #[verifier::spinoff_prover]
    #[verifier::rlimit(60)]
    proof fn lemma_link_new_block(
        s0: Seq<Slot<V>>,
        list0: Seq<usize>,
        run0: Seq<(int, int)>,
        pos0: Seq<int>,
        s: Seq<Slot<V>>,
        index: int,
        v: V,
    )
        requires
            blocks_wf(s0, list0, run0, pos0),
            0 < index < s0.len(),
            s0[index].free is None,
            !v.spec_is_full(),
            !v.spec_is_exhausted(),
            !reusable(s0, index - 1),
            index + 1 < s0.len() ==> !reusable(s0, index + 1),
            s.len() == s0.len(),
            s[index] == (Slot {
                version: v,
                free: Some(FreeNode { next: node(s0, 0).next, prev: 0, other_end: index as usize }),
            }),
            node(s0, 0).next != 0 ==> s[node(s0, 0).next as int] == (Slot {
                version: s0[node(s0, 0).next as int].version,
                free: Some(FreeNode { prev: index as usize, ..node(s0, node(s0, 0).next as int) }),
            }),
            s[0] == (Slot { version: s0[0].version, free: Some(FreeNode { next: index as usize, ..node(s0, 0) }) }),
            forall|j: int|
                0 <= j < s.len() && j != 0 && j != index && j != node(s0, 0).next ==> #[trigger] s[j] == s0[j],
        ensures
            blocks_wf(
                s,
                seq![index as usize] + list0,
                run0.update(index, (index, index)),
                Seq::new(pos0.len(), |j: int| if j == index { 0 } else { pos0[j] + 1 }),
            ),
    {
        let h = node(s0, 0).next as int;
        let list = seq![index as usize] + list0;
        let run = run0.update(index, (index, index));
        let pos = Seq::new(pos0.len(), |j: int| if j == index { 0 } else { pos0[j] + 1 });
        if h != 0 {
            assert(list_ok(s0, list0, run0, 0));
        }
        assert(run_ok(s0, run0, 0));
        assert forall|j: int| 0 <= j < s.len() && j != index implies #[trigger] reusable(s, j) == reusable(s0, j) && s[j].version
            == s0[j].version && (s[j].free is Some <==> s0[j].free is Some) && (s[j].free is Some ==> node(s, j).other_end
            == node(s0, j).other_end) by {
            if j != 0 && j != h {
                assert(s[j] == s0[j]);
            }
        }
        assert(reusable(s, 0));
        assert(reusable(s, index));
        assert forall|i: int| 0 <= i < s.len() implies (#[trigger] s[i].version.spec_is_full() <==> s[i].free is None) by {
            assert(s0[i].version.spec_is_full() <==> s0[i].free is None);
            if i != index {
                assert(reusable(s, i) == reusable(s0, i));
            }
        }
        assert forall|i: int|
            0 < i < s.len() && #[trigger] s[i].free is Some && s[i].version.spec_is_exhausted() implies node(s, i).other_end
            == i by {
            assert(reusable(s, i) == reusable(s0, i));
        }
        assert forall|i: int| 0 <= i < s.len() && #[trigger] reusable(s, i) implies run_ok(s, run, i) by {
            if i != index {
                assert(reusable(s, i) == reusable(s0, i));
                assert(run_ok(s0, run0, i));
                let a = run0[i].0;
                let b = run0[i].1;
                if a <= index <= b {
                    assert(reusable(s0, index)) by {
                        assert(run0[i] == run0[i]);
                    }
                }
                assert(run[i] == run0[i]);
                assert(reusable(s0, a)) by {
                    assert(run0[i] == run0[i]);
                }
                assert(reusable(s0, b));
                assert(reusable(s, a) == reusable(s0, a));
                assert(reusable(s, b) == reusable(s0, b));
                if a > 0 && a - 1 != index {
                    assert(reusable(s, a - 1) == reusable(s0, a - 1));
                }
                if b + 1 < s.len() && b + 1 != index {
                    assert(reusable(s, b + 1) == reusable(s0, b + 1));
                }
            } else {
                assert(reusable(s, index - 1) == reusable(s0, index - 1));
                if index + 1 < s.len() {
                    assert(reusable(s, index + 1) == reusable(s0, index + 1));
                }
            }
        }
        assert forall|i: int, j: int|
            #![trigger run[i], reusable(s, j)]
            0 <= i < s.len() && reusable(s, i) && run[i].0 <= j <= run[i].1 implies reusable(s, j) by {
            if i != index {
                assert(reusable(s, i) == reusable(s0, i));
                assert(run[i] == run0[i]);
                assert(reusable(s0, j));
                if j == index {
                    assert(reusable(s0, index));
                }
                assert(reusable(s, j) == reusable(s0, j));
            }
        }
        assert forall|i: int, j: int|
            #![trigger run[i], run[j]]
            0 <= i < s.len() && reusable(s, i) && run[i].0 <= j <= run[i].1 implies run[j] == run[i] by {
            if i != index {
                assert(reusable(s, i) == reusable(s0, i));
                assert(run[i] == run0[i]);
                assert(reusable(s0, j)) by {
                    assert(run0[i] == run0[i]);
                }
                assert(run0[j] == run0[i]);
                if j == index {
                    assert(reusable(s0, index));
                }
            }
        }
        assert forall|k: int| 0 <= k < list.len() implies #[trigger] list_ok(s, list, run, k) by {
            if k > 0 {
                assert(list_ok(s0, list0, run0, k - 1));
                let y = list0[k - 1] as int;
                assert(y != index);
                assert(reusable(s, y) == reusable(s0, y));
                if y != h {
                    assert(s[y] == s0[y]);
                }
            }
        }
        assert forall|j: int, k: int| 0 <= j < k < list.len() implies list[j] != list[k] by {
            if j == 0 {
                assert(list_ok(s0, list0, run0, k - 1));
            }
        }
        assert forall|i: int|
            0 < i < s.len() && #[trigger] reusable(s, i) && run[i].0 == i implies 0 <= pos[i] < list.len() && list[pos[i]]
            == i by {
            if i != index {
                assert(reusable(s, i) == reusable(s0, i));
                assert(run[i] == run0[i]);
            }
        }
        assert(versions_ok(s));
        assert(dead_ok(s));
        assert(runs_ok(s, run));
        assert(runs_coherent(s, run));
        assert(list_linked(s, list, run));
        assert(starts_listed(s, list, run, pos));
    }
}

impl<T, I, V: Version> Arena<T, I, V> {
    /// A vacant slot right before a block becomes the block's new start,
    /// and takes its place on the list
    #[verifier::spinoff_prover]
    #[verifier::rlimit(60)]
    proof fn lemma_link_prepend(
        s0: Seq<Slot<V>>,
        list0: Seq<usize>,
        run0: Seq<(int, int)>,
        pos0: Seq<int>,
        s: Seq<Slot<V>>,
        index: int,
        v: V,
    )
        requires
            blocks_wf(s0, list0, run0, pos0),
            0 < index,
            index + 1 < s0.len(),
            s0[index].free is None,
            !v.spec_is_full(),
            !v.spec_is_exhausted(),
            !reusable(s0, index - 1),
            reusable(s0, index + 1),
            s.len() == s0.len(),
            s[index] == (Slot { version: v, free: Some(node(s0, index + 1)) }),
            s[run0[index + 1].1] == (Slot {
                version: s0[run0[index + 1].1].version,
                free: Some(FreeNode { other_end: index as usize, ..node(s0, run0[index + 1].1) }),
            }),
            node(s0, index + 1).next != 0 ==> s[node(s0, index + 1).next as int] == (Slot {
                version: s0[node(s0, index + 1).next as int].version,
                free: Some(FreeNode { prev: index as usize, ..node(s0, node(s0, index + 1).next as int) }),
            }),
            s[node(s0, index + 1).prev as int] == (Slot {
                version: s0[node(s0, index + 1).prev as int].version,
                free: Some(FreeNode { next: index as usize, ..node(s0, node(s0, index + 1).prev as int) }),
            }),
            forall|j: int|
                0 <= j < s.len() && j != index && j != run0[index + 1].1 && (j != node(s0, index + 1).next || node(
                    s0,
                    index + 1,
                ).next == 0) && j != node(s0, index + 1).prev ==> #[trigger] s[j] == s0[j],
        ensures
            blocks_wf(
                s,
                list0.update(pos0[index + 1], index as usize),
                Seq::new(
                    run0.len(),
                    |j: int| if index <= j <= run0[index + 1].1 { (index, run0[index + 1].1) } else { run0[j] },
                ),
                pos0.update(index, pos0[index + 1]),
            ),
    {
        Self::lemma_neighbors(s0, list0, run0, pos0, index);
        let f = node(s0, index + 1);
        let b = run0[index + 1].1;
        let p = pos0[index + 1];
        let nx = f.next as int;
        let pv = f.prev as int;
        let list = list0.update(p, index as usize);
        let run = Seq::new(run0.len(), |j: int| if index <= j <= b { (index, b) } else { run0[j] });
        let pos = pos0.update(index, p);
        assert(list_ok(s0, list0, run0, p));
        if nx != 0 {
            assert(list_ok(s0, list0, run0, p + 1));
            assert(nx != index);
            Self::lemma_apart(s0, run0, index + 1, b, nx);
        }
        if pv != 0 {
            assert(list_ok(s0, list0, run0, p - 1));
            Self::lemma_apart(s0, run0, index + 1, b, pv);
        }
        assert(run_ok(s0, run0, 0));
        Self::lemma_apart(s0, run0, index + 1, b, 0);
        assert forall|j: int| 0 <= j < s.len() && j != index implies #[trigger] reusable(s, j) == reusable(s0, j) && s[j].version
            == s0[j].version && (s[j].free is Some <==> s0[j].free is Some) by {
            if j != b && (j != nx || nx == 0) && j != pv {
                assert(s[j] == s0[j]);
            }
        }
        assert forall|j: int|
            0 <= j < s.len() && j != index && j != b && #[trigger] s[j].free is Some implies node(s, j).other_end == node(
                s0,
                j,
            ).other_end by {
            if (j != nx || nx == 0) && j != pv {
                assert(s[j] == s0[j]);
            }
        }
        if p == 0 {
            assert(pv == 0);
            assert(node(s, 0).next == index);
        } else {
            assert(list_ok(s0, list0, run0, p - 1));
            assert(pv != 0);
            assert(s[0] == s0[0]);
        }
        assert(reusable(s, 0));
        assert(reusable(s, index));
        assert forall|i: int| 0 <= i < s.len() implies (#[trigger] s[i].version.spec_is_full() <==> s[i].free is None) by {
            assert(s0[i].version.spec_is_full() <==> s0[i].free is None);
            if i != index {
                assert(reusable(s, i) == reusable(s0, i));
            }
        }
        assert forall|i: int|
            0 < i < s.len() && #[trigger] s[i].free is Some && s[i].version.spec_is_exhausted() implies node(s, i).other_end
            == i by {
            assert(reusable(s, i) == reusable(s0, i));
            if index + 1 <= i <= b {
                assert(run0[i] == run0[index + 1]);
                assert(reusable(s0, i));
            }
        }
        assert forall|i: int| 0 <= i < s.len() && #[trigger] reusable(s, i) implies run_ok(s, run, i) by {
            if index <= i <= b {
                assert(run[i] == (index, b));
                assert(reusable(s, index - 1) == reusable(s0, index - 1));
                if b + 1 < s.len() {
                    assert(reusable(s, b + 1) == reusable(s0, b + 1));
                }
            } else {
                assert(reusable(s, i) == reusable(s0, i));
                Self::lemma_apart(s0, run0, index + 1, b, i);
                assert(run[i] == run0[i]);
                let a2 = run0[i].0;
                let b2 = run0[i].1;
                assert(reusable(s0, a2)) by {
                    assert(run0[i] == run0[i]);
                }
                assert(reusable(s0, b2));
                if a2 <= index <= b2 {
                    assert(reusable(s0, index));
                }
                assert(reusable(s, a2) == reusable(s0, a2));
                assert(reusable(s, b2) == reusable(s0, b2));
                if a2 > 0 && a2 - 1 != index {
                    assert(reusable(s, a2 - 1) == reusable(s0, a2 - 1));
                }
                if b2 + 1 < s.len() && b2 + 1 != index {
                    assert(reusable(s, b2 + 1) == reusable(s0, b2 + 1));
                }
            }
        }
        assert forall|i: int, j: int|
            #![trigger run[i], reusable(s, j)]
            0 <= i < s.len() && reusable(s, i) && run[i].0 <= j <= run[i].1 implies reusable(s, j) by {
            if index <= i <= b {
                if j != index {
                    assert(run0[j] == run0[index + 1]);
                    assert(reusable(s0, j));
                    assert(reusable(s, j) == reusable(s0, j));
                }
            } else {
                assert(reusable(s, i) == reusable(s0, i));
                Self::lemma_apart(s0, run0, index + 1, b, i);
                assert(run[i] == run0[i]);
                assert(reusable(s0, j));
                if j == index {
                    assert(reusable(s0, index));
                }
                assert(reusable(s, j) == reusable(s0, j));
            }
        }
        assert forall|i: int, j: int|
            #![trigger run[i], run[j]]
            0 <= i < s.len() && reusable(s, i) && run[i].0 <= j <= run[i].1 implies run[j] == run[i] by {
            if !(index <= i <= b) {
                assert(reusable(s, i) == reusable(s0, i));
                Self::lemma_apart(s0, run0, index + 1, b, i);
                assert(run[i] == run0[i]);
                assert(run0[j] == run0[i]);
                assert(reusable(s0, j)) by {
                    assert(run0[i] == run0[i]);
                }
                if j == index {
                    assert(reusable(s0, index));
                }
            }
        }
        assert forall|k: int| 0 <= k < list.len() implies #[trigger] list_ok(s, list, run, k) by {
            if k != p {
                assert(list_ok(s0, list0, run0, k));
                let y = list0[k] as int;
                assert(y != index);
                Self::lemma_apart(s0, run0, index + 1, b, y);
                assert(reusable(s, y) == reusable(s0, y));
                assert(run[y] == run0[y]);
                if y != nx && y != pv {
                    assert(s[y] == s0[y]);
                }
            }
        }
        assert forall|j: int, k: int| 0 <= j < k < list.len() implies list[j] != list[k] by {
            assert(list0[j] != list0[k]);
            if j == p {
                assert(list_ok(s0, list0, run0, k));
            }
            if k == p {
                assert(list_ok(s0, list0, run0, j));
            }
        }
        assert forall|i: int|
            0 < i < s.len() && #[trigger] reusable(s, i) && run[i].0 == i implies 0 <= pos[i] < list.len() && list[pos[i]]
            == i by {
            if i != index {
                assert(reusable(s, i) == reusable(s0, i));
                Self::lemma_apart(s0, run0, index + 1, b, i);
                assert(run[i] == run0[i]);
            }
        }
        assert(versions_ok(s));
        assert(dead_ok(s));
        assert(runs_ok(s, run));
        assert(runs_coherent(s, run));
        assert(list_linked(s, list, run));
        assert(starts_listed(s, list, run, pos));
    }

    /// A vacant slot right after a block becomes the block's new end
    #[verifier::spinoff_prover]
    #[verifier::rlimit(60)]
    proof fn lemma_link_append(
        s0: Seq<Slot<V>>,
        list: Seq<usize>,
        run0: Seq<(int, int)>,
        pos: Seq<int>,
        s: Seq<Slot<V>>,
        index: int,
        v: V,
    )
        requires
            blocks_wf(s0, list, run0, pos),
            0 < index < s0.len(),
            s0[index].free is None,
            !v.spec_is_full(),
            !v.spec_is_exhausted(),
            reusable(s0, index - 1),
            index + 1 < s0.len() ==> !reusable(s0, index + 1),
            s.len() == s0.len(),
            s[index] == (Slot {
                version: v,
                free: Some(FreeNode { next: 0, prev: 0, other_end: node(s0, index - 1).other_end }),
            }),
            s[node(s0, index - 1).other_end as int] == (Slot {
                version: s0[node(s0, index - 1).other_end as int].version,
                free: Some(FreeNode { other_end: index as usize, ..node(s0, node(s0, index - 1).other_end as int) }),
            }),
            forall|j: int|
                0 <= j < s.len() && j != index && j != node(s0, index - 1).other_end ==> #[trigger] s[j] == s0[j],
        ensures
            blocks_wf(
                s,
                list,
                Seq::new(
                    run0.len(),
                    |j: int| if run0[index - 1].0 <= j <= index { (run0[index - 1].0, index) } else { run0[j] },
                ),
                pos,
            ),
    {
        Self::lemma_neighbors(s0, list, run0, pos, index);
        let a = run0[index - 1].0;
        let run = Seq::new(run0.len(), |j: int| if a <= j <= index { (a, index) } else { run0[j] });
        assert(run_ok(s0, run0, index - 1));
        assert forall|j: int| 0 <= j < s.len() && j != index implies #[trigger] reusable(s, j) == reusable(s0, j) && s[j].version
            == s0[j].version && (s[j].free is Some <==> s0[j].free is Some) && (s[j].free is Some && j != a ==> node(
            s,
            j,
        ) == node(s0, j)) by {
            if j != a {
                assert(s[j] == s0[j]);
            }
        }
        assert(reusable(s, index));
        assert forall|i: int| 0 <= i < s.len() implies (#[trigger] s[i].version.spec_is_full() <==> s[i].free is None) by {
            assert(s0[i].version.spec_is_full() <==> s0[i].free is None);
            if i != index {
                assert(reusable(s, i) == reusable(s0, i));
            }
        }
        assert forall|i: int|
            0 < i < s.len() && #[trigger] s[i].free is Some && s[i].version.spec_is_exhausted() implies node(s, i).other_end
            == i by {
            assert(reusable(s, i) == reusable(s0, i));
        }
        assert forall|i: int| 0 <= i < s.len() && #[trigger] reusable(s, i) implies run_ok(s, run, i) by {
            if a <= i <= index {
                assert(run[i] == (a, index));
                if a > 0 {
                    assert(reusable(s, a - 1) == reusable(s0, a - 1));
                }
                if index + 1 < s.len() {
                    assert(reusable(s, index + 1) == reusable(s0, index + 1));
                }
            } else {
                assert(reusable(s, i) == reusable(s0, i));
                Self::lemma_apart(s0, run0, a, index - 1, i);
                assert(run[i] == run0[i]);
                let a2 = run0[i].0;
                let b2 = run0[i].1;
                assert(reusable(s0, a2)) by {
                    assert(run0[i] == run0[i]);
                }
                assert(reusable(s0, b2));
                if a2 <= index <= b2 {
                    assert(reusable(s0, index));
                }
                assert(reusable(s, a2) == reusable(s0, a2));
                assert(reusable(s, b2) == reusable(s0, b2));
                if a2 > 0 && a2 - 1 != index {
                    assert(reusable(s, a2 - 1) == reusable(s0, a2 - 1));
                }
                if b2 + 1 < s.len() && b2 + 1 != index {
                    assert(reusable(s, b2 + 1) == reusable(s0, b2 + 1));
                }
            }
        }
        assert forall|i: int, j: int|
            #![trigger run[i], reusable(s, j)]
            0 <= i < s.len() && reusable(s, i) && run[i].0 <= j <= run[i].1 implies reusable(s, j) by {
            if a <= i <= index {
                if j != index {
                    assert(run0[j] == run0[index - 1]);
                    assert(reusable(s0, j));
                    assert(reusable(s, j) == reusable(s0, j));
                }
            } else {
                assert(reusable(s, i) == reusable(s0, i));
                Self::lemma_apart(s0, run0, a, index - 1, i);
                assert(run[i] == run0[i]);
                assert(reusable(s0, j));
                if j == index {
                    assert(reusable(s0, index));
                }
                assert(reusable(s, j) == reusable(s0, j));
            }
        }
        assert forall|i: int, j: int|
            #![trigger run[i], run[j]]
            0 <= i < s.len() && reusable(s, i) && run[i].0 <= j <= run[i].1 implies run[j] == run[i] by {
            if !(a <= i <= index) {
                assert(reusable(s, i) == reusable(s0, i));
                Self::lemma_apart(s0, run0, a, index - 1, i);
                assert(run[i] == run0[i]);
                assert(run0[j] == run0[i]);
                assert(reusable(s0, j)) by {
                    assert(run0[i] == run0[i]);
                }
                if j == index {
                    assert(reusable(s0, index));
                }
            }
        }
        assert forall|k: int| 0 <= k < list.len() implies #[trigger] list_ok(s, list, run, k) by {
            assert(list_ok(s0, list, run0, k));
            let y = list[k] as int;
            assert(y != index);
            assert(reusable(s, y) == reusable(s0, y));
            if y != a {
                Self::lemma_apart(s0, run0, a, index - 1, y);
            }
        }
        assert forall|i: int|
            0 < i < s.len() && #[trigger] reusable(s, i) && run[i].0 == i implies 0 <= pos[i] < list.len() && list[pos[i]]
            == i by {
            if i != index {
                assert(reusable(s, i) == reusable(s0, i));
                if i != a {
                    Self::lemma_apart(s0, run0, a, index - 1, i);
                }
            }
        }
        assert(versions_ok(s));
        assert(dead_ok(s));
        assert(runs_ok(s, run));
        assert(runs_coherent(s, run));
        assert(list_linked(s, list, run));
        assert(starts_listed(s, list, run, pos));
    }
}

impl<T, I, V: Version> Arena<T, I, V> {
    /// The links that joining two blocks around `index` leaves: the
    /// block after `index` is unlinked from the list, and the outer ends of
    /// the two blocks point to each other
    proof fn lemma_join_links(
        s0: Seq<Slot<V>>,
        s0p: Seq<Slot<V>>,
        sa: Seq<Slot<V>>,
        sb: Seq<Slot<V>>,
        sc: Seq<Slot<V>>,
        s: Seq<Slot<V>>,
        index: int,
        v: V,
        a: int,
        b: int,
        pv: int,
        nx: int,
    )
        requires
            0 <= a < index < b < s0.len(),
            s0.len() <= usize::MAX,
            0 <= pv < s0.len(),
            0 <= nx < s0.len(),
            pv != index,
            pv != b,
            nx != index,
            nx != b,
            s0[a].free is Some,
            s0[b].free is Some,
            s0[pv].free is Some,
            nx != 0 ==> s0[nx].free is Some,
            s0p == s0.update(index, Slot { version: v, free: Some(FreeNode { next: 0, prev: 0, other_end: index as usize }) }),
            sa == s0p.update(pv, Slot { version: s0p[pv].version, free: Some(FreeNode { next: nx as usize, ..node(s0p, pv) }) }),
            sb == (if nx != 0 {
                sa.update(nx, Slot { version: sa[nx].version, free: Some(FreeNode { prev: pv as usize, ..node(sa, nx) }) })
            } else {
                sa
            }),
            sc == sb.update(a, Slot { version: sb[a].version, free: Some(FreeNode { other_end: b as usize, ..node(sb, a) }) }),
            s == sc.update(b, Slot { version: sc[b].version, free: Some(FreeNode { other_end: a as usize, ..node(sc, b) }) }),
        ensures
            s.len() == s0.len(),
            s[index] == (Slot { version: v, free: Some(FreeNode { next: 0, prev: 0, other_end: index as usize }) }),
            forall|j: int|
                0 <= j < s.len() && j != index ==> #[trigger] s[j].version == s0[j].version && (s[j].free is Some
                    <==> s0[j].free is Some),
            forall|j: int|
                0 <= j < s.len() && j != index && j != a && j != b && #[trigger] s[j].free is Some ==> node(s, j).other_end
                    == node(s0, j).other_end,
            node(s, a).other_end == b,
            node(s, b).other_end == a,
            forall|j: int|
                0 <= j < s.len() && j != index && j != pv && #[trigger] s[j].free is Some ==> node(s, j).next == node(
                    s0,
                    j,
                ).next,
            node(s, pv).next == nx,
            forall|j: int|
                0 <= j < s.len() && j != index && (j != nx || nx == 0) && #[trigger] s[j].free is Some ==> node(s, j).prev
                    == node(s0, j).prev,
            nx != 0 ==> node(s, nx).prev == pv,
    {
        assert forall|j: int| 0 <= j < s.len() && j != index implies #[trigger] s[j].version == s0[j].version && (s[j].free
            is Some <==> s0[j].free is Some) by {}
    }

    /// A vacant slot between two blocks joins them: the block after it
    /// leaves the list
    #[verifier::spinoff_prover]
    #[verifier::rlimit(60)]
    proof fn lemma_link_join(
        s0: Seq<Slot<V>>,
        list0: Seq<usize>,
        run0: Seq<(int, int)>,
        pos0: Seq<int>,
        s: Seq<Slot<V>>,
        index: int,
        v: V,
    )
        requires
            blocks_wf(s0, list0, run0, pos0),
            0 < index,
            index + 1 < s0.len(),
            s0[index].free is None,
            !v.spec_is_full(),
            !v.spec_is_exhausted(),
            reusable(s0, index - 1),
            reusable(s0, index + 1),
            s.len() == s0.len(),
            s[index] == (Slot { version: v, free: Some(FreeNode { next: 0, prev: 0, other_end: index as usize }) }),
            forall|j: int|
                0 <= j < s.len() && j != index ==> #[trigger] s[j].version == s0[j].version && (s[j].free is Some
                    <==> s0[j].free is Some),
            forall|j: int|
                0 <= j < s.len() && j != index && j != run0[index - 1].0 && j != run0[index + 1].1 && #[trigger] s[j].free is Some
                    ==> node(s, j).other_end == node(s0, j).other_end,
            node(s, run0[index - 1].0).other_end == run0[index + 1].1,
            node(s, run0[index + 1].1).other_end == run0[index - 1].0,
            forall|j: int|
                0 <= j < s.len() && j != index && j != node(s0, index + 1).prev && #[trigger] s[j].free is Some ==> node(
                    s,
                    j,
                ).next == node(s0, j).next,
            node(s, node(s0, index + 1).prev as int).next == node(s0, index + 1).next,
            forall|j: int|
                0 <= j < s.len() && j != index && (j != node(s0, index + 1).next || node(s0, index + 1).next == 0)
                    && #[trigger] s[j].free is Some ==> node(s, j).prev == node(s0, j).prev,
            node(s0, index + 1).next != 0 ==> node(s, node(s0, index + 1).next as int).prev == node(s0, index + 1).prev,
        ensures
            blocks_wf(
                s,
                list0.remove(pos0[index + 1]),
                Seq::new(
                    run0.len(),
                    |j: int|
                        if run0[index - 1].0 <= j <= run0[index + 1].1 {
                            (run0[index - 1].0, run0[index + 1].1)
                        } else {
                            run0[j]
                        },
                ),
                Seq::new(pos0.len(), |j: int| if pos0[j] > pos0[index + 1] { pos0[j] - 1 } else { pos0[j] }),
            ),
    {
        Self::lemma_neighbors(s0, list0, run0, pos0, index);
        let f = node(s0, index + 1);
        let a = run0[index - 1].0;
        let b = run0[index + 1].1;
        let p = pos0[index + 1];
        let nx = f.next as int;
        let pv = f.prev as int;
        let list = list0.remove(p);
        let run = Seq::new(run0.len(), |j: int| if a <= j <= b { (a, b) } else { run0[j] });
        let pos = Seq::new(pos0.len(), |j: int| if pos0[j] > p { pos0[j] - 1 } else { pos0[j] });
        assert(list_ok(s0, list0, run0, p));
        assert(run_ok(s0, run0, 0));
        if nx != 0 {
            assert(list_ok(s0, list0, run0, p + 1));
            Self::lemma_apart(s0, run0, index + 1, b, nx);
        }
        if p > 0 {
            assert(list_ok(s0, list0, run0, p - 1));
            Self::lemma_apart(s0, run0, index + 1, b, pv);
        } else {
            assert(pv == 0);
        }
        Self::lemma_apart(s0, run0, index + 1, b, a);
        Self::lemma_apart(s0, run0, index + 1, b, 0);
        assert(reusable(s0, a));
        assert(reusable(s0, b));
        assert(reusable(s0, pv));
        assert forall|j: int| 0 <= j < s.len() && j != index implies #[trigger] reusable(s, j) == reusable(s0, j) by {
            assert(s[j].version == s0[j].version);
        }
        assert(reusable(s, 0));
        assert(reusable(s, index));
        assert forall|i: int| 0 <= i < s.len() implies (#[trigger] s[i].version.spec_is_full() <==> s[i].free is None) by {
            assert(s0[i].version.spec_is_full() <==> s0[i].free is None);
            if i != index {
                assert(reusable(s, i) == reusable(s0, i));
            }
        }
        assert forall|i: int|
            0 < i < s.len() && #[trigger] s[i].free is Some && s[i].version.spec_is_exhausted() implies node(s, i).other_end
            == i by {
            assert(reusable(s, i) == reusable(s0, i));
            if index + 1 <= i <= b {
                assert(run0[i] == run0[index + 1]);
                assert(reusable(s0, i));
            }
            if a <= i <= index - 1 {
                assert(run0[i] == run0[index - 1]);
                assert(reusable(s0, i));
            }
        }
        assert forall|i: int| 0 <= i < s.len() && #[trigger] reusable(s, i) implies run_ok(s, run, i) by {
            if a <= i <= b {
                assert(run[i] == (a, b));
                if a > 0 {
                    assert(reusable(s, a - 1) == reusable(s0, a - 1));
                }
                if b + 1 < s.len() {
                    assert(reusable(s, b + 1) == reusable(s0, b + 1));
                }
            } else {
                assert(reusable(s, i) == reusable(s0, i));
                Self::lemma_apart(s0, run0, index + 1, b, i);
                Self::lemma_apart(s0, run0, a, index - 1, i);
                assert(run[i] == run0[i]);
                let a2 = run0[i].0;
                let b2 = run0[i].1;
                assert(reusable(s0, a2)) by {
                    assert(run0[i] == run0[i]);
                }
                assert(reusable(s0, b2));
                assert(reusable(s, a2) == reusable(s0, a2));
                assert(reusable(s, b2) == reusable(s0, b2));
                if a2 > 0 && a2 - 1 != index {
                    assert(reusable(s, a2 - 1) == reusable(s0, a2 - 1));
                }
                if b2 + 1 < s.len() && b2 + 1 != index {
                    assert(reusable(s, b2 + 1) == reusable(s0, b2 + 1));
                }
            }
        }
        assert forall|i: int, j: int|
            #![trigger run[i], reusable(s, j)]
            0 <= i < s.len() && reusable(s, i) && run[i].0 <= j <= run[i].1 implies reusable(s, j) by {
            if a <= i <= b {
                if j < index {
                    assert(run0[j] == run0[index - 1]);
                    assert(reusable(s0, j));
                    assert(reusable(s, j) == reusable(s0, j));
                } else if j > index {
                    assert(run0[j] == run0[index + 1]);
                    assert(reusable(s0, j));
                    assert(reusable(s, j) == reusable(s0, j));
                }
            } else {
                assert(reusable(s, i) == reusable(s0, i));
                Self::lemma_apart(s0, run0, index + 1, b, i);
                Self::lemma_apart(s0, run0, a, index - 1, i);
                assert(run[i] == run0[i]);
                assert(reusable(s0, j));
                assert(reusable(s, j) == reusable(s0, j));
            }
        }
        assert forall|i: int, j: int|
            #![trigger run[i], run[j]]
            0 <= i < s.len() && reusable(s, i) && run[i].0 <= j <= run[i].1 implies run[j] == run[i] by {
            if !(a <= i <= b) {
                assert(reusable(s, i) == reusable(s0, i));
                Self::lemma_apart(s0, run0, index + 1, b, i);
                Self::lemma_apart(s0, run0, a, index - 1, i);
                assert(run[i] == run0[i]);
                assert(run0[j] == run0[i]);
            }
        }
        assert forall|k: int| 0 <= k < list.len() implies #[trigger] list_ok(s, list, run, k) by {
            let k0 = if k < p { k } else { k + 1 };
            assert(list[k] == list0[k0]);
            assert(list_ok(s0, list0, run0, k0));
            let y = list0[k0] as int;
            assert(y != index);
            assert(y != index + 1);
            assert(reusable(s, y) == reusable(s0, y));
            if y != a {
                Self::lemma_apart(s0, run0, index + 1, b, y);
                Self::lemma_apart(s0, run0, a, index - 1, y);
                assert(run[y] == run0[y]);
            }
            if k0 + 1 < list0.len() {
                assert(list0[k0 + 1] == list_next(list0, k0));
            }
            if k == p - 1 {
                assert(y == pv);
            }
            if k == p {
                assert(y == nx);
            }
        }
        if p == 0 {
            assert(node(s, 0).next == nx);
        } else {
            assert(pv != 0);
            assert(node(s, 0).next == node(s0, 0).next);
        }
        assert forall|j: int, k: int| 0 <= j < k < list.len() implies list[j] != list[k] by {
            let j0 = if j < p { j } else { j + 1 };
            let k0 = if k < p { k } else { k + 1 };
            assert(list0[j0] != list0[k0]);
        }
        assert forall|i: int|
            0 < i < s.len() && #[trigger] reusable(s, i) && run[i].0 == i implies 0 <= pos[i] < list.len() && list[pos[i]]
            == i by {
            assert(i != index);
            assert(reusable(s, i) == reusable(s0, i));
            if i != a {
                Self::lemma_apart(s0, run0, index + 1, b, i);
                Self::lemma_apart(s0, run0, a, index - 1, i);
                assert(run[i] == run0[i]);
            }
            assert(pos0[i] != p);
        }
        assert(versions_ok(s));
        assert(dead_ok(s));
        assert(runs_ok(s, run));
        assert(runs_coherent(s, run));
        assert(list_linked(s, list, run));
        assert(starts_listed(s, list, run, pos));
    }
}

impl<T, I, V: Version> Arena<T, I, V> {
    /// Put the vacant, reusable slot at `index` into the blocks: it joins
    /// the blocks beside it, or else starts a block of its own
    fn link_vacant(&mut self, index: usize, Ghost(s0): Ghost<Seq<Slot<V>>>, Ghost(v): Ghost<V>)
        requires
            blocks_wf(s0, old(self).list@, old(self).run@, old(self).pos@),
            0 < index < s0.len(),
            s0[index as int].free is None,
            !v.spec_is_full(),
            !v.spec_is_exhausted(),
            old(self).slots@ == s0.update(
                index as int,
                Slot { version: v, free: Some(FreeNode { next: 0, prev: 0, other_end: index }) },
            ),
        ensures
            blocks_wf(final(self).slots@, final(self).list@, final(self).run@, final(self).pos@),
            final(self).slots@.len() == s0.len(),
            forall|j: int|
                0 <= j < s0.len() ==> #[trigger] final(self).slots@[j].version == old(self).slots@[j].version
                    && (final(self).slots@[j].free is Some <==> old(self).slots@[j].free is Some),
            final(self).slots.spec_ident() == old(self).slots.spec_ident(),
            final(self).values == old(self).values,
            final(self).num_elements == old(self).num_elements,
            final(self).occupied == old(self).occupied,
    {
        proof {
            Self::lemma_neighbors(s0, self.list@, self.run@, self.pos@, index as int);
        }
        let left = self.is_reusable(index - 1);
        let right = index + 1 < self.slots.len() && self.is_reusable(index + 1);
        proof {
            assert(left == reusable(s0, index - 1));
            if index + 1 < s0.len() {
                assert(reusable(self.slots@, index + 1) == reusable(s0, index + 1));
            }
        }
        if !left && !right {
            self.link_new_block(index, Ghost(s0), Ghost(v));
        } else if !left {
            self.link_prepend(index, Ghost(s0), Ghost(v));
        } else if !right {
            self.link_append(index, Ghost(s0), Ghost(v));
        } else {
            self.link_join(index, Ghost(s0), Ghost(v));
        }
    }

    /// A vacant slot with no vacant neighbour starts a block of its own
    fn link_new_block(&mut self, index: usize, Ghost(s0): Ghost<Seq<Slot<V>>>, Ghost(v): Ghost<V>)
        requires
            blocks_wf(s0, old(self).list@, old(self).run@, old(self).pos@),
            0 < index < s0.len(),
            s0[index as int].free is None,
            !v.spec_is_full(),
            !v.spec_is_exhausted(),
            old(self).slots@ == s0.update(
                index as int,
                Slot { version: v, free: Some(FreeNode { next: 0, prev: 0, other_end: index }) },
            ),
            !reusable(s0, index - 1),
            index + 1 < s0.len() ==> !reusable(s0, index + 1),
        ensures
            blocks_wf(final(self).slots@, final(self).list@, final(self).run@, final(self).pos@),
            final(self).slots@.len() == s0.len(),
            forall|j: int|
                0 <= j < s0.len() ==> #[trigger] final(self).slots@[j].version == old(self).slots@[j].version
                    && (final(self).slots@[j].free is Some <==> old(self).slots@[j].free is Some),
            final(self).slots.spec_ident() == old(self).slots.spec_ident(),
            final(self).values == old(self).values,
            final(self).num_elements == old(self).num_elements,
            final(self).occupied == old(self).occupied,
    {
        let ghost list0 = self.list@;
        let ghost run0 = self.run@;
        let ghost pos0 = self.pos@;
        proof {
            Self::lemma_neighbors(s0, list0, run0, pos0, index as int);
            assert(run_ok(s0, run0, 0));
            assert(reusable(s0, 0));
        }
        let h = self.get_node(0).next;
        proof {
            if h != 0 {
                assert(list_ok(s0, list0, run0, 0));
            }
        }
        self.set_node(index, FreeNode { next: h, prev: 0, other_end: index });
        if h != 0 {
            self.set_prev(h, index);
        }
        self.set_next(0, index);
        proof {
            Self::lemma_link_new_block(s0, list0, run0, pos0, self.slots@, index as int, v);
            self.list@ = seq![index] + list0;
            self.run@ = run0.update(index as int, (index as int, index as int));
            self.pos@ = Seq::new(pos0.len(), |j: int| if j == index { 0 } else { pos0[j] + 1 });
        }
    }

    /// A vacant slot right before a block becomes its start
    fn link_prepend(&mut self, index: usize, Ghost(s0): Ghost<Seq<Slot<V>>>, Ghost(v): Ghost<V>)
        requires
            blocks_wf(s0, old(self).list@, old(self).run@, old(self).pos@),
            0 < index < s0.len(),
            s0[index as int].free is None,
            !v.spec_is_full(),
            !v.spec_is_exhausted(),
            old(self).slots@ == s0.update(
                index as int,
                Slot { version: v, free: Some(FreeNode { next: 0, prev: 0, other_end: index }) },
            ),
            !reusable(s0, index - 1),
            index + 1 < s0.len(),
            reusable(s0, index + 1),
        ensures
            blocks_wf(final(self).slots@, final(self).list@, final(self).run@, final(self).pos@),
            final(self).slots@.len() == s0.len(),
            forall|j: int|
                0 <= j < s0.len() ==> #[trigger] final(self).slots@[j].version == old(self).slots@[j].version
                    && (final(self).slots@[j].free is Some <==> old(self).slots@[j].free is Some),
            final(self).slots.spec_ident() == old(self).slots.spec_ident(),
            final(self).values == old(self).values,
            final(self).num_elements == old(self).num_elements,
            final(self).occupied == old(self).occupied,
    {
        let ghost list0 = self.list@;
        let ghost run0 = self.run@;
        let ghost pos0 = self.pos@;
        proof {
            Self::lemma_neighbors(s0, list0, run0, pos0, index as int);
            assert(run_ok(s0, run0, 0));
            assert(reusable(s0, 0));
        }
        let f = self.get_node(index + 1);
        proof {
            let p = pos0[index + 1];
            assert(list_ok(s0, list0, run0, p));
            if f.next != 0 {
                assert(list_ok(s0, list0, run0, p + 1));
            }
            if p > 0 {
                assert(list_ok(s0, list0, run0, p - 1));
            }
            Self::lemma_apart(s0, run0, index + 1, f.other_end as int, 0);
            if f.next != 0 {
                Self::lemma_apart(s0, run0, index + 1, f.other_end as int, f.next as int);
            }
            if p > 0 {
                Self::lemma_apart(s0, run0, index + 1, f.other_end as int, f.prev as int);
            }
        }
        self.set_node(index, f);
        self.set_other_end(f.other_end, index);
        if f.next != 0 {
            self.set_prev(f.next, index);
        }
        self.set_next(f.prev, index);
        proof {
            let b = run0[index + 1].1;
            let p = pos0[index + 1];
            Self::lemma_link_prepend(s0, list0, run0, pos0, self.slots@, index as int, v);
            self.list@ = list0.update(p, index);
            self.run@ = Seq::new(run0.len(), |j: int| if index <= j <= b { (index as int, b) } else { run0[j] });
            self.pos@ = pos0.update(index as int, p);
        }
    }

    /// A vacant slot right after a block becomes its end
    fn link_append(&mut self, index: usize, Ghost(s0): Ghost<Seq<Slot<V>>>, Ghost(v): Ghost<V>)
        requires
            blocks_wf(s0, old(self).list@, old(self).run@, old(self).pos@),
            0 < index < s0.len(),
            s0[index as int].free is None,
            !v.spec_is_full(),
            !v.spec_is_exhausted(),
            old(self).slots@ == s0.update(
                index as int,
                Slot { version: v, free: Some(FreeNode { next: 0, prev: 0, other_end: index }) },
            ),
            reusable(s0, index - 1),
            index + 1 < s0.len() ==> !reusable(s0, index + 1),
        ensures
            blocks_wf(final(self).slots@, final(self).list@, final(self).run@, final(self).pos@),
            final(self).slots@.len() == s0.len(),
            forall|j: int|
                0 <= j < s0.len() ==> #[trigger] final(self).slots@[j].version == old(self).slots@[j].version
                    && (final(self).slots@[j].free is Some <==> old(self).slots@[j].free is Some),
            final(self).slots.spec_ident() == old(self).slots.spec_ident(),
            final(self).values == old(self).values,
            final(self).num_elements == old(self).num_elements,
            final(self).occupied == old(self).occupied,
    {
        let ghost list0 = self.list@;
        let ghost run0 = self.run@;
        let ghost pos0 = self.pos@;
        proof {
            Self::lemma_neighbors(s0, list0, run0, pos0, index as int);
            assert(run_ok(s0, run0, 0));
            assert(reusable(s0, 0));
        }
        let a = self.get_node(index - 1).other_end;
        self.set_other_end(index, a);
        self.set_other_end(a, index);
        proof {
            Self::lemma_link_append(s0, list0, run0, pos0, self.slots@, index as int, v);
            self.run@ = Seq::new(run0.len(), |j: int| if a <= j <= index { (a as int, index as int) } else { run0[j] });
        }
    }

    /// A vacant slot between two blocks joins them
    fn link_join(&mut self, index: usize, Ghost(s0): Ghost<Seq<Slot<V>>>, Ghost(v): Ghost<V>)
        requires
            blocks_wf(s0, old(self).list@, old(self).run@, old(self).pos@),
            0 < index < s0.len(),
            s0[index as int].free is None,
            !v.spec_is_full(),
            !v.spec_is_exhausted(),
            old(self).slots@ == s0.update(
                index as int,
                Slot { version: v, free: Some(FreeNode { next: 0, prev: 0, other_end: index }) },
            ),
            reusable(s0, index - 1),
            index + 1 < s0.len(),
            reusable(s0, index + 1),
        ensures
            blocks_wf(final(self).slots@, final(self).list@, final(self).run@, final(self).pos@),
            final(self).slots@.len() == s0.len(),
            forall|j: int|
                0 <= j < s0.len() ==> #[trigger] final(self).slots@[j].version == old(self).slots@[j].version
                    && (final(self).slots@[j].free is Some <==> old(self).slots@[j].free is Some),
            final(self).slots.spec_ident() == old(self).slots.spec_ident(),
            final(self).values == old(self).values,
            final(self).num_elements == old(self).num_elements,
            final(self).occupied == old(self).occupied,
    {
        let ghost list0 = self.list@;
        let ghost run0 = self.run@;
        let ghost pos0 = self.pos@;
        proof {
            Self::lemma_neighbors(s0, list0, run0, pos0, index as int);
            assert(run_ok(s0, run0, 0));
            assert(reusable(s0, 0));
        }
        let a = self.get_node(index - 1).other_end;
        let f = self.get_node(index + 1);
        let ghost p = pos0[index + 1];
        proof {
            assert(list_ok(s0, list0, run0, p));
            if f.next != 0 {
                assert(list_ok(s0, list0, run0, p + 1));
            }
            if p > 0 {
                assert(list_ok(s0, list0, run0, p - 1));
            }
            Self::lemma_apart(s0, run0, index + 1, f.other_end as int, 0);
            Self::lemma_apart(s0, run0, index + 1, f.other_end as int, a as int);
            if f.next != 0 {
                Self::lemma_apart(s0, run0, index + 1, f.other_end as int, f.next as int);
            }
            if p > 0 {
                Self::lemma_apart(s0, run0, index + 1, f.other_end as int, f.prev as int);
            }
        }
        let ghost s0p = self.slots@;
        self.set_next(f.prev, f.next);
        let ghost sa = self.slots@;
        if f.next != 0 {
            self.set_prev(f.next, f.prev);
        }
        let ghost sb = self.slots@;
        self.set_other_end(a, f.other_end);
        let ghost sc = self.slots@;
        self.set_other_end(f.other_end, a);
        proof {
            let b = run0[index + 1].1;
            Self::lemma_join_links(
                s0,
                s0p,
                sa,
                sb,
                sc,
                self.slots@,
                index as int,
                v,
                a as int,
                b,
                f.prev as int,
                f.next as int,
            );
            Self::lemma_link_join(s0, list0, run0, pos0, self.slots@, index as int, v);
            self.list@ = list0.remove(p);
            self.run@ = Seq::new(run0.len(), |j: int| if a <= j <= b { (a as int, b) } else { run0[j] });
            self.pos@ = Seq::new(pos0.len(), |j: int| if pos0[j] > p { pos0[j] - 1 } else { pos0[j] });
        }
    }

    /// Take the value out of the occupied slot at `index`
    fn remove_at(&mut self, index: usize) -> (r: T)
        requires
            old(self).wf(),
            index < old(self)@.len(),
            old(self)@[index as int].1 is Some,
        ensures
            final(self).wf(),
            r == old(self)@[index as int].1.unwrap(),
            final(self)@ == old(self).spec_after_remove(index as int),
            final(self).spec_len() + 1 == old(self).spec_len(),
            final(self).spec_ident() == old(self).spec_ident(),
    {
        let ghost s0 = self.slots@;
        proof {
            assert(self.occupied@[index as int] == (self.slots@[index as int].free is None));
            assert(self.occupied@[index as int] == (self.values@[index as int] is Some));
            assert(reusable(s0, 0));
            assert(s0[index as int].version.spec_is_full());
            lemma_count_update(self.occupied@, index as int, false);
        }
        let value = replace_value(&mut self.values, index, None);
        let version = self.slots.index(index).version;
        let v = match version.mark_empty() {
            Ok(v) => v,
            Err(v) => v,
        };
        let _ = self.slots.replace(index, Slot { version: v, free: Some(FreeNode { next: 0, prev: 0, other_end: index }) });
        let ghost s0u = self.slots@;
        if v.is_exhausted() {
            proof {
                Self::lemma_remove_dead(s0, self.list@, self.run@, self.pos@, self.slots@, index as int, v);
            }
        } else {
            self.link_vacant(index, Ghost(s0), Ghost(v));
        }
        proof {
            self.occupied@ = self.occupied@.update(index as int, false);
            assert forall|i: int| 0 <= i < self.slots@.len() implies #[trigger] self.occupied@[i] == (self.slots@[i].free
                is None) && self.occupied@[i] == (self.values@[i] is Some) by {
                assert(self.slots@[i].version == s0u[i].version);
                assert(self.slots@[i].free is Some <==> s0u[i].free is Some);
                if i != index {
                    assert(old(self).occupied@[i] == (s0[i].free is None));
                    assert(old(self).occupied@[i] == (old(self).values@[i] is Some));
                }
            }
            assert(self@ =~= old(self).spec_after_remove(index as int));
        }
        self.num_elements = self.num_elements - 1;
        match value {
            Some(value) => value,
            None => vstd::pervasive::unreached(),
        }
    }
}

impl<T, I, V: Version> Arena<T, I, V> {
    /// Remove and return the value of `key`, which the arena must hold
    pub fn remove<K: ArenaKey<I, V>>(&mut self, key: K) -> (r: T)
        requires
            old(self).wf(),
            old(self).spec_contains(key),
        ensures
            final(self).wf(),
            r == old(self)@[key.spec_index() as int].1.unwrap(),
            final(self)@ == old(self).spec_after_remove(key.spec_index() as int),
            !final(self).spec_contains(key),
            final(self).spec_len() + 1 == old(self).spec_len(),
            final(self).spec_ident() == old(self).spec_ident(),
    {
        let index = key.index();
        self.remove_at(index)
    }

    /// Remove and return the value of `key`, if the arena holds one
    pub fn try_remove<K: ArenaKey<I, V>>(&mut self, key: K) -> (r: Option<T>)
        requires
            old(self).wf(),
        ensures
            final(self).wf(),
            old(self).spec_contains(key) ==> {
                &&& r == Some(old(self)@[key.spec_index() as int].1.unwrap())
                &&& final(self)@ == old(self).spec_after_remove(key.spec_index() as int)
                &&& final(self).spec_len() + 1 == old(self).spec_len()
            },
            !old(self).spec_contains(key) ==> {
                &&& r is None
                &&& final(self)@ == old(self)@
                &&& final(self).spec_len() == old(self).spec_len()
            },
            !final(self).spec_contains(key),
            final(self).spec_ident() == old(self).spec_ident(),
    {
        if self.contains_ref(&key) {
            Some(self.remove_at(key.index()))
        } else {
            None
        }
    }

    /// Remove the value of `key`; returns whether there was one
    pub fn delete<K: ArenaKey<I, V>>(&mut self, key: K) -> (r: bool)
        requires
            old(self).wf(),
        ensures
            final(self).wf(),
            r == old(self).spec_contains(key),
            r ==> final(self)@ == old(self).spec_after_remove(key.spec_index() as int) && final(self).spec_len() + 1
                == old(self).spec_len(),
            !r ==> final(self)@ == old(self)@ && final(self).spec_len() == old(self).spec_len(),
            !final(self).spec_contains(key),
            final(self).spec_ident() == old(self).spec_ident(),
    {
        if self.contains_ref(&key) {
            let _ = self.remove_at(key.index());
            true
        } else {
            false
        }
    }

    /// The indices of the occupied slots, in increasing order
    pub open spec fn spec_occupied(&self) -> Seq<int> {
        occupied_indices(occupancy(self@))
    }

    /// The values of the arena, in the order of their slots
    pub open spec fn spec_values(&self) -> Seq<T> {
        self.spec_occupied().map_values(|i: int| self@[i].1.unwrap())
    }

    /// What remains of a slot once `retain` or `drain_filter` is done with it:
    /// an occupied slot either keeps its value, when `kept` holds of it,
    /// or loses it, when `removed` does
    pub open spec fn spec_filtered(
        &self,
        after: (V, Option<T>),
        i: int,
        kept: spec_fn(T) -> bool,
        removed: spec_fn(T) -> bool,
    ) -> bool {
        if self@[i].1 is Some {
            ||| after == self@[i] && kept(self@[i].1.unwrap())
            ||| after == (self.spec_removed_version(i), None::<T>) && removed(self@[i].1.unwrap())
        } else {
            after == self@[i]
        }
    }

    fn slot_is_occupied(&self, i: usize) -> (r: bool)
        requires
            self.wf(),
            i < self@.len(),
        ensures
            r == (self@[i as int].1 is Some),
    {
        proof {
            assert(self.occupied@[i as int] == (self.slots@[i as int].free is None));
            assert(self.occupied@[i as int] == (self.values@[i as int] is Some));
        }
        self.slots.index(i).free.is_none()
    }

    /// Remove every value
    pub fn delete_all(&mut self)
        requires
            old(self).wf(),
        ensures
            final(self).wf(),
            final(self)@.len() == old(self)@.len(),
            forall|i: int|
                0 <= i < old(self)@.len() ==> #[trigger] final(self)@[i] == if old(self)@[i].1 is Some {
                    (old(self).spec_removed_version(i), None)
                } else {
                    old(self)@[i]
                },
            final(self).spec_len() == 0,
            final(self).spec_ident() == old(self).spec_ident(),
    {
        let _ = self.drain();
    }

    /// Keep only the values for which `f` returns true
    pub fn retain<F: Fn(&T) -> bool>(&mut self, f: F)
        requires
            old(self).wf(),
            forall|x: &T| #[trigger] f.requires((x,)),
        ensures
            final(self).wf(),
            final(self)@.len() == old(self)@.len(),
            forall|i: int|
                0 <= i < old(self)@.len() ==> old(self).spec_filtered(
                    #[trigger] final(self)@[i],
                    i,
                    |x: T| f.ensures((&x,), true),
                    |x: T| f.ensures((&x,), false),
                ),
            final(self).spec_ident() == old(self).spec_ident(),
    {
        let _ = self.drain_filter_by(&f, true);
    }

    /// Remove the values for which `f` returns true, and return them in
    /// the order of their slots
    pub fn drain_filter<F: Fn(&T) -> bool>(&mut self, f: F) -> (r: Vec<T>)
        requires
            old(self).wf(),
            forall|x: &T| #[trigger] f.requires((x,)),
        ensures
            final(self).wf(),
            final(self)@.len() == old(self)@.len(),
            forall|i: int|
                0 <= i < old(self)@.len() ==> old(self).spec_filtered(
                    #[trigger] final(self)@[i],
                    i,
                    |x: T| f.ensures((&x,), false),
                    |x: T| f.ensures((&x,), true),
                ),
            r@ == occupied_indices(removed_mask(old(self)@, final(self)@)).map_values(
                |i: int| old(self)@[i].1.unwrap(),
            ),
            final(self).spec_ident() == old(self).spec_ident(),
    {
        self.drain_filter_by(&f, false)
    }

    /// Remove every value, and return them in the order of their slots
    pub fn drain(&mut self) -> (r: Vec<T>)
        requires
            old(self).wf(),
        ensures
            final(self).wf(),
            final(self)@.len() == old(self)@.len(),
            forall|i: int|
                0 <= i < old(self)@.len() ==> #[trigger] final(self)@[i] == if old(self)@[i].1 is Some {
                    (old(self).spec_removed_version(i), None)
                } else {
                    old(self)@[i]
                },
            r@ == old(self).spec_values(),
            final(self).spec_len() == 0,
            final(self).spec_ident() == old(self).spec_ident(),
    {
        let ghost old_self = *self;
        let mut out: Vec<T> = Vec::new();
        let len = self.slots.len();
        let mut i: usize = 0;
        proof {
            self.lemma_wf();
            assert(occupancy(old_self@).skip(0) =~= occupancy(old_self@));
            assert(self.spec_len() == count_occupied(self.occupied@));
            assert(self.occupied@ =~= occupancy(self@));
        }
        while i < len
            invariant
                self.wf(),
                len == self@.len(),
                len == old_self@.len(),
                i <= len,
                forall|j: int| i <= j < len ==> #[trigger] self@[j] == old_self@[j],
                forall|j: int|
                    0 <= j < i ==> #[trigger] self@[j] == if old_self@[j].1 is Some {
                        (old_self.spec_removed_version(j), None)
                    } else {
                        old_self@[j]
                    },
                out@ == occupied_indices(occupancy(old_self@).take(i as int)).map_values(
                    |j: int| old_self@[j].1.unwrap(),
                ),
                self.spec_len() == count_occupied(occupancy(old_self@).skip(i as int)),
                self.spec_ident() == old_self.spec_ident(),
            decreases len - i,
        {
            proof {
                lemma_occupied_indices_take(occupancy(old_self@), i as int);
                lemma_count_skip(occupancy(old_self@), i as int);
                self.lemma_wf();
            }
            if self.slot_is_occupied(i) {
                let value = self.remove_at(i);
                out.push(value);
            }
            proof {
                assert(out@ =~= occupied_indices(occupancy(old_self@).take(i as int + 1)).map_values(
                    |j: int| old_self@[j].1.unwrap(),
                ));
            }
            i = i + 1;
        }
        proof {
            assert(occupancy(old_self@).take(len as int) =~= occupancy(old_self@));
            assert(occupancy(old_self@).skip(len as int) =~= Seq::<bool>::empty());
        }
        out
    }

    fn drain_filter_by<F: Fn(&T) -> bool>(&mut self, f: &F, keep: bool) -> (r: Vec<T>)
        requires
            old(self).wf(),
            forall|x: &T| #[trigger] f.requires((x,)),
        ensures
            final(self).wf(),
            final(self)@.len() == old(self)@.len(),
            forall|i: int|
                0 <= i < old(self)@.len() ==> old(self).spec_filtered(
                    #[trigger] final(self)@[i],
                    i,
                    |x: T| f.ensures((&x,), keep),
                    |x: T| f.ensures((&x,), !keep),
                ),
            r@ == occupied_indices(removed_mask(old(self)@, final(self)@)).map_values(
                |i: int| old(self)@[i].1.unwrap(),
            ),
            final(self).spec_ident() == old(self).spec_ident(),
    {
        let ghost old_self = *self;
        let mut out: Vec<T> = Vec::new();
        let len = self.slots.len();
        let mut i: usize = 0;
        while i < len
            invariant
                self.wf(),
                len == self@.len(),
                len == old_self@.len(),
                i <= len,
                forall|x: &T| #[trigger] f.requires((x,)),
                forall|j: int| i <= j < len ==> #[trigger] self@[j] == old_self@[j],
                forall|j: int|
                    0 <= j < i ==> old_self.spec_filtered(
                        #[trigger] self@[j],
                        j,
                        |x: T| f.ensures((&x,), keep),
                        |x: T| f.ensures((&x,), !keep),
                    ),
                out@ == occupied_indices(removed_mask(old_self@, self@).take(i as int)).map_values(
                    |j: int| old_self@[j].1.unwrap(),
                ),
                self.spec_ident() == old_self.spec_ident(),
            decreases len - i,
        {
            let ghost before = *self;
            proof {
                self.lemma_wf();
                assert(self.occupied@[i as int] == (self.values@[i as int] is Some));
            }
            match &self.values[i] {
                Some(value) => {
                    let b = f(value);
                    if b != keep {
                        let v = self.remove_at(i);
                        out.push(v);
                    }
                },
                None => {},
            }
            proof {
                let m0 = removed_mask(old_self@, before@);
                let m1 = removed_mask(old_self@, self@);
                assert(m1.take(i as int) =~= m0.take(i as int));
                lemma_occupied_indices_take(m1, i as int);
                assert(out@ =~= occupied_indices(m1.take(i as int + 1)).map_values(
                    |j: int| old_self@[j].1.unwrap(),
                ));
            }
            i = i + 1;
        }
        proof {
            assert(removed_mask(old_self@, self@).take(len as int) =~= removed_mask(old_self@, self@));
        }
        out
    }

    /// The slot after `i` that iteration visits next: past the whole
    /// block when `i` starts one
    proof fn lemma_hop(&self, i: int)
        requires
            self.wf(),
            0 <= i < self@.len(),
            !reusable(self.slots@, i) || self.run@[i].0 == i,
        ensures
            self.slots@[i].free is Some ==> {
                let e = node(self.slots@, i).other_end as int;
                &&& i <= e < self@.len()
                &&& forall|k: int| i <= k <= e ==> #[trigger] occupancy(self@)[k] == false
                &&& e + 1 == self@.len() || !reusable(self.slots@, e + 1) || self.run@[e + 1].0 == e + 1
            },
            self.slots@[i].free is None ==> (i + 1 == self@.len() || !reusable(self.slots@, i + 1) || self.run@[i
                + 1].0 == i + 1),
            occupancy(self@)[i] == (self.slots@[i].free is None),
    {
        let s = self.slots@;
        let run = self.run@;
        assert(self.occupied@[i] == (s[i].free is None));
        assert(self.occupied@[i] == (self.values@[i] is Some));
        if s[i].free is Some {
            if reusable(s, i) {
                assert(run_ok(s, run, i));
                let e = run[i].1;
                assert forall|k: int| i <= k <= e implies #[trigger] occupancy(self@)[k] == false by {
                    assert(reusable(s, k));
                    assert(self.occupied@[k] == (s[k].free is None));
                    assert(self.occupied@[k] == (self.values@[k] is Some));
                }
                if e + 1 < s.len() && reusable(s, e + 1) {
                    assert(run_ok(s, run, e + 1));
                    if run[e + 1].0 <= e {
                        assert(reusable(s, e));
                        assert(run[e] == run[e + 1]);
                    }
                }
            } else {
                assert(i != 0);
                assert(node(s, i).other_end == i);
                assert(self.occupied@[i] == (s[i].free is None));
                if i + 1 < s.len() && reusable(s, i + 1) {
                    assert(run_ok(s, run, i + 1));
                    if run[i + 1].0 <= i {
                        assert(reusable(s, i));
                    }
                }
            }
        } else {
            if i + 1 < s.len() && reusable(s, i + 1) {
                assert(run_ok(s, run, i + 1));
                if run[i + 1].0 <= i {
                    assert(reusable(s, i));
                }
            }
        }
    }

    /// The keys and values, in the order of their slots
    pub fn entries<K: BuildArenaKey<I, V>>(&self) -> (r: Vec<(K, &T)>)
        requires
            self.wf(),
        ensures
            r@.len() == self.spec_occupied().len(),
            forall|j: int|
                0 <= j < r@.len() ==> {
                    &&& #[trigger] r@[j].0.spec_index() == self.spec_occupied()[j]
                    &&& self.spec_contains(r@[j].0)
                    &&& *r@[j].1 == self.spec_values()[j]
                },
    {
        let mut out: Vec<(K, &T)> = Vec::new();
        let len = self.slots.len();
        let mut i: usize = 0;
        proof {
            self.lemma_wf();
            assert(run_ok(self.slots@, self.run@, 0));
        }
        while i < len
            invariant
                self.wf(),
                len == self@.len(),
                i <= len,
                i == len || !reusable(self.slots@, i as int) || self.run@[i as int].0 == i,
                out@.len() == occupied_indices(occupancy(self@).take(i as int)).len(),
                forall|j: int|
                    0 <= j < out@.len() ==> {
                        let idx = occupied_indices(occupancy(self@).take(i as int))[j];
                        &&& #[trigger] out@[j].0.spec_index() == idx
                        &&& self.spec_contains(out@[j].0)
                        &&& *out@[j].1 == self@[idx].1.unwrap()
                    },
            decreases len - i,
        {
            proof {
                self.lemma_hop(i as int);
                lemma_occupied_indices_take(occupancy(self@), i as int);
                assert(self.occupied@[i as int] == (self.values@[i as int] is Some));
            }
            let slot = self.slots.index(i);
            match slot.free {
                None => {
                    proof {
                        V::lemma_save_matches(slot.version);
                        assert(self.occupied@[i as int] == (self.slots@[i as int].free is None));
                    }
                    let key = K::new_unchecked(i, slot.version.save(), self.slots.ident());
                    match &self.values[i] {
                        Some(value) => {
                            out.push((key, value));
                        },
                        None => {},
                    }
                    i = i + 1;
                },
                Some(n) => {
                    proof {
                        lemma_occupied_indices_vacant(occupancy(self@), i as int, n.other_end + 1);
                    }
                    i = n.other_end + 1;
                },
            }
        }
        proof {
            assert(occupancy(self@).take(len as int) =~= occupancy(self@));
        }
        out
    }

    /// The keys of the values, in the order of their slots
    pub fn keys<K: BuildArenaKey<I, V>>(&self) -> (r: Vec<K>)
        requires
            self.wf(),
        ensures
            r@.len() == self.spec_occupied().len(),
            forall|j: int|
                0 <= j < r@.len() ==> {
                    &&& #[trigger] r@[j].spec_index() == self.spec_occupied()[j]
                    &&& self.spec_contains(r@[j])
                },
    {
        let entries: Vec<(K, &T)> = self.entries();
        let mut keys: Vec<K> = Vec::new();
        let mut entries = entries;
        let n = entries.len();
        let ghost all = entries@;
        let mut rev: Vec<K> = Vec::new();
        while entries.len() > 0
            invariant
                n == all.len(),
                entries@.len() + rev@.len() == n,
                entries@ == all.take(entries@.len() as int),
                forall|j: int| 0 <= j < rev@.len() ==> #[trigger] rev@[j] == all[n - 1 - j].0,
            decreases entries@.len(),
        {
            let (key, _) = entries.pop().unwrap();
            proof {
                assert(entries@ =~= all.take(entries@.len() as int));
            }
            rev.push(key);
        }
        while rev.len() > 0
            invariant
                n == all.len(),
                rev@.len() + keys@.len() == n,
                forall|j: int| 0 <= j < rev@.len() ==> #[trigger] rev@[j] == all[n - 1 - j].0,
                forall|j: int| 0 <= j < keys@.len() ==> #[trigger] keys@[j] == all[j].0,
            decreases rev@.len(),
        {
            let key = rev.pop().unwrap();
            keys.push(key);
        }
        keys
    }

    /// The values, in the order of their slots
    pub fn iter(&self) -> (r: Vec<&T>)
        requires
            self.wf(),
        ensures
            r@.len() == self.spec_values().len(),
            forall|j: int| 0 <= j < r@.len() ==> *#[trigger] r@[j] == self.spec_values()[j],
    {
        let mut out: Vec<&T> = Vec::new();
        let len = self.slots.len();
        let mut i: usize = 0;
        proof {
            self.lemma_wf();
            assert(run_ok(self.slots@, self.run@, 0));
        }
        while i < len
            invariant
                self.wf(),
                len == self@.len(),
                i <= len,
                i == len || !reusable(self.slots@, i as int) || self.run@[i as int].0 == i,
                out@.len() == occupied_indices(occupancy(self@).take(i as int)).len(),
                forall|j: int|
                    0 <= j < out@.len() ==> *#[trigger] out@[j] == self@[occupied_indices(
                        occupancy(self@).take(i as int),
                    )[j]].1.unwrap(),
            decreases len - i,
        {
            proof {
                self.lemma_hop(i as int);
                lemma_occupied_indices_take(occupancy(self@), i as int);
                assert(self.occupied@[i as int] == (self.values@[i as int] is Some));
            }
            match self.slots.index(i).free {
                None => {
                    match &self.values[i] {
                        Some(value) => {
                            out.push(value);
                        },
                        None => {},
                    }
                    i = i + 1;
                },
                Some(n) => {
                    proof {
                        lemma_occupied_indices_vacant(occupancy(self@), i as int, n.other_end + 1);
                    }
                    i = n.other_end + 1;
                },
            }
        }
        proof {
            assert(occupancy(self@).take(len as int) =~= occupancy(self@));
        }
        out
    }

    /// Take the arena apart into its values, in the order of their slots
    pub fn into_iter(self) -> (r: Vec<T>)
        requires
            self.wf(),
        ensures
            r@ == self.spec_values(),
    {
        let mut arena = self;
        arena.drain()
    }

    /// Take the arena apart into its keys and values, in the order of their slots
    pub fn into_entries<K: BuildArenaKey<I, V>>(self) -> (r: Vec<(K, T)>)
        requires
            self.wf(),
        ensures
            r@.len() == self.spec_occupied().len(),
            forall|j: int|
                0 <= j < r@.len() ==> {
                    &&& #[trigger] r@[j].0.spec_index() == self.spec_occupied()[j]
                    &&& self.spec_contains(r@[j].0)
                    &&& r@[j].1 == self.spec_values()[j]
                },
    {
        let keys: Vec<K> = self.keys();
        let mut arena = self;
        let values = arena.drain();
        let mut out: Vec<(K, T)> = Vec::new();
        let mut keys = keys;
        let mut values = values;
        let n = keys.len();
        let ghost all_keys = keys@;
        let ghost all_values = values@;
        let mut rev: Vec<(K, T)> = Vec::new();
        while keys.len() > 0
            invariant
                n == all_keys.len(),
                n == all_values.len(),
                keys@.len() == values@.len(),
                keys@.len() + rev@.len() == n,
                keys@ == all_keys.take(keys@.len() as int),
                values@ == all_values.take(values@.len() as int),
                forall|j: int|
                    0 <= j < rev@.len() ==> #[trigger] rev@[j] == (all_keys[n - 1 - j], all_values[n - 1 - j]),
            decreases keys@.len(),
        {
            let key = keys.pop().unwrap();
            let value = values.pop().unwrap();
            proof {
                assert(keys@ =~= all_keys.take(keys@.len() as int));
                assert(values@ =~= all_values.take(values@.len() as int));
            }
            rev.push((key, value));
        }
        while rev.len() > 0
            invariant
                n == all_keys.len(),
                n == all_values.len(),
                rev@.len() + out@.len() == n,
                forall|j: int|
                    0 <= j < rev@.len() ==> #[trigger] rev@[j] == (all_keys[n - 1 - j], all_values[n - 1 - j]),
                forall|j: int| 0 <= j < out@.len() ==> #[trigger] out@[j] == (all_keys[j], all_values[j]),
            decreases rev@.len(),
        {
            let entry = rev.pop().unwrap();
            out.push(entry);
        }
        out
    }
}

/// Put `value` at `index` of `v`, which must be in bounds, and return what was there
fn replace_value<T>(v: &mut Vec<T>, index: usize, value: T) -> (r: T)
    requires
        index < old(v)@.len(),
    ensures
        r == old(v)@[index as int],
        final(v)@ == old(v)@.update(index as int, value),
{
    let mut value = value;
    core::mem::swap(&mut v[index], &mut value);
    value
}

impl<T, V: Version> Arena<T, (), V> {
    /// Remove every slot but the sentinel, keeping the allocation
    pub fn clear(&mut self)
        requires
            old(self).wf(),
        ensures
            final(self).wf(),
            final(self)@ == seq![(V::spec_empty(), None::<T>)],
            final(self).spec_len() == 0,
    {
        self.slots.vec_mut().clear();
        let _ = self.slots.push(Slot { version: V::empty(), free: Some(FreeNode { next: 0, prev: 0, other_end: 0 }) });
        self.values.clear();
        self.values.push(None);
        self.num_elements = 0;
        proof {
            self.list@ = Seq::empty();
            self.run@ = seq![(0int, 0int)];
            self.pos@ = seq![0int];
            self.occupied@ = seq![false];
            let sl = self.slots@;
            assert(reusable(sl, 0));
            assert(run_ok(sl, self.run@, 0));
            assert(self.occupied@.drop_last() =~= Seq::<bool>::empty());
            assert(count_occupied(self.occupied@.drop_last()) == 0);
            assert(!self.occupied@.last());
            assert(count_occupied(self.occupied@) == 0);
            assert(self@ =~= seq![(V::spec_empty(), None::<T>)]);
        }
    }
}

impl<T> Arena<T> {
    /// Create an empty arena
    pub fn new() -> (r: Self)
        ensures
            r.wf(),
            r@ == seq![(DefaultVersion::spec_empty(), None::<T>)],
            r.spec_len() == 0,
    {
        Self::with_ident(())
    }
}

impl<T, I, V: Version> Arena<T, I, V> {
    /// What an insertion writes is what a read gives back: the slot that
    /// the insertion fills holds the value, and the other slots stay as
    /// they were
    pub proof fn lemma_insert_then_get(&self, value: T)
        requires
            self.wf(),
        ensures
            self.spec_next() <= self@.len(),
            self.spec_after_insert(value)[self.spec_next()].1 == Some(value),
            forall|i: int|
                0 <= i < self@.len() && i != self.spec_next() ==> #[trigger] self.spec_after_insert(value)[i]
                    == self@[i],
    {
        self.lemma_next();
    }

    /// A removal empties its slot and leaves the others as they were
    pub proof fn lemma_remove_then_absent(&self, i: int)
        requires
            self.wf(),
            0 <= i < self@.len(),
            self@[i].1 is Some,
        ensures
            self.spec_after_remove(i).len() == self@.len(),
            self.spec_after_remove(i)[i].1 is None,
            forall|j: int| 0 <= j < self@.len() && j != i ==> #[trigger] self.spec_after_remove(i)[j] == self@[j],
    {
    }
}

impl<T, I> Arena<T, I, DefaultVersion> {
    /// A key stops matching once its value is removed, and keeps failing
    /// once the slot is filled again: versions rule out the ABA problem
    pub proof fn lemma_stale_key<K: ArenaKey<I, DefaultVersion>>(a: Self, b: Self, c: Self, key: K, value: T)
        requires
            a.wf(),
            b.wf(),
            a.spec_contains(key),
            key.spec_version() is Some,
            b@ == a.spec_after_remove(key.spec_index() as int),
            c@ == b.spec_after_insert(value),
        ensures
            !b.spec_contains(key),
            !c.spec_contains(key),
    {
        let i = key.spec_index() as int;
        let saved = key.spec_version().unwrap();
        let v = a@[i].0;
        a.lemma_wf();
        b.lemma_next();
        lemma_default_equals_saved(v, saved);
        lemma_default_version_moves_forward(v);
        let e = b@[i].0;
        lemma_default_equals_saved(e, saved);
        lemma_default_equals_saved(e.spec_mark_full(), saved);
        lemma_default_equals_saved(e.spec_mark_full(), v.spec_save());
        assert(v.spec_is_full());
        if b.spec_next() as int == i {
            assert(c@[i] == (e.spec_mark_full(), Some(value)));
            assert(!e.spec_mark_full().spec_equals_saved(saved));
        } else {
            assert(c@[i] == b@[i]);
        }
    }
}

/// The slot that the next value goes into, reserved before the value is
/// there, so that its key is known first
pub struct VacantEntry<'a, T, I, V: Version> {
    /// The arena of the slot
    pub arena: &'a mut Arena<T, I, V>,
}

impl<T, I, V: Version> Arena<T, I, V> {
    /// The slots once the slot for the next insertion is there
    pub open spec fn spec_with_vacant(&self) -> Seq<(V, Option<T>)> {
        if self.spec_next() < self@.len() {
            self@
        } else {
            self@.push((V::spec_empty(), None))
        }
    }

    /// Make sure that the slot for the next insertion exists: when no
    /// vacant slot can be used again, a new one is added at the end
    fn make_vacant(&mut self)
        requires
            old(self).wf(),
        ensures
            final(self).wf(),
            final(self)@ == old(self).spec_with_vacant(),
            final(self).spec_next() == old(self).spec_next(),
            final(self).spec_next() < final(self)@.len(),
            final(self).spec_len() == old(self).spec_len(),
            final(self).spec_ident() == old(self).spec_ident(),
    {
        proof {
            self.lemma_next();
            self.slots.lemma_len_bound();
        }
        let sentinel = self.get_node(0);
        if sentinel.other_end == 0 && sentinel.next == 0 {
            let index = self.slots.len();
            let ghost s_before = self.slots@;
            let full = V::empty().mark_full();
            let _ = self.slots.push(Slot { version: full, free: None });
            self.values.push(None);
            proof {
                self.slots.lemma_len_bound();
                Self::lemma_insert_new_slot(s_before, self.list@, self.run@, self.pos@, self.slots@);
                self.run@ = self.run@.push((index as int, index as int));
                self.pos@ = self.pos@.push(0);
            }
            let ghost s0 = self.slots@;
            let empty = V::empty();
            let _ = self.slots.replace(index, Slot { version: empty, free: Some(FreeNode { next: 0, prev: 0, other_end: index }) });
            let ghost s0u = self.slots@;
            self.link_vacant(index, Ghost(s0), Ghost(empty));
            proof {
                lemma_count_push(self.occupied@, false);
                self.occupied@ = self.occupied@.push(false);
                assert forall|i: int| 0 <= i < self.slots@.len() implies #[trigger] self.occupied@[i] == (self.slots@[i].free
                    is None) && self.occupied@[i] == (self.values@[i] is Some) by {
                    assert(self.slots@[i].version == s0u[i].version);
                    if i < index {
                        assert(old(self).occupied@[i] == (s_before[i].free is None));
                        assert(old(self).occupied@[i] == (old(self).values@[i] is Some));
                        assert(s0u[i] == s_before[i]);
                    }
                }
                assert(self@ =~= old(self)@.push((V::spec_empty(), None)));
                old(self).lemma_next();
                self.lemma_next();
                assert(self@[index as int].0 == empty);
                assert(self@[index as int].1 is None);
                assert(!self@[index as int].0.spec_is_exhausted());
                assert(self.spec_next() < self@.len());
                let n = self.spec_next();
                if n != index as int {
                    assert(self@[n].1 is None && !self@[n].0.spec_is_exhausted());
                    assert(old(self)@[n] == self@[n]);
                }
            }
        } else {
            proof {
                assert(run_ok(self.slots@, self.run@, 0));
                if sentinel.other_end == 0 {
                    assert(list_ok(self.slots@, self.list@, self.run@, 0));
                }
            }
        }
    }

    /// The key that the slot of [`spec_next`](Self::spec_next) gets when it
    /// is filled
    fn next_key<K: BuildArenaKey<I, V>>(&self) -> (r: K)
        requires
            self.wf(),
            self.spec_next() < self@.len(),
        ensures
            r.spec_index() == self.spec_next(),
            r.spec_version() is Some ==> r.spec_version() == Some(
                self@[self.spec_next()].0.spec_mark_full().spec_save(),
            ),
    {
        proof {
            self.lemma_next();
            self.lemma_wf();
        }
        let sentinel = self.get_node(0);
        let index = if sentinel.other_end != 0 {
            sentinel.other_end
        } else {
            sentinel.next
        };
        let full = self.slots.index(index).version.mark_full();
        proof {
            V::lemma_save_matches(full);
        }
        K::new_unchecked(index, full.save(), self.slots.ident())
    }

    /// Reserve the slot for the next value: the end of the block beside
    /// the sentinel, or else the start of the first block on the list, or
    /// else a new slot at the end
    pub fn vacant_entry(&mut self) -> (r: VacantEntry<'_, T, I, V>)
        requires
            old(self).wf(),
        ensures
            r.arena.wf(),
            r.arena@ == old(self).spec_with_vacant(),
            r.arena.spec_next() == old(self).spec_next(),
            r.arena.spec_next() < r.arena@.len(),
            r.arena.spec_len() == old(self).spec_len(),
            r.arena.spec_ident() == old(self).spec_ident(),
            *final(self) == *final(r.arena),
    {
        self.make_vacant();
        VacantEntry { arena: self }
    }
}

impl<'a, T, I, V: Version> VacantEntry<'a, T, I, V> {
    /// The key that the value will have
    pub fn key<K: BuildArenaKey<I, V>>(&self) -> (r: K)
        requires
            old(self.arena).wf(),
            old(self.arena).spec_next() < old(self.arena)@.len(),
        ensures
            r.spec_index() == old(self.arena).spec_next(),
            r.spec_version() is Some ==> r.spec_version() == Some(
                old(self.arena)@[r.spec_index() as int].0.spec_mark_full().spec_save(),
            ),
    {
        self.arena.next_key()
    }

    /// Put the value in the reserved slot, and return its key
    pub fn insert<K: BuildArenaKey<I, V>>(self, value: T) -> (r: K)
        requires
            old(self.arena).wf(),
        ensures
            final(self.arena).wf(),
            r.spec_index() == old(self.arena).spec_next(),
            final(self.arena).spec_contains(r),
            final(self.arena)@ == old(self.arena).spec_after_insert(value),
            r.spec_version() is Some ==> r.spec_version() == Some(
                final(self.arena)@[r.spec_index() as int].0.spec_save(),
            ),
            final(self.arena).spec_len() == old(self.arena).spec_len() + 1,
            final(self.arena).spec_ident() == old(self.arena).spec_ident(),
    {
        self.arena.insert(value)
    }
}

} // verus!
