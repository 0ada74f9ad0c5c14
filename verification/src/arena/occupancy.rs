//! Counting and listing the occupied slots of an arena, given as a
//! sequence of booleans (true for an occupied slot).

use vstd::prelude::*;

verus! {

/// The number of occupied slots
pub open spec fn count_occupied(s: Seq<bool>) -> nat
    decreases s.len(),
{
    if s.len() == 0 {
        0
    } else {
        count_occupied(s.drop_last()) + if s.last() {
            1nat
        } else {
            0nat
        }
    }
}

/// The indices of the occupied slots, in increasing order
pub open spec fn occupied_indices(s: Seq<bool>) -> Seq<int>
    decreases s.len(),
{
    if s.len() == 0 {
        Seq::empty()
    } else if s.last() {
        occupied_indices(s.drop_last()).push(s.len() - 1)
    } else {
        occupied_indices(s.drop_last())
    }
}

/// There are no more occupied slots than slots
pub proof fn lemma_count_bound(s: Seq<bool>)
    ensures
        count_occupied(s) <= s.len(),
    decreases s.len(),
{
    if s.len() > 0 {
        lemma_count_bound(s.drop_last());
    }
}

/// Changing one slot changes the count by the change of that slot
pub proof fn lemma_count_update(s: Seq<bool>, i: int, b: bool)
    requires
        0 <= i < s.len(),
    ensures
        count_occupied(s.update(i, b)) + (if s[i] {
            1int
        } else {
            0int
        }) == count_occupied(s) + (if b {
            1int
        } else {
            0int
        }),
    decreases s.len(),
{
    let t = s.update(i, b);
    if i == s.len() - 1 {
        assert(t.drop_last() =~= s.drop_last());
    } else {
        assert(t.drop_last() =~= s.drop_last().update(i, b));
        lemma_count_update(s.drop_last(), i, b);
    }
}

/// Appending a slot adds that slot to the count
pub proof fn lemma_count_push(s: Seq<bool>, b: bool)
    ensures
        count_occupied(s.push(b)) == count_occupied(s) + (if b {
            1nat
        } else {
            0nat
        }),
{
    assert(s.push(b).drop_last() =~= s);
}

/// A sequence with no occupied slot counts none
pub proof fn lemma_count_none(s: Seq<bool>)
    requires
        forall|i: int| 0 <= i < s.len() ==> !s[i],
    ensures
        count_occupied(s) == 0,
    decreases s.len(),
{
    if s.len() > 0 {
        lemma_count_none(s.drop_last());
    }
}

/// The indices of the occupied slots are in bounds, increasing, and are
/// exactly the occupied slots
pub proof fn lemma_occupied_indices(s: Seq<bool>)
    ensures
        occupied_indices(s).len() == count_occupied(s),
        forall|j: int|
            0 <= j < occupied_indices(s).len() ==> 0 <= #[trigger] occupied_indices(s)[j] < s.len()
                && s[occupied_indices(s)[j]],
        forall|j: int, k: int|
            0 <= j < k < occupied_indices(s).len() ==> occupied_indices(s)[j]
                < occupied_indices(s)[k],
        forall|i: int|
            0 <= i < s.len() && s[i] ==> exists|j: int|
                0 <= j < occupied_indices(s).len() && #[trigger] occupied_indices(s)[j] == i,
    decreases s.len(),
{
    if s.len() > 0 {
        let p = s.drop_last();
        lemma_occupied_indices(p);
        assert forall|i: int| 0 <= i < s.len() && s[i] implies exists|j: int|
            0 <= j < occupied_indices(s).len() && #[trigger] occupied_indices(s)[j] == i by {
            if i < s.len() - 1 {
                assert(p[i]);
                let j = choose|j: int| 0 <= j < occupied_indices(p).len() && occupied_indices(p)[j] == i;
                assert(occupied_indices(s)[j] == i);
            } else {
                assert(occupied_indices(s)[occupied_indices(p).len() as int] == i);
            }
        }
    }
}

/// The occupied indices of a prefix one slot longer
pub proof fn lemma_occupied_indices_take(s: Seq<bool>, i: int)
    requires
        0 <= i < s.len(),
    ensures
        occupied_indices(s.take(i + 1)) == if s[i] {
            occupied_indices(s.take(i)).push(i)
        } else {
            occupied_indices(s.take(i))
        },
        count_occupied(s.take(i + 1)) == count_occupied(s.take(i)) + if s[i] {
            1nat
        } else {
            0nat
        },
{
    assert(s.take(i + 1).drop_last() =~= s.take(i));
}

/// A run of vacant slots adds nothing to the occupied indices of a prefix
pub proof fn lemma_occupied_indices_vacant(s: Seq<bool>, i: int, j: int)
    requires
        0 <= i <= j <= s.len(),
        forall|k: int| i <= k < j ==> !#[trigger] s[k],
    ensures
        occupied_indices(s.take(j)) == occupied_indices(s.take(i)),
    decreases j - i,
{
    if j > i {
        lemma_occupied_indices_vacant(s, i, j - 1);
        lemma_occupied_indices_take(s, j - 1);
    }
}

/// Counting the occupied slots from `i` on: the slot at `i`, then the rest
pub proof fn lemma_count_skip(s: Seq<bool>, i: int)
    requires
        0 <= i < s.len(),
    ensures
        count_occupied(s.skip(i)) == count_occupied(s.skip(i + 1)) + if s[i] {
            1nat
        } else {
            0nat
        },
    decreases s.len(),
{
    if i == s.len() - 1 {
        assert(s.skip(i).drop_last() =~= s.skip(i + 1));
        assert(s.skip(i + 1) =~= Seq::<bool>::empty());
    } else {
        lemma_count_skip(s.drop_last(), i);
        assert(s.skip(i).drop_last() =~= s.drop_last().skip(i));
        assert(s.skip(i + 1).drop_last() =~= s.drop_last().skip(i + 1));
    }
}

} // verus!
