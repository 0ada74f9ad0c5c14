use pui::arena::{ArenaKey, Key, Validator};
use pui::pui_vec::Id;
use pui::version::{DefaultVersion, SavedDefaultVersion, Version};
use std::collections::VecDeque;
use std::sync::atomic::AtomicU64;

use pui::cell::{IdCell, IdentifierExt};
use pui::ident::anonomous::{Anonomous, AnonomousToken};
use pui::ident::dynamic::{Dynamic, DynamicToken};
use pui::ident::pool::{Flag, Pool, PoolMut, Sequence};
use pui::ident::scalar::{OpaqueScalar, Scalar, ScalarAllocator};
use pui::ident::Identifier;

static COUNTER: AtomicU64 = AtomicU64::new(0);

/// Hands out `u64`s from a counter shared by the whole test binary
struct Counter;

impl ScalarAllocator for Counter {
    type Scalar = u64;
    type AutoTraits = ();

    fn allocate() -> u64 {
        <u64 as Scalar>::inc_atomic(&COUNTER).expect("could not allocate more scalars from Counter")
    }
}

/// An allocator of `()`, for the pools that only hold `()`
struct Unit;

impl ScalarAllocator for Unit {
    type Scalar = ();
    type AutoTraits = ();

    fn allocate() {}
}

#[test]
fn scalar_u8_counter_hands_out_each_value_once() {
    let mut counter = <u8 as Scalar>::local_init();
    for expected in 0..255u8 {
        assert_eq!(<u8 as Scalar>::inc_local(&mut counter), Some(expected));
    }
    assert_eq!(<u8 as Scalar>::inc_local(&mut counter), None);
    assert_eq!(<u8 as Scalar>::inc_local(&mut counter), None);
}

#[test]
fn scalar_unit_counter_hands_out_once() {
    let mut counter = <() as Scalar>::local_init();
    assert_eq!(<() as Scalar>::inc_local(&mut counter), Some(()));
    assert_eq!(<() as Scalar>::inc_local(&mut counter), None);

    let atomic = <() as Scalar>::atomic_init();
    assert_eq!(<() as Scalar>::inc_atomic(&atomic), Some(()));
    assert_eq!(<() as Scalar>::inc_atomic(&atomic), None);
}

#[test]
fn scalar_atomic_counter_counts_up_and_stops() {
    let atomic = <u16 as Scalar>::atomic_init();
    assert_eq!(<u16 as Scalar>::inc_atomic(&atomic), Some(0));
    assert_eq!(<u16 as Scalar>::inc_atomic(&atomic), Some(1));
    assert_eq!(<u16 as Scalar>::inc_atomic(&atomic), Some(2));

    let full = std::sync::atomic::AtomicU8::new(u8::MAX - 1);
    assert_eq!(<u8 as Scalar>::inc_atomic(&full), Some(u8::MAX - 1));
    assert_eq!(<u8 as Scalar>::inc_atomic(&full), None);
}

#[test]
fn dynamic_owns_its_own_tokens_only() {
    let a = Dynamic::<Counter>::with_alloc();
    let b = Dynamic::<Counter>::with_alloc();
    let ta = a.token();
    let tb = b.token();
    assert!(a.owns_token(&ta));
    assert!(b.owns_token(&tb));
    assert!(!a.owns_token(&tb));
    assert!(!b.owns_token(&ta));
    assert!(ta.clone() == ta);
    assert!(ta != tb);
    assert!(Identifier::owns_token(&a, &Identifier::token(&a)));
}

#[test]
fn dynamic_reuses_released_values() {
    let first = Dynamic::<Counter, Vec<OpaqueScalar<Counter>>>::with_alloc_and_pool(Vec::new());
    let token = first.token();
    let pool = first.release();
    assert_eq!(pool.len(), 1);
    let second = Dynamic::<Counter, Vec<OpaqueScalar<Counter>>>::with_alloc_and_pool(pool);
    assert!(second.owns_token(&token));
    let third = Dynamic::<Counter, Vec<OpaqueScalar<Counter>>>::with_alloc_and_pool(Vec::new());
    assert!(!third.owns_token(&token));
}

#[test]
fn dynamic_token_new_carries_the_value() {
    let token = DynamicToken::<Counter>::new(7);
    assert!(token == DynamicToken::<Counter>::new(7));
    assert!(token != DynamicToken::<Counter>::new(8));
    let unit: DynamicToken<Unit> = Default::default();
    assert!(unit == DynamicToken::<Unit>::new(()));
}

#[test]
fn pools_keep_values_in_their_order() {
    let mut stack: Vec<OpaqueScalar<Counter>> = Vec::new();
    assert!(PoolMut::insert_mut(&mut stack, OpaqueScalar::new(1)).is_none());
    assert!(PoolMut::insert_mut(&mut stack, OpaqueScalar::new(2)).is_none());
    assert_eq!(PoolMut::remove_mut(&mut stack).map(OpaqueScalar::into_inner), Some(2));
    assert_eq!(PoolMut::remove_mut(&mut stack).map(OpaqueScalar::into_inner), Some(1));
    assert!(PoolMut::remove_mut(&mut stack).is_none());

    let mut queue: VecDeque<OpaqueScalar<Counter>> = VecDeque::new();
    assert!(PoolMut::insert_mut(&mut queue, OpaqueScalar::new(1)).is_none());
    assert!(PoolMut::insert_mut(&mut queue, OpaqueScalar::new(2)).is_none());
    assert_eq!(PoolMut::remove_mut(&mut queue).map(OpaqueScalar::into_inner), Some(1));
    assert_eq!(PoolMut::remove_mut(&mut queue).map(OpaqueScalar::into_inner), Some(2));
    assert!(PoolMut::remove_mut(&mut queue).is_none());

    let mut one: Option<OpaqueScalar<Counter>> = None;
    assert!(one.insert_mut(OpaqueScalar::new(1)).is_none());
    assert_eq!(one.insert_mut(OpaqueScalar::new(2)).map(OpaqueScalar::into_inner), Some(1));
    assert_eq!(one.remove_mut().map(OpaqueScalar::into_inner), Some(2));
    assert!(one.remove_mut().is_none());

    let mut nothing = ();
    assert_eq!(
        PoolMut::<Counter>::insert_mut(&mut nothing, OpaqueScalar::new(3)).map(OpaqueScalar::into_inner),
        Some(3)
    );
    assert!(PoolMut::<Counter>::remove_mut(&mut nothing).is_none());
}

#[test]
fn flag_holds_one_value() {
    let flag: Flag<Unit> = Flag::new();
    assert!(flag.insert(OpaqueScalar::new(())).is_none());
    assert!(flag.insert(OpaqueScalar::new(())).is_some());
    assert!(flag.remove().is_some());
    assert!(flag.remove().is_none());
}

#[test]
fn sequence_tries_each_pool_once() {
    let mut seq = Sequence { index: 0usize, pools: vec![None, None] };
    assert!(PoolMut::<Counter>::insert_mut(&mut seq, OpaqueScalar::new(1)).is_none());
    assert!(PoolMut::<Counter>::insert_mut(&mut seq, OpaqueScalar::new(2)).is_none());
    // each pool of one value swaps the new value for the one it held, so
    // a full round hands back the value held by the last pool tried
    assert_eq!(
        PoolMut::<Counter>::insert_mut(&mut seq, OpaqueScalar::new(3)).map(OpaqueScalar::into_inner),
        Some(2)
    );
    // the index moved on past the two pools that gave a value back, so the
    // next round starts at the second pool again
    assert_eq!(seq.index, 3);
    assert_eq!(PoolMut::<Counter>::remove_mut(&mut seq).map(OpaqueScalar::into_inner), Some(3));
    assert_eq!(seq.index, 3);
    assert_eq!(PoolMut::<Counter>::remove_mut(&mut seq).map(OpaqueScalar::into_inner), Some(1));
    assert_eq!(seq.index, 4);
    assert!(PoolMut::<Counter>::remove_mut(&mut seq).is_none());
    assert_eq!(seq.index, 6);

    let shared = Sequence { index: std::sync::atomic::AtomicUsize::new(0), pools: vec![Flag::<Unit>::new(), Flag::new()] };
    assert!(shared.insert(OpaqueScalar::new(())).is_none());
    assert!(shared.insert(OpaqueScalar::new(())).is_none());
    assert!(shared.insert(OpaqueScalar::new(())).is_some());
    assert!(shared.remove().is_some());
    assert!(shared.remove().is_some());
    assert!(shared.remove().is_none());
}

#[test]
fn sequence_round_wraps_around() {
    // usize::MAX % 3 == 0: the round starts at the first pool, and the
    // index wraps to 1 after the two pools that gave a value back
    let mut seq = Sequence {
        index: usize::MAX,
        pools: vec![Some(OpaqueScalar::<Counter>::new(1)), Some(OpaqueScalar::new(2)), None],
    };
    assert!(PoolMut::<Counter>::insert_mut(&mut seq, OpaqueScalar::new(7)).is_none());
    assert_eq!(seq.index, 1);
    let held: Vec<Option<u64>> = seq.pools.into_iter().map(|pool| pool.map(OpaqueScalar::into_inner)).collect();
    assert_eq!(held, vec![Some(7), Some(1), Some(2)]);

    let mut empty: Sequence<usize, Vec<Option<OpaqueScalar<Counter>>>> = Sequence { index: 5, pools: Vec::new() };
    assert_eq!(PoolMut::<Counter>::insert_mut(&mut empty, OpaqueScalar::new(4)).map(OpaqueScalar::into_inner), Some(4));
    assert!(PoolMut::<Counter>::remove_mut(&mut empty).is_none());
    assert_eq!(empty.index, 5);
}

#[test]
fn id_cell_opens_for_its_owner() {
    let owner = Dynamic::<Counter>::with_alloc();
    let other = Dynamic::<Counter>::with_alloc();
    let cell = owner.cell(10);
    assert!(owner.owns(&cell));
    assert!(!other.owns(&cell));
    assert_eq!(*owner.get(&cell), 10);
    let mut cell = cell;
    *cell.get_mut() += 5;
    let (value, token) = cell.into_raw_parts();
    assert_eq!(value, 15);
    assert!(owner.owns_token(&token));
}

#[test]
fn id_cell_with_trivial_token() {
    let witness = ();
    let id = Anonomous::new(&witness);
    let cell: IdCell<u32, AnonomousToken<()>> = IdCell::new(20);
    assert!(id.owns(&cell));
    assert_eq!(*id.get(&cell), 20);
    let cell = IdCell::with_token("x", id.token());
    assert_eq!(cell.into_raw_parts().0, "x");
}

#[test]
fn identifiers_behind_references_and_boxes() {
    let mut a = Dynamic::<Counter>::with_alloc();
    let t = a.token();
    let boxed = Box::new(Dynamic::<Counter>::with_alloc());
    assert!(Identifier::owns_token(&boxed, &Identifier::token(&boxed)));
    assert!(!Identifier::owns_token(&boxed, &t));
    let r = &mut a;
    assert!(Identifier::owns_token(&r, &t));
}

#[test]
fn branded_ids_are_trusted_by_their_owner() {
    let owner = Dynamic::<Counter>::with_alloc();
    let other = Dynamic::<Counter>::with_alloc();
    let id = Id::new_unchecked(0, owner.token());
    assert!(ArenaKey::<Dynamic<Counter>, DefaultVersion>::validate_ident(&id, &owner, Validator::new()).into_inner());
    assert!(!ArenaKey::<Dynamic<Counter>, DefaultVersion>::validate_ident(&id, &other, Validator::new()).into_inner());
    let key: Key<Id<DynamicToken<Counter>>, SavedDefaultVersion> =
        Key::new(id, DefaultVersion::empty().mark_full().save());
    assert!(ArenaKey::<Dynamic<Counter>, DefaultVersion>::validate_ident(&key, &owner, Validator::new()).into_inner());
    assert!(!ArenaKey::<Dynamic<Counter>, DefaultVersion>::validate_ident(&key, &other, Validator::new()).into_inner());
}

#[test]
fn id_cell_new_holds_the_initial_token() {
    let cell: IdCell<u8, AnonomousToken<u8>> = IdCell::new(1);
    assert!(*cell.token() == AnonomousToken::new());
    assert!(cell.token == AnonomousToken::default());
}
