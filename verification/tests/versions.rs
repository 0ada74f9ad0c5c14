use pui::arena::{ArenaKey, TrustedIndex, Validator};
use pui::arena::{sparse, hop, dense, Key};
use pui::version::{DefaultVersion, SavedDefaultVersion, TinyVersion, Unversioned, UnversionedFull, Version};

#[test]
fn default_version_rejects_stale_keys() {
    let mut arena = sparse::Arena::<i32>::new();
    let a: Key<usize, SavedDefaultVersion> = arena.insert(1);
    assert_eq!(arena.remove(a), 1);
    assert!(!arena.contains(a));
    let b: Key<usize, SavedDefaultVersion> = arena.insert(2);
    assert_eq!(*a.id(), *b.id());
    assert!(!arena.contains(a));
    assert!(arena.contains(b));
    assert_eq!(arena.get(a), None);
    assert_eq!(arena.try_remove(a), None);
    assert!(!arena.delete(a));
    assert_eq!(*arena.get(b).unwrap(), 2);
}

#[test]
fn unversioned_keys_match_again() {
    let mut arena = sparse::Arena::<i32, (), Unversioned>::with_ident(());
    let a: Key<usize, UnversionedFull> = arena.insert(1);
    arena.remove(a);
    assert!(!arena.contains(a));
    let _b: Key<usize, UnversionedFull> = arena.insert(2);
    assert!(arena.contains(a));
    assert_eq!(*arena.get(a).unwrap(), 2);
}

#[test]
fn hop_and_dense_reject_stale_keys() {
    let mut h = hop::Arena::<i32>::new();
    let a: Key<usize, SavedDefaultVersion> = h.insert(1);
    h.remove(a);
    let b: Key<usize, SavedDefaultVersion> = h.insert(2);
    assert_eq!(*a.id(), *b.id());
    assert!(!h.contains(a));
    assert!(h.contains(b));

    let mut d = dense::Arena::<i32>::new();
    let a: Key<usize, SavedDefaultVersion> = d.insert(1);
    d.remove(a);
    let b: Key<usize, SavedDefaultVersion> = d.insert(2);
    assert_eq!(*a.id(), *b.id());
    assert!(!d.contains(a));
    assert!(d.contains(b));
}

#[test]
fn default_version_moves_forward() {
    let v = DefaultVersion::empty();
    assert!(!v.is_full());
    let full = v.mark_full();
    assert!(full.is_full());
    let saved = full.save();
    assert!(full.equals_saved(saved));
    let empty = full.mark_empty().ok().unwrap();
    assert!(!empty.is_full());
    assert!(!empty.is_exhausted());
    let again = empty.mark_full();
    assert!(!again.equals_saved(saved));
}

#[test]
fn tiny_version_exhausts() {
    let mut v = TinyVersion::empty();
    // each slot takes 127 insertion/removal pairs before its version
    // is exhausted
    let mut pairs = 0;
    loop {
        let full = v.mark_full();
        assert!(full.is_full());
        pairs += 1;
        match full.mark_empty() {
            Ok(next) => {
                assert!(!next.is_exhausted());
                v = next;
            }
            Err(last) => {
                assert!(last.is_exhausted());
                assert!(!last.is_full());
                break;
            }
        }
    }
    assert_eq!(pairs, 127);
}

#[test]
fn hop_insertion_reuses_before_growing() {
    let mut arena = hop::Arena::<u32>::new();
    let keys: Vec<usize> = (0..6).map(|i| arena.insert(i)).collect();
    assert_eq!(keys, [1, 2, 3, 4, 5, 6]);
    arena.remove(2usize);
    arena.remove(4usize);
    arena.remove(3usize);
    // slots 2..=4 form one block; the next insertions fill it from its start
    let a: usize = arena.insert(10);
    let b: usize = arena.insert(11);
    let c: usize = arena.insert(12);
    assert_eq!((a, b, c), (2, 3, 4));
    let d: usize = arena.insert(13);
    assert_eq!(d, 7);
    assert_eq!(arena.len(), 7);
    let values: Vec<u32> = arena.iter().into_iter().copied().collect();
    assert_eq!(values, [0, 10, 11, 12, 4, 5, 13]);
}

#[test]
fn hop_clear_keeps_the_sentinel() {
    let mut arena = hop::Arena::<u32>::new();
    let _: usize = arena.insert(1);
    let _: usize = arena.insert(2);
    arena.clear();
    assert_eq!(arena.len(), 0);
    assert!(arena.is_empty());
    let k: usize = arena.insert(3);
    assert_eq!(k, 1);
}

#[test]
fn hop_drain_filter_returns_in_slot_order() {
    let mut arena = hop::Arena::<u32>::new();
    for i in 0..8 {
        let _: usize = arena.insert(i);
    }
    let odd = arena.drain_filter(|&x| x % 2 == 1);
    assert_eq!(odd, [1, 3, 5, 7]);
    assert_eq!(arena.len(), 4);
    let keys: Vec<usize> = arena.keys().into_iter().collect();
    assert_eq!(keys, [1, 3, 5, 7]);
    let rest = arena.drain();
    assert_eq!(rest, [0, 2, 4, 6]);
    assert!(arena.is_empty());
}

#[test]
fn keys_compare_by_id_and_version() {
    let k = Key::new(3usize, 7u32);
    assert_eq!(*k.id(), 3);
    assert_eq!(*k.version(), 7);
    assert!(k == Key::new(3usize, 7u32));
    assert!(k != Key::new(3usize, 8u32));
    assert!(k != Key::new(4usize, 7u32));
}

#[test]
fn validation_trusts_only_trusted_keys() {
    let t = TrustedIndex::new(3);
    assert!(ArenaKey::<(), DefaultVersion>::validate_ident(&t, &(), Validator::new()).into_inner());
    assert!(!ArenaKey::<(), DefaultVersion>::validate_ident(&3usize, &(), Validator::new()).into_inner());
    let k: Key<usize, SavedDefaultVersion> = Key::new(3, DefaultVersion::empty().mark_full().save());
    assert!(!ArenaKey::<(), DefaultVersion>::validate_ident(&k, &(), Validator::new()).into_inner());
    let kt: Key<TrustedIndex, SavedDefaultVersion> = Key::new(t, DefaultVersion::empty().mark_full().save());
    assert!(ArenaKey::<(), DefaultVersion>::validate_ident(&kt, &(), Validator::new()).into_inner());
}

#[test]
fn exhausted_sparse_slot_is_never_reused() {
    let mut arena = sparse::Arena::<u32, (), TinyVersion>::with_ident(());
    // 127 insertion/removal pairs exhaust slot 0
    for i in 0..127u32 {
        let k: usize = arena.insert(i);
        assert_eq!(k, 0);
        assert_eq!(arena.remove(k), i);
    }
    for i in 0..5u32 {
        let k: usize = arena.insert(i);
        assert_ne!(k, 0);
        assert_eq!(k, 1);
        arena.remove(k);
    }
    assert!(arena.get(0usize).is_none());
}

#[test]
fn dense_removal_moves_the_last_value() {
    let mut arena = dense::Arena::<char>::new();
    let a: usize = arena.insert('a');
    let b: usize = arena.insert('b');
    let c: usize = arena.insert('c');
    assert_eq!(arena.remove(a), 'a');
    let values: Vec<char> = arena.iter().into_iter().copied().collect();
    assert_eq!(values, ['c', 'b']);
    let keys: Vec<usize> = arena.keys();
    assert_eq!(keys, [c, b]);
    // the freed slot is the next one taken
    let d: usize = arena.insert('d');
    assert_eq!(d, a);
    assert!(!arena.delete(7usize));
    let keys: Vec<usize> = arena.keys();
    assert_eq!(keys, [c, b, d]);
}

#[test]
fn hop_takes_the_end_of_the_sentinel_block() {
    let mut arena = hop::Arena::<u32>::new();
    let keys: Vec<usize> = (0..4).map(|i| arena.insert(i)).collect();
    assert_eq!(keys, [1, 2, 3, 4]);
    arena.remove(1usize);
    arena.remove(2usize);
    // slots 1 and 2 join the sentinel's block; its end is taken first
    let x: usize = arena.insert(10);
    assert_eq!(x, 2);
    let y: usize = arena.insert(11);
    assert_eq!(y, 1);
}
