use pui::arena::{dense, hop, sparse, Key};
use pui::version::SavedDefaultVersion;

type K = Key<usize, SavedDefaultVersion>;

#[test]
fn sparse_vacant_entry_knows_its_key() {
    let mut arena = sparse::Arena::<&str>::new();
    let a: K = arena.insert("a");
    let entry = arena.vacant_entry();
    let key: K = entry.key();
    let inserted: K = entry.insert("b");
    assert_eq!(*key.id(), *inserted.id());
    assert!(arena.contains(key));
    assert_eq!(*arena.get(key).unwrap(), "b");
    assert_eq!(*arena.get(a).unwrap(), "a");
}

#[test]
fn sparse_vacant_entry_reserves_a_slot() {
    let mut arena = sparse::Arena::<u8>::new();
    let _ = arena.vacant_entry();
    assert_eq!(arena.slots(), 1);
    assert_eq!(arena.len(), 0);
    let k: usize = arena.insert(7);
    assert_eq!(k, 0);
    assert_eq!(arena.slots(), 1);
}

#[test]
fn hop_vacant_entry_knows_its_key() {
    let mut arena = hop::Arena::<u8>::new();
    let first: usize = arena.insert(1);
    let second: usize = arena.insert(2);
    arena.remove(first);
    let entry = arena.vacant_entry();
    let key: usize = entry.key();
    assert_eq!(key, first);
    let inserted: usize = entry.insert(3);
    assert_eq!(inserted, key);
    assert_eq!(*arena.get(second).unwrap(), 2);
    assert_eq!(*arena.get(key).unwrap(), 3);

    let entry = arena.vacant_entry();
    let key: usize = entry.key();
    assert_eq!(key, 3);
    let _ = entry;
    let again: usize = arena.insert(4);
    assert_eq!(again, 3);
}

#[test]
fn dense_vacant_entry_knows_its_key() {
    let mut arena = dense::Arena::<u8>::new();
    let entry = arena.vacant_entry();
    let key: K = entry.key();
    let inserted: K = entry.insert(9);
    assert_eq!(*key.id(), *inserted.id());
    assert!(arena.contains(key));
    assert_eq!(arena.len(), 1);
}
