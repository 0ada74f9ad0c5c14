use pui::ident::Identifier;
use pui::arena::{hop, sparse, Key};
use pui::ident::scoped::{Scoped, ScopedToken};
use pui::pui_vec::{Id, PuiVec};
use pui::version::SavedDefaultVersion;

#[test]
fn pui_vec_pushes_and_reads_back() {
    let mut vec = PuiVec::new(());
    assert!(vec.is_empty());
    assert_eq!(vec.push(10), 0);
    assert_eq!(vec.push(20), 1);
    vec.extend_from_slice(&[30, 40]);
    let mut more = vec![50];
    vec.append(&mut more);
    assert!(more.is_empty());
    assert_eq!(vec.len(), 5);
    assert!(vec.capacity() >= 5);
    assert_eq!(vec.get(2), Some(&30));
    assert_eq!(vec.get(5), None);
    assert_eq!(*vec.index(4), 50);
    *vec.get_mut(0).unwrap() += 1;
    assert_eq!(vec.replace(1, 21), 20);
    let (_, items) = vec.into_raw_parts();
    assert_eq!(items, [11, 21, 30, 40, 50]);
}

#[test]
fn pui_vec_ids_are_branded_by_the_scope() {
    Scoped::with(|scope| {
        let mut vec = PuiVec::from_raw_parts(vec!['a', 'b', 'c'], scope);
        let ids: Vec<Id<ScopedToken>> = vec.ids();
        assert_eq!(ids.len(), 3);
        assert_eq!(ids[2].get(), 2);
        let first = vec.parse_id(0).unwrap();
        let last = vec.parse_id(2).unwrap();
        assert!(vec.parse_id(3).is_none());
        vec.swap(first, last);
        let mid = vec.parse_id(1).unwrap();
        let (left, right) = vec.split_at(mid);
        assert_eq!(left, ['c']);
        assert_eq!(right, ['b', 'a']);
    });
}

#[test]
fn arenas_accept_scoped_keys() {
    Scoped::with(|scope| {
        let mut arena: sparse::Arena<&str, Scoped<'_>> = sparse::Arena::with_ident(scope);
        let a: Key<Id<ScopedToken>, SavedDefaultVersion> = arena.insert("a");
        let b: Id<ScopedToken> = arena.insert("b");
        assert_eq!(*arena.get(a).unwrap(), "a");
        assert_eq!(*arena.get(b).unwrap(), "b");
        assert_eq!(arena.remove(a), "a");
        assert!(!arena.contains(a));
        assert!(arena.contains(b));
    });
    Scoped::with(|scope| {
        let mut arena: hop::Arena<u8, Scoped<'_>> = hop::Arena::with_ident(scope);
        let a: Id<ScopedToken> = arena.insert(1u8);
        assert_eq!(a.get(), 1);
        assert_eq!(arena.try_remove(a), Some(1));
        assert_eq!(arena.try_remove(a), None);
    });
}

#[test]
fn pui_vec_get_range() {
    let vec = PuiVec::from_raw_parts(vec![1, 2, 3, 4], ());
    assert_eq!(vec.get_range(1..3), Some(&[2, 3][..]));
    assert_eq!(vec.get_range(0..4), Some(&[1, 2, 3, 4][..]));
    assert_eq!(vec.get_range(4..4), Some(&[][..]));
    assert_eq!(vec.get_range(2..5), None);
    #[allow(clippy::reversed_empty_ranges)]
    let inverted = vec.get_range(3..1);
    assert_eq!(inverted, None);
}

#[test]
fn scoped_tokens_are_all_the_same() {
    Scoped::with(|scope| {
        assert!(ScopedToken::new() == ScopedToken::default());
        assert!(scope.token() == ScopedToken::new());
        assert!(scope.owns_token(&ScopedToken::default()));
    });
}
