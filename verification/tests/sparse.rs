use pui::arena::sparse::Arena;

#[test]
fn sparse_basic() {
    let mut arena = Arena::new();

    let a: usize = arena.insert(0);
    assert_eq!(a, 0);
    assert_eq!(*arena.get(a).unwrap(), 0);
    assert_eq!(arena.remove(a), 0);
    assert_eq!(arena.get(a), None);

    let b: usize = arena.insert(10);
    assert_eq!(b, 0);
    assert_eq!(*arena.get(b).unwrap(), 10);

    let b: usize = arena.insert(20);
    assert_eq!(b, 1);
    assert_eq!(*arena.get(b).unwrap(), 20);
    assert_eq!(arena.remove(a), 10);
    assert_eq!(arena.get(a), None);

    let c: usize = arena.insert(30);
    assert_eq!(c, 0);
    assert_eq!(*arena.get(c).unwrap(), 30);
    assert_eq!(arena.remove(b), 20);
    assert_eq!(arena.get(b), None);
    assert_eq!(arena.remove(c), 30);
    assert_eq!(arena.get(c), None);
}
#[test]
fn sparse_basic_reinsertion() {
    let mut arena = Arena::new();
    let mut ins_values = (0..10).map(|i| arena.insert(i * 10)).collect::<Vec<usize>>();
    for i in (0..ins_values.len()).rev().step_by(3) {
        let key = ins_values.remove(i);
        arena.remove(key);
    }
    for i in ins_values.len()..10 {
        ins_values.push(arena.insert(i * 100));
    }
}
#[test]
#[allow(clippy::many_single_char_names)]
fn sparse_zero_sized() {
    let mut arena = Arena::new();

    let a: usize = arena.insert(());
    let b: usize = arena.insert(());
    let c: usize = arena.insert(());
    let d: usize = arena.insert(());
    let e: usize = arena.insert(());

    arena.remove(b);
    arena.remove(d);
    arena.remove(a);
    arena.remove(c);
    arena.remove(e);

    let a: usize = arena.insert(());
    let b: usize = arena.insert(());
    let c: usize = arena.insert(());
    let d: usize = arena.insert(());
    let e: usize = arena.insert(());

    arena.remove(b);
    arena.remove(d);
    arena.remove(a);
    arena.remove(c);
    arena.remove(e);
}
#[test]
fn sparse_basic_retain() {
    let mut arena = Arena::new();
    for i in 0..10 {
        let _: usize = arena.insert(i);
    }
    arena.retain(|&i| i % 3 == 0);
    let mut items = arena.iter().into_iter().copied().collect::<Vec<_>>();
    items.sort_unstable();
    assert_eq!(items, [0, 3, 6, 9]);
}
#[test]
fn sparse_iter_keys_insert_only() {
    let mut arena = Arena::new();
    let ins_keys = (0..10).map(|i| arena.insert(i * 10)).collect::<Vec<usize>>();
    let mut iter_keys = arena.keys().into_iter().collect::<Vec<usize>>();
    iter_keys.sort_unstable();
    assert_eq!(ins_keys, iter_keys);
}
#[test]
fn sparse_iter_keys_rev_insert_only() {
    let mut arena = Arena::new();
    let ins_keys = (0..10).map(|i| arena.insert(i * 10)).collect::<Vec<usize>>();
    let mut iter_keys = arena.keys().into_iter().rev().collect::<Vec<usize>>();
    iter_keys.sort_unstable();

    assert_eq!(ins_keys, iter_keys);
}
#[test]
fn sparse_iter_keys_with_removal() {
    let mut arena = Arena::new();
    let mut ins_keys = (0..10).map(|i| arena.insert(i * 10)).collect::<Vec<usize>>();
    for i in (0..ins_keys.len()).rev().step_by(3) {
        let key = ins_keys.remove(i);
        arena.remove(key);
    }
    let mut iter_keys = arena.keys().into_iter().collect::<Vec<usize>>();
    iter_keys.sort_unstable();
    assert_eq!(ins_keys, iter_keys);
}
#[test]
fn sparse_iter_keys_rev_with_removal() {
    let mut arena = Arena::new();
    let mut ins_keys = (0..10).map(|i| arena.insert(i * 10)).collect::<Vec<usize>>();
    for i in (0..ins_keys.len()).rev().step_by(3) {
        let key = ins_keys.remove(i);
        arena.remove(key);
    }
    ins_keys.sort_unstable();
    let mut iter_keys = arena.keys().into_iter().rev().collect::<Vec<usize>>();
    iter_keys.sort_unstable();
    assert_eq!(ins_keys, iter_keys);
}
#[test]
fn sparse_iter_keys_with_reinsertion() {
    let mut arena = Arena::new();
    let mut ins_keys = (0..10).map(|i| arena.insert(i * 10)).collect::<Vec<usize>>();
    for i in (0..ins_keys.len()).rev().step_by(3) {
        let key = ins_keys.remove(i);
        arena.remove(key);
    }
    for i in ins_keys.len()..10 {
        ins_keys.push(arena.insert(i * 100));
    }
    let mut iter_keys = arena.keys().into_iter().collect::<Vec<usize>>();
    let mut rev_iter_keys = arena.keys().into_iter().rev().collect::<Vec<usize>>();

    // the order that the keys come out doesn't matter,
    // so put them in a canonical order
    ins_keys.sort_unstable();
    iter_keys.sort_unstable();
    rev_iter_keys.sort_unstable();

    assert_eq!(ins_keys, iter_keys);
    assert_eq!(ins_keys, rev_iter_keys);
}
#[test]
fn sparse_iter_values_insert_only() {
    let mut arena = Arena::new();
    let _ = (0..10).map(|i| arena.insert(i * 10)).collect::<Vec<usize>>();
    let mut iter_values = arena.iter().into_iter().copied().collect::<Vec<_>>();
    iter_values.sort_unstable();
    assert_eq!(iter_values, [0, 10, 20, 30, 40, 50, 60, 70, 80, 90]);
}
#[test]
fn sparse_iter_values_rev_insert_only() {
    let mut arena = Arena::new();
    let _ = (0..10).map(|i| arena.insert(i * 10)).collect::<Vec<usize>>();
    let mut iter_values = arena.iter().into_iter().copied().rev().collect::<Vec<_>>();
    iter_values.sort_unstable();
    assert_eq!(iter_values, [0, 10, 20, 30, 40, 50, 60, 70, 80, 90]);
}
#[test]
fn sparse_iter_values_with_removal() {
    let mut arena = Arena::new();
    let mut ins_values = (0..10).map(|i| arena.insert(i * 10)).collect::<Vec<usize>>();
    for i in (0..ins_values.len()).rev().step_by(3) {
        let key = ins_values.remove(i);
        arena.remove(key);
    }
    let mut iter_values = arena.iter().into_iter().copied().collect::<Vec<_>>();
    iter_values.sort_unstable();
    assert_eq!(iter_values, [10, 20, 40, 50, 70, 80]);
}
#[test]
fn sparse_iter_values_rev_with_removal() {
    let mut arena = Arena::new();
    let mut ins_values = (0..10).map(|i| arena.insert(i * 10)).collect::<Vec<usize>>();
    for i in (0..ins_values.len()).rev().step_by(3) {
        let key = ins_values.remove(i);
        arena.remove(key);
    }
    let mut iter_values = arena.iter().into_iter().copied().rev().collect::<Vec<_>>();
    iter_values.sort_unstable();
    assert_eq!(iter_values, [10, 20, 40, 50, 70, 80]);
}
#[test]
fn sparse_iter_values_with_reinsertion() {
    let mut arena = Arena::new();
    let mut ins_values = (0..10).map(|i| arena.insert(i * 10)).collect::<Vec<usize>>();
    for i in (0..ins_values.len()).rev().step_by(3) {
        let key = ins_values.remove(i);
        arena.remove(key);
    }
    for i in ins_values.len()..10 {
        ins_values.push(arena.insert(i * 100));
    }
    let mut iter_values = arena.iter().into_iter().copied().collect::<Vec<usize>>();
    let mut rev_iter_values = arena.iter().into_iter().copied().rev().collect::<Vec<usize>>();

    // the order that the iter come out doesn't matter,
    // so put them in a canonical order
    iter_values.sort_unstable();
    rev_iter_values.sort_unstable();

    assert_eq!(iter_values, [10, 20, 40, 50, 70, 80, 600, 700, 800, 900]);
    assert_eq!(rev_iter_values, [10, 20, 40, 50, 70, 80, 600, 700, 800, 900]);
}
#[test]
fn sparse_into_iter_values_insert_only() {
    let mut arena = Arena::new();
    let _ = (0..10).map(|i| arena.insert(i * 10)).collect::<Vec<usize>>();
    let mut into_iter_values = arena.into_iter().into_iter().collect::<Vec<_>>();
    into_iter_values.sort_unstable();
    assert_eq!(into_iter_values, [0, 10, 20, 30, 40, 50, 60, 70, 80, 90]);
}
#[test]
fn sparse_into_iter_values_rev_insert_only() {
    let mut arena = Arena::new();
    let _ = (0..10).map(|i| arena.insert(i * 10)).collect::<Vec<usize>>();
    let mut into_iter_values = arena.into_iter().into_iter().rev().collect::<Vec<_>>();
    into_iter_values.sort_unstable();
    assert_eq!(into_iter_values, [0, 10, 20, 30, 40, 50, 60, 70, 80, 90]);
}
#[test]
fn sparse_into_iter_values_with_removal() {
    let mut arena = Arena::new();
    let mut ins_values = (0..10).map(|i| arena.insert(i * 10)).collect::<Vec<usize>>();
    for i in (0..ins_values.len()).rev().step_by(3) {
        let key = ins_values.remove(i);
        arena.remove(key);
    }
    let mut into_iter_values = arena.into_iter().into_iter().collect::<Vec<_>>();
    into_iter_values.sort_unstable();
    assert_eq!(into_iter_values, [10, 20, 40, 50, 70, 80]);
}
#[test]
fn sparse_into_iter_values_rev_with_removal() {
    let mut arena = Arena::new();
    let mut ins_values = (0..10).map(|i| arena.insert(i * 10)).collect::<Vec<usize>>();
    for i in (0..ins_values.len()).rev().step_by(3) {
        let key = ins_values.remove(i);
        arena.remove(key);
    }
    let mut into_iter_values = arena.into_iter().into_iter().rev().collect::<Vec<_>>();
    into_iter_values.sort_unstable();
    assert_eq!(into_iter_values, [10, 20, 40, 50, 70, 80]);
}
#[test]
fn sparse_into_iter_values_with_reinsertion() {
    let mk_arena = || {
        let mut arena = Arena::new();
        let mut ins_values = (0..10).map(|i| arena.insert(i * 10)).collect::<Vec<usize>>();
        for i in (0..ins_values.len()).rev().step_by(3) {
            let key = ins_values.remove(i);
            arena.remove(key);
        }
        for i in ins_values.len()..10 {
            ins_values.push(arena.insert(i * 100));
        }
        arena
    };
    let mut into_iter_values = mk_arena().into_iter().into_iter().collect::<Vec<usize>>();
    let mut rev_into_iter_values = mk_arena().into_iter().into_iter().rev().collect::<Vec<usize>>();

    // the order that the iter come out doesn't matter,
    // so put them in a canonical order
    into_iter_values.sort_unstable();
    rev_into_iter_values.sort_unstable();

    assert_eq!(into_iter_values, [10, 20, 40, 50, 70, 80, 600, 700, 800, 900]);
    assert_eq!(rev_into_iter_values, [10, 20, 40, 50, 70, 80, 600, 700, 800, 900]);
}
