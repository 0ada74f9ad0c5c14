use pui::arena::hop::Arena;
use pui::version::Version;

type Key = pui::arena::Key<usize, SavedTestVersion>;

#[derive(Debug, Clone, Copy)]
struct TestVersion(u8);
#[derive(Clone, Copy)]
struct SavedTestVersion(u8);

impl Version for TestVersion {
    type Save = SavedTestVersion;

    fn empty() -> Self {
        Self(0)
    }

    fn mark_empty(self) -> Result<Self, Self> {
        if self.0 == 3 {
            Err(Self(u8::MAX - 1))
        } else {
            Ok(Self(self.0 + 1))
        }
    }

    fn mark_full(self) -> Self {
        Self(self.0 | 1)
    }

    fn is_exhausted(&self) -> bool {
        self.0 == u8::MAX - 1
    }

    fn is_full(self) -> bool {
        self.0 & 1 != 0
    }

    fn equals_saved(self, saved: Self::Save) -> bool {
        self.0 == saved.0
    }

    fn save(self) -> Self::Save {
        SavedTestVersion(self.0)
    }

    // The library's proof-side items, which compiled code never calls,
    // given the same meaning as the operations above.
    fn spec_is_full(self) -> bool {
        self.is_full()
    }

    fn spec_is_exhausted(self) -> bool {
        self.is_exhausted()
    }

    fn spec_save(self) -> Self::Save {
        self.save()
    }

    fn spec_equals_saved(self, saved: Self::Save) -> bool {
        self.equals_saved(saved)
    }

    fn spec_mark_full(self) -> Self {
        self.mark_full()
    }

    fn spec_mark_empty(self) -> Result<Self, Self> {
        self.mark_empty()
    }

    fn spec_empty() -> Self {
        Self::empty()
    }

    fn lemma_save_matches(_v: Self) {}
}

#[test]
fn hop_version_exhaustion() {
    let mut arena = Arena::<_, (), TestVersion>::with_ident(());
    let a: Key = arena.insert(0);
    let ai = *a.id();
    let a = arena.remove(a);
    let a: Key = arena.insert(a);
    let bi = *a.id();
    assert_eq!(ai, bi);
    let a = arena.remove(a);
    let a: Key = arena.insert(a);
    let ci = *a.id();
    assert_ne!(ai, ci);
    let a = arena.remove(a);
    let a: Key = arena.insert(a);
    let di = *a.id();
    assert_eq!(ci, di);
}
