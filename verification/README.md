# pui

Process-unique identifiers, and the data structures built on them:
branded vectors and generational arenas. The library is verified with
Verus. Its public functions state what they return or change, except
where nothing can be said: the value a user's allocator hands out, and
what a standard atomic holds.

Layout:

- `src/ident/`: identifiers and their tokens (`Anonomous`, `Scoped`,
  `Dynamic`), the scalars that dynamic identifiers are made of, and the
  pools that hand released scalars out again.
- `src/pui_vec.rs`: an append-only vector whose indices can be branded by
  the token of its identifier.
- `src/version.rs`: versioning strategies for arena slots, with the laws
  that rule out stale keys (`DefaultVersion`) or allow them (`Unversioned`).
- `src/arena/`: the sparse, hop and dense arenas, the keys that reach into
  them, and the laws that relate insertion, lookup and removal.
- `src/cell.rs`: cells whose value is reached through the identifier that
  owns them.
- `app/`: what needs process-wide or thread-local state: allocators behind
  `static` counters, and pools behind a mutex.
- `tests/`: the tests, run against the compiled library.
