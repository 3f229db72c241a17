# arena_lib

Typed memory arenas with machine-checked contracts: a generational arena
with stable handles, a string interner, the cursor of a bump allocator
that grows chunk by chunk, and a chunked arena that owns (and drops) its values.

Layout:

- `src/` — the library, verified with Verus. Each type has a mathematical
  model (`ArenaModel`, the sequence of interned strings, `BumpView`, the
  sequence of chunks) and every public operation states its effect on that
  model. The laws of each module (handles go stale after removal, a handle
  is live exactly while it has been neither removed nor cleared, interning
  is idempotent, placements are aligned and disjoint, a full chunk is
  followed by one that holds the request, values keep their order and fill
  chunks one after the other) are public proof functions next to the code.
- `src/str_table.rs` — the interner's hash index, a `hashbrown::HashMap`
  behind trusted wrappers.
- `tests/` — ordinary Rust tests of the library.
- `app/` — what the library cannot hold: the error type with `Display` and
  `std::error::Error`, a bump arena that writes values into raw chunk
  memory using the library's placement cursor, and a drop arena that
  allocates through a shared reference over the library's `DropArena`.
