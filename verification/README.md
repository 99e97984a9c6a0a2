# typhon

The logic of Typhon, a continuous integration service for Nix, as a library verified with
Verus, and the program around it.

- `src/` is the verified library:
  - `builds`: the build scheduler. A request for a derivation records a build for every
    missing derivation that it reaches, with its dependencies, raises the priority of
    the builds it reaches again, and queues the builds that wait for nothing.
  - `queue`: the ready queue, popped by priority.
  - `init`: the registry of projects (creation, deletion, renaming, lookup).
  - `projects`: the state of one project and the steps of locking its source.
  - `nix`: derivation closures, the step-by-step plan that locks a source, and the
    handling of the Nix daemon's reports.
  - `sources`, `types`, `cli`: sources and locks, the `sources.json` command.
  - `pages`: what the web pages show, as plain values.
  - `strmap`, `order`: a map keyed by strings in byte order.
- `tests/` runs the library on concrete values.
- `app/` is the program: the HTTP server, the database, the Nix and git processes, and
  the command line.

Two ordered collections are plain vectors with a stated invariant:

- `queue::Queue` is an ordered set of `(priority, id)` entries popped from the top.
  vstd specifies `BTreeSet`'s `new`, `insert`, `len` and iteration, but not `pop_last`,
  `last` or `remove`, and its ordering facts hold only for key types that obey vstd's
  comparison laws, which a `(priority, Reverse<id>)` tuple is not shown to do. The queue
  is a vector of `(u64, i64)` entries without repeats, and `pop` is proved to return the
  highest priority with the smallest id among equals, the entry that `pop_last` gives on
  `(priority, Reverse(id))`.
- `strmap::StrMap` is a map keyed by `String`, kept in the byte order of its keys as
  `BTreeMap<String, _>` keeps them. vstd states no comparison laws for `String`, so its
  `BTreeMap` would say nothing of the order of `keys()`. The map is a vector of pairs
  sorted strictly by key bytes, and the listing that `keys()` returns is proved to be
  the one sequence of the keys in that order.
