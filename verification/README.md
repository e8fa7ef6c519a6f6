# actuate

A reactive composition runtime whose core is verified with Verus.

Composables live in a tree of nodes. Each node has a scope that stores its
hooks by position, counts its compositions, and sees the context values its
ancestors provide. Writes to hook slots are queued and applied after a
composition; a node that asks to be composed again is queued once.

Layout:

- `src/` — the verified library.
  - `scope.rs`: hook storage of one scope, contexts, callbacks and drop functions.
  - `composer.rs`: the composition tree, the queues of nodes, updates and tasks.
  - `compose.rs`: how composables place their children (optional, fallible,
    dynamically typed, per item, memoized), and the short name of a composable.
  - `hooks.rs`: memoized values and effects.
  - `traversal.rs`: the order in which one composition composes its nodes, and its result.
  - `diagram.rs`: building, running and drawing a graph of systems over states.
  - `pointer.rs`, `rebuild.rs`, `modify.rs`, `error.rs`, `update.rs`,
    `executor.rs`, `data.rs`: references, rebuild decisions, modifiers,
    errors and small building blocks.
  - `store.rs`: the slot map and queue the tree is kept in, with their contracts.
  - `laws.rs`: properties across operations.
- `tests/` — tests of the library.
- `app/` — the program: the composition loop, the Tokio executor, printable
  errors, the Mermaid text of a diagram's drawing and the floating-point
  controllers.
