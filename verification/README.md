# xiangqi_search

Searches for Chinese chess, verified with Verus.

The crate holds three searches and what they share:

- `classic`: a tree search that fills batches of visits, evaluates them at once and carries the
  results back. Visits are spread by the usual exploration formula, collisions are counted and
  taken back, and proven results narrow the bounds of the nodes above.
- `graph`: a search over a graph of positions, in which boards that are reached in several ways
  share a node and repetitions get trees of their own.
- `stream`: a tree search made of small steps (select, expand, evaluate, reply) over a shared
  state.
- `stoppers`, `go_params`, `position`, `error`, `sorting`, `sums`: time management, commands,
  plain values of the game, and tools.
- `scalar`: the arithmetic. All formulas are stated and computed over a `Scalar`; the crate
  brings fixed-point numbers, and a caller may bring the machine's floating point.

The rules of the game and the network are not part of the crate. Whoever applies them hands
plain values in: legal moves, results, evaluations, times.

`app/` runs the searches on threads with floating-point numbers. It is ordinary Rust and is not
verified.
