# simcore

A factory of belts, machines, sources and sinks, simulated in whole numbers of
ticks and cells. Nothing is done per tick and node: a node is handled only when
something happens to it, a node that is blocked waits for the one that blocks it,
and what lies on a belt moves only when someone looks. Everything in `src/` is
verified with Verus; taken on trust are only what `Vec::reserve_exact` and
`Vec::capacity` do, which have no specification there.

- `src/model.rs` says what every operation does, over sequences, sets and
  unbounded integers. Every operation of `World` is proved to do just that.
- `src/world.rs` and `src/world/` hold the factory as it is stored: flat arrays,
  lists threaded through the nodes, a timing wheel, and belts as chains of runs in
  one arena.
- `src/timers.rs`, `src/order.rs`, `src/digest.rs` and `src/ids.rs` hold the queue
  of far timers, the order of sorted events, the hash of a state and the
  identifiers of nodes.
- `src/scenario.rs` builds factories of equal production lines.
- `src/valid.rs`, `src/queues.rs`, `src/belts.rs`, `src/ticks.rs`, `src/stages.rs`,
  `src/settle.rs` and `src/running.rs` hold what is true of every factory, that every
  tick ends, and how long a factory can run.
- `src/balance.rs`, `src/emission.rs`, `src/worth.rs`, `src/lines.rs`, `src/cells.rs`,
  `src/motion.rs`, `src/rest.rs`, `src/waits.rs`, `src/jam.rs`, `src/history.rs` and
  `src/telling.rs` hold what follows for factories as a whole. Their theorems are the
  functions whose names begin with `law_`.
- `tests/` runs the library, `app/` measures how fast it is.
