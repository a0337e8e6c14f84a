# hyperfile-reactor

Priority dispatch for tasks that receive on several tokio channels, verified with
Verus.

A task listens on user-defined channels, each with a priority (0 is the highest) and a
capacity. A scheduler decides which message it processes next:

- `StrictPriority` always serves the highest-priority channel that has a message.
- `FairPriority::new(budget)` does the same, but after `budget` consecutive items from
  the top-priority band it serves one item from the lowest non-empty band.
  `FairPriority::default()` uses a budget of 16.

Among channels of equal priority the one registered first is visited first.

## Layout

- `src/` is the verified library. `endpoint.rs` holds all that is taken on trust about
  tokio's channels; `laws.rs` states what holds across calls, and `runs.rs` what holds over runs
  of them.
- `app/` runs tasks on a dedicated thread with a tokio runtime: it waits where the
  library asks it to wait.
- `tests/` exercises the library on real channels.
