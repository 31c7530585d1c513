# matchmaking_engine

A 5v5 matchmaking engine. Players wait in an MMR-ordered queue; workers pick
anchor players, scan the MMR window around each anchor (the window widens the
longer the anchor waits), claim ten players, split them into the two most
evenly matched teams of five, and emit the match. Health metrics count
enqueues, matches and wait times.

Layout:

- `src/` — the verified library (Verus):
  - `types.rs`: queued players, reservation, MMR tolerance, snapshots, results;
  - `queue.rs`: the queue keyed by `(mmr, player_id)` and its window scan;
  - `balancer.rs`: the exhaustive search over all 252 five-of-ten splits;
  - `worker.rs`: one matching cycle, and turning a formed match into a result;
  - `metrics.rs`: counters, wait samples and percentiles;
  - `engine.rs`: configuration and admission of players.
- `app/` — the program around it: worker and reporter threads, locks around
  the shared queue and metrics, the match channel, floating-point reports, the
  demo (`main`) and the load simulation (argument `simulate`).
- `tests/` — tests of the library.
