# TraceForge

A stateless model checker for message-passing programs. It runs a program again and
again, each time with other choices of which receive reads which message, until every
execution has been visited.

- `src/` is the library, verified with Verus. `must/` holds the exploration: what
  happens when a program performs an event, which revisits a send makes, and how the next
  execution is found; its invariants and laws are in `must/mod.rs` and `must/laws.rs`, and
  `must/delivery/` shows that in every execution each message is taken once.
  `exec_graph.rs`, `cons.rs` and `revisit.rs` are the graphs, the rules of delivery and the
  worklist. `symbolic/` builds constraints and asks the Z3 solver, `summarizable/` reuses
  what was found out about collective calls, `comm_close/` sends and receives in rounds, and
  `debug/` draws graphs.
- `app/` writes the files, prints, calls back and draws samples.
- `tests/` runs small programs through the exploration and compares what it visits with
  all schedules.

Values of the program are opaque to the library: it knows them by a handle. Calls into the
outside crates are marked as such where they stand, in `random.rs` and `symbolic/terms.rs`.
