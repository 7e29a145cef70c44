# veloq

A verified core for an async runtime's timer and buffers, written in Verus.

- `src/wheel.rs`: a two-layer hierarchical timing wheel (fine L0 ticks, coarse
  L1 ticks with rounds) with an index from task identifiers to slot positions;
  insertion, cancellation (single and batched), postponement and advancing,
  each with a contract over the wheel's abstract map of tasks.
- `src/config.rs`: wheel, service, batch and timer configurations and their
  validated builders.
- `src/task.rs`, `src/index.rs`: timer tasks, their completion channels, and
  the task index (a `deferred_map::DeferredMap`).
- `src/buddy.rs`, `src/buffer.rs`: a buddy allocator over a 32 MiB arena of
  4 KiB leaves, with its no-overlap invariant, and a buffer pool over it.
- `src/open_options.rs`, `src/blocking.rs`, `src/context.rs`: the flag
  computation for opening files, the admission policy of the blocking thread
  pool, and the yield state.
- `src/laws.rs`: laws that relate several wheel operations.
- `app/`: what stays outside the proofs: callbacks as futures, awaiting
  channels, the worker threads, the arena's memory, file opening, join
  handles and the cross-thread channel.
