# bdwgcvsimmix_bench

A GCBench-style workload for garbage collectors, whose schedule of
collector operations is proved correct.

- `src/heap.rs`: the conservative collector's handle and the plain data it
  reports (stack bounds, profiling counters).
- `src/bench.rs`: the workload's size arithmetic (`tree_size`, `num_iters`)
  and its laws.
- `src/model.rs`: an abstract collector heap (objects, pointer fields,
  registered root slots) and what it means for an allocation to be safe.
- `src/plan.rs`: the schedules of collector operations that `populate`,
  `make_tree`, `time_construction` and `gcbench` perform, and the order in
  which the whole workload runs them on one heap (`workload_ops`). The
  proofs show that each schedule builds an exact perfect tree, unregisters
  only what it registered, and, on a heap that may hold garbage, keeps its
  own objects and any objects it is asked to keep reachable from a root
  whenever it allocates; and that, run in order, the workload keeps the
  long-lived tree registered and reachable at every allocation of the
  rounds.
- `app/`: the C interface of the conservative collector, the raw-pointer
  handle `Gc`, and the driver that replays the workload on the immix
  collector.
