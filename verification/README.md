# relaxed_memory_concurrency

Verified models of classic shared-memory synchronisation algorithms
(Herlihy & Shavit style): consensus objects, bounded spin locks and universal
constructions.

Each algorithm is a state machine over its shared memory (plain values) and
the program counter of every thread. A call of a step method (`lock`,
`step`, ...) performs the next atomic action of one thread, so every
interleaving of threads is a sequence of calls, and the invariants proved in
`src/` hold for all of them (under sequentially consistent memory).

- `src/consensus/`: the `Consensus` trait and its agreement law; consensus
  from compare-and-swap (`CasConsensus`), fetch-and-add (`Common2Consensus`),
  a two-token queue (`QueueConsensus`) and a multi-assignment register
  (`MultiConsensus`, with its triangular table `Assign`).
- `src/lock/`: the `BoundedRawLock` trait with mutual exclusion as a law,
  Peterson's lock (a waiting thread is bypassed at most once), the filter
  lock and the bakery lock (first come, first served), each free of
  deadlock (while nobody holds the lock, some thread in the protocol is not
  stuck, and a thread that is not stuck gets past its check within two
  actions), and `BoundedLock`, a value only the lock holder may read or
  write.
- `src/universal.rs`: the lock-free and wait-free universal constructions
  over any `SeqObject`: operations are threaded onto a log by per-node
  consensus, every answer is the one the log's sequential replay gives, and
  every operation takes effect once. The lock-free construction carries a
  potential that every step which does not answer lowers; the wait-free one
  gives each operation a budget of at most `5 * n + 19` steps of its own
  thread, which no other thread can spend.
- `src/count.rs`: counting and summing lemmas used by the filter lock and
  the universal constructions.
- `app/`: wrappers that share the state machines between real threads.
