//! Verified models of classic shared-memory synchronisation algorithms:
//! consensus objects, bounded spin locks and universal constructions.
//!
//! Every algorithm is written as a state machine over the shared memory
//! (plain values) together with the per-thread program counters.  Each call
//! of a step method performs one atomic shared-memory action of one thread,
//! so any interleaving of threads is a sequence of calls, and the invariants
//! proved here hold for every such interleaving.
pub mod consensus;
pub mod count;
pub mod lock;
pub mod universal;
