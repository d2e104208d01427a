use vstd::prelude::*;

use super::api::BoundedRawLock;
use super::peterson_lock::{lock_step, unlock_step, PetersonLock as TwoThreadLock, PetersonPc};

verus! {

/// Peterson's lock as a bounded lock for at most two threads.
pub struct PetersonLock {
    inner: TwoThreadLock,
    n: usize,
}

impl PetersonLock {
    /// The two-thread lock that does the work.
    pub closed spec fn two_thread_lock(&self) -> TwoThreadLock {
        self.inner
    }

    /// Number of thread ids the lock serves.
    pub closed spec fn threads(&self) -> nat {
        self.n as nat
    }
}

impl BoundedRawLock for PetersonLock {
    open spec fn wf(&self) -> bool {
        self.two_thread_lock().inv() && self.threads() <= 2
    }

    open spec fn capacity(&self) -> nat {
        self.threads()
    }

    open spec fn holds(&self, id: int) -> bool {
        self.two_thread_lock().holds(id)
    }

    open spec fn admits(n: nat) -> bool {
        n <= 2
    }

    open spec fn can_step(&self, id: int) -> bool {
        true
    }

    open spec fn takes_step(pre: Self, id: int, post: Self) -> bool {
        &&& post.threads() == pre.threads()
        &&& lock_step(pre.two_thread_lock(), id, post.two_thread_lock())
    }

    fn supports(n: usize) -> (r: bool) {
        n <= 2
    }

    fn step_fits(&self, id: usize) -> (r: bool) {
        true
    }

    fn new(n: usize) -> (r: Self)
        ensures
            r.two_thread_lock().pcs() == seq![PetersonPc::Idle, PetersonPc::Idle],
            r.two_thread_lock().flags() == seq![false, false],
            r.two_thread_lock().victim_id() == 0,
    {
        PetersonLock { inner: TwoThreadLock::new(), n }
    }

    fn lock(&mut self, id: usize) -> (acquired: bool)
        ensures
            final(self).threads() == old(self).threads(),
            lock_step(old(self).two_thread_lock(), id as int, final(self).two_thread_lock()),
    {
        proof {
            self.inner.lemma_shape();
        }
        let acquired = self.inner.lock(id);
        proof {
            self.inner.lemma_shape();
        }
        acquired
    }

    fn unlock(&mut self, id: usize)
        ensures
            final(self).threads() == old(self).threads(),
            unlock_step(old(self).two_thread_lock(), id as int, final(self).two_thread_lock()),
    {
        proof {
            self.inner.lemma_shape();
        }
        self.inner.unlock(id);
        proof {
            self.inner.lemma_shape();
        }
    }

    proof fn lemma_mutual_exclusion(&self, a: int, b: int) {
        self.two_thread_lock().lemma_mutual_exclusion();
    }
}

} // verus!
