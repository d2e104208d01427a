use vstd::prelude::*;

verus! {

/// A spin lock for a bounded number of threads with ids `0..capacity()`,
/// as a state machine: each call of `lock` performs the next atomic action
/// of one thread in acquiring the lock, so an interleaving of the threads is
/// a sequence of calls.
pub trait BoundedRawLock: Sized {
    /// Whether the lock's internal invariant holds.
    spec fn wf(&self) -> bool;

    /// Number of thread ids the lock serves.
    spec fn capacity(&self) -> nat;

    /// Whether thread `id` holds the lock.
    spec fn holds(&self, id: int) -> bool;

    /// Whether a lock for `n` threads can be made.
    spec fn admits(n: nat) -> bool;

    /// Whether the next action of thread `id` can be performed: false only
    /// where the action would overflow a machine integer.
    spec fn can_step(&self, id: int) -> bool;

    /// `post` is `pre` after the next action of thread `id` in acquiring the
    /// lock, as each lock defines it.
    spec fn takes_step(pre: Self, id: int, post: Self) -> bool;

    /// Whether a lock for `n` threads can be made.
    fn supports(n: usize) -> (r: bool)
        ensures
            r == Self::admits(n as nat),
    ;

    /// Whether the next action of thread `id` can be performed.
    fn step_fits(&self, id: usize) -> (r: bool)
        requires
            self.wf(),
            id < self.capacity(),
        ensures
            r == self.can_step(id as int),
    ;

    /// A lock for threads `0..n` that no thread holds or waits for.
    fn new(n: usize) -> (r: Self)
        requires
            Self::admits(n as nat),
        ensures
            r.wf(),
            r.capacity() == n,
            forall|id: int| 0 <= id < n ==> !#[trigger] r.holds(id),
    ;

    /// Performs the next action of thread `id` in acquiring the lock, and
    /// returns whether `id` now holds it.
    fn lock(&mut self, id: usize) -> (acquired: bool)
        requires
            old(self).wf(),
            id < old(self).capacity(),
            !old(self).holds(id as int),
            old(self).can_step(id as int),
        ensures
            final(self).wf(),
            final(self).capacity() == old(self).capacity(),
            Self::takes_step(*old(self), id as int, *final(self)),
            acquired == final(self).holds(id as int),
            forall|k: int|
                0 <= k < old(self).capacity() && k != id ==> #[trigger] final(self).holds(k) == old(
                    self,
                ).holds(k),
    ;

    /// Thread `id` releases the lock.
    fn unlock(&mut self, id: usize)
        requires
            old(self).wf(),
            id < old(self).capacity(),
            old(self).holds(id as int),
        ensures
            final(self).wf(),
            final(self).capacity() == old(self).capacity(),
            !final(self).holds(id as int),
            forall|k: int|
                0 <= k < old(self).capacity() && k != id ==> #[trigger] final(self).holds(k) == old(
                    self,
                ).holds(k),
    ;

    /// Mutual exclusion: no two threads hold the lock at once.
    proof fn lemma_mutual_exclusion(&self, a: int, b: int)
        requires
            self.wf(),
            0 <= a < self.capacity(),
            0 <= b < self.capacity(),
            self.holds(a),
            self.holds(b),
        ensures
            a == b,
    ;
}

/// A value guarded by a bounded lock: only the thread that holds the lock
/// may read or write it.
pub struct BoundedLock<L, T> {
    inner: L,
    data: T,
}

impl<L: BoundedRawLock, T> BoundedLock<L, T> {
    /// The lock.
    pub closed spec fn raw(&self) -> L {
        self.inner
    }

    /// The guarded value.
    pub closed spec fn value(&self) -> T {
        self.data
    }

    /// A lock for threads `0..n` guarding `data`.
    pub fn new(n: usize, data: T) -> (r: Self)
        requires
            L::admits(n as nat),
        ensures
            r.raw().wf(),
            r.raw().capacity() == n,
            forall|id: int| 0 <= id < n ==> !#[trigger] r.raw().holds(id),
            r.value() == data,
    {
        BoundedLock { inner: L::new(n), data }
    }

    /// Whether the next action of thread `id` can be performed.
    pub fn step_fits(&self, id: usize) -> (r: bool)
        requires
            self.raw().wf(),
            id < self.raw().capacity(),
        ensures
            r == self.raw().can_step(id as int),
    {
        self.inner.step_fits(id)
    }

    /// Performs the next action of thread `id` in acquiring the lock, and
    /// returns whether `id` now holds it.
    pub fn lock(&mut self, id: usize) -> (acquired: bool)
        requires
            old(self).raw().wf(),
            id < old(self).raw().capacity(),
            !old(self).raw().holds(id as int),
            old(self).raw().can_step(id as int),
        ensures
            final(self).raw().wf(),
            final(self).raw().capacity() == old(self).raw().capacity(),
            L::takes_step(old(self).raw(), id as int, final(self).raw()),
            acquired == final(self).raw().holds(id as int),
            forall|k: int|
                0 <= k < old(self).raw().capacity() && k != id ==> #[trigger] final(self).raw().holds(k)
                    == old(self).raw().holds(k),
            final(self).value() == old(self).value(),
    {
        self.inner.lock(id)
    }

    /// Thread `id` releases the lock.
    pub fn unlock(&mut self, id: usize)
        requires
            old(self).raw().wf(),
            id < old(self).raw().capacity(),
            old(self).raw().holds(id as int),
        ensures
            final(self).raw().wf(),
            final(self).raw().capacity() == old(self).raw().capacity(),
            !final(self).raw().holds(id as int),
            forall|k: int|
                0 <= k < old(self).raw().capacity() && k != id ==> #[trigger] final(self).raw().holds(k)
                    == old(self).raw().holds(k),
            final(self).value() == old(self).value(),
    {
        self.inner.unlock(id)
    }

    /// The guarded value, read by thread `id`, which holds the lock.
    pub fn get(&self, id: usize) -> (r: &T)
        requires
            self.raw().holds(id as int),
        ensures
            *r == self.value(),
    {
        &self.data
    }

    /// Thread `id`, which holds the lock, replaces the guarded value.
    pub fn set(&mut self, id: usize, value: T)
        requires
            old(self).raw().holds(id as int),
        ensures
            final(self).value() == value,
            final(self).raw() == old(self).raw(),
    {
        self.data = value;
    }

    /// Exclusive access: no two threads can be entitled to read or write
    /// the guarded value at once.
    pub proof fn lemma_exclusive_access(&self, a: int, b: int)
        requires
            self.raw().wf(),
            0 <= a < self.raw().capacity(),
            0 <= b < self.raw().capacity(),
            self.raw().holds(a),
            self.raw().holds(b),
        ensures
            a == b,
    {
        self.raw().lemma_mutual_exclusion(a, b);
    }
}

} // verus!
