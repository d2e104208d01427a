use vstd::prelude::*;

use super::api::{decided_after, Consensus};

verus! {

/// Consensus for two threads from a fetch-and-add register, an object of
/// consensus number two ("common2").
///
/// Each thread writes its proposal into its own slot, then increments the
/// register; the thread that saw `FIRST` wins and returns its own proposal,
/// the other one returns the proposal of its peer.
pub struct Common2Consensus<T> {
    proposed: Vec<Option<T>>,
    common2: usize,
    n: usize,
    /// Which threads have incremented the register.
    tried: Ghost<Seq<bool>>,
    /// The thread whose increment came first, once there is one.
    first: Ghost<int>,
}

/// The register's value before any increment.
pub const FIRST: usize = 0;

impl<T> Common2Consensus<T> {
    /// The slot of each thread.
    pub closed spec fn slots(&self) -> Seq<Option<T>> {
        self.proposed@
    }

    /// Number of thread ids the object serves.
    pub closed spec fn threads(&self) -> nat {
        self.n as nat
    }

    /// Which threads have incremented the register.
    pub closed spec fn tried(&self) -> Seq<bool> {
        self.tried@
    }

    /// The register: the number of increments made so far.
    pub closed spec fn counter(&self) -> nat {
        self.common2 as nat
    }

    /// The thread whose increment came first, if any thread has incremented.
    pub closed spec fn winner(&self) -> Option<int> {
        if self.common2 == FIRST {
            None
        } else {
            Some(self.first@)
        }
    }

    pub closed spec fn inv(&self) -> bool {
        let tried = self.tried@;
        &&& self.proposed@.len() == 2
        &&& tried.len() == 2
        &&& self.n <= 2
        &&& forall|k: int| self.n <= k < 2 ==> #[trigger] self.proposed@[k] is None
        &&& forall|k: int| 0 <= k < 2 && #[trigger] tried[k] ==> self.proposed@[k] is Some
        &&& self.common2 == (if tried[0] { 1usize } else { 0usize }) + (if tried[1] { 1usize } else { 0usize })
        &&& self.common2 != FIRST ==> 0 <= self.first@ < 2 && tried[self.first@]
    }

    /// An object for threads `0..n`; at most two threads are supported.
    pub fn new(n: usize) -> (r: Self)
        requires
            n <= 2,
        ensures
            r.inv(),
            r.threads() == n,
            r.slots() == seq![None::<T>, None::<T>],
            r.tried() == seq![false, false],
            r.counter() == 0,
            r.winner() is None,
    {
        let mut proposed: Vec<Option<T>> = Vec::new();
        proposed.push(None);
        proposed.push(None);
        let r = Common2Consensus {
            proposed,
            common2: FIRST,
            n,
            tried: Ghost(Seq::new(2, |k: int| false)),
            first: Ghost(0),
        };
        assert(r.slots() =~= seq![None::<T>, None::<T>]);
        assert(r.tried() =~= seq![false, false]);
        r
    }
}

impl<T> Default for Common2Consensus<T> {
    /// An object for two threads.
    fn default() -> (r: Self)
        ensures
            r.inv(),
            r.threads() == 2,
            r.slots() == seq![None::<T>, None::<T>],
            r.tried() == seq![false, false],
            r.counter() == 0,
            r.winner() is None,
    {
        Self::new(2)
    }
}

impl<T> Consensus<T> for Common2Consensus<T> {
    open spec fn wf(&self) -> bool {
        self.inv()
    }

    open spec fn capacity(&self) -> nat {
        self.threads()
    }

    open spec fn proposal(&self, id: int) -> Option<T> {
        if 0 <= id < self.threads() {
            self.slots()[id]
        } else {
            None
        }
    }

    open spec fn committed(&self, id: int) -> bool {
        0 <= id < self.threads() && self.tried()[id]
    }

    open spec fn decision(&self) -> Option<T> {
        match self.winner() {
            Some(w) => self.slots()[w],
            None => None,
        }
    }

    /// Writes the proposal into the thread's slot.
    fn propose(&mut self, value: T, id: usize)
        ensures
            final(self).slots() == old(self).slots().update(id as int, Some(value)),
            final(self).tried() == old(self).tried(),
            final(self).counter() == old(self).counter(),
            final(self).winner() == old(self).winner(),
    {
        let ghost pre = *self;
        self.proposed.set(id, Some(value));
        assert forall|k: int| k != id implies #[trigger] self.proposal(k) == pre.proposal(k) by {
            if 0 <= k < self.threads() {
                assert(self.slots()[k] == pre.slots().update(id as int, Some(value))[k]);
            }
        }
    }

    /// Increments the register; the thread that saw `FIRST` returns its own
    /// proposal, the other one the proposal of its peer.
    fn commit(&mut self, id: usize) -> (r: &T)
        ensures
            final(self).slots() == old(self).slots(),
            final(self).tried() == old(self).tried().update(id as int, true),
            final(self).counter() == old(self).counter() + 1,
            final(self).winner() == if old(self).winner() is None {
                Some(id as int)
            } else {
                old(self).winner()
            },
    {
        let seen = self.common2;
        self.common2 = self.common2 + 1;
        self.tried = Ghost(self.tried@.update(id as int, true));
        self.first = Ghost(if seen == FIRST { id as int } else { self.first@ });
        if seen == FIRST {
            self.proposed[id].as_ref().unwrap()
        } else {
            self.proposed[1 - id].as_ref().unwrap()
        }
    }

    proof fn lemma_decision_is_proposed(&self) {
        if let Some(w) = self.winner() {
            assert(self.proposal(w) == self.decision());
            assert(self.committed(w));
        }
    }
}

} // verus!
