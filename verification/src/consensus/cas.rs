use vstd::prelude::*;

use super::api::{decided_after, Consensus};

verus! {

/// Consensus for any number of threads from one compare-and-swap register.
///
/// Each thread writes its proposal into its own slot, then tries to swing the
/// register from `FIRST` to its id; the thread that succeeds wins, and every
/// thread returns the proposal of the id that the register holds.
pub struct CasConsensus<T> {
    proposed: Vec<Option<T>>,
    cas: usize,
    /// Which threads have tried the compare-and-swap.
    tried: Ghost<Seq<bool>>,
}

/// The register's value before any thread has won.
pub const FIRST: usize = usize::MAX;

impl<T> CasConsensus<T> {
    /// The slot of each thread.
    pub closed spec fn slots(&self) -> Seq<Option<T>> {
        self.proposed@
    }

    /// Which threads have tried the compare-and-swap.
    pub closed spec fn tried(&self) -> Seq<bool> {
        self.tried@
    }

    /// The id held by the compare-and-swap register, if any thread has won.
    pub closed spec fn winner(&self) -> Option<int> {
        if self.cas == FIRST {
            None
        } else {
            Some(self.cas as int)
        }
    }

    pub closed spec fn inv(&self) -> bool {
        let n = self.proposed@.len();
        &&& n <= usize::MAX
        &&& self.tried@.len() == n
        &&& forall|k: int| 0 <= k < n && #[trigger] self.tried@[k] ==> self.proposed@[k] is Some
        &&& self.cas == FIRST ==> forall|k: int| 0 <= k < n ==> !#[trigger] self.tried@[k]
        &&& self.cas != FIRST ==> self.cas < n && self.tried@[self.cas as int]
    }

    /// An object for threads `0..n`, on which nothing is proposed.
    pub fn new(n: usize) -> (r: Self)
        ensures
            r.inv(),
            r.slots().len() == n,
            forall|k: int| 0 <= k < n ==> #[trigger] r.slots()[k] is None,
            r.tried() == Seq::new(n as nat, |k: int| false),
            r.winner() is None,
    {
        let mut proposed: Vec<Option<T>> = Vec::new();
        let mut k: usize = 0;
        while k < n
            invariant
                k <= n,
                proposed@.len() == k,
                forall|m: int| 0 <= m < k ==> #[trigger] proposed@[m] is None,
            decreases n - k,
        {
            proposed.push(None);
            k = k + 1;
        }
        CasConsensus { proposed, cas: FIRST, tried: Ghost(Seq::new(n as nat, |k: int| false)) }
    }
}

impl<T> Default for CasConsensus<T> {
    /// An object for two threads.
    fn default() -> (r: Self)
        ensures
            r.inv(),
            r.slots().len() == 2,
            forall|k: int| 0 <= k < 2 ==> #[trigger] r.slots()[k] is None,
            r.tried() == Seq::new(2, |k: int| false),
            r.winner() is None,
    {
        Self::new(2)
    }
}

impl<T> Consensus<T> for CasConsensus<T> {
    open spec fn wf(&self) -> bool {
        self.inv()
    }

    open spec fn capacity(&self) -> nat {
        self.slots().len()
    }

    open spec fn proposal(&self, id: int) -> Option<T> {
        if 0 <= id < self.slots().len() {
            self.slots()[id]
        } else {
            None
        }
    }

    open spec fn committed(&self, id: int) -> bool {
        0 <= id < self.slots().len() && self.tried()[id]
    }

    open spec fn decision(&self) -> Option<T> {
        match self.winner() {
            Some(w) => self.slots()[w],
            None => None,
        }
    }

    /// Writes the proposal into the thread's slot.
    fn propose(&mut self, value: T, id: usize)
        ensures
            final(self).slots() == old(self).slots().update(id as int, Some(value)),
            final(self).tried() == old(self).tried(),
            final(self).winner() == old(self).winner(),
    {
        let ghost pre = *self;
        self.proposed.set(id, Some(value));
        assert forall|k: int| k != id implies #[trigger] self.proposal(k) == pre.proposal(k) by {
            if 0 <= k < self.slots().len() {
                assert(self.slots()[k] == pre.slots().update(id as int, Some(value))[k]);
            }
        }
    }

    /// Tries to swing the register from `FIRST` to the thread's id, then
    /// returns the proposal of the id the register holds.
    fn commit(&mut self, id: usize) -> (r: &T)
        ensures
            final(self).slots() == old(self).slots(),
            final(self).tried() == old(self).tried().update(id as int, true),
            final(self).winner() == if old(self).winner() is None {
                Some(id as int)
            } else {
                old(self).winner()
            },
    {
        let ghost pre = *self;
        if self.cas == FIRST {
            self.cas = id;
        }
        self.tried = Ghost(self.tried@.update(id as int, true));
        self.proposed[self.cas].as_ref().unwrap()
    }

    proof fn lemma_decision_is_proposed(&self) {
        if let Some(w) = self.winner() {
            assert(self.proposal(w) == self.decision());
            assert(self.committed(w));
        }
    }
}

} // verus!
