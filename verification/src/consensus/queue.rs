use vstd::prelude::*;

use super::api::{decided_after, Consensus};

verus! {

/// A first-in first-out queue.
pub struct Queue<T> {
    inner: Vec<T>,
}

impl<T> Queue<T> {
    /// The items, oldest first.
    pub closed spec fn items(&self) -> Seq<T> {
        self.inner@
    }

    /// An empty queue.
    pub fn new() -> (r: Self)
        ensures
            r.items() == Seq::<T>::empty(),
    {
        Queue { inner: Vec::new() }
    }

    /// Appends `item` at the back.
    pub fn enq(&mut self, item: T)
        ensures
            final(self).items() == old(self).items().push(item),
    {
        self.inner.push(item);
    }

    /// Removes and returns the item at the front.
    pub fn deq(&mut self) -> (r: T)
        requires
            old(self).items().len() > 0,
        ensures
            r == old(self).items()[0],
            final(self).items() == old(self).items().drop_first(),
    {
        self.inner.remove(0)
    }
}

/// Consensus for two threads from a queue that initially holds `WIN` then
/// `LOSE`.
///
/// Each thread writes its proposal into its own slot, then dequeues; the
/// thread that dequeues `WIN` returns its own proposal, the other one
/// returns the proposal of its peer.
pub struct QueueConsensus<T> {
    proposed: Vec<Option<T>>,
    queue: Queue<usize>,
    n: usize,
    /// Which threads have dequeued.
    tried: Ghost<Seq<bool>>,
    /// The thread that dequeued `WIN`, once there is one.
    first: Ghost<int>,
}

/// The token that makes the thread that dequeues it win.
pub const WIN: usize = 0;

/// The token left for the thread that comes second.
pub const LOSE: usize = 1;

impl<T> QueueConsensus<T> {
    /// The slot of each thread.
    pub closed spec fn slots(&self) -> Seq<Option<T>> {
        self.proposed@
    }

    /// Number of thread ids the object serves.
    pub closed spec fn threads(&self) -> nat {
        self.n as nat
    }

    /// Which threads have dequeued.
    pub closed spec fn tried(&self) -> Seq<bool> {
        self.tried@
    }

    /// The tokens still in the queue.
    pub closed spec fn tokens(&self) -> Seq<usize> {
        self.queue.items()
    }

    /// The thread that dequeued `WIN`, if any thread has dequeued.
    pub closed spec fn winner(&self) -> Option<int> {
        if self.queue.items().len() == 2 {
            None
        } else {
            Some(self.first@)
        }
    }

    pub closed spec fn inv(&self) -> bool {
        let tried = self.tried@;
        let taken = (if tried[0] { 1int } else { 0int }) + (if tried[1] { 1int } else { 0int });
        &&& self.proposed@.len() == 2
        &&& tried.len() == 2
        &&& self.n <= 2
        &&& forall|k: int| self.n <= k < 2 ==> #[trigger] self.proposed@[k] is None
        &&& forall|k: int| 0 <= k < 2 && #[trigger] tried[k] ==> self.proposed@[k] is Some
        &&& self.queue.items() == seq![WIN, LOSE].subrange(taken, 2)
        &&& taken > 0 ==> 0 <= self.first@ < 2 && tried[self.first@]
    }

    /// An object for threads `0..n`; at most two threads are supported.
    pub fn new(n: usize) -> (r: Self)
        requires
            n <= 2,
        ensures
            r.inv(),
            r.threads() == n,
            r.slots() == seq![None::<T>, None::<T>],
            r.tried() == seq![false, false],
            r.tokens() == seq![WIN, LOSE],
            r.winner() is None,
    {
        let mut queue = Queue::new();
        queue.enq(WIN);
        queue.enq(LOSE);
        let mut proposed: Vec<Option<T>> = Vec::new();
        proposed.push(None);
        proposed.push(None);
        let r = QueueConsensus { proposed, queue, n, tried: Ghost(Seq::new(2, |k: int| false)), first: Ghost(0) };
        assert(r.slots() =~= seq![None::<T>, None::<T>]);
        assert(r.tried() =~= seq![false, false]);
        assert(r.tokens() =~= seq![WIN, LOSE]);
        assert(seq![WIN, LOSE].subrange(0, 2) =~= seq![WIN, LOSE]);
        r
    }
}

impl<T> Default for QueueConsensus<T> {
    /// An object for two threads.
    fn default() -> (r: Self)
        ensures
            r.inv(),
            r.threads() == 2,
            r.slots() == seq![None::<T>, None::<T>],
            r.tried() == seq![false, false],
            r.tokens() == seq![WIN, LOSE],
            r.winner() is None,
    {
        Self::new(2)
    }
}

impl<T> Consensus<T> for QueueConsensus<T> {
    open spec fn wf(&self) -> bool {
        self.inv()
    }

    open spec fn capacity(&self) -> nat {
        self.threads()
    }

    open spec fn proposal(&self, id: int) -> Option<T> {
        if 0 <= id < self.threads() {
            self.slots()[id]
        } else {
            None
        }
    }

    open spec fn committed(&self, id: int) -> bool {
        0 <= id < self.threads() && self.tried()[id]
    }

    open spec fn decision(&self) -> Option<T> {
        match self.winner() {
            Some(w) => self.slots()[w],
            None => None,
        }
    }

    /// Writes the proposal into the thread's slot.
    fn propose(&mut self, value: T, id: usize)
        ensures
            final(self).slots() == old(self).slots().update(id as int, Some(value)),
            final(self).tried() == old(self).tried(),
            final(self).tokens() == old(self).tokens(),
            final(self).winner() == old(self).winner(),
    {
        let ghost pre = *self;
        self.proposed.set(id, Some(value));
        assert forall|k: int| k != id implies #[trigger] self.proposal(k) == pre.proposal(k) by {
            if 0 <= k < self.threads() {
                assert(self.slots()[k] == pre.slots().update(id as int, Some(value))[k]);
            }
        }
    }

    /// Dequeues a token; the thread that gets `WIN` returns its own
    /// proposal, the other one the proposal of its peer.
    fn commit(&mut self, id: usize) -> (r: &T)
        ensures
            final(self).slots() == old(self).slots(),
            final(self).tried() == old(self).tried().update(id as int, true),
            final(self).tokens() == old(self).tokens().drop_first(),
            final(self).winner() == if old(self).winner() is None {
                Some(id as int)
            } else {
                old(self).winner()
            },
    {
        proof {
            assert(seq![WIN, LOSE].subrange(0, 2) =~= seq![WIN, LOSE]);
            assert(seq![WIN, LOSE].subrange(0, 2).drop_first() =~= seq![WIN, LOSE].subrange(1, 2));
            assert(seq![WIN, LOSE].subrange(1, 2).drop_first() =~= seq![WIN, LOSE].subrange(2, 2));
        }
        let token = self.queue.deq();
        self.tried = Ghost(self.tried@.update(id as int, true));
        self.first = Ghost(if token == WIN { id as int } else { self.first@ });
        if token == WIN {
            self.proposed[id].as_ref().unwrap()
        } else {
            self.proposed[1 - id].as_ref().unwrap()
        }
    }

    proof fn lemma_decision_is_proposed(&self) {
        if let Some(w) = self.winner() {
            assert(self.proposal(w) == self.decision());
            assert(self.committed(w));
        } else {
            assert(seq![WIN, LOSE].subrange(1, 2).len() == 1);
            assert(seq![WIN, LOSE].subrange(2, 2).len() == 0);
        }
    }
}

} // verus!
