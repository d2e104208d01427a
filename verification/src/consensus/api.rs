use vstd::prelude::*;

verus! {

/// A consensus object: every thread proposes a value once, then learns one
/// and the same decided value, which some thread proposed.
///
/// Thread ids run from `0` to `capacity() - 1`. A thread first writes its
/// proposal (`propose`), then takes part in the decision (`commit`); each of
/// these is one atomic action, so any interleaving of threads is a sequence
/// of calls. `decide` is the two in a row.
pub trait Consensus<T>: Sized {
    /// Whether the object's internal invariant holds.
    spec fn wf(&self) -> bool;

    /// Number of thread ids the object was made for.
    spec fn capacity(&self) -> nat;

    /// What thread `id` has proposed so far, if anything.
    spec fn proposal(&self, id: int) -> Option<T>;

    /// Whether thread `id` has taken part in the decision.
    spec fn committed(&self, id: int) -> bool;

    /// The value decided so far, if any thread has committed.
    spec fn decision(&self) -> Option<T>;

    /// Thread `id` writes its proposal `value`.
    fn propose(&mut self, value: T, id: usize)
        requires
            old(self).wf(),
            id < old(self).capacity(),
            old(self).proposal(id as int) is None,
        ensures
            final(self).wf(),
            final(self).capacity() == old(self).capacity(),
            final(self).proposal(id as int) == Some(value),
            forall|k: int| k != id ==> #[trigger] final(self).proposal(k) == old(self).proposal(k),
            forall|k: int| #[trigger] final(self).committed(k) == old(self).committed(k),
            final(self).decision() == old(self).decision(),
    ;

    /// Thread `id`, which has proposed, takes part in the decision and
    /// learns the decided value: the value already decided if there is one,
    /// its own proposal otherwise.
    fn commit(&mut self, id: usize) -> (r: &T)
        requires
            old(self).wf(),
            id < old(self).capacity(),
            old(self).proposal(id as int) is Some,
            !old(self).committed(id as int),
        ensures
            final(self).wf(),
            final(self).capacity() == old(self).capacity(),
            forall|k: int| #[trigger] final(self).proposal(k) == old(self).proposal(k),
            final(self).committed(id as int),
            forall|k: int| k != id ==> #[trigger] final(self).committed(k) == old(self).committed(k),
            final(self).decision() == Some(*r),
            *r == decided_after(old(self).decision(), old(self).proposal(id as int)->0),
    ;

    /// Thread `id` proposes `value` and learns the decided value: the value
    /// already decided if there is one, its own value otherwise.
    fn decide(&mut self, value: T, id: usize) -> (r: &T)
        requires
            old(self).wf(),
            id < old(self).capacity(),
            old(self).proposal(id as int) is None,
        ensures
            final(self).wf(),
            final(self).capacity() == old(self).capacity(),
            final(self).proposal(id as int) == Some(value),
            forall|k: int| k != id ==> #[trigger] final(self).proposal(k) == old(self).proposal(k),
            final(self).committed(id as int),
            forall|k: int| k != id ==> #[trigger] final(self).committed(k) == old(self).committed(k),
            final(self).decision() == Some(*r),
            *r == decided_after(old(self).decision(), value),
    {
        proof {
            self.lemma_decision_is_proposed();
        }
        self.propose(value, id);
        self.commit(id)
    }

    /// Validity: a decided value is the proposal of a thread that
    /// committed, nothing is decided before some thread has committed, and
    /// only threads that proposed commit.
    proof fn lemma_decision_is_proposed(&self)
        requires
            self.wf(),
        ensures
            self.decision() matches Some(d) ==> exists|k: int|
                0 <= k < self.capacity() && self.committed(k) && #[trigger] self.proposal(k) == Some(d),
            self.decision() is None ==> forall|k: int| !#[trigger] self.committed(k),
            forall|k: int| #[trigger] self.committed(k) ==> self.proposal(k) is Some,
    ;
}

/// The value learnt by a thread that proposes `value` when `decided` was
/// decided before its call.
pub open spec fn decided_after<T>(decided: Option<T>, value: T) -> T {
    match decided {
        Some(d) => d,
        None => value,
    }
}

/// One atomic action of a thread on a consensus object.
pub enum Action<T> {
    /// The thread proposes the value.
    Propose(T),
    /// The thread commits and learns the value.
    Commit(T),
}

/// Thread `id` took the object from `pre` to `post` by `act`, as the
/// contracts of `propose` and `commit` describe it.
pub open spec fn is_step<T, C: Consensus<T>>(pre: C, id: int, act: Action<T>, post: C) -> bool {
    &&& post.wf()
    &&& post.capacity() == pre.capacity()
    &&& match act {
        Action::Propose(v) => {
            &&& post.proposal(id) == Some(v)
            &&& post.decision() == pre.decision()
        },
        Action::Commit(r) => {
            &&& pre.proposal(id) is Some
            &&& post.decision() == Some(r)
            &&& r == decided_after(pre.decision(), pre.proposal(id)->0)
        },
    }
}

/// Agreement: in any interleaving of proposals and commits, once a value is
/// decided it stays decided, and every commit learns the value decided at
/// the end.
pub proof fn lemma_agreement<T, C: Consensus<T>>(
    states: Seq<C>,
    ids: Seq<int>,
    acts: Seq<Action<T>>,
)
    requires
        states.len() == acts.len() + 1,
        ids.len() == acts.len(),
        forall|i: int|
            0 <= i < acts.len() ==> is_step(#[trigger] states[i], ids[i], acts[i], states[i + 1]),
    ensures
        forall|i: int, j: int|
            0 <= i <= j < states.len() && (#[trigger] states[i].decision()) is Some ==> #[trigger] states[j].decision()
                == states[i].decision(),
        forall|i: int|
            0 <= i < acts.len() ==> (#[trigger] acts[i] matches Action::Commit(r) ==> states[acts.len() as int].decision()
                == Some(r)),
    decreases acts.len(),
{
    if acts.len() > 0 {
        let m = acts.len() - 1;
        let s2 = states.take(m + 1);
        lemma_agreement(s2, ids.take(m), acts.take(m));
        assert(is_step(states[m], ids[m], acts[m], states[m + 1]));
        assert forall|i: int, j: int|
            0 <= i <= j < states.len() && (#[trigger] states[i].decision()) is Some implies #[trigger] states[j].decision()
                == states[i].decision() by {
            if j <= m {
                assert(s2[i] == states[i]);
                assert(s2[j] == states[j]);
            } else if i <= m {
                assert(s2[i] == states[i]);
                assert(s2[m] == states[m]);
                assert(s2[m].decision() == s2[i].decision());
            }
        }
        assert forall|i: int| 0 <= i < acts.len() implies (#[trigger] acts[i] matches Action::Commit(r)
            ==> states[acts.len() as int].decision() == Some(r)) by {
            if i < m {
                assert(acts.take(m)[i] == acts[i]);
                assert(s2[m] == states[m]);
                assert(is_step(states[i], ids[i], acts[i], states[i + 1]));
            }
        }
    }
}

} // verus!
