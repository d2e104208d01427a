use vstd::prelude::*;

use crate::count::count_below;

verus! {

/// Where a thread stands in Peterson's protocol: the action it takes next.
#[derive(Clone, Copy, PartialEq, Eq, Debug, Structural)]
pub enum PetersonPc {
    /// Outside the protocol; its next step raises its flag.
    Idle,
    /// Flag raised; its next step makes itself the victim.
    SetVictim,
    /// Next step reads the other thread's flag.
    ReadFlag,
    /// Next step reads the victim.
    ReadVictim,
    /// Holds the lock.
    Critical,
}

/// Peterson's lock for two threads, as a state machine over the shared
/// memory (`flag`, `victim`) and the position of each thread.
///
/// Each call of `lock` performs the next atomic action of one thread, so an
/// interleaving of the two threads is a sequence of calls.
pub struct PetersonLock {
    flag: Vec<bool>,
    victim: usize,
    pc: Vec<PetersonPc>,
}

/// Whether a thread at `pc` has made itself the victim and not yet left.
pub open spec fn is_contending(pc: PetersonPc) -> bool {
    pc == PetersonPc::ReadFlag || pc == PetersonPc::ReadVictim || pc == PetersonPc::Critical
}

/// `post` is `pre` after the next action of thread `id` in acquiring the
/// lock.
pub open spec fn lock_step(pre: PetersonLock, id: int, post: PetersonLock) -> bool {
    &&& post.pcs()[1 - id] == pre.pcs()[1 - id]
    &&& match pre.pcs()[id] {
        PetersonPc::Idle => {
            &&& post.flags() == pre.flags().update(id, true)
            &&& post.victim_id() == pre.victim_id()
            &&& post.pcs()[id] == PetersonPc::SetVictim
        },
        PetersonPc::SetVictim => {
            &&& post.flags() == pre.flags()
            &&& post.victim_id() == id
            &&& post.pcs()[id] == PetersonPc::ReadFlag
        },
        PetersonPc::ReadFlag => {
            &&& post.flags() == pre.flags()
            &&& post.victim_id() == pre.victim_id()
            &&& post.pcs()[id] == if pre.flags()[1 - id] {
                PetersonPc::ReadVictim
            } else {
                PetersonPc::Critical
            }
        },
        _ => {
            &&& post.flags() == pre.flags()
            &&& post.victim_id() == pre.victim_id()
            &&& post.pcs()[id] == if pre.victim_id() == id {
                PetersonPc::ReadFlag
            } else {
                PetersonPc::Critical
            }
        },
    }
}

/// `post` is `pre` after thread `id` leaves the critical section.
pub open spec fn unlock_step(pre: PetersonLock, id: int, post: PetersonLock) -> bool {
    &&& post.flags() == pre.flags().update(id, false)
    &&& post.victim_id() == pre.victim_id()
    &&& post.pcs() == pre.pcs().update(id, PetersonPc::Idle)
}

impl PetersonLock {
    /// The flags of the two threads.
    pub closed spec fn flags(&self) -> Seq<bool> {
        self.flag@
    }

    /// The victim register.
    pub closed spec fn victim_id(&self) -> nat {
        self.victim as nat
    }

    /// The position of each thread.
    pub closed spec fn pcs(&self) -> Seq<PetersonPc> {
        self.pc@
    }

    /// Whether thread `id` holds the lock.
    pub open spec fn holds(&self, id: int) -> bool {
        self.pcs()[id] == PetersonPc::Critical
    }

    pub closed spec fn inv(&self) -> bool {
        &&& self.flag@.len() == 2
        &&& self.pc@.len() == 2
        &&& self.victim < 2
        &&& forall|i: int| 0 <= i < 2 ==> #[trigger] self.flag@[i] == (self.pc@[i] != PetersonPc::Idle)
        &&& forall|i: int|
            0 <= i < 2 && #[trigger] self.pc@[i] == PetersonPc::Critical && is_contending(self.pc@[1 - i])
                ==> self.victim == 1 - i
    }

    /// A lock that no thread holds or waits for.
    pub fn new() -> (r: Self)
        ensures
            r.inv(),
            r.flags() == seq![false, false],
            r.victim_id() == 0,
            r.pcs() == seq![PetersonPc::Idle, PetersonPc::Idle],
    {
        let mut flag: Vec<bool> = Vec::new();
        flag.push(false);
        flag.push(false);
        let mut pc: Vec<PetersonPc> = Vec::new();
        pc.push(PetersonPc::Idle);
        pc.push(PetersonPc::Idle);
        let r = PetersonLock { flag, victim: 0, pc };
        assert(r.flags() =~= seq![false, false]);
        assert(r.pcs() =~= seq![PetersonPc::Idle, PetersonPc::Idle]);
        r
    }

    /// Performs the next action of thread `id` in acquiring the lock, and
    /// returns whether `id` now holds it.
    ///
    /// From `Idle` it raises its flag; then it makes itself the victim; then
    /// it waits, reading the other thread's flag and then the victim, until
    /// the flag is down or the victim is the other thread.
    pub fn lock(&mut self, id: usize) -> (acquired: bool)
        requires
            old(self).inv(),
            id < 2,
            !old(self).holds(id as int),
        ensures
            final(self).inv(),
            acquired == final(self).holds(id as int),
            lock_step(*old(self), id as int, *final(self)),
    {
        let other = 1 - id;
        let next = match self.pc[id] {
            PetersonPc::Idle => {
                self.flag.set(id, true);
                PetersonPc::SetVictim
            },
            PetersonPc::SetVictim => {
                self.victim = id;
                PetersonPc::ReadFlag
            },
            PetersonPc::ReadFlag => {
                if self.flag[other] {
                    PetersonPc::ReadVictim
                } else {
                    PetersonPc::Critical
                }
            },
            _ => {
                if self.victim == id {
                    PetersonPc::ReadFlag
                } else {
                    PetersonPc::Critical
                }
            },
        };
        self.pc.set(id, next);
        match next {
            PetersonPc::Critical => true,
            _ => false,
        }
    }

    /// Thread `id` leaves the critical section by lowering its flag.
    pub fn unlock(&mut self, id: usize)
        requires
            old(self).inv(),
            id < 2,
            old(self).holds(id as int),
        ensures
            final(self).inv(),
            unlock_step(*old(self), id as int, *final(self)),
    {
        self.flag.set(id, false);
        self.pc.set(id, PetersonPc::Idle);
    }

    /// A well-formed lock has one flag and one position per thread.
    pub proof fn lemma_shape(&self)
        requires
            self.inv(),
        ensures
            self.flags().len() == 2,
            self.pcs().len() == 2,
            self.victim_id() < 2,
    {
    }

    /// Mutual exclusion: the two threads never hold the lock at once.
    pub proof fn lemma_mutual_exclusion(&self)
        requires
            self.inv(),
        ensures
            !(self.holds(0) && self.holds(1)),
    {
        if self.holds(0) && self.holds(1) {
            assert(self.pc@[0] == PetersonPc::Critical);
            assert(self.pc@[1] == PetersonPc::Critical);
        }
    }
}


/// One call of `lock` or `unlock` by thread `id`, as their contracts
/// describe it: a thread that holds the lock leaves, the other takes its
/// next action in acquiring it.
pub open spec fn peterson_action(pre: PetersonLock, id: int, post: PetersonLock) -> bool {
    &&& 0 <= id < 2
    &&& pre.inv()
    &&& post.inv()
    &&& if pre.holds(id) {
        unlock_step(pre, id, post)
    } else {
        lock_step(pre, id, post)
    }
}

/// Thread `b` enters the critical section in the step from `pre` to
/// `post`.
pub open spec fn enters(pre: PetersonLock, post: PetersonLock, b: int) -> bool {
    !pre.holds(b) && post.holds(b)
}

/// Once the other thread `b` has entered while thread `a` waits, it cannot
/// enter again before `a`: it holds the lock, has left, is about to make
/// itself the victim, or waits as the victim.
pub open spec fn bypass_bound(s: PetersonLock, a: int, entered: bool) -> bool {
    let b = 1 - a;
    entered ==> {
        ||| s.pcs()[b] == PetersonPc::Critical
        ||| s.pcs()[b] == PetersonPc::Idle
        ||| s.pcs()[b] == PetersonPc::SetVictim
        ||| (s.pcs()[b] == PetersonPc::ReadFlag || s.pcs()[b] == PetersonPc::ReadVictim) && s.victim_id() == b
    }
}

/// Along a run in which thread `a` waits throughout, the other thread
/// enters at most once in the first `k` actions, and after it has entered
/// it cannot enter again.
proof fn lemma_bypass_run(states: Seq<PetersonLock>, ids: Seq<int>, a: int, k: int)
    requires
        states.len() == ids.len() + 1,
        0 <= k < states.len(),
        states[0].inv(),
        0 <= a < 2,
        forall|j: int| 0 <= j < ids.len() ==> peterson_action(#[trigger] states[j], ids[j], states[j + 1]),
        forall|j: int|
            0 <= j < states.len() ==> (#[trigger] states[j].pcs()[a] == PetersonPc::ReadFlag
                || states[j].pcs()[a] == PetersonPc::ReadVictim),
    ensures
        count_below(k, |j: int| enters(states[j], states[j + 1], 1 - a)) <= 1,
        bypass_bound(states[k], a, count_below(k, |j: int| enters(states[j], states[j + 1], 1 - a)) == 1),
    decreases k,
{
    let b = 1 - a;
    if k > 0 {
        lemma_bypass_run(states, ids, a, k - 1);
        let pre = states[k - 1];
        let post = states[k];
        assert(peterson_action(pre, ids[k - 1], post));
        assert(pre.pcs()[a] == PetersonPc::ReadFlag || pre.pcs()[a] == PetersonPc::ReadVictim);
        assert(post.pcs()[a] == PetersonPc::ReadFlag || post.pcs()[a] == PetersonPc::ReadVictim);
        assert(pre.flags()[a]);
        let id = ids[k - 1];
        if id == a {
            assert(post.pcs()[b] == pre.pcs()[b]);
        } else {
            assert(post.pcs()[a] == pre.pcs()[a]);
        }
    }
}

/// Starvation-freedom (bounded bypass): while thread `a` waits for the
/// lock, having made itself the victim, the other thread enters the
/// critical section at most once, in any run of `lock` and `unlock` calls.
pub proof fn lemma_bounded_bypass(states: Seq<PetersonLock>, ids: Seq<int>, a: int)
    requires
        states.len() == ids.len() + 1,
        states[0].inv(),
        0 <= a < 2,
        forall|j: int| 0 <= j < ids.len() ==> peterson_action(#[trigger] states[j], ids[j], states[j + 1]),
        forall|j: int|
            0 <= j < states.len() ==> (#[trigger] states[j].pcs()[a] == PetersonPc::ReadFlag
                || states[j].pcs()[a] == PetersonPc::ReadVictim),
    ensures
        count_below(ids.len() as int, |j: int| enters(states[j], states[j + 1], 1 - a)) <= 1,
{
    lemma_bypass_run(states, ids, a, ids.len() as int);
}


/// Thread `a` waits in `s` and its wait would loop for as long as the other
/// thread does not move: the other thread's flag is up and `a` is the
/// victim.
pub open spec fn peterson_stuck(s: PetersonLock, a: int) -> bool {
    &&& (s.pcs()[a] == PetersonPc::ReadFlag || s.pcs()[a] == PetersonPc::ReadVictim)
    &&& s.flags()[1 - a]
    &&& s.victim_id() == a
}

/// Deadlock-freedom: while no thread holds the lock and some thread is in
/// the protocol, some thread in the protocol is not stuck; in particular,
/// when both threads wait, the one that is not the victim is not stuck.
pub proof fn lemma_no_deadlock(s: PetersonLock)
    requires
        s.inv(),
        !s.holds(0),
        !s.holds(1),
        s.pcs()[0] != PetersonPc::Idle || s.pcs()[1] != PetersonPc::Idle,
    ensures
        exists|a: int| 0 <= a < 2 && s.pcs()[a] != PetersonPc::Idle && !#[trigger] peterson_stuck(s, a),
        (s.pcs()[0] == PetersonPc::ReadFlag || s.pcs()[0] == PetersonPc::ReadVictim) && (s.pcs()[1]
            == PetersonPc::ReadFlag || s.pcs()[1] == PetersonPc::ReadVictim) ==> !peterson_stuck(
            s,
            1 - s.victim_id(),
        ),
{
    if peterson_stuck(s, 0) {
        assert(!peterson_stuck(s, 1));
    }
    if s.pcs()[0] == PetersonPc::Idle {
        assert(s.flags()[0] == false);
        assert(!peterson_stuck(s, 1));
    }
}

/// A thread that waits and is not stuck enters within two of its own
/// actions. In particular it does once the other thread has released the
/// lock (its flag is then down).
pub proof fn lemma_enters_within_two(s0: PetersonLock, s1: PetersonLock, s2: PetersonLock, a: int)
    requires
        s0.inv(),
        0 <= a < 2,
        s0.pcs()[a] == PetersonPc::ReadFlag || s0.pcs()[a] == PetersonPc::ReadVictim,
        !peterson_stuck(s0, a),
        lock_step(s0, a, s1),
        s1.inv(),
        !s1.holds(a) ==> lock_step(s1, a, s2),
    ensures
        s1.holds(a) || s2.holds(a),
{
}

/// With the other thread idle, a thread that starts from `Idle` holds the
/// lock after three of its own actions.
pub proof fn lemma_enters_alone(
    s0: PetersonLock,
    s1: PetersonLock,
    s2: PetersonLock,
    s3: PetersonLock,
    a: int,
)
    requires
        s0.inv(),
        0 <= a < 2,
        s0.pcs()[a] == PetersonPc::Idle,
        s0.pcs()[1 - a] == PetersonPc::Idle,
        lock_step(s0, a, s1),
        s1.inv(),
        lock_step(s1, a, s2),
        s2.inv(),
        lock_step(s2, a, s3),
    ensures
        s3.holds(a),
{
    assert(!s0.flags()[1 - a]);
    assert(s1.flags()[1 - a] == s0.flags()[1 - a]);
}

} // verus!
