use vstd::prelude::*;

use super::api::BoundedRawLock;

verus! {

/// Where a thread stands in the bakery lock: the action it takes next.
#[derive(Clone, Copy, PartialEq, Eq, Debug, Structural)]
pub enum BakeryPc {
    /// Outside the protocol; its next step raises its flag.
    Idle,
    /// Taking a ticket: next step reads `label[k]`; `m` is the largest label
    /// read so far.
    ReadLabel(usize, usize),
    /// Next step writes `label[me] = m + 1`.
    WriteLabel(usize),
    /// Waiting: next step reads `flag[k]`.
    ReadFlag(usize),
    /// Waiting: next step reads `label[k]` while `flag[k]` was up.
    ReadTicket(usize),
    /// Holds the lock.
    Critical,
}

/// Whether ticket `(la, a)` comes before ticket `(lb, b)`: labels first,
/// ids break ties.
pub open spec fn ticket_before(la: int, a: int, lb: int, b: int) -> bool {
    la < lb || (la == lb && a < b)
}

/// The position after the checks of threads below `k`: the check of thread
/// `k`, or the critical section.
pub open spec fn next_wait(n: int, k: int) -> BakeryPc {
    if k < n {
        BakeryPc::ReadFlag(k as usize)
    } else {
        BakeryPc::Critical
    }
}

/// The position of thread `me` after its next step in acquiring the lock.
pub open spec fn bakery_next(
    pc: BakeryPc,
    n: int,
    me: int,
    flags: Seq<bool>,
    labels: Seq<usize>,
) -> BakeryPc {
    match pc {
        BakeryPc::Idle => BakeryPc::ReadLabel(0, 0),
        BakeryPc::ReadLabel(k, m) => {
            let m2 = if labels[k as int] > m {
                labels[k as int]
            } else {
                m
            };
            if k + 1 < n {
                BakeryPc::ReadLabel((k + 1) as usize, m2)
            } else {
                BakeryPc::WriteLabel(m2)
            }
        },
        BakeryPc::WriteLabel(_) => next_wait(n, 0),
        BakeryPc::ReadFlag(k) => if flags[k as int] {
            BakeryPc::ReadTicket(k)
        } else {
            next_wait(n, k + 1)
        },
        BakeryPc::ReadTicket(k) => if ticket_before(
            labels[k as int] as int,
            k as int,
            labels[me] as int,
            me,
        ) {
            BakeryPc::ReadFlag(k)
        } else {
            next_wait(n, k + 1)
        },
        BakeryPc::Critical => BakeryPc::Critical,
    }
}

/// Whether `pc` is a position that a thread can hold among `n` threads.
pub open spec fn bakery_pc_ok(pc: BakeryPc, n: int) -> bool {
    match pc {
        BakeryPc::ReadLabel(k, _) => k < n,
        BakeryPc::ReadFlag(k) => k < n,
        BakeryPc::ReadTicket(k) => k < n,
        _ => true,
    }
}

/// A thread at `pc` holds a ticket: it has written its label and not left.
pub open spec fn has_ticket(pc: BakeryPc) -> bool {
    pc is ReadFlag || pc is ReadTicket || pc is Critical
}

/// A thread at `pc` is taking a ticket.
pub open spec fn in_doorway(pc: BakeryPc) -> bool {
    pc is ReadLabel || pc is WriteLabel
}

/// A waiting thread at `pc` is done waiting on thread `i`.
pub open spec fn bakery_checked(pc: BakeryPc, i: int) -> bool {
    match pc {
        BakeryPc::ReadFlag(c) => i < c,
        BakeryPc::ReadTicket(c) => i < c,
        BakeryPc::Critical => true,
        _ => false,
    }
}

/// A thread at `pc` taking a ticket will take a label above `lk`: it has
/// not read `label[k]` yet, or has already read a label of at least `lk`.
pub open spec fn will_exceed(pc: BakeryPc, k: int, lk: int) -> bool {
    match pc {
        BakeryPc::ReadLabel(c, m) => c <= k || m >= lk,
        BakeryPc::WriteLabel(m) => m >= lk,
        _ => false,
    }
}

/// What a thread `k` with a ticket knows of thread `i` once it is done
/// waiting on it: `i` is idle, or comes after `k`, or will take a label
/// above `k`'s.
pub open spec fn comes_after(pcs: Seq<BakeryPc>, labels: Seq<usize>, k: int, i: int) -> bool {
    ||| pcs[i] == BakeryPc::Idle
    ||| ticket_before(labels[k] as int, k, labels[i] as int, i)
    ||| in_doorway(pcs[i]) && will_exceed(pcs[i], k, labels[k] as int)
}

/// A thread at `pc` taking a ticket that has read its own label `own`
/// counts it in its maximum.
pub open spec fn counts_own(pc: BakeryPc, me: int, own: int) -> bool {
    match pc {
        BakeryPc::ReadLabel(c, m) => c > me ==> m >= own,
        BakeryPc::WriteLabel(m) => m >= own,
        _ => true,
    }
}

/// Lamport's bakery lock for `n` threads: a thread raises its flag, takes a
/// label one above every label it reads, and waits while some other thread
/// with a raised flag holds an earlier ticket `(label, id)`.
///
/// Each call of `lock` performs the next atomic action of one thread, so an
/// interleaving of the threads is a sequence of calls.
pub struct BakeryLock {
    flag: Vec<bool>,
    label: Vec<usize>,
    n: usize,
    pc: Vec<BakeryPc>,
}

impl BakeryLock {
    /// The flag of each thread.
    pub closed spec fn flags(&self) -> Seq<bool> {
        self.flag@
    }

    /// The label of each thread.
    pub closed spec fn labels(&self) -> Seq<usize> {
        self.label@
    }

    /// Number of threads.
    pub closed spec fn threads(&self) -> nat {
        self.n as nat
    }

    /// The position of each thread.
    pub closed spec fn pcs(&self) -> Seq<BakeryPc> {
        self.pc@
    }

    pub closed spec fn inv(&self) -> bool {
        let n = self.n as int;
        &&& self.flag@.len() == n
        &&& self.label@.len() == n
        &&& self.pc@.len() == n
        &&& forall|t: int|
            0 <= t < n ==> bakery_pc_ok(#[trigger] self.pc@[t], n) && self.flag@[t] == (self.pc@[t]
                != BakeryPc::Idle) && counts_own(self.pc@[t], t, self.label@[t] as int)
        &&& forall|k: int, i: int|
            #![trigger bakery_checked(self.pc@[k], i)]
            0 <= k < n && 0 <= i < n && k != i && has_ticket(self.pc@[k]) && bakery_checked(
                self.pc@[k],
                i,
            ) ==> comes_after(self.pc@, self.label@, k, i)
    }

    /// The invariant is kept by one step of thread `me` in acquiring the
    /// lock.
    proof fn lemma_lock_step(pre: Self, post: Self, me: int)
        requires
            pre.inv(),
            0 <= me < pre.n,
            pre.pc@[me] != BakeryPc::Critical,
            !(pre.pc@[me] matches BakeryPc::WriteLabel(m) && m == usize::MAX),
            post.n == pre.n,
            post.pc@ == pre.pc@.update(
                me,
                bakery_next(pre.pc@[me], pre.n as int, me, pre.flag@, pre.label@),
            ),
            post.flag@ == match pre.pc@[me] {
                BakeryPc::Idle => pre.flag@.update(me, true),
                _ => pre.flag@,
            },
            post.label@ == match pre.pc@[me] {
                BakeryPc::WriteLabel(m) => pre.label@.update(me, (m + 1) as usize),
                _ => pre.label@,
            },
        ensures
            post.inv(),
    {
        let n = pre.n as int;
        let pcs = pre.pc@;
        let pcs2 = post.pc@;
        let labels = pre.label@;
        let labels2 = post.label@;
        assert(bakery_pc_ok(pcs[me], n));
        assert forall|t: int| 0 <= t < n implies bakery_pc_ok(#[trigger] pcs2[t], n) && post.flag@[t] == (
        pcs2[t] != BakeryPc::Idle) && counts_own(pcs2[t], t, labels2[t] as int) by {
            assert(bakery_pc_ok(pcs[t], n));
        }
        assert forall|k: int, i: int|
            #![trigger bakery_checked(pcs2[k], i)]
            0 <= k < n && 0 <= i < n && k != i && has_ticket(pcs2[k]) && bakery_checked(pcs2[k], i)
                implies comes_after(pcs2, labels2, k, i) by {
            assert(bakery_pc_ok(pcs[k], n));
            assert(bakery_pc_ok(pcs[i], n));
            assert(counts_own(pcs[i], i, labels[i] as int));
            if k == me {
                assert(pcs2[i] == pcs[i]);
                assert(labels2[i] == labels[i]);
                match pcs[me] {
                    BakeryPc::ReadFlag(c) => {
                        if i < c {
                            assert(bakery_checked(pcs[k], i));
                        }
                    },
                    BakeryPc::ReadTicket(c) => {
                        if i < c {
                            assert(bakery_checked(pcs[k], i));
                        }
                    },
                    _ => {},
                }
            } else if i == me {
                assert(pcs2[k] == pcs[k]);
                assert(labels2[k] == labels[k]);
                assert(bakery_checked(pcs[k], i));
            } else {
                assert(pcs2[k] == pcs[k]);
                assert(pcs2[i] == pcs[i]);
                assert(bakery_checked(pcs[k], i));
            }
        }
    }
}

impl BoundedRawLock for BakeryLock {
    open spec fn wf(&self) -> bool {
        self.inv()
    }

    open spec fn capacity(&self) -> nat {
        self.threads()
    }

    open spec fn holds(&self, id: int) -> bool {
        self.pcs()[id] == BakeryPc::Critical
    }

    open spec fn admits(n: nat) -> bool {
        true
    }

    /// A label one above `usize::MAX` cannot be taken.
    open spec fn can_step(&self, id: int) -> bool {
        !(self.pcs()[id] matches BakeryPc::WriteLabel(m) && m == usize::MAX)
    }

    open spec fn takes_step(pre: Self, id: int, post: Self) -> bool {
        &&& post.pcs() == pre.pcs().update(
            id,
            bakery_next(pre.pcs()[id], pre.threads() as int, id, pre.flags(), pre.labels()),
        )
        &&& post.flags() == match pre.pcs()[id] {
            BakeryPc::Idle => pre.flags().update(id, true),
            _ => pre.flags(),
        }
        &&& post.labels() == match pre.pcs()[id] {
            BakeryPc::WriteLabel(m) => pre.labels().update(id, (m + 1) as usize),
            _ => pre.labels(),
        }
    }

    fn supports(n: usize) -> (r: bool) {
        true
    }

    fn step_fits(&self, id: usize) -> (r: bool) {
        match self.pc[id] {
            BakeryPc::WriteLabel(m) => m < usize::MAX,
            _ => true,
        }
    }

    fn new(n: usize) -> (r: Self)
        ensures
            r.flags() == Seq::new(n as nat, |t: int| false),
            r.labels() == Seq::new(n as nat, |t: int| 0usize),
            r.pcs() == Seq::new(n as nat, |t: int| BakeryPc::Idle),
    {
        let mut flag: Vec<bool> = Vec::new();
        let mut label: Vec<usize> = Vec::new();
        let mut pc: Vec<BakeryPc> = Vec::new();
        let mut k: usize = 0;
        while k < n
            invariant
                k <= n,
                flag@ == Seq::new(k as nat, |t: int| false),
                label@ == Seq::new(k as nat, |t: int| 0usize),
                pc@ == Seq::new(k as nat, |t: int| BakeryPc::Idle),
            decreases n - k,
        {
            flag.push(false);
            label.push(0);
            pc.push(BakeryPc::Idle);
            k = k + 1;
            assert(flag@ =~= Seq::new(k as nat, |t: int| false));
            assert(label@ =~= Seq::new(k as nat, |t: int| 0usize));
            assert(pc@ =~= Seq::new(k as nat, |t: int| BakeryPc::Idle));
        }
        BakeryLock { flag, label, n, pc }
    }

    /// From `Idle` the thread raises its flag; it then reads every label in
    /// turn and writes one above the largest; it then checks every thread
    /// `k` in turn, reading `flag[k]` and, while it is up, `label[k]`, until
    /// the flag is down or `k`'s ticket is not earlier than its own.
    fn lock(&mut self, id: usize) -> (acquired: bool)
        ensures
            final(self).pcs() == old(self).pcs().update(
                id as int,
                bakery_next(
                    old(self).pcs()[id as int],
                    old(self).threads() as int,
                    id as int,
                    old(self).flags(),
                    old(self).labels(),
                ),
            ),
            final(self).flags() == match old(self).pcs()[id as int] {
                BakeryPc::Idle => old(self).flags().update(id as int, true),
                _ => old(self).flags(),
            },
            final(self).labels() == match old(self).pcs()[id as int] {
                BakeryPc::WriteLabel(m) => old(self).labels().update(id as int, (m + 1) as usize),
                _ => old(self).labels(),
            },
    {
        let ghost pre = *self;
        let n = self.n;
        proof {
            assert(bakery_pc_ok(self.pc@[id as int], n as int));
        }
        let next = match self.pc[id] {
            BakeryPc::Idle => {
                self.flag.set(id, true);
                BakeryPc::ReadLabel(0, 0)
            },
            BakeryPc::ReadLabel(k, m) => {
                let l = self.label[k];
                let m2 = if l > m {
                    l
                } else {
                    m
                };
                if k + 1 < n {
                    BakeryPc::ReadLabel(k + 1, m2)
                } else {
                    BakeryPc::WriteLabel(m2)
                }
            },
            BakeryPc::WriteLabel(m) => {
                self.label.set(id, m + 1);
                BakeryPc::ReadFlag(0)
            },
            BakeryPc::ReadFlag(k) => {
                if self.flag[k] {
                    BakeryPc::ReadTicket(k)
                } else if k + 1 < n {
                    BakeryPc::ReadFlag(k + 1)
                } else {
                    BakeryPc::Critical
                }
            },
            BakeryPc::ReadTicket(k) => {
                let lk = self.label[k];
                let mine = self.label[id];
                if lk < mine || (lk == mine && k < id) {
                    BakeryPc::ReadFlag(k)
                } else if k + 1 < n {
                    BakeryPc::ReadFlag(k + 1)
                } else {
                    BakeryPc::Critical
                }
            },
            BakeryPc::Critical => BakeryPc::Critical,
        };
        self.pc.set(id, next);
        proof {
            Self::lemma_lock_step(pre, *self, id as int);
        }
        match next {
            BakeryPc::Critical => true,
            _ => false,
        }
    }

    /// The thread lowers its flag; its label stays.
    fn unlock(&mut self, id: usize)
        ensures
            final(self).flags() == old(self).flags().update(id as int, false),
            final(self).labels() == old(self).labels(),
            final(self).pcs() == old(self).pcs().update(id as int, BakeryPc::Idle),
    {
        let ghost pre = *self;
        self.flag.set(id, false);
        self.pc.set(id, BakeryPc::Idle);
        proof {
            let n = self.n as int;
            let me = id as int;
            assert forall|t: int| 0 <= t < n implies bakery_pc_ok(#[trigger] self.pc@[t], n) && self.flag@[t]
                == (self.pc@[t] != BakeryPc::Idle) && counts_own(self.pc@[t], t, self.label@[t] as int) by {
                assert(bakery_pc_ok(pre.pc@[t], n));
            }
            assert forall|k: int, i: int|
                #![trigger bakery_checked(self.pc@[k], i)]
                0 <= k < n && 0 <= i < n && k != i && has_ticket(self.pc@[k]) && bakery_checked(
                    self.pc@[k],
                    i,
                ) implies comes_after(self.pc@, self.label@, k, i) by {
                if i != me {
                    assert(bakery_checked(pre.pc@[k], i));
                }
            }
        }
    }

    proof fn lemma_mutual_exclusion(&self, a: int, b: int) {
        if a != b {
            assert(bakery_checked(self.pc@[a], b));
            assert(bakery_checked(self.pc@[b], a));
        }
    }
}


/// One call of `lock` or `unlock` by thread `id` on the bakery lock, as
/// their contracts describe it: a thread in the critical section leaves it,
/// any other thread takes its next action in acquiring the lock.
pub open spec fn bakery_action(pre: BakeryLock, id: int, post: BakeryLock) -> bool {
    let n = pre.threads() as int;
    &&& 0 <= id < n
    &&& post.threads() == pre.threads()
    &&& if pre.pcs()[id] == BakeryPc::Critical {
        &&& post.flags() == pre.flags().update(id, false)
        &&& post.labels() == pre.labels()
        &&& post.pcs() == pre.pcs().update(id, BakeryPc::Idle)
    } else {
        &&& pre.can_step(id)
        &&& post.pcs() == pre.pcs().update(id, bakery_next(pre.pcs()[id], n, id, pre.flags(), pre.labels()))
        &&& post.flags() == match pre.pcs()[id] {
            BakeryPc::Idle => pre.flags().update(id, true),
            _ => pre.flags(),
        }
        &&& post.labels() == match pre.pcs()[id] {
            BakeryPc::WriteLabel(m) => pre.labels().update(id, (m + 1) as usize),
            _ => pre.labels(),
        }
    }
}

/// Thread `b` is behind thread `a`, which holds a ticket: `b` is idle, or
/// is taking a ticket that will be above `a`'s, or holds a ticket after
/// `a`'s and has not got past its check of `a`.
pub open spec fn behind(s: BakeryLock, a: int, b: int) -> bool {
    let n = s.threads() as int;
    let pcs = s.pcs();
    let labels = s.labels();
    &&& s.flags().len() == n
    &&& s.labels().len() == n
    &&& s.pcs().len() == n
    &&& s.flags()[a]
    &&& bakery_pc_ok(pcs[b], n)
    &&& match pcs[b] {
        BakeryPc::Idle => true,
        BakeryPc::ReadLabel(c, m) => c <= a || m >= labels[a],
        BakeryPc::WriteLabel(m) => m >= labels[a],
        BakeryPc::ReadFlag(c) => c <= a && ticket_before(labels[a] as int, a, labels[b] as int, b),
        BakeryPc::ReadTicket(c) => c <= a && ticket_before(labels[a] as int, a, labels[b] as int, b),
        BakeryPc::Critical => false,
    }
}

/// One action keeps `b` behind `a` while `a` keeps its ticket.
proof fn lemma_behind_step(pre: BakeryLock, id: int, post: BakeryLock, a: int, b: int)
    requires
        behind(pre, a, b),
        bakery_action(pre, id, post),
        0 <= a < pre.threads(),
        0 <= b < pre.threads(),
        a != b,
        has_ticket(pre.pcs()[a]),
        has_ticket(post.pcs()[a]),
    ensures
        behind(post, a, b),
{
    let n = pre.threads() as int;
    if id == a {
        assert(post.pcs()[b] == pre.pcs()[b]);
    } else if id == b {
        assert(post.pcs()[a] == pre.pcs()[a]);
        assert(post.labels()[a] == pre.labels()[a]);
    } else {
        assert(post.pcs()[b] == pre.pcs()[b]);
        assert(post.labels()[a] == pre.labels()[a]);
        assert(post.labels()[b] == pre.labels()[b]);
    }
}

/// `b` stays behind `a` along a run in which `a` keeps its ticket.
proof fn lemma_behind_run(states: Seq<BakeryLock>, ids: Seq<int>, a: int, b: int, k: int)
    requires
        states.len() == ids.len() + 1,
        0 <= k < states.len(),
        states[0].inv(),
        0 <= a < states[0].threads(),
        0 <= b < states[0].threads(),
        a != b,
        forall|j: int| 0 <= j < ids.len() ==> bakery_action(#[trigger] states[j], ids[j], states[j + 1]),
        states[0].pcs()[b] == BakeryPc::Idle,
        forall|j: int| 0 <= j < states.len() ==> has_ticket(#[trigger] states[j].pcs()[a]),
    ensures
        behind(states[k], a, b),
        states[k].threads() == states[0].threads(),
    decreases k,
{
    if k > 0 {
        lemma_behind_run(states, ids, a, b, k - 1);
        assert(bakery_action(states[k - 1], ids[k - 1], states[k]));
        assert(has_ticket(states[k - 1].pcs()[a]));
        assert(has_ticket(states[k].pcs()[a]));
        lemma_behind_step(states[k - 1], ids[k - 1], states[k], a, b);
    } else {
        assert(has_ticket(states[0].pcs()[a]));
    }
}

/// First come, first served: once thread `a` holds a ticket while thread
/// `b` is idle, `b` does not get the lock for as long as `a` keeps its
/// ticket, in any run of `lock` and `unlock` calls.
pub proof fn lemma_first_come_first_served(states: Seq<BakeryLock>, ids: Seq<int>, a: int, b: int)
    requires
        states.len() == ids.len() + 1,
        states[0].inv(),
        0 <= a < states[0].threads(),
        0 <= b < states[0].threads(),
        a != b,
        forall|j: int| 0 <= j < ids.len() ==> bakery_action(#[trigger] states[j], ids[j], states[j + 1]),
        states[0].pcs()[b] == BakeryPc::Idle,
        forall|j: int| 0 <= j < states.len() ==> has_ticket(#[trigger] states[j].pcs()[a]),
    ensures
        forall|j: int| 0 <= j < states.len() ==> !(#[trigger] states[j]).holds(b),
{
    assert forall|j: int| 0 <= j < states.len() implies !(#[trigger] states[j]).holds(b) by {
        lemma_behind_run(states, ids, a, b, j);
    }
}


/// Thread `me` at `pc` waits on thread `k`, and its wait would loop for as
/// long as no other thread moves: `k`'s flag is up and `k`'s ticket comes
/// before `me`'s.
pub open spec fn bakery_stuck(pc: BakeryPc, me: int, flags: Seq<bool>, labels: Seq<usize>) -> bool {
    match pc {
        BakeryPc::ReadFlag(k) => flags[k as int] && ticket_before(
            labels[k as int] as int,
            k as int,
            labels[me] as int,
            me,
        ),
        BakeryPc::ReadTicket(k) => flags[k as int] && ticket_before(
            labels[k as int] as int,
            k as int,
            labels[me] as int,
            me,
        ),
        _ => false,
    }
}

impl BakeryLock {
    /// From a thread `t` in the protocol, following whom each stuck thread
    /// waits on leads to ever earlier tickets, so to a thread that is not
    /// stuck.
    proof fn lemma_unstuck_from(&self, t: int)
        requires
            self.inv(),
            0 <= t < self.n,
            forall|u: int| 0 <= u < self.n ==> self.pc@[u] != BakeryPc::Critical,
            self.pc@[t] != BakeryPc::Idle,
        ensures
            exists|u: int|
                0 <= u < self.n && self.pc@[u] != BakeryPc::Idle && !#[trigger] bakery_stuck(
                    self.pc@[u],
                    u,
                    self.flag@,
                    self.label@,
                ),
        decreases self.label@[t] * self.n + t,
    {
        let n = self.n as int;
        assert(bakery_pc_ok(self.pc@[t], n));
        if bakery_stuck(self.pc@[t], t, self.flag@, self.label@) {
            let k = match self.pc@[t] {
                BakeryPc::ReadFlag(k) => k as int,
                BakeryPc::ReadTicket(k) => k as int,
                _ => 0int,
            };
            assert(self.flag@[k] == (self.pc@[k] != BakeryPc::Idle));
            if bakery_stuck(self.pc@[k], k, self.flag@, self.label@) {
                let lk = self.label@[k] as int;
                let lt = self.label@[t] as int;
                assert(lk * n + k < lt * n + t) by (nonlinear_arith)
                    requires
                        lk < lt || (lk == lt && k < t),
                        0 <= k < n,
                        0 <= t < n,
                        0 <= lk,
                ;
                self.lemma_unstuck_from(k);
            }
        }
    }

    /// Deadlock-freedom: while no thread holds the lock and some thread is
    /// in the protocol, some thread in the protocol is not stuck, so its
    /// next action is not a turn of a wait loop that only others can end.
    pub proof fn lemma_no_deadlock(&self)
        requires
            self.inv(),
            forall|u: int| 0 <= u < self.threads() ==> !(#[trigger] self.pcs()[u] is Critical),
            exists|u: int| 0 <= u < self.threads() && #[trigger] self.pcs()[u] != BakeryPc::Idle,
        ensures
            exists|u: int|
                0 <= u < self.threads() && self.pcs()[u] != BakeryPc::Idle && !#[trigger] bakery_stuck(
                    self.pcs()[u],
                    u,
                    self.flags(),
                    self.labels(),
                ),
    {
        let n = self.n as int;
        let t = choose|u: int| 0 <= u < n && #[trigger] self.pcs()[u] != BakeryPc::Idle;
        assert forall|u: int| 0 <= u < n implies self.pc@[u] != BakeryPc::Critical by {
            assert(!(self.pcs()[u] is Critical));
        }
        self.lemma_unstuck_from(t);
        let w = choose|u: int|
            0 <= u < n && self.pc@[u] != BakeryPc::Idle && !#[trigger] bakery_stuck(
                self.pc@[u],
                u,
                self.flag@,
                self.label@,
            );
        assert(!bakery_stuck(self.pcs()[w], w, self.flags(), self.labels()));
    }
}


/// A waiting thread that is not stuck gets past its check of thread `k`
/// within two of its own actions.
pub proof fn lemma_unstuck_passes(s0: BakeryLock, s1: BakeryLock, s2: BakeryLock, a: int, k: int)
    requires
        s0.inv(),
        0 <= a < s0.threads(),
        s0.pcs()[a] == BakeryPc::ReadFlag(k as usize) || s0.pcs()[a] == BakeryPc::ReadTicket(
            k as usize,
        ),
        0 <= k < s0.threads(),
        !bakery_stuck(s0.pcs()[a], a, s0.flags(), s0.labels()),
        bakery_action(s0, a, s1),
        bakery_action(s1, a, s2),
    ensures
        bakery_checked(s1.pcs()[a], k) || bakery_checked(s2.pcs()[a], k),
{
}

} // verus!
