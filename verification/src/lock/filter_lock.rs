use vstd::prelude::*;

use super::api::BoundedRawLock;
use crate::count::{
    count_below, lemma_count_at_most, lemma_count_mono, lemma_count_none, lemma_count_single,
    lemma_count_strict, lemma_count_two,
};

verus! {

/// Where a thread stands in the filter lock: the action it takes next.
#[derive(Clone, Copy, PartialEq, Eq, Debug, Structural)]
pub enum FilterPc {
    /// Outside the protocol.
    Idle,
    /// Next step writes `level[me] = i`.
    SetLevel(usize),
    /// Next step writes `victim[i] = me`.
    SetVictim(usize),
    /// At level `i`, next step reads `level[k]`.
    ReadLevel(usize, usize),
    /// At level `i`, next step reads `victim[i]` while `level[k] >= i`.
    ReadVictim(usize, usize),
    /// Holds the lock.
    Critical,
}

/// The level a thread at `pc` has announced in `level[me]`.
pub open spec fn level_of(pc: FilterPc, n: int) -> int {
    match pc {
        FilterPc::Idle => 0,
        FilterPc::SetLevel(i) => i - 1,
        FilterPc::SetVictim(i) => i as int,
        FilterPc::ReadLevel(i, _) => i as int,
        FilterPc::ReadVictim(i, _) => i as int,
        FilterPc::Critical => n - 1,
    }
}

/// Number of levels a thread at `pc` has got through.
pub open spec fn stage_of(pc: FilterPc, n: int) -> int {
    match pc {
        FilterPc::Idle => 0,
        FilterPc::SetLevel(i) => i - 1,
        FilterPc::SetVictim(i) => i - 1,
        FilterPc::ReadLevel(i, _) => i - 1,
        FilterPc::ReadVictim(i, _) => i - 1,
        FilterPc::Critical => n - 1,
    }
}

/// A thread at `pc` has announced level `j` and made itself victim there
/// (or got past it).
pub open spec fn in_level(pc: FilterPc, n: int, j: int) -> bool {
    level_of(pc, n) >= j && pc != FilterPc::SetVictim(j as usize)
}

/// A thread at `pc` has got through level `j`.
pub open spec fn passed(pc: FilterPc, n: int, j: int) -> bool {
    stage_of(pc, n) >= j
}

/// The thread at `pc` has, at level `j`, finished waiting on thread `k`.
pub open spec fn has_checked(pc: FilterPc, n: int, j: int, k: int) -> bool {
    passed(pc, n, j) || match pc {
        FilterPc::ReadLevel(i, c) => i == j && k < c,
        FilterPc::ReadVictim(i, c) => i == j && k < c,
        _ => false,
    }
}

/// The threads that have made themselves victim at level `j` or got past it.
pub open spec fn in_level_set(pcs: Seq<FilterPc>, n: int, j: int) -> spec_fn(int) -> bool {
    |t: int| in_level(pcs[t], n, j)
}

/// The threads that have got through level `j`.
pub open spec fn passed_set(pcs: Seq<FilterPc>, n: int, j: int) -> spec_fn(int) -> bool {
    |t: int| passed(pcs[t], n, j)
}

/// Whether `pc` is a position that thread `me` can hold among `n` threads.
pub open spec fn pc_ok(pc: FilterPc, n: int, me: int) -> bool {
    match pc {
        FilterPc::SetLevel(i) => 1 <= i < n,
        FilterPc::SetVictim(i) => 1 <= i < n,
        FilterPc::ReadLevel(i, k) => 1 <= i < n && k < n && k != me,
        FilterPc::ReadVictim(i, k) => 1 <= i < n && k < n && k != me,
        _ => true,
    }
}

/// The position after finishing level `i - 1`: level `i` if there is one,
/// the critical section otherwise.
pub open spec fn next_level(n: int, i: int) -> FilterPc {
    if i < n {
        FilterPc::SetLevel(i as usize)
    } else {
        FilterPc::Critical
    }
}

/// The position after the checks of threads below `k` at level `i`: the
/// check of the next thread other than `me`, or the next level.
pub open spec fn next_check(n: int, me: int, i: int, k: int) -> FilterPc {
    let k2 = if k == me {
        k + 1
    } else {
        k
    };
    if k2 < n {
        FilterPc::ReadLevel(i as usize, k2 as usize)
    } else {
        next_level(n, i + 1)
    }
}

/// The position of thread `me` after its next step in acquiring the lock.
pub open spec fn lock_next(
    pc: FilterPc,
    n: int,
    me: int,
    levels: Seq<usize>,
    victims: Seq<usize>,
) -> FilterPc {
    match pc {
        FilterPc::Idle => next_level(n, 1),
        FilterPc::SetLevel(i) => FilterPc::SetVictim(i),
        FilterPc::SetVictim(i) => next_check(n, me, i as int, 0),
        FilterPc::ReadLevel(i, k) => if levels[k as int] >= i {
            FilterPc::ReadVictim(i, k)
        } else {
            next_check(n, me, i as int, k + 1)
        },
        FilterPc::ReadVictim(i, k) => if victims[i as int] == me {
            FilterPc::ReadLevel(i, k)
        } else {
            next_check(n, me, i as int, k + 1)
        },
        FilterPc::Critical => FilterPc::Critical,
    }
}

/// The filter lock for `n` threads: a thread climbs `n - 1` levels, and at
/// each level it waits while it is the level's victim and another thread is
/// at that level or above. At most `n - j` threads get through level `j`.
///
/// Each call of `lock` performs the next atomic action of one thread, so an
/// interleaving of the threads is a sequence of calls.
pub struct FilterLock {
    level: Vec<usize>,
    victim: Vec<usize>,
    n: usize,
    pc: Vec<FilterPc>,
}

impl FilterLock {
    /// The level each thread has announced.
    pub closed spec fn levels(&self) -> Seq<usize> {
        self.level@
    }

    /// The victim of each level.
    pub closed spec fn victims(&self) -> Seq<usize> {
        self.victim@
    }

    /// Number of threads.
    pub closed spec fn threads(&self) -> nat {
        self.n as nat
    }

    /// The position of each thread.
    pub closed spec fn pcs(&self) -> Seq<FilterPc> {
        self.pc@
    }

    pub closed spec fn inv(&self) -> bool {
        let n = self.n as int;
        let pcs = self.pc@;
        &&& self.level@.len() == n
        &&& self.victim@.len() == n
        &&& pcs.len() == n
        &&& forall|t: int|
            0 <= t < n ==> pc_ok(#[trigger] pcs[t], n, t) && self.level@[t] == level_of(pcs[t], n)
        &&& forall|j: int| 0 <= j < n ==> #[trigger] self.victim@[j] < n
        &&& forall|a: int, j: int, k: int|
            #![trigger has_checked(pcs[a], n, j, k)]
            0 <= a < n && 1 <= j < n && 0 <= k < n && k != a && self.victim@[j] == a
                && has_checked(pcs[a], n, j, k) ==> !in_level(pcs[k], n, j)
        &&& forall|j: int|
            1 <= j < n && !in_level(pcs[#[trigger] self.victim@[j] as int], n, j) ==> count_below(
                n,
                in_level_set(pcs, n, j),
            ) <= n - j
    }

    /// At most `n - j` threads have got through level `j`.
    pub proof fn lemma_passed_bound(&self, j: int)
        requires
            self.inv(),
            0 <= j < self.threads(),
        ensures
            count_below(self.threads() as int, passed_set(self.pcs(), self.threads() as int, j))
                <= self.threads() - j,
        decreases j,
    {
        let n = self.n as int;
        let pcs = self.pc@;
        let p = passed_set(pcs, n, j);
        if j == 0 {
            lemma_count_at_most(n, p);
        } else {
            let e = in_level_set(pcs, n, j);
            self.lemma_passed_bound(j - 1);
            assert forall|t: int| 0 <= t < n && #[trigger] e(t) implies passed_set(pcs, n, j - 1)(t) by {
                assert(pc_ok(pcs[t], n, t));
            }
            lemma_count_mono(n, e, passed_set(pcs, n, j - 1));
            assert forall|t: int| 0 <= t < n && #[trigger] p(t) implies e(t) by {
                assert(pc_ok(pcs[t], n, t));
            }
            lemma_count_mono(n, p, e);
            let v = self.victim@[j] as int;
            if in_level(pcs[v], n, j) {
                if passed(pcs[v], n, j) {
                    assert forall|t: int| 0 <= t < n && #[trigger] e(t) implies t == v by {
                        if t != v {
                            assert(has_checked(pcs[v], n, j, t));
                        }
                    }
                    lemma_count_single(n, e, v);
                } else {
                    lemma_count_strict(n, p, e, v);
                }
            }
        }
    }

    /// The invariant is kept by one step of thread `id` in acquiring the lock.
    proof fn lemma_lock_step(pre: Self, post: Self, id: int)
        requires
            pre.inv(),
            0 <= id < pre.n,
            pre.pc@[id] != FilterPc::Critical,
            post.n == pre.n,
            post.pc@ == pre.pc@.update(
                id,
                lock_next(pre.pc@[id], pre.n as int, id, pre.level@, pre.victim@),
            ),
            post.level@ == match pre.pc@[id] {
                FilterPc::SetLevel(i) => pre.level@.update(id, i),
                _ => pre.level@,
            },
            post.victim@ == match pre.pc@[id] {
                FilterPc::SetVictim(i) => pre.victim@.update(i as int, id as usize),
                _ => pre.victim@,
            },
        ensures
            post.inv(),
    {
        let n = pre.n as int;
        let pcs = pre.pc@;
        let pcs2 = post.pc@;
        let old_pc = pcs[id];
        let new_pc = pcs2[id];
        assert(pc_ok(old_pc, n, id));
        // The new position is a valid one, and the announced level matches it.
        assert(pc_ok(new_pc, n, id) && post.level@[id] == level_of(new_pc, n));
        assert forall|t: int| 0 <= t < n implies pc_ok(#[trigger] pcs2[t], n, t) && post.level@[t]
            == level_of(pcs2[t], n) by {
            if t != id {
                assert(pc_ok(pcs[t], n, t));
            }
        }
        assert forall|j: int| 0 <= j < n implies #[trigger] post.victim@[j] < n by {
            assert(pre.victim@[j] < n);
        }
        // Only `id` moves, and it enters a level only by making itself victim.
        let entered: int = match old_pc {
            FilterPc::SetVictim(i) => i as int,
            _ => -1,
        };
        assert forall|j: int| 1 <= j < n && j != entered implies in_level(new_pc, n, j) == in_level(
            old_pc,
            n,
            j,
        ) by {}
        assert forall|t: int, j: int| 0 <= t < n && t != id implies #[trigger] in_level(pcs2[t], n, j)
            == in_level(pcs[t], n, j) by {}
        // (a) a victim that has checked a thread saw it below the level.
        assert forall|a: int, j: int, k: int|
            #![trigger has_checked(pcs2[a], n, j, k)]
            0 <= a < n && 1 <= j < n && 0 <= k < n && k != a && post.victim@[j] == a && has_checked(
                pcs2[a],
                n,
                j,
                k,
            ) implies !in_level(pcs2[k], n, j) by {
            if a != id {
                assert(pcs2[a] == pcs[a]);
                assert(pre.victim@[j] == a);
                assert(has_checked(pcs[a], n, j, k));
                if k == id {
                    assert(j != entered);
                }
            } else {
                assert(pcs2[k] == pcs[k]);
                match old_pc {
                    FilterPc::Idle => {},
                    FilterPc::SetLevel(i) => {
                        assert(has_checked(pcs[a], n, j, k));
                    },
                    FilterPc::SetVictim(i) => {
                        if j != i {
                            assert(has_checked(pcs[a], n, j, k));
                            assert(pre.victim@[j] == a);
                        }
                    },
                    FilterPc::ReadLevel(i, c) => {
                        assert(pre.victim@[j] == a);
                        if k != c || j != i {
                            assert(has_checked(pcs[a], n, j, k));
                        } else {
                            assert(pre.level@[k] == level_of(pcs[k], n));
                        }
                    },
                    FilterPc::ReadVictim(i, c) => {
                        if j != i {
                            assert(has_checked(pcs[a], n, j, k));
                            assert(pre.victim@[j] == a);
                        } else {
                            assert(pre.victim@[j] == a);
                            assert(has_checked(pcs[a], n, j, k));
                        }
                    },
                    FilterPc::Critical => {},
                }
            }
        }
        // (b) with the victim out of a level, the level is not full.
        assert forall|j: int|
            1 <= j < n && !in_level(pcs2[#[trigger] post.victim@[j] as int], n, j) implies count_below(
            n,
            in_level_set(pcs2, n, j),
        ) <= n - j by {
            assert(j != entered);
            assert(post.victim@[j] == pre.victim@[j]);
            let v = pre.victim@[j] as int;
            assert(!in_level(pcs[v], n, j));
            let e = in_level_set(pcs, n, j);
            let e2 = in_level_set(pcs2, n, j);
            assert forall|t: int| 0 <= t < n && #[trigger] e2(t) implies e(t) by {}
            lemma_count_mono(n, e2, e);
        }
    }

}

impl BoundedRawLock for FilterLock {
    open spec fn wf(&self) -> bool {
        self.inv()
    }

    open spec fn capacity(&self) -> nat {
        self.threads()
    }

    open spec fn holds(&self, id: int) -> bool {
        self.pcs()[id] == FilterPc::Critical
    }

    open spec fn admits(n: nat) -> bool {
        true
    }

    open spec fn can_step(&self, id: int) -> bool {
        true
    }

    open spec fn takes_step(pre: Self, id: int, post: Self) -> bool {
        &&& post.pcs() == pre.pcs().update(
            id,
            lock_next(pre.pcs()[id], pre.threads() as int, id, pre.levels(), pre.victims()),
        )
        &&& post.levels() == match pre.pcs()[id] {
            FilterPc::SetLevel(i) => pre.levels().update(id, i),
            _ => pre.levels(),
        }
        &&& post.victims() == match pre.pcs()[id] {
            FilterPc::SetVictim(i) => pre.victims().update(i as int, id as usize),
            _ => pre.victims(),
        }
    }

    fn supports(n: usize) -> (r: bool) {
        true
    }

    fn step_fits(&self, id: usize) -> (r: bool) {
        true
    }

    /// A lock for threads `0..n` that no thread holds or waits for.
    fn new(n: usize) -> (r: Self)
        ensures
            r.threads() == n,
            r.levels() == Seq::new(n as nat, |t: int| 0usize),
            r.victims() == Seq::new(n as nat, |t: int| 0usize),
            r.pcs() == Seq::new(n as nat, |t: int| FilterPc::Idle),
    {
        let mut level: Vec<usize> = Vec::new();
        let mut victim: Vec<usize> = Vec::new();
        let mut pc: Vec<FilterPc> = Vec::new();
        let mut k: usize = 0;
        while k < n
            invariant
                k <= n,
                level@ == Seq::new(k as nat, |t: int| 0usize),
                victim@ == Seq::new(k as nat, |t: int| 0usize),
                pc@ == Seq::new(k as nat, |t: int| FilterPc::Idle),
            decreases n - k,
        {
            level.push(0);
            victim.push(0);
            pc.push(FilterPc::Idle);
            k = k + 1;
            assert(level@ =~= Seq::new(k as nat, |t: int| 0usize));
            assert(victim@ =~= Seq::new(k as nat, |t: int| 0usize));
            assert(pc@ =~= Seq::new(k as nat, |t: int| FilterPc::Idle));
        }
        let r = FilterLock { level, victim, n, pc };
        proof {
            assert forall|j: int|
                1 <= j < n && !in_level(r.pc@[#[trigger] r.victim@[j] as int], n as int, j) implies count_below(
                n as int,
                in_level_set(r.pc@, n as int, j),
            ) <= n - j by {
                assert forall|t: int| 0 <= t < n implies !#[trigger] in_level_set(r.pc@, n as int, j)(t) by {}
                lemma_count_none(n as int, in_level_set(r.pc@, n as int, j));
            }
        }
        r
    }

    /// Performs the next action of thread `id` in acquiring the lock, and
    /// returns whether `id` now holds it.
    ///
    /// From `Idle` it enters level 1 (or the critical section when it is the
    /// only thread). At level `i` it announces `level[id] = i`, then makes
    /// itself `victim[i]`, then for each other thread `k` in turn waits while
    /// `level[k] >= i` and `victim[i] == id`, reading `level[k]` and then
    /// `victim[i]`. After the last level it holds the lock.
    fn lock(&mut self, id: usize) -> (acquired: bool)
        ensures
            final(self).pcs() == old(self).pcs().update(
                id as int,
                lock_next(
                    old(self).pcs()[id as int],
                    old(self).threads() as int,
                    id as int,
                    old(self).levels(),
                    old(self).victims(),
                ),
            ),
            final(self).levels() == match old(self).pcs()[id as int] {
                FilterPc::SetLevel(i) => old(self).levels().update(id as int, i),
                _ => old(self).levels(),
            },
            final(self).victims() == match old(self).pcs()[id as int] {
                FilterPc::SetVictim(i) => old(self).victims().update(i as int, id),
                _ => old(self).victims(),
            },
    {
        let ghost pre = *self;
        let n = self.n;
        proof {
            assert(pc_ok(self.pc@[id as int], n as int, id as int));
        }
        let next = match self.pc[id] {
            FilterPc::Idle => {
                if 1 < n {
                    FilterPc::SetLevel(1)
                } else {
                    FilterPc::Critical
                }
            },
            FilterPc::SetLevel(i) => {
                self.level.set(id, i);
                FilterPc::SetVictim(i)
            },
            FilterPc::SetVictim(i) => {
                self.victim.set(i, id);
                next_check_exec(n, id, i, 0)
            },
            FilterPc::ReadLevel(i, k) => {
                if self.level[k] >= i {
                    FilterPc::ReadVictim(i, k)
                } else {
                    next_check_exec(n, id, i, k + 1)
                }
            },
            FilterPc::ReadVictim(i, k) => {
                if self.victim[i] == id {
                    FilterPc::ReadLevel(i, k)
                } else {
                    next_check_exec(n, id, i, k + 1)
                }
            },
            FilterPc::Critical => FilterPc::Critical,
        };
        self.pc.set(id, next);
        proof {
            Self::lemma_lock_step(pre, *self, id as int);
        }
        match next {
            FilterPc::Critical => true,
            _ => false,
        }
    }

    /// Thread `id` leaves the critical section by announcing level 0.
    fn unlock(&mut self, id: usize)
        ensures
            final(self).levels() == old(self).levels().update(id as int, 0),
            final(self).victims() == old(self).victims(),
            final(self).pcs() == old(self).pcs().update(id as int, FilterPc::Idle),
    {
        let ghost pre = *self;
        self.level.set(id, 0);
        self.pc.set(id, FilterPc::Idle);
        proof {
            let n = self.n as int;
            let pcs = pre.pc@;
            let pcs2 = self.pc@;
            let me = id as int;
            assert forall|t: int| 0 <= t < n implies pc_ok(#[trigger] pcs2[t], n, t) && self.level@[t]
                == level_of(pcs2[t], n) by {
                if t != me {
                    assert(pc_ok(pcs[t], n, t));
                }
            }
            assert forall|j: int| 0 <= j < n implies #[trigger] self.victim@[j] < n by {
                assert(pre.victim@[j] < n);
            }
            assert forall|a: int, j: int, k: int|
                #![trigger has_checked(pcs2[a], n, j, k)]
                0 <= a < n && 1 <= j < n && 0 <= k < n && k != a && self.victim@[j] == a
                    && has_checked(pcs2[a], n, j, k) implies !in_level(pcs2[k], n, j) by {
                if a != me && k != me {
                    assert(has_checked(pcs[a], n, j, k));
                }
            }
            assert forall|j: int|
                1 <= j < n && !in_level(pcs2[#[trigger] self.victim@[j] as int], n, j) implies count_below(
                n,
                in_level_set(pcs2, n, j),
            ) <= n - j by {
                let e = in_level_set(pcs, n, j);
                let e2 = in_level_set(pcs2, n, j);
                assert forall|t: int| 0 <= t < n && #[trigger] e2(t) implies e(t) by {}
                lemma_count_strict(n, e2, e, me);
                let v = pre.victim@[j] as int;
                if v == me {
                    pre.lemma_passed_bound(j - 1);
                    let p = passed_set(pcs, n, j - 1);
                    assert forall|t: int| 0 <= t < n && #[trigger] e(t) implies p(t) by {
                        assert(pc_ok(pcs[t], n, t));
                    }
                    lemma_count_mono(n, e, p);
                } else {
                    assert(pcs2[v] == pcs[v]);
                }
            }
        }
    }

    proof fn lemma_mutual_exclusion(&self, a: int, b: int) {
        let n = self.n as int;
        if a != b {
            self.lemma_passed_bound(n - 1);
            let p = passed_set(self.pc@, n, n - 1);
            if a < b {
                lemma_count_two(n, p, a, b);
            } else {
                lemma_count_two(n, p, b, a);
            }
        }
    }
}

/// The position after the checks of threads below `k` at level `i`.
fn next_check_exec(n: usize, me: usize, i: usize, k: usize) -> (r: FilterPc)
    requires
        k <= n,
        me < n,
        1 <= i < n,
    ensures
        r == next_check(n as int, me as int, i as int, k as int),
{
    let k2 = if k == me {
        k + 1
    } else {
        k
    };
    if k2 < n {
        FilterPc::ReadLevel(i, k2)
    } else if i + 1 < n {
        FilterPc::SetLevel(i + 1)
    } else {
        FilterPc::Critical
    }
}


/// Thread `me` at `pc` waits at level `i` on thread `k`, and its wait would
/// loop for as long as no other thread moves: `k` is at level `i` or above
/// and `me` is the victim of level `i`.
pub open spec fn filter_stuck(pc: FilterPc, me: int, levels: Seq<usize>, victims: Seq<usize>) -> bool {
    match pc {
        FilterPc::ReadLevel(i, k) => levels[k as int] >= i && victims[i as int] == me,
        FilterPc::ReadVictim(i, k) => levels[k as int] >= i && victims[i as int] == me,
        _ => false,
    }
}

impl FilterLock {
    /// From a thread `t` in the protocol, following whom each stuck thread
    /// waits on leads to ever higher levels, so to a thread that is not
    /// stuck.
    proof fn lemma_unstuck_from(&self, t: int)
        requires
            self.inv(),
            0 <= t < self.n,
            forall|u: int| 0 <= u < self.n ==> self.pc@[u] != FilterPc::Critical,
            self.pc@[t] != FilterPc::Idle,
        ensures
            exists|u: int|
                0 <= u < self.n && self.pc@[u] != FilterPc::Idle && !#[trigger] filter_stuck(
                    self.pc@[u],
                    u,
                    self.level@,
                    self.victim@,
                ),
        decreases self.n - level_of(self.pc@[t], self.n as int),
    {
        let n = self.n as int;
        assert(pc_ok(self.pc@[t], n, t));
        if filter_stuck(self.pc@[t], t, self.level@, self.victim@) {
            let (i, k) = match self.pc@[t] {
                FilterPc::ReadLevel(i, k) => (i as int, k as int),
                FilterPc::ReadVictim(i, k) => (i as int, k as int),
                _ => (0int, 0int),
            };
            assert(self.level@[k] == level_of(self.pc@[k], n));
            assert(pc_ok(self.pc@[k], n, k));
            assert(self.pc@[k] != FilterPc::Idle);
            if filter_stuck(self.pc@[k], k, self.level@, self.victim@) {
                self.lemma_unstuck_from(k);
            }
        }
    }

    /// Deadlock-freedom: while no thread holds the lock and some thread is
    /// in the protocol, some thread in the protocol is not stuck, so its
    /// next action is not a turn of a wait loop that only others can end.
    pub proof fn lemma_no_deadlock(&self)
        requires
            self.inv(),
            forall|u: int| 0 <= u < self.threads() ==> !(#[trigger] self.pcs()[u] is Critical),
            exists|u: int| 0 <= u < self.threads() && #[trigger] self.pcs()[u] != FilterPc::Idle,
        ensures
            exists|u: int|
                0 <= u < self.threads() && self.pcs()[u] != FilterPc::Idle && !#[trigger] filter_stuck(
                    self.pcs()[u],
                    u,
                    self.levels(),
                    self.victims(),
                ),
    {
        let n = self.n as int;
        let t = choose|u: int| 0 <= u < n && #[trigger] self.pcs()[u] != FilterPc::Idle;
        assert forall|u: int| 0 <= u < n implies self.pc@[u] != FilterPc::Critical by {
            assert(!(self.pcs()[u] is Critical));
        }
        self.lemma_unstuck_from(t);
        let w = choose|u: int|
            0 <= u < n && self.pc@[u] != FilterPc::Idle && !#[trigger] filter_stuck(
                self.pc@[u],
                u,
                self.level@,
                self.victim@,
            );
        assert(!filter_stuck(self.pcs()[w], w, self.levels(), self.victims()));
    }
}


/// A waiting thread that is not stuck gets past its check of thread `k` at
/// its level within two of its own actions.
pub proof fn lemma_unstuck_passes(s0: FilterLock, s1: FilterLock, s2: FilterLock, a: int, i: usize, k: usize)
    requires
        s0.inv(),
        0 <= a < s0.threads(),
        s0.pcs()[a] == FilterPc::ReadLevel(i, k) || s0.pcs()[a] == FilterPc::ReadVictim(i, k),
        !filter_stuck(s0.pcs()[a], a, s0.levels(), s0.victims()),
        FilterLock::takes_step(s0, a, s1),
        s1.threads() == s0.threads(),
        !(s1.pcs()[a] is Critical) ==> FilterLock::takes_step(s1, a, s2),
    ensures
        has_checked(s1.pcs()[a], s0.threads() as int, i as int, k as int) || has_checked(
            s2.pcs()[a],
            s0.threads() as int,
            i as int,
            k as int,
        ),
{
    let n = s0.threads() as int;
    assert(pc_ok(s0.pc@[a], n, a));
    let nc = next_check(n, a, i as int, k + 1);
    assert(has_checked(nc, n, i as int, k as int));
    if s0.pcs()[a] == FilterPc::ReadLevel(i, k) {
        if s0.levels()[k as int] >= i {
            assert(s1.pcs()[a] == FilterPc::ReadVictim(i, k));
            assert(s1.victims() == s0.victims());
            assert(s2.pcs()[a] == nc);
        }
    } else {
        if s0.victims()[i as int] == a {
            assert(s1.pcs()[a] == FilterPc::ReadLevel(i, k));
            assert(s1.levels() == s0.levels());
            assert(s2.pcs()[a] == nc);
        }
    }
}

} // verus!
