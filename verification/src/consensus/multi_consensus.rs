use vstd::prelude::*;

use super::api::{decided_after, Consensus};

verus! {

/// The value of an empty slot of the assignment table.
pub const NULL: i32 = -1;

/// Offset of row `i` among the pair slots: the number of pairs `(r, s)`
/// with `r < i`.
pub open spec fn row_offset(n: int, i: int) -> int
    decreases i,
{
    if i <= 0 {
        0
    } else {
        row_offset(n, i - 1) + (n - i)
    }
}

/// Position in the table of the slot shared by threads `i < j`.
pub open spec fn pair_index(n: int, i: int, j: int) -> int {
    n + row_offset(n, i) + (j - i - 1)
}

/// Size of the table: one slot per thread and one per pair of threads.
pub open spec fn table_len(n: int) -> int {
    n * (n + 1) / 2
}

proof fn lemma_row_offset_closed(n: int, i: int)
    requires
        0 <= i,
    ensures
        2 * row_offset(n, i) == (2 * n - 1 - i) * i,
    decreases i,
{
    if i == 0 {
        assert((2 * n - 1 - i) * i == 0) by (nonlinear_arith)
            requires
                i == 0,
        ;
    } else {
        lemma_row_offset_closed(n, i - 1);
        assert((2 * n - 1 - i) * i == (2 * n - 1 - (i - 1)) * (i - 1) + 2 * (n - i))
            by (nonlinear_arith);
    }
}

proof fn lemma_row_offset_mono(n: int, i: int, k: int)
    requires
        0 <= i <= k <= n,
    ensures
        row_offset(n, i) <= row_offset(n, k),
    decreases k - i,
{
    if i < k {
        lemma_row_offset_mono(n, i, k - 1);
    }
}

/// The pair slots of a table for `n` threads are laid out row after row
/// just after the `n` thread slots, inside the table.
pub proof fn lemma_pair_index_bounds(n: int, i: int, j: int)
    requires
        0 <= i < j < n,
    ensures
        n + row_offset(n, i) <= pair_index(n, i, j) < n + row_offset(n, i + 1),
        n <= pair_index(n, i, j) < table_len(n),
        2 * pair_index(n, i, j) == 2 * n - 2 + 2 * j - 2 * i + (2 * n - 1 - i) * i,
{
    lemma_row_offset_mono(n, i + 1, n - 1);
    lemma_row_offset_closed(n, n - 1);
    lemma_row_offset_closed(n, i);
    assert((2 * n - 1 - (n - 1)) * (n - 1) == n * (n - 1)) by (nonlinear_arith);
    assert(n * (n + 1) == n * (n - 1) + 2 * n) by (nonlinear_arith);
}

/// The pair slots from row `r` on reach every slot of the rows from `r` on.
proof fn lemma_pair_rows_onto(n: int, s: int, r: int)
    requires
        0 <= r < n - 1,
        row_offset(n, r) <= s < row_offset(n, n - 1),
    ensures
        exists|i: int, j: int| 0 <= i < j < n && #[trigger] pair_index(n, i, j) == n + s,
    decreases n - r,
{
    if s < row_offset(n, r + 1) {
        let j = r + 1 + (s - row_offset(n, r));
        assert(pair_index(n, r, j) == n + s);
    } else {
        if r + 1 == n - 1 {
            assert(false);
        }
        lemma_pair_rows_onto(n, s, r + 1);
    }
}

/// The pair slots fill the table after the `n` thread slots: every such
/// slot belongs to a pair of threads.
pub proof fn lemma_pair_index_onto(n: int, s: int)
    requires
        0 <= n <= s < table_len(n),
    ensures
        exists|i: int, j: int| 0 <= i < j < n && #[trigger] pair_index(n, i, j) == s,
{
    if n <= 1 {
        assert(table_len(n) <= n) by (nonlinear_arith)
            requires
                0 <= n <= 1,
                table_len(n) == n * (n + 1) / 2,
        ;
    } else {
        lemma_row_offset_closed(n, n - 1);
        assert((2 * n - 1 - (n - 1)) * (n - 1) == n * (n - 1)) by (nonlinear_arith);
        assert(n * (n + 1) == n * (n - 1) + 2 * n) by (nonlinear_arith);
        lemma_pair_rows_onto(n, s - n, 0);
    }
}

/// Distinct pairs of threads own distinct slots.
pub proof fn lemma_pair_index_injective(n: int, a: int, b: int, c: int, d: int)
    requires
        0 <= a < b < n,
        0 <= c < d < n,
        a != c || b != d,
    ensures
        pair_index(n, a, b) != pair_index(n, c, d),
        n <= pair_index(n, a, b) < table_len(n),
{
    lemma_pair_index_bounds(n, a, b);
    lemma_pair_index_bounds(n, c, d);
    if a < c {
        lemma_row_offset_mono(n, a + 1, c);
    } else if c < a {
        lemma_row_offset_mono(n, c + 1, a);
    }
}

/// A multi-assignment register: thread `i` writes its own slot and every
/// slot it shares with another thread in one atomic action.
pub struct Assign {
    inner: Vec<i32>,
    n: usize,
}

impl Assign {
    /// The table as a sequence.
    pub closed spec fn table(&self) -> Seq<i32> {
        self.inner@
    }

    /// Number of threads.
    pub closed spec fn threads(&self) -> nat {
        self.n as nat
    }

    pub closed spec fn wf(&self) -> bool {
        &&& self.n * (self.n + 1) <= usize::MAX
        &&& self.inner@.len() == table_len(self.n as int)
    }

    /// A table for `n` threads with every slot empty.
    pub fn new(n: usize) -> (r: Self)
        requires
            n * (n + 1) <= usize::MAX,
        ensures
            r.wf(),
            r.threads() == n,
            r.table() == Seq::new(table_len(n as int) as nat, |k: int| NULL),
    {
        proof {
            assert(n + 1 <= usize::MAX) by (nonlinear_arith)
                requires
                    n * (n + 1) <= usize::MAX,
            ;
        }
        let len: usize = n * (n + 1) / 2;
        let mut inner: Vec<i32> = Vec::new();
        let mut k: usize = 0;
        while k < len
            invariant
                k <= len,
                inner@.len() == k,
                forall|m: int| 0 <= m < k ==> inner@[m] == NULL,
            decreases len - k,
        {
            inner.push(NULL);
            k = k + 1;
        }
        let r = Assign { inner, n };
        assert(r.table() =~= Seq::new(table_len(n as int) as nat, |k: int| NULL));
        r
    }

    /// Position of the slot shared by threads `i < j`.
    pub fn index(&self, i: usize, j: usize) -> (r: usize)
        requires
            self.wf(),
            i < j < self.threads(),
        ensures
            r == pair_index(self.threads() as int, i as int, j as int),
            self.threads() <= r < self.table().len(),
    {
        proof {
            lemma_pair_index_bounds(self.n as int, i as int, j as int);
            lemma_row_offset_closed(self.n as int, i as int);
            assert((2 * self.n - 1 - i) * i <= 2 * self.n * self.n) by (nonlinear_arith)
                requires
                    i < self.n,
            ;
            assert(self.n * (self.n + 1) == self.n * self.n + self.n) by (nonlinear_arith);
        }
        let base: usize = self.n - 1 + j - i;
        let offset: usize = if i > 0 {
            (2 * self.n - 1 - i) * i / 2
        } else {
            0
        };
        base + offset
    }

    /// Writes `value` into the slot of `id` and into every slot `id` shares
    /// with another thread; every other slot keeps its value.
    pub fn assign(&mut self, id: usize, value: i32)
        requires
            old(self).wf(),
            id < old(self).threads(),
        ensures
            final(self).wf(),
            final(self).threads() == old(self).threads(),
            final(self).table().len() == old(self).table().len(),
            final(self).table()[id as int] == value,
            forall|k: int|
                0 <= k < old(self).threads() && k != id ==> final(self).table()[k] == old(
                    self,
                ).table()[k],
            forall|j: int|
                id < j < old(self).threads() ==> #[trigger] final(self).table()[pair_index(
                    old(self).threads() as int,
                    id as int,
                    j,
                )] == value,
            forall|i: int|
                0 <= i < id ==> #[trigger] final(self).table()[pair_index(
                    old(self).threads() as int,
                    i,
                    id as int,
                )] == value,
            forall|a: int, b: int|
                0 <= a < b < old(self).threads() && a != id && b != id
                    ==> #[trigger] final(self).table()[pair_index(old(self).threads() as int, a, b)]
                    == old(self).table()[pair_index(old(self).threads() as int, a, b)],
    {
        let ghost before = self.inner@;
        let ghost n = self.n as int;
        proof {
            assert(n <= table_len(n)) by (nonlinear_arith)
                requires
                    0 <= n,
            ;
        }
        self.inner.set(id, value);
        proof {
            assert forall|a: int, b: int| 0 <= a < b < n implies #[trigger] self.inner@[pair_index(
                n,
                a,
                b,
            )] == before[pair_index(n, a, b)] by {
                lemma_pair_index_bounds(n, a, b);
            }
        }
        let mut j: usize = id + 1;
        while j < self.n
            invariant
                self.wf(),
                self.n == n,
                id < j <= n,
                self.inner@.len() == before.len(),
                self.inner@[id as int] == value,
                forall|k: int| 0 <= k < n && k != id ==> self.inner@[k] == before[k],
                forall|m: int| id < m < j ==> #[trigger] self.inner@[pair_index(n, id as int, m)] == value,
                forall|a: int, b: int|
                    0 <= a < b < n && a != id && b != id ==> #[trigger] self.inner@[pair_index(
                        n,
                        a,
                        b,
                    )] == before[pair_index(n, a, b)],
                forall|a: int|
                    0 <= a < id ==> #[trigger] self.inner@[pair_index(n, a, id as int)] == before[pair_index(
                        n,
                        a,
                        id as int,
                    )],
            decreases n - j,
        {
            let k = self.index(id, j);
            let ghost prev = self.inner@;
            self.inner.set(k, value);
            proof {
                assert forall|m: int| id < m < j + 1 implies #[trigger] self.inner@[pair_index(
                    n,
                    id as int,
                    m,
                )] == value by {
                    if m != j {
                        lemma_pair_index_injective(n, id as int, m, id as int, j as int);
                        assert(prev[pair_index(n, id as int, m)] == value);
                    }
                }
                assert forall|a: int, b: int|
                    0 <= a < b < n && a != id && b != id implies #[trigger] self.inner@[pair_index(
                        n,
                        a,
                        b,
                    )] == before[pair_index(n, a, b)] by {
                    lemma_pair_index_injective(n, a, b, id as int, j as int);
                    assert(prev[pair_index(n, a, b)] == before[pair_index(n, a, b)]);
                }
                assert forall|a: int| 0 <= a < id implies #[trigger] self.inner@[pair_index(
                    n,
                    a,
                    id as int,
                )] == before[pair_index(n, a, id as int)] by {
                    lemma_pair_index_injective(n, a, id as int, id as int, j as int);
                    assert(prev[pair_index(n, a, id as int)] == before[pair_index(n, a, id as int)]);
                }
            }
            j = j + 1;
        }
        let mut i: usize = 0;
        while i < id
            invariant
                self.wf(),
                self.n == n,
                i <= id < n,
                self.inner@.len() == before.len(),
                self.inner@[id as int] == value,
                forall|k: int| 0 <= k < n && k != id ==> self.inner@[k] == before[k],
                forall|m: int| id < m < n ==> #[trigger] self.inner@[pair_index(n, id as int, m)] == value,
                forall|m: int| 0 <= m < i ==> #[trigger] self.inner@[pair_index(n, m, id as int)] == value,
                forall|a: int, b: int|
                    0 <= a < b < n && a != id && b != id ==> #[trigger] self.inner@[pair_index(
                        n,
                        a,
                        b,
                    )] == before[pair_index(n, a, b)],
            decreases id - i,
        {
            let k = self.index(i, id);
            let ghost prev = self.inner@;
            self.inner.set(k, value);
            proof {
                assert forall|m: int| id < m < n implies #[trigger] self.inner@[pair_index(
                    n,
                    id as int,
                    m,
                )] == value by {
                    lemma_pair_index_injective(n, id as int, m, i as int, id as int);
                    assert(prev[pair_index(n, id as int, m)] == value);
                }
                assert forall|m: int| 0 <= m < i + 1 implies #[trigger] self.inner@[pair_index(
                    n,
                    m,
                    id as int,
                )] == value by {
                    if m != i {
                        lemma_pair_index_injective(n, m, id as int, i as int, id as int);
                        assert(prev[pair_index(n, m, id as int)] == value);
                    }
                }
                assert forall|a: int, b: int|
                    0 <= a < b < n && a != id && b != id implies #[trigger] self.inner@[pair_index(
                        n,
                        a,
                        b,
                    )] == before[pair_index(n, a, b)] by {
                    lemma_pair_index_injective(n, a, b, i as int, id as int);
                    assert(prev[pair_index(n, a, b)] == before[pair_index(n, a, b)]);
                }
            }
            i = i + 1;
        }
    }

    /// The current contents of the table.
    pub fn read(&self) -> (r: &Vec<i32>)
        ensures
            r@ == self.table(),
    {
        &self.inner
    }
}

/// What the pair slot of threads `i < j` holds when thread `k` made its
/// assignment at position `ranks[k]` (or never, `-1`): the id of the later
/// of the two, or `NULL` if neither has assigned.
pub open spec fn later_of(ranks: Seq<int>, i: int, j: int) -> i32 {
    if ranks[i] < 0 && ranks[j] < 0 {
        NULL
    } else if ranks[i] > ranks[j] {
        i as i32
    } else {
        j as i32
    }
}

/// Consensus for `n` threads from a multi-assignment register.
///
/// Each thread writes its proposal into its own slot, then assigns its id to
/// its own table slot and to every slot it shares with another thread. It
/// then reads the table and picks as winner the thread that assigned first:
/// of two threads that both assigned, the pair slot holds the later one.
pub struct MultiConsensus<T> {
    proposed: Vec<Option<T>>,
    assign: Assign,
    n: usize,
    /// Position of each thread in the order of assignments, or `-1`.
    ranks: Ghost<Seq<int>>,
    /// Number of assignments made.
    count: Ghost<int>,
    /// The thread that assigned first, once there is one.
    first: Ghost<int>,
}

impl<T> MultiConsensus<T> {
    /// The slot of each thread.
    pub closed spec fn slots(&self) -> Seq<Option<T>> {
        self.proposed@
    }

    /// The position of each thread in the order of assignments, or `-1`.
    pub closed spec fn ranks(&self) -> Seq<int> {
        self.ranks@
    }

    /// Number of assignments made.
    pub closed spec fn assignments(&self) -> int {
        self.count@
    }

    /// The thread that assigned first, if any thread has assigned.
    pub closed spec fn winner(&self) -> Option<int> {
        if self.count@ == 0 {
            None
        } else {
            Some(self.first@)
        }
    }

    pub closed spec fn inv(&self) -> bool {
        let n = self.n as int;
        let ranks = self.ranks@;
        let table = self.assign.table();
        &&& self.assign.wf()
        &&& self.assign.threads() == n
        &&& n <= i32::MAX
        &&& self.proposed@.len() == n
        &&& n <= table.len()
        &&& ranks.len() == n
        &&& 0 <= self.count@
        &&& forall|k: int| 0 <= k < n ==> -1 <= #[trigger] ranks[k] < self.count@
        &&& forall|k: int| 0 <= k < n && #[trigger] ranks[k] >= 0 ==> self.proposed@[k] is Some
        &&& forall|a: int, b: int|
            0 <= a < n && 0 <= b < n && a != b && ranks[a] >= 0 ==> #[trigger] ranks[a] != #[trigger] ranks[b]
        &&& self.count@ > 0 ==> 0 <= self.first@ < n && ranks[self.first@] == 0
        &&& forall|k: int| 0 <= k < n ==> #[trigger] table[k] == if ranks[k] >= 0 { k as i32 } else { NULL }
        &&& forall|i: int, j: int|
            0 <= i < j < n ==> #[trigger] table[pair_index(n, i, j)] == later_of(ranks, i, j)
    }

    /// An object for threads `0..n`, on which nothing is proposed.
    pub fn new(n: usize) -> (r: Self)
        requires
            n * (n + 1) <= usize::MAX,
            n <= i32::MAX,
        ensures
            r.inv(),
            r.slots().len() == n,
            forall|k: int| 0 <= k < n ==> #[trigger] r.slots()[k] is None,
            r.ranks() == Seq::new(n as nat, |k: int| -1),
            r.winner() is None,
    {
        let mut proposed: Vec<Option<T>> = Vec::with_capacity(n);
        let mut k: usize = 0;
        while k < n
            invariant
                k <= n,
                proposed@.len() == k,
                forall|m: int| 0 <= m < k ==> #[trigger] proposed@[m] is None,
            decreases n - k,
        {
            proposed.push(None);
            k = k + 1;
        }
        let assign = Assign::new(n);
        let r = MultiConsensus {
            proposed,
            assign,
            n,
            ranks: Ghost(Seq::new(n as nat, |k: int| -1)),
            count: Ghost(0),
            first: Ghost(0),
        };
        proof {
            assert forall|i: int, j: int| 0 <= i < j < n implies #[trigger] r.assign.table()[pair_index(
                n as int,
                i,
                j,
            )] == later_of(r.ranks@, i, j) by {
                lemma_pair_index_bounds(n as int, i, j);
            }
            assert(n <= table_len(n as int)) by (nonlinear_arith)
                requires
                    0 <= n,
            ;
        }
        r
    }

    /// The thread that assigned first, computed from the table alone.
    fn first_assigned(&self) -> (win: usize)
        requires
            self.inv(),
            self.count@ > 0,
        ensures
            win == self.first@,
    {
        let n = self.n;
        let table = self.assign.read();
        let ghost ranks = self.ranks@;
        let mut win: usize = 0;
        let mut j: usize = 1;
        while j < n
            invariant
                self.inv(),
                n == self.n,
                table@ == self.assign.table(),
                ranks == self.ranks@,
                1 <= j <= n,
                win < j,
                (ranks[win as int] >= 0 && forall|k: int|
                    0 <= k < j && ranks[k] >= 0 ==> ranks[win as int] <= #[trigger] ranks[k]) || (win
                    == 0 && forall|k: int| 0 <= k < j ==> #[trigger] ranks[k] < 0),
            decreases n - j,
        {
            if table[j] != NULL {
                if table[win] == NULL {
                    win = j;
                } else {
                    let p = self.assign.index(win, j);
                    if table[win] == table[p] {
                        win = j;
                    }
                }
            }
            j = j + 1;
        }
        proof {
            let f = self.first@;
            assert(ranks[f] >= 0);
            assert(ranks[win as int] <= ranks[f]);
        }
        win
    }

    /// Thread `id`, which has proposed and not assigned yet, assigns its id
    /// to its own table slot and to every slot it shares with another
    /// thread, in one atomic action.
    pub fn assign_step(&mut self, id: usize)
        requires
            old(self).inv(),
            id < old(self).slots().len(),
            old(self).slots()[id as int] is Some,
            old(self).ranks()[id as int] < 0,
        ensures
            final(self).inv(),
            final(self).slots() == old(self).slots(),
            final(self).ranks() == old(self).ranks().update(id as int, old(self).assignments()),
            final(self).assignments() == old(self).assignments() + 1,
            final(self).winner() == if old(self).winner() is None {
                Some(id as int)
            } else {
                old(self).winner()
            },
    {
        let ghost before = *self;
        let ghost n = self.n as int;
        self.assign.assign(id, id as i32);
        let ghost c = self.count@;
        self.ranks = Ghost(self.ranks@.update(id as int, c));
        self.count = Ghost(c + 1);
        self.first = Ghost(if c == 0 { id as int } else { self.first@ });
        proof {
            let ranks = self.ranks@;
            let table = self.assign.table();
            assert(before.ranks@[id as int] < 0);
            assert forall|k: int| 0 <= k < n implies -1 <= #[trigger] ranks[k] < self.count@ by {
                if k != id {
                    assert(before.ranks@[k] == ranks[k]);
                }
            }
            assert forall|k: int| 0 <= k < n && #[trigger] ranks[k] >= 0 implies self.proposed@[k] is Some by {
                if k != id {
                    assert(before.ranks@[k] == ranks[k]);
                }
            }
            assert forall|a: int, b: int|
                0 <= a < n && 0 <= b < n && a != b && ranks[a] >= 0 implies #[trigger] ranks[a] != #[trigger] ranks[b] by {
                if a != id && b != id {
                    assert(before.ranks@[a] == ranks[a]);
                    assert(before.ranks@[b] == ranks[b]);
                } else if a == id {
                    assert(before.ranks@[b] == ranks[b]);
                    assert(ranks[b] < c);
                } else {
                    assert(before.ranks@[a] == ranks[a]);
                    assert(ranks[a] < c);
                }
            }
            if c > 0 {
                assert(before.ranks@[before.first@] == 0);
                assert(before.first@ != id);
            }
            assert forall|k: int| 0 <= k < n implies #[trigger] table[k] == if ranks[k] >= 0 {
                k as i32
            } else {
                NULL
            } by {
                if k != id {
                    assert(before.ranks@[k] == ranks[k]);
                }
            }
            assert forall|i: int, j: int| 0 <= i < j < n implies #[trigger] table[pair_index(
                n,
                i,
                j,
            )] == later_of(ranks, i, j) by {
                if i == id {
                    assert(table[pair_index(n, id as int, j)] == id as i32);
                } else if j == id {
                    assert(table[pair_index(n, i, id as int)] == id as i32);
                } else {
                    assert(before.assign.table()[pair_index(n, i, j)] == later_of(
                        before.ranks@,
                        i,
                        j,
                    ));
                }
            }
        }
    }
}

impl<T> MultiConsensus<T> {
    /// Reads the table and returns the proposal of the thread that assigned
    /// first.
    pub fn read_decision(&self) -> (r: &T)
        requires
            self.inv(),
            self.assignments() > 0,
        ensures
            self.winner() matches Some(w) && Some(*r) == self.slots()[w],
    {
        let win = self.first_assigned();
        self.proposed[win].as_ref().unwrap()
    }
}

impl<T> Default for MultiConsensus<T> {
    /// An object for two threads.
    fn default() -> (r: Self)
        ensures
            r.inv(),
            r.slots().len() == 2,
            forall|k: int| 0 <= k < 2 ==> #[trigger] r.slots()[k] is None,
            r.ranks() == Seq::new(2, |k: int| -1),
            r.winner() is None,
    {
        Self::new(2)
    }
}

impl<T> Consensus<T> for MultiConsensus<T> {
    open spec fn wf(&self) -> bool {
        self.inv()
    }

    open spec fn capacity(&self) -> nat {
        self.slots().len()
    }

    open spec fn proposal(&self, id: int) -> Option<T> {
        if 0 <= id < self.slots().len() {
            self.slots()[id]
        } else {
            None
        }
    }

    open spec fn committed(&self, id: int) -> bool {
        0 <= id < self.slots().len() && self.ranks()[id] >= 0
    }

    open spec fn decision(&self) -> Option<T> {
        match self.winner() {
            Some(w) => self.slots()[w],
            None => None,
        }
    }

    /// Writes the proposal into the thread's slot.
    fn propose(&mut self, value: T, id: usize)
        ensures
            final(self).slots() == old(self).slots().update(id as int, Some(value)),
            final(self).ranks() == old(self).ranks(),
            final(self).winner() == old(self).winner(),
    {
        let ghost pre = *self;
        self.proposed.set(id, Some(value));
        proof {
            let n = self.n as int;
            assert forall|k: int| 0 <= k < n && #[trigger] self.ranks@[k] >= 0 implies self.proposed@[k] is Some by {
                if k != id {
                    assert(pre.proposed@[k] == self.proposed@[k]);
                }
            }
            assert forall|k: int| k != id implies #[trigger] self.proposal(k) == pre.proposal(k) by {
                if 0 <= k < self.slots().len() {
                    assert(self.slots()[k] == pre.slots().update(id as int, Some(value))[k]);
                }
            }
        }
    }

    /// Assigns the thread's id to its table slots, then reads the table and
    /// returns the proposal of the thread that assigned first.
    fn commit(&mut self, id: usize) -> (r: &T)
        ensures
            final(self).slots() == old(self).slots(),
            final(self).ranks() == old(self).ranks().update(id as int, old(self).assignments()),
            final(self).assignments() == old(self).assignments() + 1,
            final(self).winner() == if old(self).winner() is None {
                Some(id as int)
            } else {
                old(self).winner()
            },
    {
        self.assign_step(id);
        self.read_decision()
    }

    proof fn lemma_decision_is_proposed(&self) {
        if let Some(w) = self.winner() {
            assert(self.proposal(w) == self.decision());
            assert(self.committed(w));
        } else {
            assert forall|k: int| !#[trigger] self.committed(k) by {
                if 0 <= k < self.n {
                    assert(self.ranks@[k] < 0);
                }
            }
        }
        assert forall|k: int| #[trigger] self.committed(k) implies self.proposal(k) is Some by {
            assert(self.ranks@[k] >= 0);
        }
    }
}

} // verus!
