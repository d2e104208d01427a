use vstd::prelude::*;

use crate::consensus::api::{decided_after, Consensus};
use crate::consensus::cas::CasConsensus;
use crate::count::{count_below, lemma_count_mono, lemma_count_strict, lemma_sum_bound, lemma_sum_nonneg, sum_below};

verus! {

/// A sequential object: a value with a start state that operations change
/// and answer, one at a time. Its view is the abstract state.
pub trait SeqObject: Sized + View {
    /// An operation on the object.
    type Op;

    /// What an operation answers.
    type Resp;

    /// The start state.
    spec fn spec_init() -> Self::V;

    /// The state after `op` and its answer.
    spec fn spec_apply(state: Self::V, op: Self::Op) -> (Self::V, Self::Resp);

    /// An object in the start state.
    fn init() -> (r: Self)
        ensures
            r@ == Self::spec_init(),
    ;

    /// Applies `op` and returns its answer.
    fn apply(&mut self, op: &Self::Op) -> (r: Self::Resp)
        ensures
            (final(self)@, r) == Self::spec_apply(old(self)@, *op),
    ;
}

/// The state reached from the start state by applying `ops` in order.
pub open spec fn replay<S: SeqObject>(ops: Seq<S::Op>) -> S::V
    decreases ops.len(),
{
    if ops.len() == 0 {
        S::spec_init()
    } else {
        S::spec_apply(replay::<S>(ops.drop_last()), ops.last()).0
    }
}

/// The answer of the `i`-th operation of `ops` when they are applied in
/// order from the start state.
pub open spec fn response_at<S: SeqObject>(ops: Seq<S::Op>, i: int) -> S::Resp {
    S::spec_apply(replay::<S>(ops.take(i)), ops[i]).1
}

/// Once an operation stands in the log, its answer does not change as the
/// log grows.
pub proof fn lemma_response_stable<S: SeqObject>(ops: Seq<S::Op>, more: Seq<S::Op>, i: int)
    requires
        0 <= i < ops.len(),
    ensures
        response_at::<S>(ops + more, i) == response_at::<S>(ops, i),
{
    assert((ops + more).take(i) =~= ops.take(i));
    assert((ops + more)[i] == ops[i]);
}

/// A sequence of distinct ids taken from `1..hi` has at most `hi - 1`
/// elements.
proof fn lemma_distinct_bounded(s: Seq<usize>, hi: int)
    requires
        1 <= hi,
        s.no_duplicates(),
        forall|p: int| 0 <= p < s.len() ==> 1 <= #[trigger] s[p] < hi,
    ensures
        s.len() <= hi - 1,
    decreases hi,
{
    if hi == 1 {
        if s.len() > 0 {
            assert(1 <= s[0] < hi);
        }
    } else if exists|p: int| 0 <= p < s.len() && s[p] == hi - 1 {
        let p = choose|p: int| 0 <= p < s.len() && s[p] == hi - 1;
        let t = s.remove(p);
        assert forall|i: int| 0 <= i < t.len() implies 1 <= #[trigger] t[i] < hi - 1 by {
            if i < p {
                assert(t[i] == s[i]);
            } else {
                assert(t[i] == s[i + 1]);
            }
        }
        assert(t.no_duplicates()) by {
            assert forall|i: int, j: int| 0 <= i < t.len() && 0 <= j < t.len() && i != j implies t[i]
                != t[j] by {
                let i2 = if i < p {
                    i
                } else {
                    i + 1
                };
                let j2 = if j < p {
                    j
                } else {
                    j + 1
                };
                assert(t[i] == s[i2]);
                assert(t[j] == s[j2]);
            }
        }
        lemma_distinct_bounded(t, hi - 1);
    } else {
        assert forall|i: int| 0 <= i < s.len() implies 1 <= #[trigger] s[i] < hi - 1 by {}
        lemma_distinct_bounded(s, hi - 1);
    }
}

/// The link of a node that has no successor yet.
pub const NIL: usize = usize::MAX;

/// A node of the log: an operation, a consensus object that decides the
/// node's successor, the node's sequence number (1 until it is numbered),
/// and the link to its successor.
pub struct Node<Op> {
    invoc: Option<Op>,
    decide_next: CasConsensus<usize>,
    seq: usize,
    next: usize,
}

/// The shared log of a universal construction.
///
/// Node 0 is the sentinel. The consensus object of each node decides its
/// successor, so the decided nodes form one chain from the sentinel. A
/// decided node is then linked to its predecessor (`next`) and numbered
/// (`seq`, its position plus one); the numbered nodes are a prefix of the
/// chain, and every numbered node is linked from its predecessor.
pub struct Log<Op> {
    nodes: Vec<Node<Op>>,
    n: usize,
    /// The decided nodes after the sentinel, in chain order.
    order: Ghost<Seq<usize>>,
    /// The position of each node in the chain (the sentinel's is 0), or
    /// `-1` for a node not decided yet.
    place: Ghost<Seq<int>>,
    /// The position of the last numbered node.
    numbered: Ghost<int>,
}

/// The node at position `p` of the chain `order` (0 is the sentinel).
pub open spec fn chain_at(order: Seq<usize>, p: int) -> int {
    if p == 0 {
        0
    } else {
        order[p - 1] as int
    }
}

impl<Op> Log<Op> {
    /// The decided nodes after the sentinel, in chain order.
    pub closed spec fn order(&self) -> Seq<usize> {
        self.order@
    }

    /// Number of nodes.
    pub closed spec fn size(&self) -> nat {
        self.nodes@.len()
    }

    /// Number of threads.
    pub closed spec fn threads(&self) -> nat {
        self.n as nat
    }

    /// The sequence number of node `x`.
    pub closed spec fn seq_of(&self, x: int) -> int {
        self.nodes@[x].seq as int
    }

    /// The successor link of node `x`.
    pub closed spec fn next_of(&self, x: int) -> usize {
        self.nodes@[x].next
    }

    /// The operation of node `x`.
    pub closed spec fn op_of(&self, x: int) -> Option<Op> {
        self.nodes@[x].invoc
    }

    /// The position of node `x` in the chain, or `-1`.
    pub closed spec fn place_of(&self, x: int) -> int {
        self.place@[x]
    }

    /// The position of the last numbered node.
    pub closed spec fn last_numbered(&self) -> int {
        self.numbered@
    }

    /// Whether thread `t` has taken part in choosing the successor of `x`.
    pub closed spec fn proposed(&self, x: int, t: int) -> bool {
        self.nodes@[x].decide_next.proposal(t) is Some
    }

    /// Whether node `x` is in the chain.
    pub open spec fn decided(&self, x: int) -> bool {
        0 <= x < self.size() && self.place_of(x) >= 0
    }

    /// Whether node `x` is numbered.
    pub open spec fn numbered(&self, x: int) -> bool {
        0 <= x < self.size() && 0 <= self.place_of(x) <= self.last_numbered()
    }

    /// The last node of the chain.
    pub open spec fn end(&self) -> int {
        chain_at(self.order(), self.order().len() as int)
    }

    /// Number of nodes not in the chain yet.
    pub open spec fn undecided(&self) -> nat {
        count_below(self.size() as int, |k: int| !self.decided(k))
    }

    /// The operations of the chain, in order.
    pub open spec fn ops(&self) -> Seq<Op> {
        self.order().map_values(|x: usize| self.op_of(x as int)->0)
    }

    pub closed spec fn inv(&self) -> bool {
        let nodes = self.nodes@;
        let order = self.order@;
        let place = self.place@;
        let len = order.len() as int;
        let s = self.numbered@;
        &&& nodes.len() >= 1
        &&& nodes.len() + 1 < usize::MAX
        &&& nodes[0].invoc is None
        &&& place.len() == nodes.len()
        &&& place[0] == 0
        &&& order.no_duplicates()
        &&& 0 <= s <= len
        &&& forall|p: int| 0 <= p < len ==> 1 <= #[trigger] order[p] < nodes.len()
        &&& forall|p: int| 0 <= p < len ==> place[#[trigger] order[p] as int] == p + 1
        &&& forall|x: int|
            1 <= x < nodes.len() ==> #[trigger] nodes[x].invoc is Some && (place[x] == -1 || (1
                <= place[x] <= len && order[place[x] - 1] == x))
        &&& forall|x: int|
            0 <= x < nodes.len() ==> #[trigger] nodes[x].seq == if 1 <= place[x] <= s {
                place[x] + 1
            } else {
                1
            }
        &&& forall|x: int|
            0 <= x < nodes.len() ==> #[trigger] nodes[x].decide_next.wf()
                && nodes[x].decide_next.capacity() == self.n
        &&& forall|p: int|
            0 <= p <= len ==> {
                let x = #[trigger] chain_at(order, p);
                &&& nodes[x].decide_next.decision() == if p < len {
                    Some(chain_at(order, p + 1) as usize)
                } else {
                    None::<usize>
                }
                &&& nodes[x].next == NIL || (p < len && nodes[x].next == chain_at(order, p + 1))
                &&& p < s ==> nodes[x].next == chain_at(order, p + 1)
            }
        &&& forall|x: int|
            1 <= x < nodes.len() && #[trigger] place[x] == -1 ==> nodes[x].next == NIL
                && nodes[x].decide_next.decision() is None
        &&& forall|x: int, t: int|
            1 <= x < nodes.len() && place[x] == -1 ==> !(#[trigger] nodes[x].decide_next.proposal(
                t,
            ) is Some)
    }

    /// A node in the chain sits at its position; the numbered ones are the
    /// positions up to `last_numbered()`, and their sequence number is
    /// their position plus one.
    pub proof fn lemma_place(&self, x: int)
        requires
            self.inv(),
            0 <= x < self.size(),
        ensures
            self.decided(x) ==> 0 <= self.place_of(x) <= self.order().len() && chain_at(
                self.order(),
                self.place_of(x),
            ) == x,
            !self.decided(x) ==> self.place_of(x) == -1 && self.seq_of(x) == 1 && x != 0,
            self.numbered(x) ==> self.seq_of(x) == self.place_of(x) + 1,
            self.numbered(x) <==> (x == 0 || self.seq_of(x) > 1),
            0 <= self.last_numbered() <= self.order().len(),
    {
        let nodes = self.nodes@;
        assert(nodes[x].seq == if 1 <= self.place@[x] <= self.numbered@ {
            self.place@[x] + 1
        } else {
            1
        });
        if x >= 1 {
            assert(nodes[x].invoc is Some);
        }
    }

    /// The nodes of the chain are decided, at their positions.
    pub proof fn lemma_chain(&self, p: int)
        requires
            self.inv(),
            0 <= p <= self.order().len(),
        ensures
            self.decided(chain_at(self.order(), p)),
            self.place_of(chain_at(self.order(), p)) == p,
    {
    }

    /// The chain is shorter than the array of nodes.
    pub proof fn lemma_order_len(&self)
        requires
            self.inv(),
        ensures
            self.order().len() < self.size(),
    {
        lemma_distinct_bounded(self.order@, self.nodes@.len() as int);
    }

    /// When the chain of `self` extends into that of `later` and the nodes
    /// keep their operations, the operations of `self` lead those of
    /// `later`.
    pub proof fn lemma_ops_prefix(&self, later: Self)
        requires
            self.inv(),
            later.inv(),
            self.order().is_prefix_of(later.order()),
            forall|y: int| 0 <= y < self.size() ==> #[trigger] later.op_of(y) == self.op_of(y),
        ensures
            self.ops().is_prefix_of(later.ops()),
    {
        assert forall|p: int| 0 <= p < self.ops().len() implies #[trigger] later.ops()[p] == self.ops()[p] by {
            assert(self.order()[p] == later.order()[p]);
            assert(1 <= self.order@[p] < self.nodes@.len());
        }
        assert(self.ops() =~= later.ops().subrange(0, self.ops().len() as int));
    }

    /// A log with only the sentinel, for `n` threads.
    pub fn new(n: usize) -> (r: Self)
        ensures
            r.inv(),
            r.order() == Seq::<usize>::empty(),
            r.size() == 1,
            r.threads() == n,
            forall|t: int| !#[trigger] r.proposed(0, t),
    {
        let sentinel = Node { invoc: None, decide_next: CasConsensus::new(n), seq: 1, next: NIL };
        let mut nodes: Vec<Node<Op>> = Vec::new();
        nodes.push(sentinel);
        let r = Log {
            nodes,
            n,
            order: Ghost(Seq::empty()),
            place: Ghost(Seq::empty().push(0int)),
            numbered: Ghost(0),
        };
        proof {
            assert forall|t: int| !#[trigger] r.proposed(0, t) by {
                if 0 <= t < n {
                    assert(r.nodes@[0].decide_next.slots()[t] is None);
                }
            }
            assert(chain_at(r.order@, 0) == 0);
        }
        r
    }

    /// Adds a node holding `op`, not decided yet, and returns its index.
    pub fn push(&mut self, op: Op) -> (x: usize)
        requires
            old(self).inv(),
            old(self).size() + 2 < usize::MAX,
        ensures
            final(self).inv(),
            x == old(self).size(),
            final(self).size() == old(self).size() + 1,
            final(self).threads() == old(self).threads(),
            final(self).order() == old(self).order(),
            final(self).last_numbered() == old(self).last_numbered(),
            final(self).op_of(x as int) == Some(op),
            !final(self).decided(x as int),
            forall|y: int| 0 <= y < old(self).size() ==> #[trigger] final(self).place_of(y) == old(self).place_of(y),
            forall|y: int| 0 <= y < old(self).size() ==> #[trigger] final(self).seq_of(y) == old(self).seq_of(y),
            forall|y: int| 0 <= y < old(self).size() ==> #[trigger] final(self).next_of(y) == old(self).next_of(y),
            forall|y: int| 0 <= y < old(self).size() ==> #[trigger] final(self).op_of(y) == old(self).op_of(y),
            forall|y: int, t: int|
                0 <= y < old(self).size() ==> #[trigger] final(self).proposed(y, t) == old(self).proposed(y, t),
            forall|t: int| !#[trigger] final(self).proposed(x as int, t),
    {
        let ghost pre = *self;
        let node = Node { invoc: Some(op), decide_next: CasConsensus::new(self.n), seq: 1, next: NIL };
        let x = self.nodes.len();
        self.nodes.push(node);
        self.place = Ghost(self.place@.push(-1));
        proof {
            let nodes = self.nodes@;
            let order = self.order@;
            let place = self.place@;
            assert forall|y: int| 0 <= y < x implies #[trigger] nodes[y] == pre.nodes@[y] && place[y]
                == pre.place@[y] by {}
            assert forall|t: int| !#[trigger] self.proposed(x as int, t) by {
                if 0 <= t < self.n {
                    assert(nodes[x as int].decide_next.slots()[t] is None);
                }
            }
            assert forall|p: int| 0 <= p < order.len() implies place[#[trigger] order[p] as int] == p + 1 by {
                assert(pre.place@[order[p] as int] == p + 1);
            }
            assert forall|p: int| 0 <= p <= order.len() implies {
                let y = #[trigger] chain_at(order, p);
                &&& nodes[y].decide_next.decision() == if p < order.len() {
                    Some(chain_at(order, p + 1) as usize)
                } else {
                    None::<usize>
                }
                &&& nodes[y].next == NIL || (p < order.len() && nodes[y].next == chain_at(order, p + 1))
                &&& p < self.numbered@ ==> nodes[y].next == chain_at(order, p + 1)
            } by {
                let y = chain_at(order, p);
                assert(nodes[y] == pre.nodes@[y]);
            }
            assert forall|y: int, t: int|
                1 <= y < nodes.len() && place[y] == -1 implies !(#[trigger] nodes[y].decide_next.proposal(
                t,
            ) is Some) by {
                if y == x {
                    assert(!self.proposed(x as int, t));
                }
            }
        }
        x
    }

    /// Thread `id`, which sees `before` in the chain, proposes `prefer` as
    /// its successor, and returns the successor that the consensus object of
    /// `before` decides. `prefer` joins the chain exactly when `before` was
    /// its last node.
    #[verifier::spinoff_prover]
    pub fn choose_next(&mut self, before: usize, prefer: usize, id: usize) -> (after: usize)
        requires
            old(self).inv(),
            old(self).decided(before as int),
            1 <= prefer < old(self).size(),
            old(self).decided(prefer as int) ==> old(self).place_of(prefer as int) > old(self).place_of(
                before as int,
            ),
            id < old(self).threads(),
            !old(self).proposed(before as int, id as int),
        ensures
            log_grows(*old(self), *final(self)),
            final(self).inv(),
            final(self).size() == old(self).size(),
            final(self).threads() == old(self).threads(),
            final(self).last_numbered() == old(self).last_numbered(),
            before == old(self).end() ==> after == prefer && final(self).order() == old(
                self,
            ).order().push(prefer),
            before != old(self).end() ==> after == chain_at(
                old(self).order(),
                old(self).place_of(before as int) + 1,
            ) && final(self).order() == old(self).order(),
            final(self).decided(after as int),
            final(self).place_of(after as int) == old(self).place_of(before as int) + 1,
            forall|y: int| 0 <= y < old(self).size() && y != after ==> #[trigger] final(self).place_of(y) == old(self).place_of(y),
            forall|y: int| 0 <= y < old(self).size() ==> #[trigger] final(self).seq_of(y) == old(self).seq_of(y),
            forall|y: int| 0 <= y < old(self).size() ==> #[trigger] final(self).next_of(y) == old(self).next_of(y),
            forall|y: int| 0 <= y < old(self).size() ==> #[trigger] final(self).op_of(y) == old(self).op_of(y),
            final(self).proposed(before as int, id as int),
            forall|y: int, t: int|
                0 <= y < old(self).size() && (y != before || t != id) ==> #[trigger] final(self).proposed(y, t)
                    == old(self).proposed(y, t),
    {
        let ghost pre = *self;
        let ghost order = self.order@;
        let ghost len = order.len() as int;
        let ghost q = self.place@[before as int];
        proof {
            self.lemma_place(before as int);
            self.lemma_place(prefer as int);
            self.lemma_order_len();
            assert(self.nodes@[before as int].decide_next.wf());
            assert(chain_at(order, q) == before);
        }
        let after = *self.nodes[before].decide_next.decide(prefer, id);
        self.order = Ghost(if q == len { order.push(prefer) } else { order });
        self.place = Ghost(if q == len { self.place@.update(prefer as int, len + 1) } else { self.place@ });
        proof {
            let nodes = self.nodes@;
            let order2 = self.order@;
            let place2 = self.place@;
            let len2 = order2.len() as int;
            let s = self.numbered@;
            if q == len {
                assert(after == prefer);
                assert(pre.place@[prefer as int] == -1);
            } else {
                assert(after == chain_at(order, q + 1));
                pre.lemma_chain(q + 1);
            }
            assert(after != before);
            assert(nodes[before as int].decide_next.wf());
            assert forall|y: int| 0 <= y < nodes.len() && y != before implies #[trigger] nodes[y]
                == pre.nodes@[y] by {}
            assert(forall|p: int| 0 <= p <= len ==> chain_at(order2, p) == chain_at(order, p));
            assert forall|p: int| 0 <= p < len2 implies 1 <= #[trigger] order2[p] < nodes.len() by {
                if p < len {
                    assert(order2[p] == order[p]);
                }
            }
            assert forall|p: int| 0 <= p < len2 implies place2[#[trigger] order2[p] as int] == p + 1 by {
                if p < len {
                    assert(order2[p] == order[p]);
                    assert(pre.place@[order[p] as int] == p + 1);
                }
            }
            assert forall|y: int| 1 <= y < nodes.len() implies #[trigger] nodes[y].invoc is Some && (place2[y]
                == -1 || (1 <= place2[y] <= len2 && order2[place2[y] - 1] == y)) by {
                assert(pre.nodes@[y].invoc is Some);
                if y != prefer || q != len {
                    if place2[y] >= 1 {
                        assert(order2[place2[y] - 1] == order[place2[y] - 1]);
                    }
                }
            }
            assert forall|y: int| 0 <= y < nodes.len() implies #[trigger] nodes[y].seq == if 1 <= place2[y]
                <= s {
                place2[y] + 1
            } else {
                1
            } by {
                assert(pre.nodes@[y].seq == nodes[y].seq);
            }
            assert forall|y: int| 0 <= y < nodes.len() implies #[trigger] nodes[y].decide_next.wf()
                && nodes[y].decide_next.capacity() == self.n by {
                if y == before {
                    assert(nodes[y].decide_next.wf());
                    assert(pre.nodes@[y].decide_next.capacity() == self.n);
                } else {
                    assert(pre.nodes@[y].decide_next.wf());
                }
            }
            assert forall|p: int| 0 <= p <= len2 implies {
                let y = #[trigger] chain_at(order2, p);
                &&& nodes[y].decide_next.decision() == if p < len2 {
                    Some(chain_at(order2, p + 1) as usize)
                } else {
                    None::<usize>
                }
                &&& nodes[y].next == NIL || (p < len2 && nodes[y].next == chain_at(order2, p + 1))
                &&& p < s ==> nodes[y].next == chain_at(order2, p + 1)
            } by {
                let y = chain_at(order2, p);
                if p <= len {
                    assert(y == chain_at(order, p));
                    if p + 1 <= len {
                        assert(chain_at(order2, p + 1) == chain_at(order, p + 1));
                    }
                    if y == before {
                        assert(p == q);
                    }
                } else {
                    assert(y == prefer);
                }
            }
            assert forall|y: int| 1 <= y < nodes.len() && #[trigger] place2[y] == -1 implies nodes[y].next
                == NIL && nodes[y].decide_next.decision() is None by {
                assert(y != before);
            }
            assert forall|y: int, t: int|
                1 <= y < nodes.len() && place2[y] == -1 implies !(#[trigger] nodes[y].decide_next.proposal(
                t,
            ) is Some) by {
                assert(y != before);
            }
            assert(order2.no_duplicates()) by {
                if q == len {
                    assert forall|i: int, j: int| 0 <= i < len2 && 0 <= j < len2 && i != j implies order2[i]
                        != order2[j] by {
                        if i < len && j < len {
                        } else if i == len {
                            assert(pre.place@[order[j] as int] == j + 1);
                        } else {
                            assert(pre.place@[order[i] as int] == i + 1);
                        }
                    }
                }
            }
            assert(self.inv());
        }
        after
    }

    /// Links `after`, the decided successor of `before`, behind it.
    #[verifier::spinoff_prover]
    pub fn link(&mut self, before: usize, after: usize)
        requires
            old(self).inv(),
            old(self).decided(before as int),
            old(self).place_of(before as int) < old(self).order().len(),
            after == chain_at(old(self).order(), old(self).place_of(before as int) + 1),
        ensures
            log_grows(*old(self), *final(self)),
            final(self).inv(),
            final(self).size() == old(self).size(),
            final(self).threads() == old(self).threads(),
            final(self).order() == old(self).order(),
            final(self).last_numbered() == old(self).last_numbered(),
            final(self).next_of(before as int) == after,
            forall|y: int| 0 <= y < old(self).size() ==> #[trigger] final(self).place_of(y) == old(self).place_of(y),
            forall|y: int| 0 <= y < old(self).size() ==> #[trigger] final(self).seq_of(y) == old(self).seq_of(y),
            forall|y: int| 0 <= y < old(self).size() && y != before ==> #[trigger] final(self).next_of(y) == old(self).next_of(y),
            forall|y: int| 0 <= y < old(self).size() ==> #[trigger] final(self).op_of(y) == old(self).op_of(y),
            forall|y: int, t: int|
                0 <= y < old(self).size() ==> #[trigger] final(self).proposed(y, t) == old(self).proposed(y, t),
    {
        let ghost pre = *self;
        proof {
            self.lemma_place(before as int);
        }
        self.nodes[before].next = after;
        proof {
            let nodes = self.nodes@;
            let order = self.order@;
            let len = order.len() as int;
            let q = self.place@[before as int];
            assert forall|y: int| 0 <= y < nodes.len() && y != before implies #[trigger] nodes[y]
                == pre.nodes@[y] by {}
            assert(nodes[before as int].decide_next == pre.nodes@[before as int].decide_next);
            assert forall|p: int| 0 <= p <= len implies {
                let y = #[trigger] chain_at(order, p);
                &&& nodes[y].decide_next.decision() == if p < len {
                    Some(chain_at(order, p + 1) as usize)
                } else {
                    None::<usize>
                }
                &&& nodes[y].next == NIL || (p < len && nodes[y].next == chain_at(order, p + 1))
                &&& p < self.numbered@ ==> nodes[y].next == chain_at(order, p + 1)
            } by {
                let y = chain_at(order, p);
                if y == before {
                    assert(p == q);
                }
            }
            assert forall|y: int| 0 <= y < nodes.len() implies #[trigger] nodes[y].decide_next.wf()
                && nodes[y].decide_next.capacity() == self.n by {
                assert(pre.nodes@[y].decide_next.wf());
            }
            assert forall|y: int| 0 <= y < nodes.len() implies #[trigger] nodes[y].seq == if 1 <= self.place@[y]
                <= self.numbered@ {
                self.place@[y] + 1
            } else {
                1
            } by {
                assert(pre.nodes@[y].seq == nodes[y].seq);
            }
            assert(self.inv());
        }
    }

    /// Numbers `after`, the decided and linked successor of the numbered
    /// node `before`, one above `before`.
    #[verifier::spinoff_prover]
    pub fn number(&mut self, before: usize, after: usize)
        requires
            old(self).inv(),
            old(self).numbered(before as int),
            old(self).place_of(before as int) < old(self).order().len(),
            after == chain_at(old(self).order(), old(self).place_of(before as int) + 1),
            old(self).next_of(before as int) == after,
        ensures
            log_grows(*old(self), *final(self)),
            final(self).inv(),
            final(self).size() == old(self).size(),
            final(self).threads() == old(self).threads(),
            final(self).order() == old(self).order(),
            final(self).numbered(after as int),
            final(self).last_numbered() == if old(self).place_of(after as int) > old(self).last_numbered() {
                old(self).place_of(after as int)
            } else {
                old(self).last_numbered()
            },
            forall|y: int| #[trigger] old(self).numbered(y) ==> final(self).numbered(y),
            forall|y: int| 0 <= y < old(self).size() ==> #[trigger] final(self).place_of(y) == old(self).place_of(y),
            forall|y: int| 0 <= y < old(self).size() && y != after ==> #[trigger] final(self).seq_of(y) == old(self).seq_of(y),
            forall|y: int| 0 <= y < old(self).size() ==> #[trigger] final(self).next_of(y) == old(self).next_of(y),
            forall|y: int| 0 <= y < old(self).size() ==> #[trigger] final(self).op_of(y) == old(self).op_of(y),
            forall|y: int, t: int|
                0 <= y < old(self).size() ==> #[trigger] final(self).proposed(y, t) == old(self).proposed(y, t),
    {
        let ghost pre = *self;
        let ghost q = self.place@[before as int];
        proof {
            self.lemma_place(before as int);
            pre.lemma_chain(q + 1);
            self.lemma_order_len();
        }
        let s = self.nodes[before].seq;
        self.nodes[after].seq = s + 1;
        self.numbered = Ghost(if q + 1 > pre.numbered@ { q + 1 } else { pre.numbered@ });
        proof {
            let nodes = self.nodes@;
            let order = self.order@;
            let len = order.len() as int;
            let sn = self.numbered@;
            assert(after != before);
            assert forall|y: int| 0 <= y < nodes.len() && y != after implies #[trigger] nodes[y]
                == pre.nodes@[y] by {}
            assert(nodes[after as int].decide_next == pre.nodes@[after as int].decide_next);
            assert(nodes[after as int].next == pre.nodes@[after as int].next);
            assert forall|p: int| 0 <= p <= len implies {
                let y = #[trigger] chain_at(order, p);
                &&& nodes[y].decide_next.decision() == if p < len {
                    Some(chain_at(order, p + 1) as usize)
                } else {
                    None::<usize>
                }
                &&& nodes[y].next == NIL || (p < len && nodes[y].next == chain_at(order, p + 1))
                &&& p < sn ==> nodes[y].next == chain_at(order, p + 1)
            } by {
                let y = chain_at(order, p);
                if p == q {
                    assert(y == before);
                }
            }
            assert forall|y: int| 0 <= y < nodes.len() implies #[trigger] nodes[y].decide_next.wf()
                && nodes[y].decide_next.capacity() == self.n by {
                assert(pre.nodes@[y].decide_next.wf());
            }
            assert forall|y: int| 0 <= y < nodes.len() implies #[trigger] nodes[y].seq == if 1 <= self.place@[y]
                <= sn {
                self.place@[y] + 1
            } else {
                1
            } by {
                assert(pre.nodes@[y].seq == if 1 <= self.place@[y] <= pre.numbered@ {
                    self.place@[y] + 1
                } else {
                    1
                });
                if y != after && 1 <= self.place@[y] && self.place@[y] == q + 1 {
                    assert(y != 0);
                    assert(pre.nodes@[y].invoc is Some);
                    assert(order[q] == y);
                    assert(order[q] == after);
                }
            }
            assert forall|y: int| 1 <= y < nodes.len() && #[trigger] self.place@[y] == -1 implies nodes[y].next
                == NIL && nodes[y].decide_next.decision() is None by {
                assert(y != after);
            }
            assert forall|y: int, t: int|
                1 <= y < nodes.len() && self.place@[y] == -1 implies !(#[trigger] nodes[y].decide_next.proposal(
                t,
            ) is Some) by {
                assert(y != after);
            }
            assert(self.inv());
        }
    }

    /// The sequence number of node `x`.
    pub fn seq(&self, x: usize) -> (r: usize)
        requires
            self.inv(),
            x < self.size(),
        ensures
            r == self.seq_of(x as int),
    {
        self.nodes[x].seq
    }

    /// Whether node `x` is numbered.
    pub fn is_numbered(&self, x: usize) -> (r: bool)
        requires
            self.inv(),
            x < self.size(),
        ensures
            r == self.numbered(x as int),
    {
        proof {
            self.lemma_place(x as int);
        }
        x == 0 || self.nodes[x].seq > 1
    }

    /// The node among `heads` that is furthest along the chain.
    pub fn furthest(&self, heads: &Vec<usize>) -> (b: usize)
        requires
            self.inv(),
            heads@.len() > 0,
            forall|t: int| 0 <= t < heads@.len() ==> self.numbered(#[trigger] heads@[t] as int),
        ensures
            exists|t: int| 0 <= t < heads@.len() && b == #[trigger] heads@[t],
            forall|t: int| 0 <= t < heads@.len() ==> self.place_of(#[trigger] heads@[t] as int) <= self.place_of(b as int),
    {
        let mut best = heads[0];
        let mut t: usize = 1;
        while t < heads.len()
            invariant
                self.inv(),
                1 <= t <= heads@.len(),
                forall|u: int| 0 <= u < heads@.len() ==> self.numbered(#[trigger] heads@[u] as int),
                exists|u: int| 0 <= u < t && best == #[trigger] heads@[u],
                forall|u: int| 0 <= u < t ==> self.place_of(#[trigger] heads@[u] as int) <= self.place_of(best as int),
            decreases heads@.len() - t,
        {
            let h = heads[t];
            proof {
                self.lemma_place(h as int);
                self.lemma_place(best as int);
            }
            if self.seq(h) > self.seq(best) {
                best = h;
            }
            t = t + 1;
        }
        best
    }
}

/// Replays the chain up to and including the numbered node `x` on a fresh
/// object, following the links from the sentinel, and returns the answer of
/// `x`'s operation.
pub fn replay_to<S: SeqObject>(log: &Log<S::Op>, x: usize) -> (r: S::Resp)
    requires
        log.inv(),
        log.numbered(x as int),
        x != 0,
    ensures
        r == response_at::<S>(log.ops(), log.place_of(x as int) - 1),
{
    let ghost order = log.order();
    let ghost ops = log.ops();
    let ghost last = log.place_of(x as int);
    proof {
        log.lemma_place(x as int);
        log.lemma_chain(1);
        assert(chain_at(order, 0) == 0);
        assert(ops.take(0) =~= Seq::<S::Op>::empty());
    }
    let mut obj = S::init();
    let mut cur = log.nodes[0].next;
    let ghost mut q: int = 1;
    while cur != x
        invariant
            log.inv(),
            order == log.order(),
            ops == log.ops(),
            1 <= last <= log.last_numbered(),
            chain_at(order, last) == x,
            1 <= q <= last,
            cur as int == chain_at(order, q),
            obj@ == replay::<S>(ops.take(q - 1)),
        decreases last - q,
    {
        proof {
            log.lemma_chain(q);
            log.lemma_chain(q + 1);
            assert(ops.take(q).drop_last() =~= ops.take(q - 1));
        }
        let op = log.nodes[cur].invoc.as_ref().unwrap();
        obj.apply(op);
        cur = log.nodes[cur].next;
        proof {
            q = q + 1;
        }
    }
    let op = log.nodes[x].invoc.as_ref().unwrap();
    obj.apply(op)
}

/// `post` is `pre` after one action on the log: the chain may gain one
/// node at its end, nodes may get numbered in chain order and linked, and
/// nothing that is set changes.
pub open spec fn log_grows<Op>(pre: Log<Op>, post: Log<Op>) -> bool {
    &&& post.size() == pre.size()
    &&& post.threads() == pre.threads()
    &&& pre.order().is_prefix_of(post.order())
    &&& post.order().len() <= pre.order().len() + 1
    &&& pre.last_numbered() <= post.last_numbered()
    &&& forall|y: int| #[trigger] pre.decided(y) ==> post.place_of(y) == pre.place_of(y)
    &&& forall|y: int|
        #[trigger] post.decided(y) && !pre.decided(y) ==> post.place_of(y) == post.order().len()
            && post.order().len() == pre.order().len() + 1
    &&& forall|y: int| #[trigger] pre.numbered(y) ==> post.numbered(y)
    &&& forall|y: int|
        #[trigger] post.numbered(y) && !pre.numbered(y) ==> post.place_of(y) == pre.last_numbered() + 1
    &&& forall|y: int|
        0 <= y < pre.size() && #[trigger] pre.next_of(y) != NIL ==> post.next_of(y) == pre.next_of(y)
    &&& forall|y: int| 0 <= y < pre.size() ==> #[trigger] post.op_of(y) == pre.op_of(y)
}

/// `post` is `pre` after any number of actions on the log: the chain only
/// grows at its end, a node in the chain keeps its position and its number,
/// and a node that joins the chain stands after everything that was in it.
pub open spec fn log_extends<Op>(pre: Log<Op>, post: Log<Op>) -> bool {
    &&& pre.size() <= post.size()
    &&& pre.order().is_prefix_of(post.order())
    &&& forall|y: int| #[trigger] pre.decided(y) ==> post.decided(y) && post.place_of(y) == pre.place_of(y)
    &&& forall|y: int|
        0 <= y < pre.size() && #[trigger] post.decided(y) && !pre.decided(y) ==> post.place_of(y)
            > pre.order().len()
    &&& forall|y: int| #[trigger] pre.numbered(y) ==> post.numbered(y)
    &&& forall|y: int| 0 <= y < pre.size() ==> #[trigger] post.op_of(y) == pre.op_of(y)
}

/// One action extends the log.
pub proof fn lemma_grows_extends<Op>(pre: Log<Op>, post: Log<Op>)
    requires
        log_grows(pre, post),
    ensures
        log_extends(pre, post),
{
}

/// Extending the log twice extends it.
pub proof fn lemma_extends_trans<Op>(a: Log<Op>, b: Log<Op>, c: Log<Op>)
    requires
        log_extends(a, b),
        log_extends(b, c),
    ensures
        log_extends(a, c),
{
    assert(a.order().is_prefix_of(c.order())) by {
        assert forall|p: int| 0 <= p < a.order().len() implies #[trigger] c.order()[p] == a.order()[p] by {
            assert(b.order()[p] == a.order()[p]);
        }
    }
    assert forall|y: int|
        0 <= y < a.size() && #[trigger] c.decided(y) && !a.decided(y) implies c.place_of(y) > a.order().len() by {
        if b.decided(y) {
        }
    }
}

/// Real-time order: when an operation was answered (its node `a` numbered)
/// before another one was invoked (its node `b` not yet in the chain), the
/// first stands before the second in the chain for good.
pub proof fn lemma_real_time_order<Op>(
    at_answer: Log<Op>,
    at_invoke: Log<Op>,
    later: Log<Op>,
    a: int,
    b: int,
)
    requires
        at_answer.inv(),
        log_extends(at_answer, at_invoke),
        log_extends(at_invoke, later),
        at_answer.numbered(a),
        0 <= b < at_invoke.size(),
        !at_invoke.decided(b),
        later.decided(b),
    ensures
        later.decided(a),
        later.place_of(a) < later.place_of(b),
{
    at_answer.lemma_place(a);
    assert(at_answer.decided(a));
    assert(at_invoke.decided(a));
}

/// Linearizability: when an operation was answered (its node `a`, not the
/// sentinel, numbered in `at_answer`) before another one was invoked (its
/// node `b` not yet in the chain in `at_invoke`), then in every later log
/// in which `b` stands, `a` stands before `b`, and the answer `a` got is
/// the one the sequential replay of that later log gives it.
pub proof fn lemma_linearizable<S: SeqObject>(
    at_answer: Log<S::Op>,
    at_invoke: Log<S::Op>,
    later: Log<S::Op>,
    a: int,
    b: int,
)
    requires
        at_answer.inv(),
        later.inv(),
        log_extends(at_answer, at_invoke),
        log_extends(at_invoke, later),
        at_answer.numbered(a),
        a != 0,
        0 <= b < at_invoke.size(),
        !at_invoke.decided(b),
        later.decided(b),
    ensures
        later.place_of(a) < later.place_of(b),
        response_at::<S>(later.ops(), later.place_of(a) - 1) == response_at::<S>(
            at_answer.ops(),
            at_answer.place_of(a) - 1,
        ),
{
    lemma_real_time_order(at_answer, at_invoke, later, a, b);
    lemma_extends_trans(at_answer, at_invoke, later);
    at_answer.lemma_place(a);
    assert(at_answer.op_of(a) is Some);
    at_answer.lemma_ops_prefix(later);
    let len = at_answer.ops().len();
    let more = later.ops().subrange(len as int, later.ops().len() as int);
    assert(later.ops() =~= at_answer.ops() + more);
    lemma_response_stable::<S>(at_answer.ops(), more, at_answer.place_of(a) - 1);
}

/// Where a thread stands in applying an operation through a universal
/// construction; `new` is the node holding its operation.
#[derive(Clone, Copy, PartialEq, Eq, Debug, Structural)]
pub enum UniPc {
    /// No operation in progress.
    Idle,
    /// `Scan(new)`: the next step checks whether `new` is numbered, and
    /// either answers or picks the node to extend.
    Scan(usize),
    /// `Decide(new, prefer, before)`: the next step proposes `prefer` as the
    /// successor of `before` and learns the decided successor.
    Decide(usize, usize, usize),
    /// `Link(new, before, after)`: the next step links `after` behind
    /// `before`.
    Link(usize, usize, usize),
    /// `Number(new, before, after)`: the next step numbers `after`.
    Number(usize, usize, usize),
    /// `Advance(new, before, after)`: the next step moves the thread's head
    /// to `after`.
    Advance(usize, usize, usize),
}

/// The node whose operation a thread at `pc` is applying.
pub open spec fn pc_node(pc: UniPc) -> Option<usize> {
    match pc {
        UniPc::Idle => None,
        UniPc::Scan(new) => Some(new),
        UniPc::Decide(new, _, _) => Some(new),
        UniPc::Link(new, _, _) => Some(new),
        UniPc::Number(new, _, _) => Some(new),
        UniPc::Advance(new, _, _) => Some(new),
    }
}

/// The node a thread at `pc` has taken part in deciding the successor of,
/// while it has not moved its head past it yet.
pub open spec fn pc_before(pc: UniPc) -> Option<usize> {
    match pc {
        UniPc::Link(_, before, _) => Some(before),
        UniPc::Number(_, before, _) => Some(before),
        UniPc::Advance(_, before, _) => Some(before),
        _ => None,
    }
}

/// The node a thread at `pc` extends, from the moment it has picked it
/// until it moves its head past it.
pub open spec fn pc_base(pc: UniPc) -> Option<usize> {
    match pc {
        UniPc::Decide(_, _, before) => Some(before),
        UniPc::Link(_, before, _) => Some(before),
        UniPc::Number(_, before, _) => Some(before),
        UniPc::Advance(_, before, _) => Some(before),
        _ => None,
    }
}

/// Whether a thread at `pc` whose head is `h` is consistent with `log`.
pub open spec fn pc_ok<Op>(pc: UniPc, log: Log<Op>, h: int) -> bool {
    let extends = |new: usize, before: usize|
        {
            &&& 1 <= new < log.size()
            &&& log.numbered(before as int)
            &&& log.place_of(before as int) >= log.place_of(h)
            &&& log.decided(new as int) ==> log.place_of(new as int) > log.place_of(before as int)
        };
    let linked = |before: usize, after: usize|
        {
            &&& log.place_of(before as int) < log.order().len()
            &&& after == chain_at(log.order(), log.place_of(before as int) + 1)
        };
    match pc {
        UniPc::Idle => true,
        UniPc::Scan(new) => {
            &&& 1 <= new < log.size()
            &&& log.numbered(new as int) ==> log.place_of(new as int) >= log.place_of(h)
        },
        UniPc::Decide(new, prefer, before) => {
            &&& extends(new, before)
            &&& 1 <= prefer < log.size()
            &&& log.decided(prefer as int) ==> log.place_of(prefer as int) > log.place_of(before as int)
        },
        UniPc::Link(new, before, after) => extends(new, before) && linked(before, after),
        UniPc::Number(new, before, after) => {
            &&& extends(new, before)
            &&& linked(before, after)
            &&& log.next_of(before as int) == after
        },
        UniPc::Advance(new, before, after) => {
            &&& extends(new, before)
            &&& linked(before, after)
            &&& log.next_of(before as int) == after
            &&& log.numbered(after as int)
        },
    }
}

/// A thread's position stays consistent while the log grows under it.
pub proof fn lemma_pc_ok_grows<Op>(pc: UniPc, pre: Log<Op>, post: Log<Op>, h: int)
    requires
        pre.inv(),
        post.inv(),
        log_grows(pre, post),
        pre.numbered(h),
        pc_ok(pc, pre, h),
    ensures
        pc_ok(pc, post, h),
{
    pre.lemma_place(h);
    assert(post.numbered(h));
    let len = pre.order().len() as int;
    match pc {
        UniPc::Idle => {},
        UniPc::Scan(new) => {
            if post.numbered(new as int) && !pre.numbered(new as int) {
                assert(post.place_of(new as int) == pre.last_numbered() + 1);
            }
            if pre.numbered(new as int) {
                pre.lemma_place(new as int);
            }
        },
        UniPc::Decide(new, prefer, before) => {
            pre.lemma_place(before as int);
            assert(post.decided(before as int));
        },
        UniPc::Link(new, before, after) => {
            pre.lemma_place(before as int);
            assert(post.order()[pre.place_of(before as int)] == pre.order()[pre.place_of(before as int)]);
        },
        UniPc::Number(new, before, after) => {
            pre.lemma_place(before as int);
            assert(post.order()[pre.place_of(before as int)] == pre.order()[pre.place_of(before as int)]);
            pre.lemma_order_len();
        },
        UniPc::Advance(new, before, after) => {
            pre.lemma_place(before as int);
            assert(post.order()[pre.place_of(before as int)] == pre.order()[pre.place_of(before as int)]);
            pre.lemma_order_len();
        },
    }
}

/// The state shared by both universal constructions: the log, the node each
/// thread has reached (`head`, always numbered), and the position of each
/// thread.
pub struct Threading<Op> {
    log: Log<Op>,
    head: Vec<usize>,
    pc: Vec<UniPc>,
}

impl<Op> Threading<Op> {
    /// The shared log.
    pub closed spec fn shared(&self) -> Log<Op> {
        self.log
    }

    /// The node each thread has reached.
    pub closed spec fn heads(&self) -> Seq<usize> {
        self.head@
    }

    /// The position of each thread.
    pub closed spec fn pcs(&self) -> Seq<UniPc> {
        self.pc@
    }

    /// Number of threads.
    pub closed spec fn threads(&self) -> nat {
        self.head@.len()
    }

    pub closed spec fn inv(&self) -> bool {
        let n = self.head@.len() as int;
        let log = self.log;
        &&& log.inv()
        &&& log.threads() == n
        &&& self.pc@.len() == n
        &&& forall|t: int| 0 <= t < n ==> log.numbered(#[trigger] self.head@[t] as int)
        &&& forall|x: int, t: int|
            0 <= x < log.size() && 0 <= t < n && #[trigger] log.proposed(x, t) ==> log.place_of(
                self.head@[t] as int,
            ) > log.place_of(x) || pc_before(self.pc@[t]) == Some(x as usize)
        &&& forall|t: int| 0 <= t < n ==> pc_ok(#[trigger] self.pc@[t], log, self.head@[t] as int)
    }

    /// The invariant survives an action that grows the log and changes the
    /// position of thread `id` only, given that thread `id` is consistent
    /// and the proposals are accounted for.
    proof fn lemma_grow(pre: Self, post: Self, id: int)
        requires
            pre.inv(),
            post.log.inv(),
            log_grows(pre.log, post.log),
            0 <= id < pre.head@.len(),
            post.head@.len() == pre.head@.len(),
            post.pc@.len() == pre.pc@.len(),
            forall|t: int| 0 <= t < pre.head@.len() && t != id ==> #[trigger] post.head@[t] == pre.head@[t]
                && post.pc@[t] == pre.pc@[t],
            post.log.numbered(post.head@[id] as int),
            pc_ok(post.pc@[id], post.log, post.head@[id] as int),
            forall|x: int, t: int|
                0 <= x < post.log.size() && 0 <= t < post.head@.len() && #[trigger] post.log.proposed(
                    x,
                    t,
                ) ==> post.log.place_of(post.head@[t] as int) > post.log.place_of(x) || pc_before(
                    post.pc@[t],
                ) == Some(x as usize),
        ensures
            post.inv(),
    {
        let n = pre.head@.len() as int;
        assert forall|t: int| 0 <= t < n implies post.log.numbered(#[trigger] post.head@[t] as int) by {
            if t != id {
                assert(pre.log.numbered(pre.head@[t] as int));
            }
        }
        assert forall|t: int| 0 <= t < n implies pc_ok(#[trigger] post.pc@[t], post.log, post.head@[t] as int) by {
            if t != id {
                assert(pc_ok(pre.pc@[t], pre.log, pre.head@[t] as int));
                assert(pre.log.numbered(pre.head@[t] as int));
                lemma_pc_ok_grows(pre.pc@[t], pre.log, post.log, pre.head@[t] as int);
            }
        }
    }

    /// Only the sentinel, every thread at it and idle.
    pub fn new(n: usize) -> (r: Self)
        ensures
            r.inv(),
            r.threads() == n,
            r.shared().order() == Seq::<usize>::empty(),
            r.shared().size() == 1,
            r.heads() == Seq::new(n as nat, |t: int| 0usize),
            r.pcs() == Seq::new(n as nat, |t: int| UniPc::Idle),
    {
        let log = Log::new(n);
        let mut head: Vec<usize> = Vec::new();
        let mut pc: Vec<UniPc> = Vec::new();
        let mut k: usize = 0;
        while k < n
            invariant
                k <= n,
                head@ == Seq::new(k as nat, |t: int| 0usize),
                pc@ == Seq::new(k as nat, |t: int| UniPc::Idle),
            decreases n - k,
        {
            head.push(0);
            pc.push(UniPc::Idle);
            k = k + 1;
            assert(head@ =~= Seq::new(k as nat, |t: int| 0usize));
            assert(pc@ =~= Seq::new(k as nat, |t: int| UniPc::Idle));
        }
        let r = Threading { log, head, pc };
        proof {
            r.log.lemma_place(0);
            assert forall|x: int, t: int|
                0 <= x < r.log.size() && 0 <= t < n && #[trigger] r.log.proposed(x, t) implies r.log.place_of(
                r.head@[t] as int,
            ) > r.log.place_of(x) || pc_before(r.pc@[t]) == Some(x as usize) by {
                assert(x == 0);
            }
        }
        r
    }

    /// Thread `id` starts applying `op`: a new node holds it.
    pub fn start(&mut self, op: Op, id: usize) -> (new: usize)
        requires
            old(self).inv(),
            id < old(self).threads(),
            old(self).pcs()[id as int] == UniPc::Idle,
            old(self).shared().size() + 2 < usize::MAX,
        ensures
            final(self).inv(),
            final(self).threads() == old(self).threads(),
            new == old(self).shared().size(),
            final(self).shared().size() == old(self).shared().size() + 1,
            final(self).shared().order() == old(self).shared().order(),
            final(self).shared().ops() == old(self).shared().ops(),
            final(self).shared().last_numbered() == old(self).shared().last_numbered(),
            final(self).shared().op_of(new as int) == Some(op),
            !final(self).shared().decided(new as int),
            final(self).heads() == old(self).heads(),
            final(self).pcs() == old(self).pcs().update(id as int, UniPc::Scan(new)),
            forall|y: int| 0 <= y < old(self).shared().size() ==> #[trigger] final(self).shared().place_of(y)
                == old(self).shared().place_of(y),
            forall|y: int| 0 <= y < old(self).shared().size() ==> #[trigger] final(self).shared().op_of(y)
                == old(self).shared().op_of(y),
    {
        let ghost pre = *self;
        let new = self.log.push(op);
        self.pc.set(id, UniPc::Scan(new));
        proof {
            let log = self.log;
            let plog = pre.log;
            let n = self.head@.len() as int;
            assert forall|p: int| 0 <= p < log.order().len() implies #[trigger] log.ops()[p] == plog.ops()[p] by {
                assert(1 <= plog.order@[p] < plog.nodes@.len());
                assert(log.op_of(plog.order@[p] as int) == plog.op_of(plog.order@[p] as int));
            }
            assert(log.ops() =~= plog.ops());
            assert forall|y: int| 0 <= y < plog.size() implies (#[trigger] log.numbered(y) == plog.numbered(y)
                && log.decided(y) == plog.decided(y)) by {}
            assert forall|t: int| 0 <= t < n implies log.numbered(#[trigger] self.head@[t] as int) by {
                assert(plog.numbered(pre.head@[t] as int));
            }
            assert forall|x: int, t: int|
                0 <= x < log.size() && 0 <= t < n && #[trigger] log.proposed(x, t) implies log.place_of(
                self.head@[t] as int,
            ) > log.place_of(x) || pc_before(self.pc@[t]) == Some(x as usize) by {
                assert(plog.numbered(pre.head@[t] as int));
                if x < plog.size() {
                    assert(plog.proposed(x, t));
                }
            }
            assert forall|t: int| 0 <= t < n implies pc_ok(#[trigger] self.pc@[t], log, self.head@[t] as int) by {
                assert(plog.numbered(pre.head@[t] as int));
                if t != id {
                    assert(pc_ok(pre.pc@[t], plog, pre.head@[t] as int));
                    match pre.pc@[t] {
                        UniPc::Idle => {},
                        UniPc::Scan(nw) => {},
                        UniPc::Decide(nw, pf, bf) => {},
                        UniPc::Link(nw, bf, af) => {
                            assert(log.next_of(bf as int) == plog.next_of(bf as int));
                        },
                        UniPc::Number(nw, bf, af) => {
                            assert(log.next_of(bf as int) == plog.next_of(bf as int));
                        },
                        UniPc::Advance(nw, bf, af) => {
                            assert(log.next_of(bf as int) == plog.next_of(bf as int));
                        },
                    }
                } else {
                    log.lemma_place(new as int);
                }
            }
        }
        new
    }

    /// The invariant survives an action that leaves the log alone and moves
    /// thread `id` only, forward if at all.
    proof fn lemma_same_log(pre: Self, post: Self, id: int)
        requires
            pre.inv(),
            post.log == pre.log,
            0 <= id < pre.head@.len(),
            post.head@.len() == pre.head@.len(),
            post.pc@.len() == pre.pc@.len(),
            forall|t: int| 0 <= t < pre.head@.len() && t != id ==> #[trigger] post.head@[t] == pre.head@[t]
                && post.pc@[t] == pre.pc@[t],
            post.log.numbered(post.head@[id] as int),
            pc_ok(post.pc@[id], post.log, post.head@[id] as int),
            forall|x: int|
                0 <= x < pre.log.size() && #[trigger] pre.log.proposed(x, id) ==> post.log.place_of(
                    post.head@[id] as int,
                ) > post.log.place_of(x) || pc_before(post.pc@[id]) == Some(x as usize),
        ensures
            post.inv(),
    {
        let n = pre.head@.len() as int;
        assert forall|t: int| 0 <= t < n implies post.log.numbered(#[trigger] post.head@[t] as int) by {
            if t != id {
                assert(pre.log.numbered(pre.head@[t] as int));
            }
        }
        assert forall|x: int, t: int|
            0 <= x < post.log.size() && 0 <= t < n && #[trigger] post.log.proposed(x, t) implies post.log.place_of(
            post.head@[t] as int,
        ) > post.log.place_of(x) || pc_before(post.pc@[t]) == Some(x as usize) by {}
        assert forall|t: int| 0 <= t < n implies pc_ok(#[trigger] post.pc@[t], post.log, post.head@[t] as int) by {
            if t != id {
                assert(pc_ok(pre.pc@[t], pre.log, pre.head@[t] as int));
            }
        }
    }

    /// Thread `id`, at `Scan(new)`, moves its head forward to `h`.
    pub fn set_head(&mut self, id: usize, h: usize)
        requires
            old(self).inv(),
            id < old(self).threads(),
            old(self).pcs()[id as int] is Scan,
            old(self).shared().numbered(h as int),
            old(self).shared().place_of(h as int) >= old(self).shared().place_of(
                old(self).heads()[id as int] as int,
            ),
            ({
                let new = pc_node(old(self).pcs()[id as int])->0 as int;
                old(self).shared().numbered(new) ==> old(self).shared().place_of(new) >= old(
                    self,
                ).shared().place_of(h as int)
            }),
        ensures
            final(self).inv(),
            final(self).threads() == old(self).threads(),
            final(self).shared() == old(self).shared(),
            final(self).heads() == old(self).heads().update(id as int, h),
            final(self).pcs() == old(self).pcs(),
    {
        let ghost pre = *self;
        self.head.set(id, h);
        proof {
            let log = self.log;
            assert(log.numbered(pre.head@[id as int] as int));
            log.lemma_place(pre.head@[id as int] as int);
            log.lemma_place(h as int);
            assert forall|x: int| 0 <= x < log.size() && #[trigger] log.proposed(x, id as int) implies log.place_of(
                self.head@[id as int] as int,
            ) > log.place_of(x) || pc_before(self.pc@[id as int]) == Some(x as usize) by {}
            Self::lemma_same_log(pre, *self, id as int);
        }
    }

    /// Thread `id`, whose node `new` is not numbered yet, will next propose
    /// `prefer` as the successor of `before`.
    pub fn pick(&mut self, id: usize, prefer: usize, before: usize)
        requires
            old(self).inv(),
            id < old(self).threads(),
            old(self).pcs()[id as int] matches UniPc::Scan(new) && !old(self).shared().numbered(new as int),
            1 <= prefer < old(self).shared().size(),
            !old(self).shared().numbered(prefer as int),
            old(self).shared().numbered(before as int),
            old(self).shared().place_of(before as int) >= old(self).shared().place_of(
                old(self).heads()[id as int] as int,
            ),
        ensures
            final(self).inv(),
            final(self).threads() == old(self).threads(),
            final(self).shared() == old(self).shared(),
            final(self).heads() == old(self).heads(),
            final(self).pcs() == old(self).pcs().update(
                id as int,
                UniPc::Decide(pc_node(old(self).pcs()[id as int])->0, prefer, before),
            ),
    {
        let ghost pre = *self;
        let new = match self.pc[id] {
            UniPc::Scan(new) => new,
            _ => 0,
        };
        self.pc.set(id, UniPc::Decide(new, prefer, before));
        proof {
            let log = self.log;
            assert(pc_ok(pre.pc@[id as int], log, pre.head@[id as int] as int));
            log.lemma_place(new as int);
            log.lemma_place(prefer as int);
            log.lemma_place(before as int);
            Self::lemma_same_log(pre, *self, id as int);
        }
    }

    /// Thread `id` proposes its preferred node as the successor of the node
    /// it extends, and learns the decided successor.
    pub fn decide(&mut self, id: usize) -> (after: usize)
        requires
            old(self).inv(),
            id < old(self).threads(),
            old(self).pcs()[id as int] is Decide,
        ensures
            final(self).inv(),
            final(self).threads() == old(self).threads(),
            log_grows(old(self).shared(), final(self).shared()),
            final(self).shared().last_numbered() == old(self).shared().last_numbered(),
            final(self).heads() == old(self).heads(),
            ({
                let (new, prefer, before) = match old(self).pcs()[id as int] {
                    UniPc::Decide(a, b, c) => (a, b, c),
                    _ => (0usize, 0usize, 0usize),
                };
                &&& before == old(self).shared().end() ==> after == prefer && final(self).shared().order()
                    == old(self).shared().order().push(prefer)
                &&& before != old(self).shared().end() ==> after == chain_at(
                    old(self).shared().order(),
                    old(self).shared().place_of(before as int) + 1,
                ) && final(self).shared().order() == old(self).shared().order()
                &&& final(self).pcs() == old(self).pcs().update(id as int, UniPc::Link(new, before, after))
            }),
    {
        let ghost pre = *self;
        let (new, prefer, before) = match self.pc[id] {
            UniPc::Decide(a, b, c) => (a, b, c),
            _ => (0, 0, 0),
        };
        proof {
            assert(pc_ok(pre.pc@[id as int], pre.log, pre.head@[id as int] as int));
            pre.log.lemma_place(before as int);
            if pre.log.proposed(before as int, id as int) {
                assert(pre.log.place_of(pre.head@[id as int] as int) > pre.log.place_of(before as int));
            }
        }
        let after = self.log.choose_next(before, prefer, id);
        self.pc.set(id, UniPc::Link(new, before, after));
        proof {
            let log = self.log;
            let plog = pre.log;
            assert(plog.numbered(pre.head@[id as int] as int));
            plog.lemma_place(pre.head@[id as int] as int);
            plog.lemma_place(new as int);
            plog.lemma_order_len();
            log.lemma_place(new as int);
            assert(pc_ok(self.pc@[id as int], log, self.head@[id as int] as int));
            assert forall|x: int, t: int|
                0 <= x < log.size() && 0 <= t < self.head@.len() && #[trigger] log.proposed(x, t) implies log.place_of(
                self.head@[t] as int,
            ) > log.place_of(x) || pc_before(self.pc@[t]) == Some(x as usize) by {
                if x == before && t == id {
                } else {
                    assert(plog.proposed(x, t));
                    assert(plog.numbered(pre.head@[t] as int));
                    plog.lemma_place(pre.head@[t] as int);
                    plog.lemma_place(x);
                    if !plog.decided(x) {
                        assert(false);
                    }
                }
            }
            Self::lemma_grow(pre, *self, id as int);
        }
        after
    }

    /// Thread `id` links the decided successor behind the node it extends.
    pub fn link_step(&mut self, id: usize)
        requires
            old(self).inv(),
            id < old(self).threads(),
            old(self).pcs()[id as int] is Link,
        ensures
            final(self).inv(),
            final(self).threads() == old(self).threads(),
            log_grows(old(self).shared(), final(self).shared()),
            final(self).shared().order() == old(self).shared().order(),
            final(self).shared().last_numbered() == old(self).shared().last_numbered(),
            final(self).heads() == old(self).heads(),
            ({
                let (new, before, after) = match old(self).pcs()[id as int] {
                    UniPc::Link(a, b, c) => (a, b, c),
                    _ => (0usize, 0usize, 0usize),
                };
                &&& final(self).pcs() == old(self).pcs().update(id as int, UniPc::Number(new, before, after))
                &&& final(self).shared().next_of(before as int) == after
            }),
    {
        let ghost pre = *self;
        let (new, before, after) = match self.pc[id] {
            UniPc::Link(a, b, c) => (a, b, c),
            _ => (0, 0, 0),
        };
        proof {
            assert(pc_ok(pre.pc@[id as int], pre.log, pre.head@[id as int] as int));
            pre.log.lemma_place(before as int);
        }
        self.log.link(before, after);
        self.pc.set(id, UniPc::Number(new, before, after));
        proof {
            let log = self.log;
            let plog = pre.log;
            assert(plog.numbered(pre.head@[id as int] as int));
            plog.lemma_place(new as int);
            assert(pc_ok(self.pc@[id as int], log, self.head@[id as int] as int));
            assert forall|x: int, t: int|
                0 <= x < log.size() && 0 <= t < self.head@.len() && #[trigger] log.proposed(x, t) implies log.place_of(
                self.head@[t] as int,
            ) > log.place_of(x) || pc_before(self.pc@[t]) == Some(x as usize) by {
                assert(plog.proposed(x, t));
            }
            Self::lemma_grow(pre, *self, id as int);
        }
    }

    /// Thread `id` numbers the successor it linked.
    pub fn number_step(&mut self, id: usize)
        requires
            old(self).inv(),
            id < old(self).threads(),
            old(self).pcs()[id as int] is Number,
        ensures
            final(self).inv(),
            final(self).threads() == old(self).threads(),
            log_grows(old(self).shared(), final(self).shared()),
            final(self).shared().order() == old(self).shared().order(),
            final(self).heads() == old(self).heads(),
            ({
                let (new, before, after) = match old(self).pcs()[id as int] {
                    UniPc::Number(a, b, c) => (a, b, c),
                    _ => (0usize, 0usize, 0usize),
                };
                &&& final(self).pcs() == old(self).pcs().update(id as int, UniPc::Advance(new, before, after))
                &&& final(self).shared().numbered(after as int)
                &&& final(self).shared().last_numbered() == if old(self).shared().place_of(after as int) > old(
                    self,
                ).shared().last_numbered() {
                    old(self).shared().place_of(after as int)
                } else {
                    old(self).shared().last_numbered()
                }
            }),
    {
        let ghost pre = *self;
        let (new, before, after) = match self.pc[id] {
            UniPc::Number(a, b, c) => (a, b, c),
            _ => (0, 0, 0),
        };
        proof {
            assert(pc_ok(pre.pc@[id as int], pre.log, pre.head@[id as int] as int));
            pre.log.lemma_place(before as int);
        }
        self.log.number(before, after);
        self.pc.set(id, UniPc::Advance(new, before, after));
        proof {
            let log = self.log;
            let plog = pre.log;
            assert(plog.numbered(pre.head@[id as int] as int));
            plog.lemma_place(new as int);
            assert(pc_ok(self.pc@[id as int], log, self.head@[id as int] as int));
            assert forall|x: int, t: int|
                0 <= x < log.size() && 0 <= t < self.head@.len() && #[trigger] log.proposed(x, t) implies log.place_of(
                self.head@[t] as int,
            ) > log.place_of(x) || pc_before(self.pc@[t]) == Some(x as usize) by {
                assert(plog.proposed(x, t));
            }
            Self::lemma_grow(pre, *self, id as int);
        }
    }

    /// Thread `id` moves its head to the successor it numbered, and goes
    /// back to checking its own node.
    pub fn advance(&mut self, id: usize)
        requires
            old(self).inv(),
            id < old(self).threads(),
            old(self).pcs()[id as int] is Advance,
        ensures
            final(self).inv(),
            final(self).threads() == old(self).threads(),
            final(self).shared() == old(self).shared(),
            ({
                let (new, before, after) = match old(self).pcs()[id as int] {
                    UniPc::Advance(a, b, c) => (a, b, c),
                    _ => (0usize, 0usize, 0usize),
                };
                &&& final(self).pcs() == old(self).pcs().update(id as int, UniPc::Scan(new))
                &&& final(self).heads() == old(self).heads().update(id as int, after)
                &&& old(self).shared().place_of(after as int) == old(self).shared().place_of(before as int) + 1
                &&& old(self).shared().place_of(before as int) >= old(self).shared().place_of(
                    old(self).heads()[id as int] as int,
                )
            }),
    {
        let ghost pre = *self;
        let (new, before, after) = match self.pc[id] {
            UniPc::Advance(a, b, c) => (a, b, c),
            _ => (0, 0, 0),
        };
        self.head.set(id, after);
        self.pc.set(id, UniPc::Scan(new));
        proof {
            let log = self.log;
            assert(pc_ok(pre.pc@[id as int], log, pre.head@[id as int] as int));
            log.lemma_place(before as int);
            log.lemma_place(after as int);
            log.lemma_place(new as int);
            log.lemma_chain(log.place_of(before as int) + 1);
            assert(log.numbered(pre.head@[id as int] as int));
            log.lemma_place(pre.head@[id as int] as int);
            assert forall|x: int| 0 <= x < log.size() && #[trigger] log.proposed(x, id as int) implies log.place_of(
                self.head@[id as int] as int,
            ) > log.place_of(x) || pc_before(self.pc@[id as int]) == Some(x as usize) by {}
            Self::lemma_same_log(pre, *self, id as int);
        }
    }
}

/// Thread `id`, whose node has been numbered, replays the log up to its
/// node and returns the answer of its operation; it is then idle.
pub fn finish<S: SeqObject>(core: &mut Threading<S::Op>, id: usize) -> (r: S::Resp)
    requires
        old(core).inv(),
        id < old(core).threads(),
        old(core).pcs()[id as int] matches UniPc::Scan(new) && old(core).shared().numbered(new as int),
    ensures
        final(core).inv(),
        final(core).threads() == old(core).threads(),
        final(core).shared() == old(core).shared(),
        final(core).heads() == old(core).heads(),
        final(core).pcs() == old(core).pcs().update(id as int, UniPc::Idle),
        ({
            let new = pc_node(old(core).pcs()[id as int])->0 as int;
            r == response_at::<S>(old(core).shared().ops(), old(core).shared().place_of(new) - 1)
        }),
{
    let ghost pre = *core;
    let new = match core.pc[id] {
        UniPc::Scan(new) => new,
        _ => 0,
    };
    proof {
        assert(pc_ok(pre.pc@[id as int], pre.log, pre.head@[id as int] as int));
    }
    let r = replay_to::<S>(&core.log, new);
    core.pc.set(id, UniPc::Idle);
    proof {
        assert forall|x: int| 0 <= x < core.log.size() && #[trigger] core.log.proposed(x, id as int) implies core.log.place_of(
            core.head@[id as int] as int,
        ) > core.log.place_of(x) || pc_before(core.pc@[id as int]) == Some(x as usize) by {}
        pre.log.lemma_place(pre.head@[id as int] as int);
        Threading::lemma_same_log(pre, *core, id as int);
    }
    r
}

/// The rank of a position within one round of the threading loop, counted
/// down towards moving the head.
pub open spec fn phase_rank(pc: UniPc) -> int {
    match pc {
        UniPc::Scan(_) => 4,
        UniPc::Decide(_, _, _) => 3,
        UniPc::Link(_, _, _) => 2,
        UniPc::Number(_, _, _) => 1,
        _ => 0,
    }
}

/// The lock-free universal construction: any sequential object becomes a
/// linearizable concurrent one. A thread puts its operation in a node and,
/// until the node is numbered, extends the node furthest along among all
/// heads: it proposes its node as that node's successor, links and numbers
/// the decided successor, and moves its head there. It then replays the log
/// up to its node and answers.
///
/// `invoke` and each call of `step` perform one action of one thread, so an
/// interleaving of threads is a sequence of calls.
///
/// Linearizability: `step` answers each operation as the sequential replay
/// of the log up to its node does, the log only extends (`log_extends`), and
/// an operation answered before another was invoked stands before it for
/// good, with the same answer (`lemma_linearizable`).
///
/// Lock-freedom: the `potential` of a new object is zero, `invoke` raises
/// it by at most `5 * n + 4`, a step that answers does not raise it, and
/// every other step lowers it; so the threads together keep answering,
/// whatever the interleaving (`lemma_lock_free`).
pub struct LFUniversal<S: SeqObject> {
    core: Threading<S::Op>,
    /// The position of the head furthest along.
    top: Ghost<int>,
}

impl<S: SeqObject> LFUniversal<S> {
    /// The shared state.
    pub closed spec fn state(&self) -> Threading<S::Op> {
        self.core
    }

    /// The log.
    pub open spec fn log(&self) -> Log<S::Op> {
        self.state().shared()
    }

    /// The operations of the log, in linearization order.
    pub open spec fn ops(&self) -> Seq<S::Op> {
        self.log().ops()
    }

    /// The position of each thread.
    pub open spec fn pcs(&self) -> Seq<UniPc> {
        self.state().pcs()
    }

    /// The node each thread has reached.
    pub open spec fn heads(&self) -> Seq<usize> {
        self.state().heads()
    }

    /// Number of threads.
    pub open spec fn threads(&self) -> nat {
        self.state().threads()
    }

    /// `top` is the position of the head furthest along, and no thread
    /// extends a node beyond it.
    closed spec fn progress(&self) -> bool {
        let n = self.core.head@.len() as int;
        let log = self.core.log;
        &&& forall|t: int| 0 <= t < n ==> log.place_of(#[trigger] self.core.head@[t] as int) <= self.top@
        &&& n > 0 ==> exists|t: int| 0 <= t < n && log.place_of(#[trigger] self.core.head@[t] as int) == self.top@
        &&& n == 0 ==> self.top@ == 0
        &&& forall|t: int|
            0 <= t < n && pc_base(#[trigger] self.core.pc@[t]) is Some ==> log.place_of(
                pc_base(self.core.pc@[t])->0 as int,
            ) <= self.top@
    }

    pub closed spec fn wf(&self) -> bool {
        &&& self.core.inv()
        &&& forall|t: int|
            0 <= t < self.core.head@.len() ==> match #[trigger] self.core.pc@[t] {
                UniPc::Decide(new, prefer, _) => prefer == new,
                _ => true,
            }
        &&& self.progress()
    }

    /// What thread `t` still has to do in its current round: the actions
    /// left, and five more for every position the head furthest along has
    /// moved past the node the thread extends.
    closed spec fn cost(&self, t: int) -> int {
        match self.core.pc@[t] {
            UniPc::Idle => 0,
            UniPc::Scan(_) => 4,
            _ => phase_rank(self.core.pc@[t]) + 5 * (self.top@ - self.core.log.place_of(
                pc_base(self.core.pc@[t])->0 as int,
            )),
        }
    }

    /// How far the threads are from answering: five per thread for every
    /// position a pending node may still have to travel, plus the cost of
    /// every thread's round.
    pub closed spec fn potential(&self) -> nat {
        let n = self.core.head@.len() as int;
        let log = self.core.log;
        let v = 5 * n * (log.order().len() + log.undecided() - self.top@) + sum_below(
            n,
            |t: int| self.cost(t),
        );
        if v < 0 {
            0
        } else {
            v as nat
        }
    }

    /// The parts of the potential are not negative.
    proof fn lemma_potential_parts(&self)
        requires
            self.wf(),
        ensures
            self.core.log.order().len() + self.core.log.undecided() - self.top@ >= 0,
            sum_below(self.core.head@.len() as int, |t: int| self.cost(t)) >= 0,
            forall|t: int| 0 <= t < self.core.head@.len() ==> #[trigger] self.cost(t) >= 0,
    {
        let n = self.core.head@.len() as int;
        let log = self.core.log;
        if n > 0 {
            let w = choose|t: int| 0 <= t < n && log.place_of(#[trigger] self.core.head@[t] as int) == self.top@;
            assert(log.numbered(self.core.head@[w] as int));
            log.lemma_place(self.core.head@[w] as int);
        } else {
            log.lemma_place(0);
        }
        assert forall|t: int| 0 <= t < n implies #[trigger] self.cost(t) >= 0 by {
            if pc_base(self.core.pc@[t]) is Some {
                assert(log.place_of(pc_base(self.core.pc@[t])->0 as int) <= self.top@);
            }
        }
        lemma_sum_nonneg(n, |t: int| self.cost(t));
    }

    /// Lock-freedom over a run of actions. Say each action is of one of
    /// three kinds: an `invoke`, which raises the potential by at most `c`
    /// (`5 * n + 4`, as `invoke` ensures), a step that answers, which does
    /// not raise it, or a step that does not answer, which lowers it (both
    /// as `step` ensures). Then the first `k` actions hold at most as many
    /// steps that do not answer as the potential at the start (zero for a
    /// new object) plus `c` for every `invoke`, less the potential left. As a
    /// thread starts an operation only once it has answered the last, the
    /// threads together keep answering.
    pub proof fn lemma_lock_free(states: Seq<Self>, kinds: Seq<int>, c: int, k: int)
        requires
            states.len() == kinds.len() + 1,
            0 <= k <= kinds.len(),
            0 <= c,
            forall|j: int| 0 <= j < kinds.len() ==> 0 <= #[trigger] kinds[j] <= 2,
            forall|j: int|
                0 <= j < kinds.len() && #[trigger] kinds[j] == 0 ==> states[j + 1].potential() <= states[j].potential()
                    + c,
            forall|j: int|
                0 <= j < kinds.len() && #[trigger] kinds[j] == 1 ==> states[j + 1].potential()
                    <= states[j].potential(),
            forall|j: int|
                0 <= j < kinds.len() && #[trigger] kinds[j] == 2 ==> states[j + 1].potential()
                    < states[j].potential(),
        ensures
            count_below(k, |j: int| kinds[j] == 2) + states[k].potential() <= states[0].potential() + c
                * count_below(k, |j: int| kinds[j] == 0),
        decreases k,
    {
        if k > 0 {
            Self::lemma_lock_free(states, kinds, c, k - 1);
            let m = count_below(k - 1, |j: int| kinds[j] == 0);
            assert(c * (m + 1) == c * m + c) by (nonlinear_arith);
            assert(c * m >= 0) by (nonlinear_arith)
                requires
                    c >= 0,
                    m >= 0,
            ;
        }
    }

    /// Thread `id` took `pre` to `post` by one action of `step`.
    closed spec fn stepped(pre: Self, post: Self, id: int) -> bool {
        let n = pre.core.head@.len() as int;
        let plog = pre.core.log;
        let log = post.core.log;
        let ppc = pre.core.pc@;
        let phead = pre.core.head@;
        &&& pre.wf()
        &&& post.core.inv()
        &&& 0 <= id < n
        &&& post.core.head@.len() == n
        &&& log_grows(plog, log)
        &&& post.top@ == if log.place_of(post.core.head@[id] as int) > pre.top@ {
            log.place_of(post.core.head@[id] as int)
        } else {
            pre.top@
        }
        &&& forall|t: int| 0 <= t < n && t != id ==> #[trigger] post.core.pc@[t] == ppc[t]
        &&& forall|t: int| 0 <= t < n && t != id ==> #[trigger] post.core.head@[t] == phead[t]
        &&& match ppc[id] {
            UniPc::Scan(new) => if plog.numbered(new as int) {
                &&& log == plog
                &&& post.core.pc@[id] == UniPc::Idle
                &&& post.core.head@[id] == phead[id]
            } else {
                &&& log == plog
                &&& post.core.head@[id] == phead[id]
                &&& post.core.pc@[id] matches UniPc::Decide(a, p, b) && a == new && p == new && (exists|t: int|
                    0 <= t < n && b == #[trigger] phead[t]) && forall|t: int|
                    0 <= t < n ==> plog.place_of(#[trigger] phead[t] as int) <= plog.place_of(b as int)
            },
            UniPc::Decide(new, prefer, before) => {
                &&& post.core.head@[id] == phead[id]
                &&& before as int == plog.end() ==> log.order() == plog.order().push(prefer)
                &&& before as int != plog.end() ==> log.order() == plog.order()
                &&& post.core.pc@[id] matches UniPc::Link(a, b, _) && a == new && b == before
            },
            UniPc::Link(new, before, after) => {
                &&& post.core.head@[id] == phead[id]
                &&& log.order() == plog.order()
                &&& post.core.pc@[id] == UniPc::Number(new, before, after)
            },
            UniPc::Number(new, before, after) => {
                &&& post.core.head@[id] == phead[id]
                &&& log.order() == plog.order()
                &&& post.core.pc@[id] == UniPc::Advance(new, before, after)
            },
            UniPc::Advance(new, before, after) => {
                &&& log == plog
                &&& post.core.head@[id] == after
                &&& post.core.pc@[id] == UniPc::Scan(new)
            },
            UniPc::Idle => false,
        }
    }

    /// After a step, `top` is still the position of the head furthest
    /// along, and no thread extends a node beyond it.
    proof fn lemma_stepped_progress(pre: Self, post: Self, id: int)
        requires
            Self::stepped(pre, post, id),
        ensures
            post.progress(),
    {
        let n = pre.core.head@.len() as int;
        let plog = pre.core.log;
        let log = post.core.log;
        let ppc = pre.core.pc@;
        let phead = pre.core.head@;
        let pc = post.core.pc@;
        let head = post.core.head@;
        let w = choose|t: int| 0 <= t < n && plog.place_of(#[trigger] phead[t] as int) == pre.top@;
        assert forall|t: int| 0 <= t < n implies #[trigger] plog.decided(phead[t] as int) by {
            assert(plog.numbered(phead[t] as int));
        }
        assert(pc_ok(ppc[id], plog, phead[id] as int));
        match ppc[id] {
            UniPc::Advance(nw, bf, af) => {
                plog.lemma_place(bf as int);
                plog.lemma_chain(plog.place_of(bf as int) + 1);
            },
            UniPc::Scan(nw) => {
                if !plog.numbered(nw as int) {
                    let b = pc_base(pc[id])->0;
                    let t0 = choose|t: int| 0 <= t < n && b == #[trigger] phead[t];
                    assert(plog.place_of(phead[t0] as int) <= pre.top@);
                }
            },
            _ => {},
        }
        assert forall|t: int| 0 <= t < n implies log.place_of(#[trigger] head[t] as int) <= post.top@ by {
            if t != id {
                assert(head[t] == phead[t]);
                assert(plog.decided(phead[t] as int));
            }
        }
        if post.top@ == pre.top@ {
            assert(plog.decided(phead[w] as int));
            if w == id {
                assert(plog.decided(phead[id] as int));
            } else {
                assert(head[w] == phead[w]);
            }
            assert(log.place_of(head[w] as int) == post.top@);
        } else {
            assert(log.place_of(head[id] as int) == post.top@);
        }
        assert forall|t: int|
            0 <= t < n && pc_base(#[trigger] pc[t]) is Some implies log.place_of(pc_base(pc[t])->0 as int)
            <= post.top@ by {
            if t != id {
                assert(pc[t] == ppc[t]);
                assert(pc_ok(ppc[t], plog, phead[t] as int));
                plog.lemma_place(pc_base(ppc[t])->0 as int);
                assert(plog.decided(pc_base(ppc[t])->0 as int));
                assert(plog.place_of(pc_base(ppc[t])->0 as int) <= pre.top@);
            } else if pc_base(ppc[id]) is Some {
                plog.lemma_place(pc_base(ppc[id])->0 as int);
                assert(plog.decided(pc_base(ppc[id])->0 as int));
                assert(plog.place_of(pc_base(ppc[id])->0 as int) <= pre.top@);
            }
        }
    }

    /// A step never raises the potential, and a step that does not answer
    /// lowers it.
    proof fn lemma_stepped_potential(pre: Self, post: Self, id: int)
        requires
            Self::stepped(pre, post, id),
            post.wf(),
        ensures
            post.potential() <= pre.potential(),
            post.core.pc@[id] != UniPc::Idle ==> post.potential() < pre.potential(),
    {
        let n = pre.core.head@.len() as int;
        let plog = pre.core.log;
        let log = post.core.log;
        let ppc = pre.core.pc@;
        let phead = pre.core.head@;
        let pc = post.core.pc@;
        let head = post.core.head@;
        let size = plog.size() as int;
        let len = plog.order().len() as int;
        pre.lemma_potential_parts();
        post.lemma_potential_parts();
        let f = |t: int| pre.cost(t);
        let g = |t: int| post.cost(t);
        let x = plog.order().len() + plog.undecided() - pre.top@;
        let x2 = log.order().len() + log.undecided() - post.top@;
        let sf = sum_below(n, f);
        let sg = sum_below(n, g);
        assert(pre.potential() == 5 * n * x + sf) by {
            assert(5 * n * x >= 0) by (nonlinear_arith)
                requires
                    n >= 0,
                    x >= 0,
            ;
        }
        assert(post.potential() == 5 * n * x2 + sg) by {
            assert(5 * n * x2 >= 0) by (nonlinear_arith)
                requires
                    n >= 0,
                    x2 >= 0,
            ;
        }
        let q = |k: int| !plog.decided(k);
        let p = |k: int| !log.decided(k);
        assert forall|k: int| 0 <= k < size && #[trigger] p(k) implies q(k) by {}
        assert(plog.undecided() == count_below(size, q));
        assert(log.undecided() == count_below(size, p));
        lemma_count_mono(size, p, q);
        assert(pre.top@ <= post.top@);
        assert forall|t: int| 0 <= t < n && t != id implies #[trigger] g(t) <= f(t) + 5 * (post.top@ - pre.top@) by {
            assert(pc[t] == ppc[t]);
            if pc_base(ppc[t]) is Some {
                assert(pc_ok(ppc[t], plog, phead[t] as int));
                assert(plog.decided(pc_base(ppc[t])->0 as int));
            }
        }
        assert(plog.numbered(phead[id] as int));
        assert(plog.decided(phead[id] as int));
        assert(pc_ok(ppc[id], plog, phead[id] as int));
        let w = choose|t: int| 0 <= t < n && plog.place_of(#[trigger] phead[t] as int) == pre.top@;
        match ppc[id] {
            UniPc::Scan(nw) => {
                if !plog.numbered(nw as int) {
                    assert(plog.place_of(phead[w] as int) == pre.top@);
                }
                lemma_sum_bound(n, f, g, id, 0);
            },
            UniPc::Decide(nw, pf, bf) => {
                plog.lemma_place(bf as int);
                assert(plog.decided(bf as int));
                if bf as int == plog.end() {
                    plog.lemma_chain(len);
                    plog.lemma_place(pf as int);
                    log.lemma_chain(len + 1);
                    lemma_count_strict(size, p, q, pf as int);
                }
                lemma_sum_bound(n, f, g, id, 0);
                assert(5 * n * x2 <= 5 * n * x) by (nonlinear_arith)
                    requires
                        n >= 0,
                        x2 <= x,
                ;
            },
            UniPc::Link(nw, bf, af) => {
                assert(plog.decided(bf as int));
                lemma_sum_bound(n, f, g, id, 0);
                assert(5 * n * x2 <= 5 * n * x) by (nonlinear_arith)
                    requires
                        n >= 0,
                        x2 <= x,
                ;
            },
            UniPc::Number(nw, bf, af) => {
                assert(plog.decided(bf as int));
                lemma_sum_bound(n, f, g, id, 0);
                assert(5 * n * x2 <= 5 * n * x) by (nonlinear_arith)
                    requires
                        n >= 0,
                        x2 <= x,
                ;
            },
            UniPc::Advance(nw, bf, af) => {
                plog.lemma_place(bf as int);
                plog.lemma_chain(plog.place_of(bf as int) + 1);
                if plog.place_of(bf as int) < pre.top@ {
                    lemma_sum_bound(n, f, g, id, 0);
                } else {
                    lemma_sum_bound(n, f, g, id, 5);
                    assert(5 * n * x2 == 5 * n * x - 5 * n) by (nonlinear_arith)
                        requires
                            x2 == x - 1,
                    ;
                }
            },
            UniPc::Idle => {},
        }
    }

    /// Starting an operation raises the potential by at most five per
    /// thread, and four.
    proof fn lemma_invoked_potential(pre: Self, post: Self, id: int)
        requires
            pre.wf(),
            post.wf(),
            0 <= id < pre.core.head@.len(),
            pre.core.pc@[id] == UniPc::Idle,
            post.core.head@ == pre.core.head@,
            post.core.pc@ == pre.core.pc@.update(id, UniPc::Scan(pre.core.log.size() as usize)),
            post.top@ == pre.top@,
            post.core.log.size() == pre.core.log.size() + 1,
            post.core.log.order() == pre.core.log.order(),
            forall|y: int| 0 <= y < pre.core.log.size() ==> #[trigger] post.core.log.place_of(y)
                == pre.core.log.place_of(y),
        ensures
            post.potential() <= pre.potential() + 5 * pre.core.head@.len() + 4,
    {
        let n = pre.core.head@.len() as int;
        let plog = pre.core.log;
        let log = post.core.log;
        let size = plog.size() as int;
        pre.lemma_potential_parts();
        post.lemma_potential_parts();
        let f = |t: int| pre.cost(t);
        let g = |t: int| post.cost(t);
        let x = plog.order().len() + plog.undecided() - pre.top@;
        let x2 = log.order().len() + log.undecided() - post.top@;
        let sf = sum_below(n, f);
        let sg = sum_below(n, g);
        assert(pre.potential() == 5 * n * x + sf) by {
            assert(5 * n * x >= 0) by (nonlinear_arith)
                requires
                    n >= 0,
                    x >= 0,
            ;
        }
        assert(post.potential() == 5 * n * x2 + sg) by {
            assert(5 * n * x2 >= 0) by (nonlinear_arith)
                requires
                    n >= 0,
                    x2 >= 0,
            ;
        }
        let q = |k: int| !plog.decided(k);
        let p = |k: int| !log.decided(k);
        assert forall|k: int| 0 <= k < size && #[trigger] p(k) implies q(k) by {}
        assert(plog.undecided() == count_below(size, q));
        assert(log.undecided() == count_below(size + 1, p));
        lemma_count_mono(size, p, q);
        assert forall|t: int| 0 <= t < n && t != id implies #[trigger] g(t) <= f(t) + 0 by {
            if pc_base(pre.core.pc@[t]) is Some {
                assert(pc_ok(pre.core.pc@[t], plog, pre.core.head@[t] as int));
            }
        }
        lemma_sum_bound(n, f, g, id, 0);
        assert(5 * n * x2 <= 5 * n * x + 5 * n) by (nonlinear_arith)
            requires
                n >= 0,
                x2 <= x + 1,
        ;
    }

    /// An object for threads `0..n`, with an empty log.
    pub fn new(n: usize) -> (r: Self)
        ensures
            r.wf(),
            r.threads() == n,
            r.ops() == Seq::<S::Op>::empty(),
            r.log().size() == 1,
            r.pcs() == Seq::new(n as nat, |t: int| UniPc::Idle),
            r.potential() == 0,
    {
        let r = LFUniversal { core: Threading::new(n), top: Ghost(0) };
        assert(r.ops() =~= Seq::<S::Op>::empty());
        proof {
            r.core.log.lemma_place(0);
            if n > 0 {
                assert(r.core.log.place_of(r.core.head@[0] as int) == r.top@);
            }
            crate::count::lemma_sum_zero(n as int, |t: int| r.cost(t));
            let undecided = |k: int| !r.core.log.decided(k);
            assert(count_below(0, undecided) == 0);
            assert(r.core.log.undecided() == count_below(1, undecided));
        }
        r
    }

    /// Number of threads.
    pub fn thread_count(&self) -> (r: usize)
        requires
            self.wf(),
        ensures
            r == self.threads(),
    {
        self.core.head.len()
    }

    /// Every operation takes effect once: no node stands twice in the log,
    /// and the sentinel stands in it nowhere; the log is well formed.
    pub proof fn lemma_applied_once(&self)
        requires
            self.wf(),
        ensures
            self.log().inv(),
            self.log().order().no_duplicates(),
            forall|p: int| 0 <= p < self.log().order().len() ==> 1 <= #[trigger] self.log().order()[p]
                < self.log().size(),
    {
    }

    /// Thread `id` starts applying `op`.
    pub fn invoke(&mut self, op: S::Op, id: usize)
        requires
            old(self).wf(),
            id < old(self).threads(),
            old(self).pcs()[id as int] == UniPc::Idle,
            old(self).log().size() + 2 < usize::MAX,
        ensures
            final(self).wf(),
            final(self).threads() == old(self).threads(),
            final(self).log().size() == old(self).log().size() + 1,
            log_extends(old(self).log(), final(self).log()),
            final(self).ops() == old(self).ops(),
            final(self).log().order() == old(self).log().order(),
            final(self).pcs() == old(self).pcs().update(
                id as int,
                UniPc::Scan(old(self).log().size() as usize),
            ),
            final(self).heads() == old(self).heads(),
            final(self).log().op_of(old(self).log().size() as int) == Some(op),
            !final(self).log().decided(old(self).log().size() as int),
            forall|y: int| 0 <= y < old(self).log().size() ==> #[trigger] final(self).log().op_of(y)
                == old(self).log().op_of(y),
            final(self).potential() <= old(self).potential() + 5 * old(self).threads() + 4,
    {
        let ghost pre = *self;
        self.core.start(op, id);
        proof {
            assert forall|t: int| 0 <= t < self.core.head@.len() implies match #[trigger] self.core.pc@[t] {
                UniPc::Decide(new, prefer, _) => prefer == new,
                _ => true,
            } by {
                if t != id {
                    assert(self.core.pc@[t] == pre.core.pc@[t]);
                }
            }
            assert(self.wf());
            Self::lemma_invoked_potential(pre, *self, id as int);
        }
    }

    /// Performs the next action of thread `id` in applying its operation,
    /// and returns the operation's answer once it has one.
    ///
    /// While its node is not numbered, the thread picks the node furthest
    /// along among all heads, proposes its own node as that node's successor
    /// and learns the decided one, links it, numbers it and moves its head
    /// to it, one action per step. Once its node is numbered, the thread
    /// replays the log up to its node on a fresh object and answers.
    pub fn step(&mut self, id: usize) -> (r: Option<S::Resp>)
        requires
            old(self).wf(),
            id < old(self).threads(),
            old(self).pcs()[id as int] != UniPc::Idle,
        ensures
            final(self).wf(),
            final(self).threads() == old(self).threads(),
            log_grows(old(self).log(), final(self).log()),
            old(self).ops().is_prefix_of(final(self).ops()),
            final(self).potential() <= old(self).potential(),
            r is None ==> final(self).potential() < old(self).potential(),
            forall|t: int| 0 <= t < old(self).threads() && t != id ==> #[trigger] final(self).pcs()[t] == old(self).pcs()[t],
            forall|t: int| 0 <= t < old(self).threads() && t != id ==> #[trigger] final(self).heads()[t] == old(self).heads()[t],
            match old(self).pcs()[id as int] {
                UniPc::Scan(new) => if old(self).log().numbered(new as int) {
                    &&& r == Some(
                        response_at::<S>(old(self).ops(), old(self).log().place_of(new as int) - 1),
                    )
                    &&& final(self).pcs()[id as int] == UniPc::Idle
                    &&& final(self).log() == old(self).log()
                    &&& final(self).heads() == old(self).heads()
                } else {
                    &&& r is None
                    &&& final(self).log() == old(self).log()
                    &&& final(self).heads() == old(self).heads()
                    &&& final(self).pcs()[id as int] matches UniPc::Decide(a, p, b) && a == new && p == new
                        && old(self).log().numbered(b as int) && (exists|t: int|
                        0 <= t < old(self).threads() && b == #[trigger] old(self).heads()[t]) && forall|t: int|
                        0 <= t < old(self).threads() ==> old(self).log().place_of(
                            #[trigger] old(self).heads()[t] as int,
                        ) <= old(self).log().place_of(b as int)
                },
                UniPc::Decide(new, prefer, before) => {
                    &&& r is None
                    &&& final(self).heads() == old(self).heads()
                    &&& before == old(self).log().end() ==> final(self).log().order() == old(
                        self,
                    ).log().order().push(prefer) && final(self).pcs()[id as int] == UniPc::Link(
                        new,
                        before,
                        prefer,
                    )
                    &&& before != old(self).log().end() ==> final(self).log().order() == old(
                        self,
                    ).log().order() && final(self).pcs()[id as int] == UniPc::Link(
                        new,
                        before,
                        chain_at(old(self).log().order(), old(self).log().place_of(before as int) + 1)
                            as usize,
                    )
                },
                UniPc::Link(new, before, after) => {
                    &&& r is None
                    &&& final(self).heads() == old(self).heads()
                    &&& final(self).log().order() == old(self).log().order()
                    &&& final(self).log().next_of(before as int) == after
                    &&& final(self).pcs()[id as int] == UniPc::Number(new, before, after)
                },
                UniPc::Number(new, before, after) => {
                    &&& r is None
                    &&& final(self).heads() == old(self).heads()
                    &&& final(self).log().order() == old(self).log().order()
                    &&& final(self).log().numbered(after as int)
                    &&& final(self).pcs()[id as int] == UniPc::Advance(new, before, after)
                },
                UniPc::Advance(new, before, after) => {
                    &&& r is None
                    &&& final(self).log() == old(self).log()
                    &&& final(self).heads() == old(self).heads().update(id as int, after)
                    &&& final(self).pcs()[id as int] == UniPc::Scan(new)
                    &&& old(self).log().place_of(after as int) == old(self).log().place_of(before as int) + 1
                    &&& old(self).log().place_of(before as int) >= old(self).log().place_of(
                        old(self).heads()[id as int] as int,
                    )
                },
                UniPc::Idle => false,
            },
    {
        let ghost pre = *self;
        let r = match self.core.pc[id] {
            UniPc::Scan(new) => {
                proof {
                    assert(pc_ok(pre.core.pc@[id as int], pre.core.log, pre.core.head@[id as int] as int));
                }
                if self.core.log.is_numbered(new) {
                    Some(finish::<S>(&mut self.core, id))
                } else {
                    let before = self.core.log.furthest(&self.core.head);
                    proof {
                        let log = pre.core.log;
                        let n = pre.core.head@.len() as int;
                        let t0 = choose|t: int| 0 <= t < n && before == #[trigger] pre.core.head@[t];
                        assert(log.numbered(pre.core.head@[t0] as int));
                        assert(pre.heads()[t0] == before);
                        assert(log.numbered(pre.core.head@[id as int] as int));
                        assert(log.place_of(pre.core.head@[id as int] as int) <= log.place_of(before as int));
                        log.lemma_place(new as int);
                    }
                    self.core.pick(id, new, before);
                    None
                }
            },
            UniPc::Decide(_, _, _) => {
                self.core.decide(id);
                None
            },
            UniPc::Link(_, _, _) => {
                self.core.link_step(id);
                None
            },
            UniPc::Number(_, _, _) => {
                self.core.number_step(id);
                None
            },
            _ => {
                self.core.advance(id);
                None
            },
        };
        self.top = Ghost(
            if self.core.log.place_of(self.core.head@[id as int] as int) > self.top@ {
                self.core.log.place_of(self.core.head@[id as int] as int)
            } else {
                self.top@
            },
        );
        proof {
            let log = self.core.log;
            let plog = pre.core.log;
            assert(log_grows(plog, log)) by {
                if log == plog {
                    assert(plog.order() =~= log.order().subrange(0, plog.order().len() as int));
                }
            }
            plog.lemma_ops_prefix(log);
            assert forall|t: int| 0 <= t < self.core.head@.len() implies match #[trigger] self.core.pc@[t] {
                UniPc::Decide(new, prefer, _) => prefer == new,
                _ => true,
            } by {
                if t != id {
                    assert(self.core.pc@[t] == pre.core.pc@[t]);
                }
            }
            assert(Self::stepped(pre, *self, id as int));
            Self::lemma_stepped_progress(pre, *self, id as int);
            assert(self.wf());
            Self::lemma_stepped_potential(pre, *self, id as int);
        }
        r
    }

    /// Thread `id` applies `op` by taking all its steps in a row, and
    /// returns the answer: the operation goes at the end of the log and is
    /// answered as the sequential object answers it after the operations
    /// before it.
    #[verifier::spinoff_prover]
    #[verifier::rlimit(40)]
    pub fn apply(&mut self, op: S::Op, id: usize) -> (r: S::Resp)
        requires
            old(self).wf(),
            id < old(self).threads(),
            old(self).pcs()[id as int] == UniPc::Idle,
            old(self).log().size() + 2 < usize::MAX,
        ensures
            final(self).wf(),
            final(self).threads() == old(self).threads(),
            final(self).ops() == old(self).ops().push(op),
            r == response_at::<S>(final(self).ops(), old(self).ops().len() as int),
            final(self).pcs() == old(self).pcs(),
            forall|t: int| 0 <= t < old(self).threads() && t != id ==> #[trigger] final(self).heads()[t] == old(self).heads()[t],
            final(self).log().size() == old(self).log().size() + 1,
            log_extends(old(self).log(), final(self).log()),
    {
        let ghost start = *self;
        let ghost x = start.log().size() as int;
        self.invoke(op, id);
        loop
            invariant
                self.wf(),
                start == *old(self),
                start.wf(),
                self.threads() == start.threads(),
                id < start.threads(),
                start.pcs()[id as int] == UniPc::Idle,
                x == start.log().size(),
                self.log().size() == x + 1,
                log_extends(start.log(), self.log()),
                pc_node(self.pcs()[id as int]) == Some(x as usize),
                self.log().op_of(x) == Some(op),
                forall|y: int| 0 <= y < x ==> #[trigger] self.log().op_of(y) == start.log().op_of(y),
                !self.log().decided(x) ==> self.log().order() == start.log().order(),
                self.log().decided(x) ==> self.log().order() == start.log().order().push(x as usize)
                    && self.log().place_of(x) == start.log().order().len() + 1,
                self.pcs()[id as int] is Scan ==> (self.log().decided(x) ==> self.log().numbered(x)),
                self.pcs()[id as int] matches UniPc::Decide(_, p, _) ==> p == x && !self.log().decided(x),
                self.pcs()[id as int] matches UniPc::Link(_, _, a) ==> (self.log().decided(x) ==> a == x),
                self.pcs()[id as int] matches UniPc::Number(_, _, a) ==> (self.log().decided(x) ==> a == x),
                self.pcs()[id as int] matches UniPc::Advance(_, _, a) ==> self.log().numbered(a as int)
                    && (self.log().decided(x) ==> a == x),
                forall|t: int| 0 <= t < start.threads() && t != id ==> #[trigger] self.pcs()[t] == start.pcs()[t],
                forall|t: int| 0 <= t < start.threads() && t != id ==> #[trigger] self.heads()[t] == start.heads()[t],
            decreases
                (if self.log().decided(x) {
                    self.log().order().len() as int
                } else {
                    self.log().order().len() + 1int
                }) - self.log().place_of(self.heads()[id as int] as int),
                phase_rank(self.pcs()[id as int]),
        {
            let ghost pre = *self;
            proof {
                assert(pre.core.log.numbered(pre.core.head@[id as int] as int));
                pre.core.log.lemma_place(pre.core.head@[id as int] as int);
                pre.core.log.lemma_place(x);
                pre.core.log.lemma_order_len();
            }
            let r = self.step(id);
            proof {
                lemma_grows_extends(pre.log(), self.log());
                lemma_extends_trans(start.log(), pre.log(), self.log());
                let plog = pre.log();
                let log = self.log();
                assert(log.numbered(self.core.head@[id as int] as int));
                log.lemma_place(self.core.head@[id as int] as int);
                log.lemma_place(x);
                match pre.pcs()[id as int] {
                    UniPc::Decide(nw, pf, bf) => {
                        if bf as int == plog.end() {
                            log.lemma_chain(plog.order().len() + 1int);
                        }
                    },
                    UniPc::Advance(nw, bf, af) => {
                        log.lemma_place(af as int);
                    },
                    _ => {},
                }
            }
            match r {
                Some(v) => {
                    proof {
                        let log = self.log();
                        let slog = start.log();
                        assert(slog.inv());
                        assert forall|p: int| 0 <= p < slog.order().len() implies #[trigger] log.ops()[p]
                            == slog.ops()[p] by {
                            assert(1 <= slog.order@[p] < slog.nodes@.len());
                        }
                        assert(log.ops() =~= slog.ops().push(op));
                        assert(self.pcs() =~= start.pcs());
                    }
                    return v;
                },
                None => {},
            }
        }
    }
}


/// The wait-free universal construction. Each thread announces its node;
/// while its node is not numbered, a thread extends its own head and, when
/// the head is numbered `s`, proposes the node announced by thread
/// `(s + 1) % n` if that node is not numbered yet (helping it), and its own node
/// otherwise. Once its node is numbered, the thread moves its head to its
/// node, replays the log up to it and answers.
///
/// `invoke` and each call of `step` perform one action of one thread.
///
/// Linearizability holds as for the lock-free construction
/// (`lemma_linearizable`).
///
/// Wait-freedom: after `invoke`, thread `i` has a budget of at most
/// `5 * n + 19` steps; each of its steps that does not answer spends at least
/// one, and the actions of other threads leave it alone. So every operation
/// is answered within `5 * n + 20` steps of its own thread, whatever the
/// other threads do (`lemma_wait_free`).
pub struct WFUniversal<S: SeqObject> {
    core: Threading<S::Op>,
    announce: Vec<usize>,
    /// For each thread, the length of the chain when it announced its
    /// current node.
    since: Ghost<Seq<int>>,
}

/// A node at position `p` of the chain is extended by threads that help
/// thread `(p + 2) % n` (its sequence number plus one, modulo `n`). The
/// first position after `since` at which thread `i` is helped.
pub open spec fn help_target(since: int, i: int, n: int) -> int {
    since + 1 + (i - since - 3) % n
}

/// The first position after `since` at which thread `i` is helped lies
/// within `n` positions.
pub proof fn lemma_help_target(since: int, i: int, n: int)
    requires
        0 <= i < n,
    ensures
        since < help_target(since, i, n) <= since + n,
        (help_target(since, i, n) + 2) % n == i,
{
    let x = i - since - 3;
    let d = x % n;
    let q = x / n;
    vstd::arithmetic::div_mod::lemma_mod_bound(x, n);
    vstd::arithmetic::div_mod::lemma_fundamental_div_mod(x, n);
    assert(help_target(since, i, n) + 2 == n * (-q) + i) by (nonlinear_arith)
        requires
            x == n * q + d,
            x == i - since - 3,
            help_target(since, i, n) == since + 1 + d,
    ;
    vstd::arithmetic::div_mod::lemma_mod_multiples_vanish(-q, i, n);
    vstd::arithmetic::div_mod::lemma_small_mod(i as nat, n as nat);
}

impl<S: SeqObject> WFUniversal<S> {
    /// The shared state.
    pub closed spec fn state(&self) -> Threading<S::Op> {
        self.core
    }

    /// The node each thread announced last (the sentinel before its first
    /// operation).
    pub closed spec fn announced(&self) -> Seq<usize> {
        self.announce@
    }

    /// The log.
    pub open spec fn log(&self) -> Log<S::Op> {
        self.state().shared()
    }

    /// The operations of the log, in linearization order.
    pub open spec fn ops(&self) -> Seq<S::Op> {
        self.log().ops()
    }

    /// The position of each thread.
    pub open spec fn pcs(&self) -> Seq<UniPc> {
        self.state().pcs()
    }

    /// The node each thread has reached.
    pub open spec fn heads(&self) -> Seq<usize> {
        self.state().heads()
    }

    /// Number of threads.
    pub open spec fn threads(&self) -> nat {
        self.state().threads()
    }

    /// The position by which the node announced by thread `i` is sure to
    /// be in the chain.
    closed spec fn target(&self, i: int) -> int {
        help_target(self.since@[i], i, self.core.head@.len() as int)
    }

    /// The helping promise at position `p`: if the thread that position `p`
    /// helps announced its node before the chain reached `p`, its node is in
    /// the chain by position `p + 1`.
    closed spec fn helped_at(&self, p: int) -> bool {
        let i = (p + 2) % (self.core.head@.len() as int);
        let log = self.core.log;
        self.core.pc@[i] != UniPc::Idle && self.since@[i] < p ==> log.decided(self.announce@[i] as int)
            && log.place_of(self.announce@[i] as int) <= p + 1
    }

    /// How many more steps thread `i` may take before it answers.
    pub closed spec fn budget(&self, i: int) -> nat {
        let r = 5 * (self.target(i) + 1 - self.core.log.place_of(self.core.head@[i] as int))
            + phase_rank(self.core.pc@[i]);
        if self.core.pc@[i] is Idle || r < 0 {
            0
        } else {
            r as nat
        }
    }

    /// The facts behind wait-freedom: only the end of the chain may be
    /// unnumbered, some head is at most one behind the last numbered node,
    /// a thread extends its own head and has not passed its target, every
    /// proposal at a position that helps a thread proposes that thread's
    /// node (unless it is numbered), and so every helping position keeps its
    /// promise.
    closed spec fn helping(&self) -> bool {
        let n = self.core.head@.len() as int;
        let log = self.core.log;
        let pc = self.core.pc@;
        let head = self.core.head@;
        &&& self.since@.len() == n
        &&& log.order().len() <= log.last_numbered() + 1
        &&& n > 0 ==> exists|t: int|
            0 <= t < n && log.place_of(#[trigger] head[t] as int) + 1 >= log.last_numbered()
        &&& forall|t: int| 0 <= t < n && #[trigger] pc[t] != UniPc::Idle ==> 0 <= self.since@[t]
        &&& forall|t: int|
            0 <= t < n && pc_base(#[trigger] pc[t]) is Some ==> pc_base(pc[t]) == Some(head[t])
                && log.place_of(head[t] as int) <= self.target(t)
        &&& forall|t: int|
            0 <= t < n ==> match #[trigger] pc[t] {
                UniPc::Decide(_, prefer, before) => {
                    let i = (log.place_of(before as int) + 2) % n;
                    pc[i] != UniPc::Idle && log.place_of(before as int) > self.since@[i] ==> prefer
                        == self.announce@[i] || log.numbered(self.announce@[i] as int)
                },
                _ => true,
            }
        &&& forall|p: int| 0 <= p < log.order().len() ==> #[trigger] self.helped_at(p)
    }

    pub closed spec fn wf(&self) -> bool {
        let n = self.core.head@.len() as int;
        &&& self.core.inv()
        &&& self.announce@.len() == n
        &&& forall|t: int| 0 <= t < n ==> #[trigger] self.announce@[t] < self.core.log.size()
        &&& forall|t: int|
            0 <= t < n && #[trigger] self.core.pc@[t] != UniPc::Idle ==> pc_node(self.core.pc@[t])
                == Some(self.announce@[t])
        &&& forall|t: int|
            0 <= t < n && #[trigger] self.core.pc@[t] == UniPc::Idle ==> self.core.log.numbered(
                self.announce@[t] as int,
            )
        &&& self.helping()
    }

    /// An object for threads `0..n`, with an empty log.
    pub fn new(n: usize) -> (r: Self)
        ensures
            r.wf(),
            r.threads() == n,
            r.ops() == Seq::<S::Op>::empty(),
            r.log().size() == 1,
            r.pcs() == Seq::new(n as nat, |t: int| UniPc::Idle),
            r.announced() == Seq::new(n as nat, |t: int| 0usize),
    {
        let core = Threading::new(n);
        let mut announce: Vec<usize> = Vec::new();
        let mut k: usize = 0;
        while k < n
            invariant
                k <= n,
                announce@ == Seq::new(k as nat, |t: int| 0usize),
            decreases n - k,
        {
            announce.push(0);
            k = k + 1;
            assert(announce@ =~= Seq::new(k as nat, |t: int| 0usize));
        }
        let r = WFUniversal { core, announce, since: Ghost(Seq::new(n as nat, |t: int| 0int)) };
        assert(r.ops() =~= Seq::<S::Op>::empty());
        proof {
            r.core.log.lemma_place(0);
            if n > 0 {
                assert(r.core.log.place_of(r.core.head@[0] as int) + 1 >= r.core.log.last_numbered());
            }
        }
        r
    }

    /// Number of threads.
    pub fn thread_count(&self) -> (r: usize)
        requires
            self.wf(),
        ensures
            r == self.threads(),
    {
        self.core.head.len()
    }

    /// Every operation takes effect once: no node stands twice in the log,
    /// and the sentinel stands in it nowhere; the log is well formed.
    pub proof fn lemma_applied_once(&self)
        requires
            self.wf(),
        ensures
            self.log().inv(),
            self.log().order().no_duplicates(),
            forall|p: int| 0 <= p < self.log().order().len() ==> 1 <= #[trigger] self.log().order()[p]
                < self.log().size(),
    {
    }

    /// Thread `id` starts applying `op`: it announces a node holding `op`
    /// and moves its head to the node furthest along among all heads.
    pub fn invoke(&mut self, op: S::Op, id: usize)
        requires
            old(self).wf(),
            id < old(self).threads(),
            old(self).pcs()[id as int] == UniPc::Idle,
            old(self).log().size() + 2 < usize::MAX,
        ensures
            final(self).wf(),
            final(self).threads() == old(self).threads(),
            final(self).log().size() == old(self).log().size() + 1,
            log_extends(old(self).log(), final(self).log()),
            final(self).ops() == old(self).ops(),
            final(self).log().order() == old(self).log().order(),
            final(self).pcs() == old(self).pcs().update(
                id as int,
                UniPc::Scan(old(self).log().size() as usize),
            ),
            final(self).announced() == old(self).announced().update(
                id as int,
                old(self).log().size() as usize,
            ),
            exists|t: int| 0 <= t < old(self).threads() && final(self).heads()[id as int] == #[trigger] old(self).heads()[t],
            forall|t: int| 0 <= t < old(self).threads() ==> old(self).log().place_of(#[trigger] old(self).heads()[t] as int)
                <= final(self).log().place_of(final(self).heads()[id as int] as int),
            forall|t: int| 0 <= t < old(self).threads() && t != id ==> #[trigger] final(self).heads()[t] == old(self).heads()[t],
            final(self).log().op_of(old(self).log().size() as int) == Some(op),
            !final(self).log().decided(old(self).log().size() as int),
            forall|y: int| 0 <= y < old(self).log().size() ==> #[trigger] final(self).log().op_of(y)
                == old(self).log().op_of(y),
            forall|y: int| 0 <= y < old(self).log().size() ==> #[trigger] final(self).log().place_of(y)
                == old(self).log().place_of(y),
            final(self).budget(id as int) <= 5 * final(self).threads() + 19,
            forall|t: int| 0 <= t < old(self).threads() && t != id ==> #[trigger] final(self).budget(t) == old(self).budget(t),
    {
        let ghost pre = *self;
        let ghost len = self.core.log.order().len() as int;
        let new = self.core.start(op, id);
        self.announce.set(id, new);
        self.since = Ghost(self.since@.update(id as int, len));
        let b = self.core.log.furthest(&self.core.head);
        let ghost t0 = choose|t: int| 0 <= t < self.core.head@.len() && b == #[trigger] self.core.head@[t];
        proof {
            let log = self.core.log;
            assert(log.numbered(self.core.head@[t0] as int));
            assert(log.numbered(self.core.head@[id as int] as int));
            log.lemma_place(new as int);
        }
        self.core.set_head(id, b);
        proof {
            let n = self.core.head@.len() as int;
            assert forall|t: int| 0 <= t < n implies #[trigger] self.announce@[t] < self.core.log.size() by {
                if t != id {
                    assert(pre.announce@[t] < pre.core.log.size());
                }
            }
            assert forall|t: int|
                0 <= t < n && #[trigger] self.core.pc@[t] != UniPc::Idle implies pc_node(self.core.pc@[t])
                == Some(self.announce@[t]) by {
                if t != id {
                    assert(self.core.pc@[t] == pre.core.pc@[t]);
                }
            }
            assert forall|t: int| 0 <= t < n implies pre.core.log.place_of(#[trigger] pre.core.head@[t] as int)
                <= self.core.log.place_of(self.core.head@[id as int] as int) by {
                assert(pre.core.log.numbered(pre.core.head@[t] as int));
            }
            assert(self.heads()[id as int] == pre.heads()[t0]);
            let log = self.core.log;
            let plog = pre.core.log;
            let pc = self.core.pc@;
            let head = self.core.head@;
            plog.lemma_order_len();
            assert forall|y: int| 0 <= y < plog.size() implies #[trigger] log.numbered(y) == plog.numbered(y)
                && log.decided(y) == plog.decided(y) by {}
            let w = choose|t: int|
                0 <= t < n && plog.place_of(#[trigger] pre.core.head@[t] as int) + 1 >= plog.last_numbered();
            assert(log.place_of(head[w] as int) + 1 >= log.last_numbered()) by {
                assert(plog.numbered(pre.core.head@[w] as int));
                assert(plog.numbered(pre.core.head@[id as int] as int));
            }
            assert forall|t: int|
                0 <= t < n && pc_base(#[trigger] pc[t]) is Some implies pc_base(pc[t]) == Some(head[t])
                && log.place_of(head[t] as int) <= self.target(t) by {
                assert(pc[t] == pre.core.pc@[t]);
                assert(plog.numbered(pre.core.head@[t] as int));
            }
            assert forall|t: int|
                0 <= t < n implies match #[trigger] pc[t] {
                UniPc::Decide(_, prefer, before) => {
                    let i = (log.place_of(before as int) + 2) % n;
                    pc[i] != UniPc::Idle && log.place_of(before as int) > self.since@[i] ==> prefer
                        == self.announce@[i] || log.numbered(self.announce@[i] as int)
                },
                _ => true,
            } by {
                match pc[t] {
                    UniPc::Decide(_, prefer, before) => {
                        assert(pc[t] == pre.core.pc@[t]);
                        assert(pc_ok(pre.core.pc@[t], plog, pre.core.head@[t] as int));
                        plog.lemma_place(before as int);
                        let i = (log.place_of(before as int) + 2) % n;
                        if i != id {
                            assert(pre.announce@[i] < plog.size());
                        }
                    },
                    _ => {},
                }
            }
            assert forall|p: int| 0 <= p < log.order().len() implies #[trigger] self.helped_at(p) by {
                assert(pre.helped_at(p));
                let i = (p + 2) % n;
                if i != id {
                    assert(pre.announce@[i] < plog.size());
                }
            }
            assert forall|t: int| 0 <= t < n && #[trigger] pc[t] != UniPc::Idle implies 0 <= self.since@[t] by {}
            assert forall|t: int| 0 <= t < n && t != id implies #[trigger] self.budget(t) == pre.budget(t) by {
                assert(pc[t] == pre.core.pc@[t]);
                assert(plog.numbered(pre.core.head@[t] as int));
            }
            lemma_help_target(len, id as int, n);
            plog.lemma_place(pre.core.head@[w] as int);
            assert(plog.numbered(pre.core.head@[w] as int));
        }
    }

    /// Wait-freedom over a run of actions: when every action of a thread
    /// other than `i` leaves the budget of `i` alone (as `invoke` and `step`
    /// ensure) and every action of `i` spends some of it (as `step` ensures
    /// of an action that does not answer), the first `k` actions include at
    /// most as many actions of `i` as its budget at the start of the run,
    /// less what is left of it. Right after `invoke` the budget is at most
    /// `5 * n + 19`.
    pub proof fn lemma_wait_free(states: Seq<Self>, movers: Seq<int>, i: int, k: int)
        requires
            states.len() == movers.len() + 1,
            0 <= k <= movers.len(),
            forall|j: int|
                0 <= j < movers.len() && #[trigger] movers[j] == i ==> states[j + 1].budget(i) < states[j].budget(
                    i,
                ),
            forall|j: int|
                0 <= j < movers.len() && #[trigger] movers[j] != i ==> states[j + 1].budget(i) == states[j].budget(
                    i,
                ),
        ensures
            count_below(k, |j: int| movers[j] == i) + states[k].budget(i) <= states[0].budget(i),
        decreases k,
    {
        if k > 0 {
            Self::lemma_wait_free(states, movers, i, k - 1);
        }
    }

    /// Thread `id` took `pre` to `post` by one action of `step`.
    closed spec fn stepped(pre: Self, post: Self, id: int) -> bool {
        let n = pre.core.head@.len() as int;
        let plog = pre.core.log;
        let log = post.core.log;
        let ppc = pre.core.pc@;
        let phead = pre.core.head@;
        &&& pre.wf()
        &&& post.core.inv()
        &&& 0 <= id < n
        &&& post.core.head@.len() == n
        &&& post.announce@ == pre.announce@
        &&& post.since@ == pre.since@
        &&& log_grows(plog, log)
        &&& forall|t: int| 0 <= t < n && t != id ==> #[trigger] post.core.pc@[t] == ppc[t]
        &&& forall|t: int| 0 <= t < n && t != id ==> #[trigger] post.core.head@[t] == phead[t]
        &&& match ppc[id] {
            UniPc::Scan(new) => if plog.numbered(new as int) {
                &&& log == plog
                &&& post.core.pc@[id] == UniPc::Idle
                &&& post.core.head@[id] == new
            } else {
                let before = phead[id];
                let help = pre.announce@[(plog.place_of(before as int) + 2) % n];
                let prefer = if help != 0 && !plog.numbered(help as int) {
                    help
                } else {
                    new
                };
                &&& log == plog
                &&& post.core.head@[id] == before
                &&& post.core.pc@[id] == UniPc::Decide(new, prefer, before)
            },
            UniPc::Decide(new, prefer, before) => {
                &&& post.core.head@[id] == phead[id]
                &&& log.last_numbered() == plog.last_numbered()
                &&& before as int == plog.end() ==> log.order() == plog.order().push(prefer)
                &&& before as int != plog.end() ==> log.order() == plog.order()
                &&& post.core.pc@[id] matches UniPc::Link(a, b, _) && a == new && b == before
            },
            UniPc::Link(new, before, after) => {
                &&& post.core.head@[id] == phead[id]
                &&& log.last_numbered() == plog.last_numbered()
                &&& log.order() == plog.order()
                &&& post.core.pc@[id] == UniPc::Number(new, before, after)
            },
            UniPc::Number(new, before, after) => {
                &&& post.core.head@[id] == phead[id]
                &&& log.last_numbered() == if plog.place_of(after as int) > plog.last_numbered() {
                    plog.place_of(after as int)
                } else {
                    plog.last_numbered()
                }
                &&& log.order() == plog.order()
                &&& post.core.pc@[id] == UniPc::Advance(new, before, after)
            },
            UniPc::Advance(new, before, after) => {
                &&& log == plog
                &&& post.core.head@[id] == after
                &&& post.core.pc@[id] == UniPc::Scan(new)
            },
            UniPc::Idle => false,
        }
    }

    /// After a step, only the end of the chain may be unnumbered, and some
    /// head is at most one behind the last numbered node.
    proof fn lemma_stepped_chain(pre: Self, post: Self, id: int)
        requires
            Self::stepped(pre, post, id),
        ensures
            post.core.log.order().len() <= post.core.log.last_numbered() + 1,
            exists|t: int|
                0 <= t < post.core.head@.len() && post.core.log.place_of(#[trigger] post.core.head@[t] as int)
                    + 1 >= post.core.log.last_numbered(),
    {
        let n = pre.core.head@.len() as int;
        let plog = pre.core.log;
        let log = post.core.log;
        let ppc = pre.core.pc@;
        let phead = pre.core.head@;
        let head = post.core.head@;
        let len = plog.order().len() as int;
        let w = choose|t: int| 0 <= t < n && plog.place_of(#[trigger] phead[t] as int) + 1 >= plog.last_numbered();
        assert(plog.numbered(phead[w] as int));
        assert(plog.numbered(phead[id] as int));
        plog.lemma_place(phead[w] as int);
        plog.lemma_place(phead[id] as int);
        assert(pc_ok(ppc[id], plog, phead[id] as int));
        assert(pc_base(ppc[id]) is Some ==> pc_base(ppc[id]) == Some(phead[id]));
        match ppc[id] {
            UniPc::Scan(nw) => {
                assert(log.place_of(head[w] as int) + 1 >= log.last_numbered());
            },
            UniPc::Decide(nw, pf, bf) => {
                plog.lemma_place(bf as int);
                plog.lemma_chain(len);
                assert(log.place_of(head[w] as int) + 1 >= log.last_numbered());
            },
            UniPc::Link(nw, bf, af) => {
                assert(log.place_of(head[w] as int) + 1 >= log.last_numbered());
            },
            UniPc::Number(nw, bf, af) => {
                plog.lemma_place(bf as int);
                plog.lemma_chain(plog.place_of(bf as int) + 1);
                if plog.place_of(af as int) > plog.last_numbered() {
                    assert(log.place_of(head[id] as int) + 1 >= log.last_numbered());
                } else {
                    assert(log.place_of(head[w] as int) + 1 >= log.last_numbered());
                }
            },
            UniPc::Advance(nw, bf, af) => {
                plog.lemma_place(bf as int);
                plog.lemma_chain(plog.place_of(bf as int) + 1);
                assert(log.place_of(head[w] as int) + 1 >= log.last_numbered());
            },
            UniPc::Idle => {},
        }
    }

    /// After a step, every thread that is not idle still extends its own
    /// head and has not passed its target.
    proof fn lemma_stepped_bases(pre: Self, post: Self, id: int)
        requires
            Self::stepped(pre, post, id),
        ensures
            forall|t: int| 0 <= t < post.core.head@.len() && #[trigger] post.core.pc@[t] != UniPc::Idle ==> 0
                <= post.since@[t],
            forall|t: int|
                0 <= t < post.core.head@.len() && pc_base(#[trigger] post.core.pc@[t]) is Some ==> pc_base(
                    post.core.pc@[t],
                ) == Some(post.core.head@[t]) && post.core.log.place_of(post.core.head@[t] as int)
                    <= post.target(t),
    {
        let n = pre.core.head@.len() as int;
        let plog = pre.core.log;
        let log = post.core.log;
        let ppc = pre.core.pc@;
        let phead = pre.core.head@;
        let pc = post.core.pc@;
        let head = post.core.head@;
        assert forall|t: int| 0 <= t < n && #[trigger] pc[t] != UniPc::Idle implies 0 <= post.since@[t] by {
            assert(ppc[t] != UniPc::Idle);
        }
        assert forall|t: int|
            0 <= t < n && pc_base(#[trigger] pc[t]) is Some implies pc_base(pc[t]) == Some(head[t])
            && log.place_of(head[t] as int) <= post.target(t) by {
            assert(plog.numbered(phead[t] as int));
            assert(plog.decided(phead[t] as int));
            assert(pre.target(t) == post.target(t));
            if t == id {
                assert(pc_base(ppc[id]) is Some ==> pc_base(ppc[id]) == Some(phead[id]) && plog.place_of(
                    phead[id] as int,
                ) <= pre.target(id));
                match ppc[id] {
                    UniPc::Scan(nw) => {
                        let tg = pre.target(id);
                        lemma_help_target(pre.since@[id], id, n);
                        plog.lemma_place(phead[id] as int);
                        if plog.place_of(phead[id] as int) > tg {
                            assert(ppc[id] != UniPc::Idle);
                            assert(0 <= pre.since@[id]);
                            assert(pre.helped_at(tg));
                            plog.lemma_place(pre.announce@[id] as int);
                            assert(false);
                        }
                    },
                    _ => {},
                }
            }
        }
    }

    /// After a step, every proposal at a position that helps a thread still
    /// proposes that thread's node, unless it is numbered.
    proof fn lemma_stepped_proposals(pre: Self, post: Self, id: int)
        requires
            Self::stepped(pre, post, id),
        ensures
            forall|t: int|
                0 <= t < post.core.head@.len() ==> match #[trigger] post.core.pc@[t] {
                    UniPc::Decide(_, prefer, before) => {
                        let i = (post.core.log.place_of(before as int) + 2) % (post.core.head@.len() as int);
                        post.core.pc@[i] != UniPc::Idle && post.core.log.place_of(before as int) > post.since@[i]
                            ==> prefer == post.announce@[i] || post.core.log.numbered(post.announce@[i] as int)
                    },
                    _ => true,
                },
    {
        let n = pre.core.head@.len() as int;
        let plog = pre.core.log;
        let log = post.core.log;
        let ppc = pre.core.pc@;
        let phead = pre.core.head@;
        let pc = post.core.pc@;
        assert forall|t: int|
            0 <= t < n implies match #[trigger] pc[t] {
            UniPc::Decide(_, prefer, before) => {
                let i = (log.place_of(before as int) + 2) % n;
                pc[i] != UniPc::Idle && log.place_of(before as int) > post.since@[i] ==> prefer
                    == post.announce@[i] || log.numbered(post.announce@[i] as int)
            },
            _ => true,
        } by {
            match pc[t] {
                UniPc::Decide(_, prefer, before) => {
                    let i = (log.place_of(before as int) + 2) % n;
                    if pc[i] != UniPc::Idle {
                        assert(ppc[i] != UniPc::Idle);
                        assert(pc_ok(ppc[i], plog, phead[i] as int));
                        assert(pre.announce@[i] < plog.size());
                    }
                    if t != id {
                        assert(pc[t] == ppc[t]);
                        assert(pc_ok(ppc[t], plog, phead[t] as int));
                        plog.lemma_place(before as int);
                    }
                },
                _ => {},
            }
        }
    }

    /// After a step, every helping position keeps its promise.
    proof fn lemma_stepped_promises(pre: Self, post: Self, id: int)
        requires
            Self::stepped(pre, post, id),
        ensures
            forall|p: int| 0 <= p < post.core.log.order().len() ==> #[trigger] post.helped_at(p),
    {
        let n = pre.core.head@.len() as int;
        let plog = pre.core.log;
        let log = post.core.log;
        let ppc = pre.core.pc@;
        let phead = pre.core.head@;
        let pc = post.core.pc@;
        let len = plog.order().len() as int;
        assert forall|p: int| 0 <= p < log.order().len() implies #[trigger] post.helped_at(p) by {
            let i = (p + 2) % n;
            if pc[i] != UniPc::Idle {
                assert(ppc[i] != UniPc::Idle);
                assert(pre.announce@[i] < plog.size());
            }
            if p < len {
                assert(pre.helped_at(p));
            } else {
                match ppc[id] {
                    UniPc::Decide(nw, pf, bf) => {
                        assert(pc_ok(ppc[id], plog, phead[id] as int));
                        plog.lemma_place(bf as int);
                        plog.lemma_chain(len);
                        log.lemma_chain(len + 1);
                        if pc[i] != UniPc::Idle && post.since@[i] < p && pf != pre.announce@[i] {
                            plog.lemma_place(pre.announce@[i] as int);
                        }
                    },
                    _ => {},
                }
            }
        }
    }

    /// A step of thread `id` that does not answer spends some of its
    /// budget, and leaves the budgets of the other threads alone.
    proof fn lemma_stepped_budgets(pre: Self, post: Self, id: int)
        requires
            Self::stepped(pre, post, id),
            forall|t: int|
                0 <= t < post.core.head@.len() && pc_base(#[trigger] post.core.pc@[t]) is Some ==> pc_base(
                    post.core.pc@[t],
                ) == Some(post.core.head@[t]) && post.core.log.place_of(post.core.head@[t] as int)
                    <= post.target(t),
        ensures
            post.core.pc@[id] != UniPc::Idle ==> post.budget(id) < pre.budget(id),
            forall|t: int| 0 <= t < pre.core.head@.len() && t != id ==> #[trigger] post.budget(t) == pre.budget(t),
    {
        let n = pre.core.head@.len() as int;
        let plog = pre.core.log;
        let log = post.core.log;
        let ppc = pre.core.pc@;
        let phead = pre.core.head@;
        let pc = post.core.pc@;
        let head = post.core.head@;
        assert forall|t: int| 0 <= t < n && t != id implies #[trigger] post.budget(t) == pre.budget(t) by {
            assert(plog.numbered(phead[t] as int));
            assert(plog.decided(phead[t] as int));
            assert(pc[t] == ppc[t]);
            assert(head[t] == phead[t]);
            assert(pre.target(t) == post.target(t));
        }
        assert(plog.numbered(phead[id] as int));
        assert(plog.decided(phead[id] as int));
        assert(pre.target(id) == post.target(id));
        assert(pc_base(ppc[id]) is Some ==> pc_base(ppc[id]) == Some(phead[id]) && plog.place_of(phead[id] as int)
            <= pre.target(id));
        assert(pc_ok(ppc[id], plog, phead[id] as int));
        match ppc[id] {
            UniPc::Advance(nw, bf, af) => {
                plog.lemma_place(bf as int);
                plog.lemma_chain(plog.place_of(bf as int) + 1);
            },
            UniPc::Scan(nw) => {
                if !plog.numbered(nw as int) {
                    assert(pc_base(pc[id]) is Some);
                }
            },
            _ => {},
        }
    }

    /// A step keeps the facts behind wait-freedom, spends the budget of the
    /// thread that takes it, and leaves the other budgets alone.
    proof fn lemma_stepped(pre: Self, post: Self, id: int)
        requires
            Self::stepped(pre, post, id),
        ensures
            post.helping(),
            post.core.pc@[id] != UniPc::Idle ==> post.budget(id) < pre.budget(id),
            forall|t: int| 0 <= t < pre.core.head@.len() && t != id ==> #[trigger] post.budget(t) == pre.budget(t),
    {
        Self::lemma_stepped_chain(pre, post, id);
        Self::lemma_stepped_bases(pre, post, id);
        Self::lemma_stepped_proposals(pre, post, id);
        Self::lemma_stepped_promises(pre, post, id);
        Self::lemma_stepped_budgets(pre, post, id);
    }

    /// Performs the next action of thread `id` in applying its operation,
    /// and returns the operation's answer once it has one.
    ///
    /// While its node is not numbered, the thread extends its own head
    /// numbered `s`: it proposes the node announced by thread `(s + 1) % n` if that
    /// node is not numbered yet, and its own node otherwise; then it learns
    /// the decided successor, links it, numbers it and moves its head to it,
    /// one action per step. Once its node is numbered, the thread moves its
    /// head to its node, replays the log up to it on a fresh object and
    /// answers.
    pub fn step(&mut self, id: usize) -> (r: Option<S::Resp>)
        requires
            old(self).wf(),
            id < old(self).threads(),
            old(self).pcs()[id as int] != UniPc::Idle,
        ensures
            final(self).wf(),
            final(self).threads() == old(self).threads(),
            log_grows(old(self).log(), final(self).log()),
            old(self).ops().is_prefix_of(final(self).ops()),
            final(self).announced() == old(self).announced(),
            forall|t: int| 0 <= t < old(self).threads() && t != id ==> #[trigger] final(self).pcs()[t] == old(self).pcs()[t],
            forall|t: int| 0 <= t < old(self).threads() && t != id ==> #[trigger] final(self).heads()[t] == old(self).heads()[t],
            r is None ==> final(self).budget(id as int) < old(self).budget(id as int),
            forall|t: int| 0 <= t < old(self).threads() && t != id ==> #[trigger] final(self).budget(t) == old(self).budget(t),
            match old(self).pcs()[id as int] {
                UniPc::Scan(new) => if old(self).log().numbered(new as int) {
                    &&& r == Some(
                        response_at::<S>(old(self).ops(), old(self).log().place_of(new as int) - 1),
                    )
                    &&& final(self).pcs()[id as int] == UniPc::Idle
                    &&& final(self).log() == old(self).log()
                    &&& final(self).heads() == old(self).heads().update(id as int, new)
                } else {
                    let before = old(self).heads()[id as int];
                    let help = old(self).announced()[(old(self).log().place_of(before as int) + 2) % (
                    old(self).threads() as int)];
                    let prefer = if help != 0 && !old(self).log().numbered(help as int) {
                        help
                    } else {
                        new
                    };
                    &&& r is None
                    &&& final(self).log() == old(self).log()
                    &&& final(self).heads() == old(self).heads()
                    &&& final(self).pcs()[id as int] == UniPc::Decide(new, prefer, before)
                },
                UniPc::Decide(new, prefer, before) => {
                    &&& r is None
                    &&& final(self).heads() == old(self).heads()
                    &&& before == old(self).log().end() ==> final(self).log().order() == old(
                        self,
                    ).log().order().push(prefer) && final(self).pcs()[id as int] == UniPc::Link(
                        new,
                        before,
                        prefer,
                    )
                    &&& before != old(self).log().end() ==> final(self).log().order() == old(
                        self,
                    ).log().order() && final(self).pcs()[id as int] == UniPc::Link(
                        new,
                        before,
                        chain_at(old(self).log().order(), old(self).log().place_of(before as int) + 1)
                            as usize,
                    )
                },
                UniPc::Link(new, before, after) => {
                    &&& r is None
                    &&& final(self).heads() == old(self).heads()
                    &&& final(self).log().order() == old(self).log().order()
                    &&& final(self).log().next_of(before as int) == after
                    &&& final(self).pcs()[id as int] == UniPc::Number(new, before, after)
                },
                UniPc::Number(new, before, after) => {
                    &&& r is None
                    &&& final(self).heads() == old(self).heads()
                    &&& final(self).log().order() == old(self).log().order()
                    &&& final(self).log().numbered(after as int)
                    &&& final(self).pcs()[id as int] == UniPc::Advance(new, before, after)
                },
                UniPc::Advance(new, before, after) => {
                    &&& r is None
                    &&& final(self).log() == old(self).log()
                    &&& final(self).heads() == old(self).heads().update(id as int, after)
                    &&& final(self).pcs()[id as int] == UniPc::Scan(new)
                    &&& old(self).log().place_of(after as int) == old(self).log().place_of(before as int) + 1
                    &&& old(self).log().place_of(before as int) >= old(self).log().place_of(
                        old(self).heads()[id as int] as int,
                    )
                },
                UniPc::Idle => false,
            },
    {
        let ghost pre = *self;
        proof {
            assert(pc_ok(pre.core.pc@[id as int], pre.core.log, pre.core.head@[id as int] as int));
            assert(pre.core.log.numbered(pre.core.head@[id as int] as int));
        }
        let r = match self.core.pc[id] {
            UniPc::Scan(new) => {
                if self.core.log.is_numbered(new) {
                    self.core.set_head(id, new);
                    Some(finish::<S>(&mut self.core, id))
                } else {
                    let before = self.core.head[id];
                    let n = self.core.head.len();
                    proof {
                        pre.core.log.lemma_place(before as int);
                        pre.core.log.lemma_order_len();
                    }
                    let s = self.core.log.seq(before);
                    let help = self.announce[(s + 1) % n];
                    let prefer = if help != 0 && !self.core.log.is_numbered(help) {
                        help
                    } else {
                        new
                    };
                    self.core.pick(id, prefer, before);
                    None
                }
            },
            UniPc::Decide(_, _, _) => {
                self.core.decide(id);
                None
            },
            UniPc::Link(_, _, _) => {
                self.core.link_step(id);
                None
            },
            UniPc::Number(_, _, _) => {
                self.core.number_step(id);
                None
            },
            _ => {
                self.core.advance(id);
                None
            },
        };
        proof {
            let log = self.core.log;
            let plog = pre.core.log;
            assert(log_grows(plog, log)) by {
                if log == plog {
                    assert(plog.order() =~= log.order().subrange(0, plog.order().len() as int));
                }
            }
            plog.lemma_ops_prefix(log);
            let n = self.core.head@.len() as int;
            assert forall|t: int| 0 <= t < n implies #[trigger] self.announce@[t] < self.core.log.size() by {
                assert(pre.announce@[t] < pre.core.log.size());
            }
            assert forall|t: int|
                0 <= t < n && #[trigger] self.core.pc@[t] != UniPc::Idle implies pc_node(self.core.pc@[t])
                == Some(self.announce@[t]) by {
                if t != id {
                    assert(self.core.pc@[t] == pre.core.pc@[t]);
                } else {
                    assert(pre.core.pc@[t] != UniPc::Idle);
                }
            }
            assert(Self::stepped(pre, *self, id as int));
            Self::lemma_stepped(pre, *self, id as int);
        }
        r
    }

    /// Node `y` is thread `id`'s own node `x`, or the node announced by
    /// another thread that had an operation in progress in `s`.
    pub open spec fn from_pending(s: Self, id: int, x: int, y: usize) -> bool {
        ||| y as int == x
        ||| exists|t: int|
            0 <= t < s.threads() && t != id && s.pcs()[t] != UniPc::Idle && y == #[trigger] s.announced()[t]
    }

    /// Thread `id` applies `op` by taking all its steps in a row, and
    /// returns the answer. On the way it may thread operations that other
    /// threads announced; its own goes last, and is answered as the
    /// sequential object answers it after all the operations before it.
    #[verifier::spinoff_prover]
    #[verifier::rlimit(40)]
    pub fn apply(&mut self, op: S::Op, id: usize) -> (r: S::Resp)
        requires
            old(self).wf(),
            id < old(self).threads(),
            old(self).pcs()[id as int] == UniPc::Idle,
            old(self).log().size() + 2 < usize::MAX,
        ensures
            final(self).wf(),
            final(self).threads() == old(self).threads(),
            old(self).ops().is_prefix_of(final(self).ops()),
            final(self).ops().len() > old(self).ops().len(),
            final(self).ops().last() == op,
            r == response_at::<S>(final(self).ops(), final(self).ops().len() - 1),
            final(self).pcs() == old(self).pcs(),
            final(self).announced() == old(self).announced().update(
                id as int,
                old(self).log().size() as usize,
            ),
            forall|t: int| 0 <= t < old(self).threads() && t != id ==> #[trigger] final(self).heads()[t] == old(self).heads()[t],
            final(self).log().size() == old(self).log().size() + 1,
            log_extends(old(self).log(), final(self).log()),
            forall|p: int|
                old(self).ops().len() <= p < final(self).ops().len() ==> Self::from_pending(
                    *old(self),
                    id as int,
                    old(self).log().size() as int,
                    #[trigger] final(self).log().order()[p],
                ),
            (forall|t: int| 0 <= t < old(self).threads() && t != id ==> #[trigger] old(self).pcs()[t]
                == UniPc::Idle) ==> final(self).ops() == old(self).ops().push(op),
    {
        let ghost start = *self;
        let ghost x = start.log().size() as int;
        self.invoke(op, id);
        loop
            invariant
                self.wf(),
                start == *old(self),
                start.wf(),
                self.threads() == start.threads(),
                id < start.threads(),
                start.pcs()[id as int] == UniPc::Idle,
                x == start.log().size(),
                self.log().size() == x + 1,
                log_extends(start.log(), self.log()),
                pc_node(self.pcs()[id as int]) == Some(x as usize),
                forall|p: int|
                    start.log().order().len() <= p < self.log().order().len() ==> Self::from_pending(
                        start,
                        id as int,
                        x,
                        #[trigger] self.log().order()[p],
                    ),
                self.pcs()[id as int] matches UniPc::Decide(_, pf, _) ==> Self::from_pending(start, id as int, x, pf),
                self.log().op_of(x) == Some(op),
                forall|y: int| 0 <= y < x ==> #[trigger] self.log().op_of(y) == start.log().op_of(y),
                start.log().order().is_prefix_of(self.log().order()),
                self.log().decided(x) ==> self.log().place_of(x) == self.log().order().len(),
                self.pcs()[id as int] is Scan ==> (self.log().decided(x) ==> self.log().numbered(x)),
                self.pcs()[id as int] is Decide ==> !self.log().decided(x),
                self.pcs()[id as int] matches UniPc::Link(_, _, a) ==> (self.log().decided(x) ==> a == x),
                self.pcs()[id as int] matches UniPc::Number(_, _, a) ==> (self.log().decided(x) ==> a == x),
                self.pcs()[id as int] matches UniPc::Advance(_, _, a) ==> self.log().numbered(a as int)
                    && (self.log().decided(x) ==> a == x),
                self.announced() == start.announced().update(id as int, x as usize),
                forall|t: int| 0 <= t < start.threads() && t != id ==> #[trigger] self.pcs()[t] == start.pcs()[t],
                forall|t: int| 0 <= t < start.threads() && t != id ==> #[trigger] self.heads()[t] == start.heads()[t],
            decreases
                self.log().undecided(),
                self.log().order().len() - self.log().place_of(self.heads()[id as int] as int),
                phase_rank(self.pcs()[id as int]),
        {
            let ghost pre = *self;
            proof {
                assert(pre.core.log.numbered(pre.core.head@[id as int] as int));
                assert(pc_ok(pre.core.pc@[id as int], pre.core.log, pre.core.head@[id as int] as int));
                pre.core.log.lemma_place(pre.core.head@[id as int] as int);
                pre.core.log.lemma_place(x);
                pre.core.log.lemma_order_len();
                pre.core.log.lemma_chain(pre.core.log.order().len() as int);
            }
            let r = self.step(id);
            proof {
                lemma_grows_extends(pre.log(), self.log());
                lemma_extends_trans(start.log(), pre.log(), self.log());
                let plog = pre.log();
                let log = self.log();
                let size = log.size() as int;
                assert(log.numbered(self.core.head@[id as int] as int));
                log.lemma_place(self.core.head@[id as int] as int);
                log.lemma_place(x);
                assert(start.log().order().is_prefix_of(log.order())) by {
                    assert(start.log().order() =~= log.order().subrange(0, start.log().order().len() as int));
                }
                let q = |k: int| !plog.decided(k);
                let p = |k: int| !log.decided(k);
                assert forall|k: int| 0 <= k < size && #[trigger] p(k) implies q(k) by {}
                assert(plog.undecided() == count_below(size, q));
                assert(log.undecided() == count_below(size, p));
                crate::count::lemma_count_mono(size, p, q);
                match pre.pcs()[id as int] {
                    UniPc::Scan(nw) => {
                        if !plog.numbered(nw as int) {
                            let n = pre.threads() as int;
                            let hi = (plog.place_of(pre.heads()[id as int] as int) + 2) % n;
                            vstd::arithmetic::div_mod::lemma_mod_bound(
                                plog.place_of(pre.heads()[id as int] as int) + 2,
                                n,
                            );
                            let help = pre.announced()[hi];
                            if hi != id && help != 0 && !plog.numbered(help as int) {
                                assert(pre.core.pc@[hi] != UniPc::Idle);
                                assert(pre.pcs()[hi] == start.pcs()[hi]);
                                assert(start.announced()[hi] == help);
                            }
                        }
                    },
                    UniPc::Decide(nw, pf, bf) => {
                        if bf as int == plog.end() {
                            plog.lemma_place(pf as int);
                            log.lemma_chain(plog.order().len() + 1int);
                            assert(log.decided(pf as int));
                            lemma_count_strict(size, p, q, pf as int);
                            if pf as int != x {
                                if log.decided(x) {
                                    assert(chain_at(log.order(), log.place_of(x)) == x);
                                }
                            }
                        }
                    },
                    UniPc::Advance(nw, bf, af) => {
                        log.lemma_place(af as int);
                    },
                    _ => {},
                }
            }
            match r {
                Some(v) => {
                    proof {
                        let log = self.log();
                        let slog = start.log();
                        assert(slog.inv());
                        assert(log.inv());
                        slog.lemma_ops_prefix(log);
                        log.lemma_place(x);
                        assert(log.order()[log.order().len() - 1] == x);
                        assert(self.pcs() =~= start.pcs());
                        let len0 = slog.order().len() as int;
                        if forall|t: int| 0 <= t < start.threads() && t != id ==> #[trigger] start.pcs()[t]
                            == UniPc::Idle {
                            assert forall|p: int| len0 <= p < log.order().len() implies #[trigger] log.order()[p]
                                == x by {
                                assert(Self::from_pending(start, id as int, x, log.order()[p]));
                            }
                            if log.order().len() > len0 + 1 {
                                assert(log.order()[len0] == log.order()[log.order().len() - 1]);
                                assert(false);
                            }
                            assert forall|p: int| 0 <= p < log.ops().len() implies #[trigger] log.ops()[p]
                                == slog.ops().push(op)[p] by {
                                if p < len0 {
                                    assert(log.ops()[p] == slog.ops()[p]);
                                }
                            }
                            assert(log.ops() =~= slog.ops().push(op));
                        }
                    }
                    return v;
                },
                None => {},
            }
        }
    }
}


/// An operation on a stack.
#[derive(Clone, Copy, PartialEq, Eq, Debug)]
pub enum StackOp<T> {
    /// Puts an item on top.
    Push(T),
    /// Takes the top item off, if there is one.
    Pop,
}

/// A stack, as a sequential object: its view lists the items from bottom
/// to top.
pub struct Stack<T> {
    inner: Vec<T>,
}

impl<T> View for Stack<T> {
    type V = Seq<T>;

    closed spec fn view(&self) -> Seq<T> {
        self.inner@
    }
}

impl<T: Copy> SeqObject for Stack<T> {
    type Op = StackOp<T>;

    type Resp = Option<T>;

    open spec fn spec_init() -> Seq<T> {
        Seq::empty()
    }

    open spec fn spec_apply(state: Seq<T>, op: StackOp<T>) -> (Seq<T>, Option<T>) {
        match op {
            StackOp::Push(item) => (state.push(item), None),
            StackOp::Pop => if state.len() == 0 {
                (state, None)
            } else {
                (state.drop_last(), Some(state.last()))
            },
        }
    }

    fn init() -> (r: Self) {
        Stack { inner: Vec::new() }
    }

    fn apply(&mut self, op: &StackOp<T>) -> (r: Option<T>)
        ensures
            match *op {
                StackOp::Push(item) => final(self)@ == old(self)@.push(item) && r is None,
                StackOp::Pop => if old(self)@.len() == 0 {
                    final(self)@ == old(self)@ && r is None
                } else {
                    final(self)@ == old(self)@.drop_last() && r == Some(old(self)@.last())
                },
            },
    {
        match op {
            StackOp::Push(item) => {
                self.inner.push(*item);
                None
            },
            StackOp::Pop => {
                let r = self.inner.pop();
                proof {
                    if old(self)@.len() > 0 {
                        assert(self.inner@ =~= old(self)@.drop_last());
                    }
                }
                r
            },
        }
    }
}


/// A push puts the item on top of the stack, above everything that was
/// there, and answers nothing.
pub proof fn lemma_stack_push<T: Copy>(s: Seq<T>, v: T)
    ensures
        Stack::<T>::spec_apply(s, StackOp::Push(v)).0 == s.push(v),
        Stack::<T>::spec_apply(s, StackOp::Push(v)).0.last() == v,
        Stack::<T>::spec_apply(s, StackOp::Push(v)).0.drop_last() == s,
        Stack::<T>::spec_apply(s, StackOp::Push(v)).1 is None,
{
    assert(s.push(v).drop_last() =~= s);
}

/// A pop on a stack with items answers the top item, the one pushed last,
/// and removes exactly that item; a pop on an empty stack answers nothing
/// and changes nothing.
pub proof fn lemma_stack_pop<T: Copy>(s: Seq<T>)
    ensures
        s.len() > 0 ==> Stack::<T>::spec_apply(s, StackOp::Pop).1 == Some(s[s.len() - 1]),
        s.len() > 0 ==> Stack::<T>::spec_apply(s, StackOp::Pop).0 == s.subrange(0, s.len() - 1),
        s.len() == 0 ==> Stack::<T>::spec_apply(s, StackOp::Pop) == (s, None::<T>),
{
}

/// Last in, first out: whatever the stack holds, popping right after
/// pushing `v` answers `v` and gives back the stack as it was before the
/// push.
pub proof fn lemma_stack_last_in_first_out<T: Copy>(s: Seq<T>, v: T)
    ensures
        ({
            let (pushed, r1) = Stack::<T>::spec_apply(s, StackOp::Push(v));
            let (popped, r2) = Stack::<T>::spec_apply(pushed, StackOp::Pop);
            r1 is None && r2 == Some(v) && popped == s
        }),
{
    lemma_stack_push(s, v);
    lemma_stack_pop(s.push(v));
    assert(s.push(v).subrange(0, s.len() as int) =~= s);
}

/// Pushes and pops answer as a last-in-first-out stack whatever the
/// operations before them: after pushing `a` and then `b` onto any stack,
/// two pops answer `b`, then `a`, and give back the stack.
pub proof fn lemma_stack_pops_in_reverse<T: Copy>(s: Seq<T>, a: T, b: T)
    ensures
        ({
            let s1 = Stack::<T>::spec_apply(s, StackOp::Push(a)).0;
            let s2 = Stack::<T>::spec_apply(s1, StackOp::Push(b)).0;
            let (s3, r3) = Stack::<T>::spec_apply(s2, StackOp::Pop);
            let (s4, r4) = Stack::<T>::spec_apply(s3, StackOp::Pop);
            r3 == Some(b) && r4 == Some(a) && s4 == s
        }),
{
    lemma_stack_last_in_first_out(s, a);
    lemma_stack_last_in_first_out(s.push(a), b);
    lemma_stack_push(s, a);
}

} // verus!
