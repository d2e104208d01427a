use relaxed_memory_concurrency::consensus::multi_consensus::Assign;
use relaxed_memory_concurrency::consensus::{
    CasConsensus, Common2Consensus, Consensus, MultiConsensus, QueueConsensus,
};

/// Threads `order[0]`, `order[1]`, ... decide their own id in that order;
/// every thread must learn the same value, the id of the first one.
fn decide_in_order<C: Consensus<usize>>(c: &mut C, order: &[usize]) -> Vec<usize> {
    order.iter().map(|&id| *c.decide(id, id)).collect()
}

fn all_agree(proposes: &[usize]) -> bool {
    proposes.iter().all(|&p| p == proposes[0])
}

/// A permutation of `0..n` that is not the identity.
fn shuffled(n: usize) -> Vec<usize> {
    let mut order: Vec<usize> = (0..n).collect();
    let mut seed: u64 = 0x2545_f491_4f6c_dd1d;
    for i in (1..n).rev() {
        seed = seed.wrapping_mul(6364136223846793005).wrapping_add(1442695040888963407);
        let j = (seed >> 33) as usize % (i + 1);
        order.swap(i, j);
    }
    order
}

#[test]
fn multi_consensus() {
    let mut c = MultiConsensus::new(20);
    let order = shuffled(20);
    let proposes = decide_in_order(&mut c, &order);
    assert!(all_agree(&proposes));
    assert_eq!(proposes[0], order[0]);
}

#[test]
fn cas_consensus() {
    let mut c = CasConsensus::new(20);
    let order = shuffled(20);
    let proposes = decide_in_order(&mut c, &order);
    assert!(all_agree(&proposes));
    assert_eq!(proposes[0], order[0]);
}

fn two_threads_agree<C: Consensus<usize> + Default>() {
    for order in [[0usize, 1], [1, 0]] {
        let mut c = C::default();
        let t1 = *c.decide(order[0], order[0]);
        let t2 = *c.decide(order[1], order[1]);
        assert_eq!(t1, t2);
    }
}

#[test]
fn queue_consensus() {
    two_threads_agree::<QueueConsensus<usize>>();
}

#[test]
fn consensus_multi_consensus() {
    two_threads_agree::<MultiConsensus<usize>>();
}

#[test]
fn common2_consensus() {
    two_threads_agree::<Common2Consensus<usize>>();
}

#[test]
fn consensus_cas_consensus() {
    two_threads_agree::<CasConsensus<usize>>();
}

#[test]
fn first_decider_wins_with_other_values() {
    let mut c = CasConsensus::new(3);
    assert_eq!(*c.decide(7, 2), 7);
    assert_eq!(*c.decide(9, 0), 7);
    assert_eq!(*c.decide(11, 1), 7);

    let mut q = QueueConsensus::new(2);
    assert_eq!(*q.decide(40, 1), 40);
    assert_eq!(*q.decide(41, 0), 40);

    let mut g = Common2Consensus::new(2);
    assert_eq!(*g.decide(5, 0), 5);
    assert_eq!(*g.decide(6, 1), 5);

    let mut m = MultiConsensus::new(4);
    assert_eq!(*m.decide(100, 3), 100);
    assert_eq!(*m.decide(101, 1), 100);
    assert_eq!(*m.decide(102, 0), 100);
    assert_eq!(*m.decide(103, 2), 100);
}

#[test]
fn single_thread_consensus() {
    let mut c = CasConsensus::new(1);
    assert_eq!(*c.decide(3, 0), 3);
    let mut m = MultiConsensus::new(1);
    assert_eq!(*m.decide(4, 0), 4);
    let mut q = QueueConsensus::new(1);
    assert_eq!(*q.decide(5, 0), 5);
}

#[test]
fn assign_table_layout() {
    // Four threads: slots 0..4 are the threads', then the pairs row by row.
    let a = Assign::new(4);
    assert_eq!(a.read().len(), 10);
    assert_eq!(a.index(0, 1), 4);
    assert_eq!(a.index(0, 3), 6);
    assert_eq!(a.index(1, 2), 7);
    assert_eq!(a.index(1, 3), 8);
    assert_eq!(a.index(2, 3), 9);
}

#[test]
fn assign_writes_own_and_shared_slots() {
    let mut a = Assign::new(3);
    a.assign(1, 1);
    // slots: [t0, t1, t2, (0,1), (0,2), (1,2)]
    assert_eq!(a.read().clone(), vec![-1, 1, -1, 1, -1, 1]);
    a.assign(2, 2);
    assert_eq!(a.read().clone(), vec![-1, 1, 2, 1, 2, 2]);
}

fn interleaved_steps<C: Consensus<usize> + Default>() {
    // both threads write their proposals before either commits
    let mut c = C::default();
    c.propose(10, 0);
    c.propose(11, 1);
    assert_eq!(*c.commit(1), 11);
    assert_eq!(*c.commit(0), 11);
    // the later proposer may still win when it commits first
    let mut c = C::default();
    c.propose(20, 1);
    c.propose(21, 0);
    assert_eq!(*c.commit(0), 21);
    assert_eq!(*c.commit(1), 21);
}

#[test]
fn proposals_and_commits_interleave() {
    interleaved_steps::<CasConsensus<usize>>();
    interleaved_steps::<Common2Consensus<usize>>();
    interleaved_steps::<QueueConsensus<usize>>();
    interleaved_steps::<MultiConsensus<usize>>();
}

#[test]
fn multi_consensus_reads_after_later_assignments() {
    let mut m = MultiConsensus::new(3);
    m.propose(30, 2);
    m.propose(31, 0);
    m.propose(32, 1);
    m.assign_step(0);
    m.assign_step(2);
    // thread 2 reads after both assignments: thread 0 assigned first
    assert_eq!(*m.read_decision(), 31);
    m.assign_step(1);
    assert_eq!(*m.read_decision(), 31);
}

#[test]
fn consensus_on_values_that_are_not_copy() {
    let mut c = CasConsensus::<String>::new(2);
    assert_eq!(c.decide(String::from("first"), 1), "first");
    assert_eq!(c.decide(String::from("second"), 0), "first");
    let mut q = QueueConsensus::<Vec<u8>>::new(2);
    assert_eq!(q.decide(vec![1, 2], 0), &vec![1, 2]);
    assert_eq!(q.decide(vec![3], 1), &vec![1, 2]);
}
