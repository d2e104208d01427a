use relaxed_memory_concurrency::universal::{LFUniversal, Stack, WFUniversal};

type StackOp = relaxed_memory_concurrency::universal::StackOp<usize>;

/// The two constructions behind one interface, for the tests.
trait Universal {
    fn make(n: usize) -> Self;
    fn start(&mut self, op: StackOp, id: usize);
    fn advance(&mut self, id: usize) -> Option<Option<usize>>;
    fn run(&mut self, op: StackOp, id: usize) -> Option<usize>;
}

impl Universal for LFUniversal<Stack<usize>> {
    fn make(n: usize) -> Self {
        LFUniversal::new(n)
    }
    fn start(&mut self, op: StackOp, id: usize) {
        self.invoke(op, id)
    }
    fn advance(&mut self, id: usize) -> Option<Option<usize>> {
        self.step(id)
    }
    fn run(&mut self, op: StackOp, id: usize) -> Option<usize> {
        self.apply(op, id)
    }
}

impl Universal for WFUniversal<Stack<usize>> {
    fn make(n: usize) -> Self {
        WFUniversal::new(n)
    }
    fn start(&mut self, op: StackOp, id: usize) {
        self.invoke(op, id)
    }
    fn advance(&mut self, id: usize) -> Option<Option<usize>> {
        self.step(id)
    }
    fn run(&mut self, op: StackOp, id: usize) -> Option<usize> {
        self.apply(op, id)
    }
}

/// Runs `scripts[t]` on thread `t` for every thread, interleaving their
/// steps by `next`; returns each thread's answers in order.
fn run_scripts<U: Universal>(
    u: &mut U,
    scripts: &[Vec<StackOp>],
    mut next: impl FnMut() -> usize,
) -> Vec<Vec<Option<usize>>> {
    let n = scripts.len();
    let mut answers: Vec<Vec<Option<usize>>> = vec![Vec::new(); n];
    let mut pos = vec![0usize; n];
    let mut busy = vec![false; n];
    let mut active = scripts.iter().filter(|s| !s.is_empty()).count();
    while active > 0 {
        let id = next() % n;
        if pos[id] == scripts[id].len() {
            continue;
        }
        if !busy[id] {
            u.start(scripts[id][pos[id]], id);
            busy[id] = true;
        } else if let Some(answer) = u.advance(id) {
            answers[id].push(answer);
            busy[id] = false;
            pos[id] += 1;
            if pos[id] == scripts[id].len() {
                active -= 1;
            }
        }
    }
    answers
}

fn round_robin() -> impl FnMut() -> usize {
    let mut t = 0usize;
    move || {
        t += 1;
        t - 1
    }
}

fn pseudo_random(seed: u64) -> impl FnMut() -> usize {
    let mut s = seed;
    move || {
        s = s.wrapping_mul(6364136223846793005).wrapping_add(1442695040888963407);
        (s >> 33) as usize
    }
}

/// Every thread pushes an item and then pops; every pop finds an item.
fn push_pop<U: Universal>(threads: usize, items: usize) {
    let mut u = U::make(threads);
    let scripts: Vec<Vec<StackOp>> = (0..threads)
        .map(|_| (0..items).flat_map(|item| [StackOp::Push(item), StackOp::Pop]).collect())
        .collect();
    let answers = run_scripts(&mut u, &scripts, round_robin());
    for t in 0..threads {
        for k in 0..items {
            assert_eq!(answers[t][2 * k], None);
            assert!(answers[t][2 * k + 1].is_some());
        }
    }
}

#[test]
fn lf_universal() {
    push_pop::<LFUniversal<Stack<usize>>>(20, 500);
}

#[test]
fn wf_universal() {
    push_pop::<WFUniversal<Stack<usize>>>(20, 500);
}

/// Thread 0 pushes 0 while thread 1 pops; a pop that finds an item finds 0.
fn push_against_pop<U: Universal>() {
    for seed in 0..200u64 {
        let mut u = U::make(2);
        let scripts = vec![vec![StackOp::Push(0)], vec![StackOp::Pop]];
        let answers = run_scripts(&mut u, &scripts, pseudo_random(seed));
        if let Some(item) = answers[1][0] {
            assert_eq!(item, 0);
        }
    }
}

#[test]
fn universal_lf_universal() {
    push_against_pop::<LFUniversal<Stack<usize>>>();
}

#[test]
fn universal_wf_universal() {
    push_against_pop::<WFUniversal<Stack<usize>>>();
}

fn sequential_apply<U: Universal>() {
    let mut u = U::make(3);
    assert_eq!(u.run(StackOp::Pop, 1), None);
    assert_eq!(u.run(StackOp::Push(4), 0), None);
    assert_eq!(u.run(StackOp::Push(5), 2), None);
    assert_eq!(u.run(StackOp::Pop, 1), Some(5));
    assert_eq!(u.run(StackOp::Pop, 0), Some(4));
    assert_eq!(u.run(StackOp::Pop, 2), None);
}

#[test]
fn lf_sequential_apply() {
    sequential_apply::<LFUniversal<Stack<usize>>>();
}

#[test]
fn wf_sequential_apply() {
    sequential_apply::<WFUniversal<Stack<usize>>>();
}

#[test]
fn wf_apply_helps_announced_node() {
    let mut u = WFUniversal::<Stack<usize>>::new(2);
    // the log gets one node, numbered 2
    assert_eq!(u.apply(StackOp::Push(1), 0), None);
    // thread 1 announces a push but takes no further step
    u.invoke(StackOp::Push(9), 1);
    // thread 0 extends node 2, so it first offers the node of thread
    // (2 + 1) % 2 = 1; its own pop comes after and finds 9
    assert_eq!(u.apply(StackOp::Pop, 0), Some(9));
    // thread 1 finds its node threaded and answers
    let mut answer = u.step(1);
    while answer.is_none() {
        answer = u.step(1);
    }
    assert_eq!(answer, Some(None));
}

#[test]
fn wf_answers_within_own_step_bound() {
    let n = 4usize;
    for seed in 0..100u64 {
        let mut u = WFUniversal::<Stack<usize>>::new(n);
        let mut next = pseudo_random(seed);
        let mut busy = vec![false; n];
        // the other threads run for a while before thread 0 starts
        for _ in 0..(seed as usize % 40) {
            let t = 1 + next() % (n - 1);
            if !busy[t] {
                u.invoke(StackOp::Push(t), t);
                busy[t] = true;
            } else if u.step(t).is_some() {
                busy[t] = false;
            }
        }
        u.invoke(StackOp::Pop, 0);
        let mut own_steps = 0usize;
        loop {
            let t = next() % n;
            if t == 0 {
                own_steps += 1;
                if u.step(0).is_some() {
                    break;
                }
            } else if !busy[t] {
                u.invoke(StackOp::Push(t), t);
                busy[t] = true;
            } else if u.step(t).is_some() {
                busy[t] = false;
            }
        }
        assert!(own_steps <= 5 * n + 20);
    }
}

#[test]
fn wf_one_thread_push_then_pop() {
    let mut w = WFUniversal::<Stack<usize>>::new(2);
    assert_eq!(w.apply(StackOp::Push(5), 0), None);
    assert_eq!(w.apply(StackOp::Pop, 0), Some(5));
}

#[test]
fn lf_one_thread_push_push_pop() {
    let mut u = LFUniversal::<Stack<usize>>::new(2);
    assert_eq!(u.apply(StackOp::Push(1), 0), None);
    assert_eq!(u.apply(StackOp::Push(2), 0), None);
    assert_eq!(u.apply(StackOp::Pop, 0), Some(2));
}
