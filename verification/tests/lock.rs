use relaxed_memory_concurrency::lock::peterson_lock::PetersonLock as TwoThreadLock;
use relaxed_memory_concurrency::lock::{
    BakeryLock, BoundedLock, BoundedRawLock, FilterLock, PetersonLock,
};

/// What a thread does next in the test program `loop { lock; x = v; v = x + 1; unlock }`.
#[derive(Clone, Copy)]
enum Phase {
    Locking,
    Read,
    Write(usize),
    Unlock,
    Done,
}

/// Runs `n` threads that each increment the guarded counter `rounds` times,
/// reading and writing it in separate steps, under the given schedule of
/// thread ids; returns the final counter.
fn run_counter<L: BoundedRawLock>(n: usize, rounds: usize, mut next: impl FnMut() -> usize) -> usize {
    let mut lock = BoundedLock::<L, usize>::new(n, 0);
    let mut phase = vec![Phase::Locking; n];
    let mut left = vec![rounds; n];
    let mut active = if rounds == 0 { 0 } else { n };
    while active > 0 {
        let id = next() % n;
        phase[id] = match phase[id] {
            Phase::Locking => {
                if lock.lock(id) {
                    Phase::Read
                } else {
                    Phase::Locking
                }
            }
            Phase::Read => Phase::Write(*lock.get(id)),
            Phase::Write(x) => {
                lock.set(id, x + 1);
                Phase::Unlock
            }
            Phase::Unlock => {
                lock.unlock(id);
                left[id] -= 1;
                if left[id] == 0 {
                    active -= 1;
                    Phase::Done
                } else {
                    Phase::Locking
                }
            }
            Phase::Done => Phase::Done,
        };
    }
    // thread 0 takes the lock once more and reads the counter
    let mut lock = lock;
    while !lock.lock(0) {}
    let value = *lock.get(0);
    lock.unlock(0);
    value
}

fn round_robin() -> impl FnMut() -> usize {
    let mut t = 0usize;
    move || {
        t += 1;
        t - 1
    }
}

fn pseudo_random(seed: u64) -> impl FnMut() -> usize {
    let mut s = seed;
    move || {
        s = s.wrapping_mul(6364136223846793005).wrapping_add(1442695040888963407);
        (s >> 33) as usize
    }
}

fn test_lock<L: BoundedRawLock>(n: usize) {
    assert_eq!(run_counter::<L>(n, 500, round_robin()), 500 * n);
}

#[test]
fn peterson_lock() {
    test_lock::<PetersonLock>(2);
}

#[test]
fn filter_lock() {
    test_lock::<FilterLock>(20);
}

#[test]
fn bakery_lock() {
    test_lock::<BakeryLock>(20);
}

fn test_lock_schedules<L: BoundedRawLock>(n: usize) {
    for seed in 0..200u64 {
        assert_eq!(run_counter::<L>(n, 1, pseudo_random(seed)), n);
    }
}

#[test]
fn lock_peterson_lock() {
    test_lock_schedules::<PetersonLock>(2);
}

#[test]
fn lock_filter_lock() {
    test_lock_schedules::<FilterLock>(2);
}

#[test]
fn lock_bakery_lock() {
    test_lock_schedules::<BakeryLock>(2);
}

#[test]
fn locks_under_random_schedules() {
    for seed in 0..20u64 {
        assert_eq!(run_counter::<FilterLock>(5, 20, pseudo_random(seed)), 100);
        assert_eq!(run_counter::<BakeryLock>(5, 20, pseudo_random(seed)), 100);
        assert_eq!(run_counter::<PetersonLock>(2, 50, pseudo_random(seed)), 100);
    }
}

#[test]
fn peterson_steps() {
    let mut l = TwoThreadLock::new();
    // thread 0 raises its flag, becomes victim, reads thread 1's flag (down): enters
    assert!(!l.lock(0));
    assert!(!l.lock(0));
    assert!(l.lock(0));
    // thread 1 raises its flag and becomes victim, then waits
    assert!(!l.lock(1));
    assert!(!l.lock(1));
    assert!(!l.lock(1)); // reads flag[0]: up
    assert!(!l.lock(1)); // reads victim: itself, keeps waiting
    l.unlock(0);
    assert!(l.lock(1)); // reads flag[0]: down now, enters
    l.unlock(1);
}

#[test]
fn filter_single_thread_enters_at_once() {
    let mut l = FilterLock::new(1);
    assert!(l.lock(0));
    l.unlock(0);
    assert!(l.lock(0));
}

#[test]
fn bakery_waits_for_earlier_ticket() {
    let mut l = BakeryLock::new(2);
    // thread 0: flag, read labels 0 and 1, write label 1
    for _ in 0..4 {
        assert!(!l.lock(0));
    }
    // thread 1: flag, read labels (sees 1), write label 2
    for _ in 0..4 {
        assert!(!l.lock(1));
    }
    // thread 1 checks thread 0: flag up, ticket (1, 0) is earlier: waits
    assert!(!l.lock(1));
    assert!(!l.lock(1));
    assert!(!l.lock(1));
    // thread 0 checks itself and thread 1 (ticket (2, 1) later): enters
    let mut entered = false;
    for _ in 0..4 {
        if l.lock(0) {
            entered = true;
            break;
        }
    }
    assert!(entered);
    l.unlock(0);
    let mut entered1 = false;
    for _ in 0..6 {
        if l.lock(1) {
            entered1 = true;
            break;
        }
    }
    assert!(entered1);
}

#[test]
fn bakery_first_come_first_served() {
    let mut l = BakeryLock::new(3);
    // thread 0 raises its flag, reads the three labels and takes label 1
    for _ in 0..5 {
        assert!(!l.lock(0));
    }
    // thread 2 arrives after: whatever it does, it does not get the lock
    // while thread 0 holds its ticket
    for _ in 0..200 {
        assert!(!l.lock(2));
    }
    // thread 0 gets the lock first
    let mut steps = 0;
    while !l.lock(0) {
        steps += 1;
        assert!(steps < 20);
    }
    l.unlock(0);
    let mut steps = 0;
    while !l.lock(2) {
        steps += 1;
        assert!(steps < 20);
    }
}

#[test]
fn peterson_bounded_bypass() {
    let mut l = TwoThreadLock::new();
    // thread 1 raises its flag and makes itself the victim
    assert!(!l.lock(1));
    assert!(!l.lock(1));
    // thread 0 does the same: it waits from now on
    assert!(!l.lock(0));
    assert!(!l.lock(0));
    // thread 1 is no longer the victim: it enters once
    assert!(!l.lock(1));
    assert!(l.lock(1));
    l.unlock(1);
    // coming back, thread 1 makes itself the victim and cannot enter
    for _ in 0..100 {
        assert!(!l.lock(1));
    }
    // thread 0 enters
    assert!(!l.lock(0));
    assert!(l.lock(0));
}

#[test]
fn peterson_release_lets_waiter_in() {
    let mut l = TwoThreadLock::new();
    // thread 0 enters alone in three actions
    assert!(!l.lock(0));
    assert!(!l.lock(0));
    assert!(l.lock(0));
    // thread 1 raises its flag, makes itself the victim and waits
    assert!(!l.lock(1));
    assert!(!l.lock(1));
    for _ in 0..10 {
        assert!(!l.lock(1));
    }
    // once thread 0 releases, thread 1 enters within two actions
    l.unlock(0);
    let entered = l.lock(1) || l.lock(1);
    assert!(entered);
}
