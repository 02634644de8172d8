use concurrent_sharded_stack::{
    check_shard_count, ConcurrentShardedStack, PopError, PushError, ShardCountError,
};
use std::sync::atomic::{AtomicUsize, Ordering};
use std::sync::Arc;

/// The thread that all operations of a single-threaded test run on.
const ME: usize = 0;

#[derive(Debug)]
struct DropCounter {
    counter: Arc<AtomicUsize>,
}

impl DropCounter {
    fn new(counter: Arc<AtomicUsize>) -> Self {
        Self { counter }
    }
}

impl Drop for DropCounter {
    fn drop(&mut self) {
        self.counter.fetch_add(1, Ordering::Relaxed);
    }
}

#[test]
fn new_requires_power_of_two() {
    let s = ConcurrentShardedStack::<usize>::with_concurrency(4);
    assert_eq!(s.shard_count(), 4);
}

#[test]
#[should_panic]
fn new_panics_if_not_power_of_two() {
    check_shard_count(3).unwrap();
    let _ = ConcurrentShardedStack::<usize>::with_concurrency(3);
}

#[test]
#[should_panic]
fn new_panics_if_too_many_shards() {
    check_shard_count((usize::BITS as usize) * 2).unwrap();
    let _ = ConcurrentShardedStack::<usize>::with_concurrency((usize::BITS as usize) * 2);
}

#[test]
fn shard_counts_that_do_not_exist() {
    assert_eq!(check_shard_count(0), Err(ShardCountError::Zero));
    assert_eq!(check_shard_count(3), Err(ShardCountError::NotPowerOfTwo));
    assert_eq!(
        check_shard_count((usize::BITS as usize) * 2),
        Err(ShardCountError::TooMany)
    );
    assert_eq!(check_shard_count(1), Ok(()));
    assert_eq!(check_shard_count(usize::BITS as usize), Ok(()));
}

#[test]
fn push_pop_single_thread() {
    let mut s = ConcurrentShardedStack::with_concurrency(4);

    s.push(ME, 1).unwrap();
    s.push(ME, 2).unwrap();
    s.push(ME, 3).unwrap();

    assert_eq!(s.pop(ME).unwrap(), 3);
    assert_eq!(s.pop(ME).unwrap(), 2);
    assert_eq!(s.pop(ME).unwrap(), 1);

    assert_eq!(s.pop(ME), Err(PopError::Empty));
}

#[test]
fn close_works() {
    let mut s = ConcurrentShardedStack::with_concurrency(4);

    assert!(s.push(ME, 1).is_ok());

    assert!(s.close());
    assert!(!s.close());

    assert_eq!(s.push(ME, 2), Err(PushError::Closed(2)));

    assert_eq!(s.pop(ME).unwrap(), 1);
    assert_eq!(s.pop(ME), Err(PopError::Closed));
}

#[test]
fn close_after_drain_returns_closed() {
    let mut s = ConcurrentShardedStack::with_concurrency(4);

    for i in 0..100 {
        s.push(ME, i).unwrap();
    }

    assert!(s.close());

    let mut count = 0;

    loop {
        match s.pop(ME) {
            Ok(_) => count += 1,
            Err(PopError::Empty) => continue,
            Err(PopError::Closed) => break,
        }
    }

    assert_eq!(count, 100);
}

#[test]
fn popped_values_are_dropped_exactly_once() {
    let counter = Arc::new(AtomicUsize::new(0));
    let mut s = ConcurrentShardedStack::with_concurrency(4);

    for _ in 0..50 {
        s.push(ME, DropCounter::new(Arc::clone(&counter))).unwrap();
    }

    let mut popped = 0;
    while let Ok(value) = s.pop(ME) {
        drop(value);
        popped += 1;
    }

    assert_eq!(popped, 50);

    drop(s);

    assert_eq!(counter.load(Ordering::Relaxed), 50);
}

#[test]
fn remaining_values_are_dropped_when_stack_is_dropped() {
    let counter = Arc::new(AtomicUsize::new(0));

    {
        let mut s = ConcurrentShardedStack::with_concurrency(4);
        for _ in 0..30 {
            s.push(ME, DropCounter::new(Arc::clone(&counter))).unwrap();
        }
    }

    assert_eq!(counter.load(Ordering::Relaxed), 30);
}

#[test]
fn partially_drained_stack_drops_each_value_once() {
    let counter = Arc::new(AtomicUsize::new(0));

    {
        let mut s = ConcurrentShardedStack::with_concurrency(4);
        for _ in 0..40 {
            s.push(ME, DropCounter::new(Arc::clone(&counter))).unwrap();
        }

        for _ in 0..15 {
            let _ = s.pop(ME).unwrap();
        }
    }

    assert_eq!(counter.load(Ordering::Relaxed), 40);
}

#[test]
fn shard_count_follows_the_parallelism() {
    assert_eq!(ConcurrentShardedStack::<u8>::new(None).shard_count(), 4);
    assert_eq!(ConcurrentShardedStack::<u8>::new(Some(1)).shard_count(), 1);
    assert_eq!(ConcurrentShardedStack::<u8>::new(Some(6)).shard_count(), 8);
    assert_eq!(ConcurrentShardedStack::<u8>::new(Some(16)).shard_count(), 16);
    assert_eq!(
        ConcurrentShardedStack::<u8>::new(Some(1000)).shard_count(),
        usize::BITS as usize
    );
}

#[test]
fn own_shard_first_and_then_the_nearest() {
    let mut s = ConcurrentShardedStack::with_concurrency(4);
    s.push(3, "three").unwrap();
    s.push(1, "one").unwrap();
    s.push(2, "two").unwrap();

    assert_eq!(s.pop(2), Ok("two"));
    assert_eq!(s.pop(0), Ok("one"));
    assert_eq!(s.pop(0), Ok("three"));
    assert_eq!(s.pop(0), Err(PopError::Empty));

    s.push(0, "far").unwrap();
    s.push(2, "near").unwrap();
    assert_eq!(s.pop(3), Ok("near"));
    assert_eq!(s.pop(3), Ok("far"));
}

#[test]
fn thread_ids_wrap_round() {
    let mut s = ConcurrentShardedStack::with_concurrency(4);
    s.push(6, 'a').unwrap();
    s.push(2, 'b').unwrap();
    assert_eq!(s.pop(usize::MAX - 1), Ok('b'));
    assert_eq!(s.pop(2), Ok('a'));
}

#[test]
fn values_of_many_threads_all_come_back() {
    let mut s = ConcurrentShardedStack::with_concurrency(8);
    for thread in 0..8 {
        for i in 0..100 {
            s.push(thread, thread * 100 + i).unwrap();
        }
    }
    let mut seen = vec![0; 800];
    let mut thread = 0;
    while let Ok(value) = s.pop(thread % 8) {
        seen[value] += 1;
        thread += 3;
    }
    assert_eq!(seen, vec![1; 800]);
}

#[test]
fn pushers_and_poppers_on_different_shards() {
    let mut s = ConcurrentShardedStack::with_concurrency(32);
    let mut popped = 0;
    for round in 0..1000 {
        s.push(round % 2, round).unwrap();
        s.push(round % 2, round).unwrap();
        if s.pop(31).is_ok() {
            popped += 1;
        }
    }
    while s.pop(30).is_ok() {
        popped += 1;
    }
    assert_eq!(popped, 2000);
}

#[test]
fn closed_stack_gives_back_values_of_all_shards() {
    let mut s = ConcurrentShardedStack::with_concurrency(4);
    for thread in 0..4 {
        s.push(thread, thread).unwrap();
    }
    assert!(!s.is_closed());
    assert!(s.close());
    assert!(s.is_closed());
    for thread in 0..4 {
        assert_eq!(s.push(thread, 9).unwrap_err().into_inner(), 9);
    }
    assert_eq!(s.pop(3), Ok(3));
    assert_eq!(s.pop(3), Ok(2));
    assert_eq!(s.pop(3), Ok(1));
    assert_eq!(s.pop(3), Ok(0));
    assert_eq!(s.pop(3), Err(PopError::Closed));
}

#[test]
fn closing_an_empty_stack() {
    let mut s = ConcurrentShardedStack::<u8>::with_concurrency(1);
    assert_eq!(s.pop(5), Err(PopError::Empty));
    assert!(s.close());
    assert_eq!(s.pop(5), Err(PopError::Closed));
    assert!(!s.close());
}

#[test]
fn pushes_on_different_shards_commute() {
    let mut one = ConcurrentShardedStack::with_concurrency(2);
    one.push(0, 'a').unwrap();
    one.push(1, 'b').unwrap();
    let mut other = ConcurrentShardedStack::with_concurrency(2);
    other.push(1, 'b').unwrap();
    other.push(0, 'a').unwrap();
    assert_eq!(one.teardown(), vec!['a', 'b']);
    assert_eq!(other.teardown(), vec!['a', 'b']);
}

#[test]
fn as_many_pops_succeed_as_there_are_values() {
    let mut s = ConcurrentShardedStack::with_concurrency(8);
    for value in 0..20 {
        s.push(value % 3, value).unwrap();
    }
    let mut values = Vec::new();
    for thread in 0..20 {
        values.push(s.pop(thread).unwrap());
    }
    assert_eq!(s.pop(5), Err(PopError::Empty));
    values.sort();
    assert_eq!(values, (0..20).collect::<Vec<_>>());
}

#[test]
fn teardown_goes_shard_by_shard_from_the_top() {
    let mut s = ConcurrentShardedStack::with_concurrency(4);
    s.push(2, 20).unwrap();
    s.push(0, 1).unwrap();
    s.push(2, 21).unwrap();
    s.push(0, 2).unwrap();
    assert_eq!(s.teardown(), vec![2, 1, 21, 20]);
    assert_eq!(
        ConcurrentShardedStack::<u8>::with_concurrency(2).teardown(),
        Vec::<u8>::new()
    );
}
