//! Operations of several threads that take turns on one memory.

use concurrent_sharded_stack::bits::is_set;
use concurrent_sharded_stack::steps::{
    ClearBitStep, CloseStep, ClosedScanStep, PopOneStep, PopStep, PushStep, Visit,
};
use concurrent_sharded_stack::{Head, PopError, PushError, SharedMemory, CLOSED_TAG};

type Memory = SharedMemory<u32>;

enum Operation {
    Push(PushStep<usize, usize>),
    Pop(Popping),
    Close(CloseStep<usize>),
}

enum Popping {
    Outer(PopStep<u32>),
    Attempt(Visit, PopOneStep<usize, u32>),
    Clearing(Visit, Option<usize>, ClearBitStep),
    Scan(usize, usize, ClosedScanStep),
}

#[derive(Debug, PartialEq, Eq)]
enum Outcome {
    Pushed(Result<(), PushError<u32>>),
    Popped(Result<u32, PopError>),
    Closed(bool),
}

enum Turn {
    Running(Operation),
    Finished(Outcome),
}

fn begin_push(memory: &mut Memory, shard: usize, value: u32) -> Operation {
    let node = memory.allocate(value);
    Operation::Push(PushStep::start(shard, node))
}

fn begin_pop(shard: usize, shard_count: usize) -> Operation {
    match pop_at(PopStep::start(shard, shard_count)) {
        Turn::Running(operation) => operation,
        Turn::Finished(_) => panic!("a pop begins with an access"),
    }
}

fn pop_at(step: PopStep<u32>) -> Turn {
    Turn::Running(Operation::Pop(match step {
        PopStep::PopOne { visit } => Popping::Attempt(visit, PopOneStep::start(visit.shard)),
        PopStep::AllShardsClosed { start, shard_count } => {
            Popping::Scan(start, shard_count, ClosedScanStep::start(shard_count))
        }
        PopStep::Return { result } => return Turn::Finished(Outcome::Popped(result)),
        other => Popping::Outer(other),
    }))
}

fn attempt_at(visit: Visit, step: PopOneStep<usize, u32>) -> Turn {
    Turn::Running(Operation::Pop(match step {
        PopOneStep::ClearBit { shard, popped } => {
            Popping::Clearing(visit, popped, ClearBitStep::start(shard))
        }
        PopOneStep::Return { result } => return pop_at(PopStep::on_attempt(visit, result)),
        other => Popping::Attempt(visit, other),
    }))
}

fn clearing_at(visit: Visit, popped: Option<usize>, step: ClearBitStep) -> Turn {
    match step {
        ClearBitStep::Return => attempt_at(visit, PopOneStep::on_bit_cleared(popped)),
        other => Turn::Running(Operation::Pop(Popping::Clearing(visit, popped, other))),
    }
}

/// One access of `operation`.
fn turn(memory: &mut Memory, operation: Operation) -> Turn {
    match operation {
        Operation::Push(step) => {
            let next = match step {
                PushStep::LoadHead { shard, node } => {
                    PushStep::on_head(shard, node, memory.load_head(shard))
                }
                PushStep::Publish { shard, node, head } => {
                    if memory.publish(shard, node, head) {
                        PushStep::on_published(shard, head)
                    } else {
                        PushStep::on_refused(shard, node)
                    }
                }
                PushStep::LoadBitmap { shard } => PushStep::on_bitmap(shard, memory.load_bitmap()),
                PushStep::SetBit { shard } => {
                    memory.set_bit(shard);
                    PushStep::on_bit_set()
                }
                done => done,
            };
            match next {
                PushStep::Return { result: Ok(()) } => Turn::Finished(Outcome::Pushed(Ok(()))),
                PushStep::Return { result: Err(refused) } => {
                    let value = memory.release(refused.into_inner());
                    Turn::Finished(Outcome::Pushed(Err(PushError::Closed(value))))
                }
                other => Turn::Running(Operation::Push(other)),
            }
        }
        Operation::Pop(Popping::Outer(step)) => match step {
            PopStep::LoadBitmap { start, shard_count } => {
                pop_at(PopStep::on_bitmap(start, shard_count, memory.load_bitmap()))
            }
            _ => panic!("no access of its own"),
        },
        Operation::Pop(Popping::Attempt(visit, step)) => {
            let next = match step {
                PopOneStep::LoadHead { shard } => {
                    PopOneStep::on_head(shard, memory.load_head(shard))
                }
                PopOneStep::LoadNext { shard, node, tag } => {
                    PopOneStep::on_next(shard, node, tag, memory.load_next(node))
                }
                PopOneStep::Exchange { shard, node, tag, next } => {
                    let from = Head { ptr: Some(node), tag };
                    if memory.exchange(shard, from, Head { ptr: next, tag }) {
                        PopOneStep::on_exchanged(shard, node, next)
                    } else {
                        PopOneStep::on_lost()
                    }
                }
                PopOneStep::Take { node } => PopOneStep::on_taken(memory.take(node)),
                _ => panic!("no access of an attempt"),
            };
            attempt_at(visit, next)
        }
        Operation::Pop(Popping::Clearing(visit, popped, step)) => {
            let next = match step {
                ClearBitStep::LoadBitmap { shard } => {
                    ClearBitStep::on_bitmap(shard, memory.load_bitmap())
                }
                ClearBitStep::ClearBit { shard } => {
                    memory.clear_bit(shard);
                    ClearBitStep::on_cleared(shard)
                }
                ClearBitStep::LoadHead { shard } => {
                    ClearBitStep::on_head(shard, memory.load_head(shard))
                }
                ClearBitStep::SetBit { shard } => {
                    memory.set_bit(shard);
                    ClearBitStep::on_bit_set()
                }
                ClearBitStep::Return => ClearBitStep::Return,
            };
            clearing_at(visit, popped, next)
        }
        Operation::Pop(Popping::Scan(start, shard_count, scan)) => {
            let next = match scan {
                ClosedScanStep::LoadHead { shard_count, shard } => {
                    ClosedScanStep::on_head(shard_count, shard, memory.load_head(shard))
                }
                done => done,
            };
            match next {
                ClosedScanStep::Return { closed } => {
                    pop_at(PopStep::on_scan(start, shard_count, closed))
                }
                other => Turn::Running(Operation::Pop(Popping::Scan(start, shard_count, other))),
            }
        }
        Operation::Close(step) => {
            let next = match step {
                CloseStep::LoadHead { shard_count, shard, changed } => {
                    CloseStep::on_head(shard_count, shard, changed, memory.load_head(shard))
                }
                CloseStep::Seal { shard_count, shard, changed, head } => {
                    if memory.exchange(shard, head, head.with_tag(CLOSED_TAG)) {
                        CloseStep::on_sealed(shard_count, shard)
                    } else {
                        CloseStep::on_refused(shard_count, shard, changed)
                    }
                }
                done => done,
            };
            match next {
                CloseStep::Return { changed } => Turn::Finished(Outcome::Closed(changed)),
                other => Turn::Running(Operation::Close(other)),
            }
        }
    }
}

/// Runs `operation` to its end.
fn finish(memory: &mut Memory, mut operation: Operation) -> Outcome {
    loop {
        match turn(memory, operation) {
            Turn::Running(next) => operation = next,
            Turn::Finished(outcome) => return outcome,
        }
    }
}

/// Lets `operation` make `accesses` accesses, after which it must still be running.
fn advance(memory: &mut Memory, mut operation: Operation, accesses: usize) -> Operation {
    for _ in 0..accesses {
        match turn(memory, operation) {
            Turn::Running(next) => operation = next,
            Turn::Finished(_) => panic!("over too early"),
        }
    }
    operation
}

#[test]
fn push_between_empty_look_and_clearing_keeps_its_bit() {
    let mut memory = Memory::new(2);
    let push = begin_push(&mut memory, 1, 10);
    assert_eq!(finish(&mut memory, push), Outcome::Pushed(Ok(())));

    // A pop by the owner of shard 1 unlinks the only node and reads the bitmap.
    let pop = begin_pop(1, 2);
    let pop = advance(&mut memory, pop, 4);
    // A push finds the shard empty, puts its node there and sees the old bit.
    let push = begin_push(&mut memory, 1, 11);
    assert_eq!(finish(&mut memory, push), Outcome::Pushed(Ok(())));
    // The pop clears the bit, looks again, and sets it again.
    let pop = advance(&mut memory, pop, 1);
    assert!(!is_set(memory.load_bitmap(), 1));
    assert_eq!(finish(&mut memory, pop), Outcome::Popped(Ok(10)));
    assert!(is_set(memory.load_bitmap(), 1));

    // So the owner of shard 0 finds the value.
    let pop = begin_pop(0, 2);
    assert_eq!(finish(&mut memory, pop), Outcome::Popped(Ok(11)));
}

#[test]
fn overtaken_pop_tries_again() {
    let mut memory = Memory::new(1);
    for value in [1, 2, 3] {
        let push = begin_push(&mut memory, 0, value);
        finish(&mut memory, push);
    }
    // A slow pop reads the head and the link under it.
    let slow = advance(&mut memory, begin_pop(0, 1), 2);
    let fast = begin_pop(0, 1);
    assert_eq!(finish(&mut memory, fast), Outcome::Popped(Ok(3)));
    // The slow pop loses, and takes what is on top now.
    assert_eq!(finish(&mut memory, slow), Outcome::Popped(Ok(2)));
}

#[test]
fn pop_gives_up_after_losing_three_times() {
    let mut memory = Memory::new(1);
    let mut slow = begin_pop(0, 1);
    for value in 0..3 {
        let push = begin_push(&mut memory, 0, value);
        finish(&mut memory, push);
        slow = advance(&mut memory, slow, 2);
        let fast = begin_pop(0, 1);
        assert_eq!(finish(&mut memory, fast), Outcome::Popped(Ok(value)));
        slow = advance(&mut memory, slow, 1);
    }
    assert_eq!(finish(&mut memory, slow), Outcome::Popped(Err(PopError::Empty)));
}

#[test]
fn push_meets_a_close_halfway() {
    let mut memory = Memory::new(2);
    // The push has read the open head; then the stack is closed.
    let push = begin_push(&mut memory, 1, 5);
    let push = advance(&mut memory, push, 1);
    let close = Operation::Close(CloseStep::start(2));
    assert_eq!(finish(&mut memory, close), Outcome::Closed(true));
    assert_eq!(
        finish(&mut memory, push),
        Outcome::Pushed(Err(PushError::Closed(5)))
    );
    let pop = begin_pop(0, 2);
    assert_eq!(finish(&mut memory, pop), Outcome::Popped(Err(PopError::Closed)));
}

#[test]
fn two_closes_share_the_work() {
    let mut memory = Memory::new(2);
    let first = Operation::Close(CloseStep::start(2));
    let first = advance(&mut memory, first, 2);
    let second = Operation::Close(CloseStep::start(2));
    assert_eq!(finish(&mut memory, second), Outcome::Closed(true));
    assert_eq!(finish(&mut memory, first), Outcome::Closed(true));
    let third = Operation::Close(CloseStep::start(2));
    assert_eq!(finish(&mut memory, third), Outcome::Closed(false));
}

#[test]
fn overlapping_pushes_on_different_shards() {
    // However the accesses of the two pushes take turns, the outcome is the same.
    for turns in 0..1u32 << 8 {
        let mut memory = Memory::new(2);
        let mut pushes = vec![
            Some(begin_push(&mut memory, 0, 10)),
            Some(begin_push(&mut memory, 1, 11)),
        ];
        for place in 0..8 {
            let at = (turns >> place) as usize & 1;
            if let Some(push) = pushes[at].take() {
                match turn(&mut memory, push) {
                    Turn::Running(next) => pushes[at] = Some(next),
                    Turn::Finished(outcome) => assert_eq!(outcome, Outcome::Pushed(Ok(()))),
                }
            }
        }
        for push in pushes.into_iter().flatten() {
            assert_eq!(finish(&mut memory, push), Outcome::Pushed(Ok(())));
        }
        let pop = begin_pop(0, 2);
        assert_eq!(finish(&mut memory, pop), Outcome::Popped(Ok(10)));
        let pop = begin_pop(0, 2);
        assert_eq!(finish(&mut memory, pop), Outcome::Popped(Ok(11)));
        let pop = begin_pop(0, 2);
        assert_eq!(finish(&mut memory, pop), Outcome::Popped(Err(PopError::Empty)));
    }
}

#[test]
fn poppers_get_everything_while_others_push() {
    // Pushes on shards 0 and 1 only, pops by the owners of shards 2 and 3 only.
    for seed in 0..100 {
        let mut random = Random(5000 + seed);
        let mut memory = Memory::new(4);
        let mut running: Vec<Operation> = Vec::new();
        for value in 0..30 {
            running.push(begin_push(&mut memory, value as usize % 2, value));
        }
        for shard in 2..4 {
            running.push(begin_pop(shard, 4));
        }
        let mut popped = Vec::new();
        while popped.len() < 30 {
            let at = random.below(running.len());
            match turn(&mut memory, running.swap_remove(at)) {
                Turn::Running(next) => running.push(next),
                Turn::Finished(Outcome::Popped(result)) => {
                    popped.extend(result.ok());
                    running.push(begin_pop(2 + random.below(2), 4));
                }
                Turn::Finished(outcome) => assert_eq!(outcome, Outcome::Pushed(Ok(()))),
            }
        }
        popped.sort();
        assert_eq!(popped, (0..30).collect::<Vec<_>>(), "seed {seed}");
    }
}

#[test]
fn threads_that_pop_until_they_fail_drain_the_stack() {
    for seed in 0..200 {
        let mut random = Random(9000 + seed);
        let shard_count = 8;
        let mut memory = Memory::new(shard_count);
        for value in 0..40 {
            let push = begin_push(&mut memory, random.below(shard_count), value);
            assert_eq!(finish(&mut memory, push), Outcome::Pushed(Ok(())));
        }
        let mut threads: Vec<(usize, Operation)> = (0..8)
            .map(|thread| (thread, begin_pop(thread, shard_count)))
            .collect();
        let mut popped = Vec::new();
        while !threads.is_empty() {
            let at = random.below(threads.len());
            let (thread, pop) = threads.swap_remove(at);
            match turn(&mut memory, pop) {
                Turn::Running(next) => threads.push((thread, next)),
                Turn::Finished(Outcome::Popped(Ok(value))) => {
                    popped.push(value);
                    threads.push((thread, begin_pop(thread, shard_count)));
                }
                Turn::Finished(outcome) => {
                    assert_eq!(outcome, Outcome::Popped(Err(PopError::Empty)));
                }
            }
        }
        popped.sort();
        assert_eq!(popped, (0..40).collect::<Vec<_>>(), "seed {seed}");
    }
}

#[test]
fn refused_thread_stays_refused_while_the_close_goes_on() {
    let mut memory = Memory::new(2);
    // Shard 0 is closed, shard 1 not yet.
    let close = advance(&mut memory, Operation::Close(CloseStep::start(2)), 2);
    for value in [1, 2] {
        let push = begin_push(&mut memory, 0, value);
        assert_eq!(
            finish(&mut memory, push),
            Outcome::Pushed(Err(PushError::Closed(value)))
        );
        let push = begin_push(&mut memory, 1, value);
        assert_eq!(finish(&mut memory, push), Outcome::Pushed(Ok(())));
    }
    assert_eq!(finish(&mut memory, close), Outcome::Closed(true));
}

#[test]
fn some_close_says_that_it_closed_the_stack() {
    for seed in 0..100 {
        let mut random = Random(7000 + seed);
        let mut memory = Memory::new(4);
        let mut closes: Vec<Operation> = (0..3)
            .map(|_| Operation::Close(CloseStep::start(4)))
            .collect();
        let mut changed = false;
        while !closes.is_empty() {
            let at = random.below(closes.len());
            match turn(&mut memory, closes.swap_remove(at)) {
                Turn::Running(next) => closes.push(next),
                Turn::Finished(outcome) => changed |= outcome == Outcome::Closed(true),
            }
        }
        assert!(changed, "seed {seed}");
    }
}

#[test]
fn accepted_values_are_returned_or_left() {
    for seed in 0..100 {
        let mut random = Random(3000 + seed);
        let shard_count = 4;
        let mut memory = Memory::new(shard_count);
        let mut running: Vec<Operation> = Vec::new();
        for value in 0..20 {
            running.push(begin_push(&mut memory, random.below(shard_count), value));
        }
        for _ in 0..8 {
            running.push(begin_pop(random.below(shard_count), shard_count));
        }
        let mut values = Vec::new();
        while !running.is_empty() {
            let at = random.below(running.len());
            match turn(&mut memory, running.swap_remove(at)) {
                Turn::Running(next) => running.push(next),
                Turn::Finished(Outcome::Popped(result)) => values.extend(result.ok()),
                Turn::Finished(_) => {}
            }
        }
        // What is left hangs off the heads.
        for shard in 0..shard_count {
            let mut node = memory.load_head(shard).ptr;
            while let Some(id) = node {
                node = memory.load_next(id);
                values.push(memory.release(id));
            }
        }
        values.sort();
        assert_eq!(values, (0..20).collect::<Vec<_>>(), "seed {seed}");
    }
}

#[test]
fn operations_begun_on_a_finished_stack() {
    let mut memory = Memory::new(2);
    // This close is held up before its last access, on a stack that it has closed in part.
    let close = advance(&mut memory, Operation::Close(CloseStep::start(2)), 3);
    let push = begin_push(&mut memory, 1, 7);
    assert_eq!(finish(&mut memory, push), Outcome::Pushed(Ok(())));
    let push = begin_push(&mut memory, 0, 8);
    assert_eq!(
        finish(&mut memory, push),
        Outcome::Pushed(Err(PushError::Closed(8)))
    );
    // A push changed the head, so the close has to read it again.
    assert_eq!(finish(&mut memory, close), Outcome::Closed(true));

    let push = begin_push(&mut memory, 1, 9);
    assert_eq!(
        finish(&mut memory, push),
        Outcome::Pushed(Err(PushError::Closed(9)))
    );
    let close = Operation::Close(CloseStep::start(2));
    assert_eq!(finish(&mut memory, close), Outcome::Closed(false));
    let pop = begin_pop(0, 2);
    assert_eq!(finish(&mut memory, pop), Outcome::Popped(Ok(7)));
    let pop = begin_pop(0, 2);
    assert_eq!(finish(&mut memory, pop), Outcome::Popped(Err(PopError::Closed)));
}

/// A small generator, so that every run sees the same turns.
struct Random(u64);

impl Random {
    fn below(&mut self, n: usize) -> usize {
        self.0 = self.0.wrapping_mul(6364136223846793005).wrapping_add(1442695040888963407);
        (self.0 >> 33) as usize % n
    }
}

#[test]
fn no_value_is_lost_or_doubled_in_random_turns() {
    for seed in 0..200 {
        let shard_count = 4;
        let mut random = Random(seed);
        let mut memory = Memory::new(shard_count);
        let mut running: Vec<Operation> = Vec::new();
        let mut pushed = 0;
        let mut popped = Vec::new();

        for _ in 0..600 {
            if running.len() < 6 && random.below(3) == 0 {
                let shard = random.below(shard_count);
                if random.below(2) == 0 {
                    running.push(begin_push(&mut memory, shard, pushed));
                    pushed += 1;
                } else {
                    running.push(begin_pop(shard, shard_count));
                }
            }
            if !running.is_empty() {
                let at = random.below(running.len());
                match turn(&mut memory, running.swap_remove(at)) {
                    Turn::Running(next) => running.push(next),
                    Turn::Finished(Outcome::Popped(Ok(value))) => popped.push(value),
                    Turn::Finished(_) => {}
                }
            }
        }
        while let Some(operation) = running.pop() {
            if let Outcome::Popped(Ok(value)) = finish(&mut memory, operation) {
                popped.push(value);
            }
        }

        // At rest, the bit of every shard that holds a value is set.
        for shard in 0..shard_count {
            if !memory.load_head(shard).is_null() {
                assert!(is_set(memory.load_bitmap(), shard), "seed {seed}");
            }
        }
        // So the owner of any shard gets everything that is left.
        loop {
            let pop = begin_pop(random.below(shard_count), shard_count);
            match finish(&mut memory, pop) {
                Outcome::Popped(Ok(value)) => popped.push(value),
                outcome => {
                    assert_eq!(outcome, Outcome::Popped(Err(PopError::Empty)));
                    break;
                }
            }
        }
        popped.sort();
        assert_eq!(popped, (0..pushed).collect::<Vec<_>>(), "seed {seed}");
    }
}

#[test]
fn closed_stack_is_drained_in_random_turns() {
    for seed in 0..200 {
        let shard_count = 4;
        let mut random = Random(1000 + seed);
        let mut memory = Memory::new(shard_count);
        let mut running: Vec<Operation> = Vec::new();
        let mut back = Vec::new();
        let mut drained = false;

        for value in 0..40 {
            running.push(begin_push(&mut memory, random.below(shard_count), value));
        }
        running.push(Operation::Close(CloseStep::start(shard_count)));
        for _ in 0..6 {
            running.push(begin_pop(random.below(shard_count), shard_count));
        }
        while !running.is_empty() {
            let at = random.below(running.len());
            match turn(&mut memory, running.swap_remove(at)) {
                Turn::Running(next) => running.push(next),
                Turn::Finished(Outcome::Popped(Ok(value))) => {
                    back.push(value);
                    running.push(begin_pop(random.below(shard_count), shard_count));
                }
                Turn::Finished(Outcome::Pushed(Err(PushError::Closed(value)))) => back.push(value),
                Turn::Finished(Outcome::Popped(Err(PopError::Empty))) => {
                    running.push(begin_pop(random.below(shard_count), shard_count));
                }
                Turn::Finished(Outcome::Popped(Err(PopError::Closed))) => {
                    drained = true;
                    for shard in 0..shard_count {
                        assert!(memory.load_head(shard).is_null(), "seed {seed}");
                        assert!(memory.load_head(shard).is_closed(), "seed {seed}");
                    }
                }
                Turn::Finished(_) => {}
            }
        }
        assert!(drained, "seed {seed}");
        back.sort();
        assert_eq!(back, (0..40).collect::<Vec<_>>(), "seed {seed}");
    }
}
