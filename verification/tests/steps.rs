use concurrent_sharded_stack::steps::pop::CURRENT_SHARD_CAS_RETRIES;
use concurrent_sharded_stack::steps::{
    ClearBitStep, CloseStep, ClosedScanStep, PopOneStep, PopStep, PushStep, Stage, TeardownStep,
    Visit,
};
use concurrent_sharded_stack::{Head, PopError, PushError, CLOSED_TAG};

fn open(ptr: Option<usize>) -> Head<usize> {
    Head { ptr, tag: 0 }
}

fn sealed(ptr: Option<usize>) -> Head<usize> {
    Head {
        ptr,
        tag: CLOSED_TAG,
    }
}

#[test]
fn push_on_a_closed_shard_hands_the_node_back() {
    let step = PushStep::<usize, char>::on_head(2, 'n', sealed(None));
    assert!(matches!(
        step,
        PushStep::Return { result: Err(PushError::Closed('n')) }
    ));
}

#[test]
fn push_minds_the_bit_of_an_empty_shard_only() {
    let step = PushStep::<usize, char>::on_published(2, open(None));
    assert!(matches!(step, PushStep::LoadBitmap { shard: 2 }));
    let step = PushStep::<usize, char>::on_published(2, open(Some(7)));
    assert!(matches!(step, PushStep::Return { result: Ok(()) }));
    let step = PushStep::<usize, char>::on_bitmap(2, 0b100);
    assert!(matches!(step, PushStep::Return { result: Ok(()) }));
    let step = PushStep::<usize, char>::on_bitmap(2, 0b011);
    assert!(matches!(step, PushStep::SetBit { shard: 2 }));
}

#[test]
fn push_starts_over_after_a_refusal() {
    let step = PushStep::<usize, char>::on_refused(1, 'n');
    assert!(matches!(step, PushStep::LoadHead { shard: 1, node: 'n' }));
}

#[test]
fn clearing_puts_the_bit_back_over_a_value() {
    assert!(matches!(ClearBitStep::on_bitmap(3, 0), ClearBitStep::Return));
    assert!(matches!(
        ClearBitStep::on_bitmap(3, 0b1000),
        ClearBitStep::ClearBit { shard: 3 }
    ));
    assert!(matches!(
        ClearBitStep::on_head(3, open(None)),
        ClearBitStep::Return
    ));
    assert!(matches!(
        ClearBitStep::on_head(3, sealed(None)),
        ClearBitStep::Return
    ));
    assert!(matches!(
        ClearBitStep::on_head(3, open(Some(1))),
        ClearBitStep::SetBit { shard: 3 }
    ));
}

#[test]
fn attempt_keeps_the_tag() {
    let step = PopOneStep::<usize, u8>::on_head(1, sealed(Some(4)));
    assert!(matches!(
        step,
        PopOneStep::LoadNext { shard: 1, node: 4, tag: CLOSED_TAG }
    ));
    let step = PopOneStep::<usize, u8>::on_next(1, 4, CLOSED_TAG, None);
    assert!(matches!(
        step,
        PopOneStep::Exchange { shard: 1, node: 4, tag: CLOSED_TAG, next: None }
    ));
}

#[test]
fn attempt_clears_the_bit_after_the_last_node() {
    let step = PopOneStep::<usize, u8>::on_exchanged(1, 4, None);
    assert!(matches!(
        step,
        PopOneStep::ClearBit { shard: 1, popped: Some(4) }
    ));
    let step = PopOneStep::<usize, u8>::on_exchanged(1, 4, Some(3));
    assert!(matches!(step, PopOneStep::Take { node: 4 }));
    let step = PopOneStep::<usize, u8>::on_head(1, open(None));
    assert!(matches!(step, PopOneStep::ClearBit { shard: 1, popped: None }));
    let step = PopOneStep::<usize, u8>::on_bit_cleared(None);
    assert!(matches!(step, PopOneStep::Return { result: Ok(None) }));
    let step = PopOneStep::<usize, u8>::on_lost();
    assert!(matches!(step, PopOneStep::Return { result: Err(()) }));
    let step = PopOneStep::<usize, u8>::on_taken(9);
    assert!(matches!(step, PopOneStep::Return { result: Ok(Some(9)) }));
}

#[test]
fn pop_moves_on_after_three_losses() {
    let mut step = PopStep::<u8>::start(2, 4);
    let mut attempts = 0;
    while let PopStep::PopOne { visit } = step {
        assert_eq!(visit.shard, 2);
        attempts += 1;
        step = PopStep::on_attempt(visit, Err(()));
    }
    assert_eq!(attempts, CURRENT_SHARD_CAS_RETRIES);
    assert_eq!(attempts, 3);
    assert!(matches!(
        step,
        PopStep::LoadBitmap { start: 2, shard_count: 4 }
    ));
}

#[test]
fn pop_steals_from_the_nearest_shard_on() {
    let mut step = PopStep::<u8>::on_bitmap(2, 8, 0b1111_1111);
    let mut order = Vec::new();
    while let PopStep::PopOne { visit } = step {
        order.push(visit.shard);
        step = PopStep::on_attempt(visit, Ok(None));
    }
    assert_eq!(order, vec![3, 0, 1, 6, 7, 4, 5]);
    assert!(matches!(
        step,
        PopStep::AllShardsClosed { start: 2, shard_count: 8 }
    ));
}

#[test]
fn pop_passes_over_shards_without_a_bit() {
    let mut step = PopStep::<u8>::on_bitmap(2, 8, 0b1010_0110);
    let mut order = Vec::new();
    while let PopStep::PopOne { visit } = step {
        order.push(visit.shard);
        step = PopStep::on_attempt(visit, Ok(None));
    }
    assert_eq!(order, vec![1, 7, 5]);
}

#[test]
fn pop_loses_three_times_per_stolen_shard() {
    let mut step = PopStep::<u8>::on_bitmap(0, 4, 0b1010);
    let mut order = Vec::new();
    while let PopStep::PopOne { visit } = step {
        order.push(visit.shard);
        step = PopStep::on_attempt(visit, Err(()));
    }
    assert_eq!(order, vec![1, 1, 1, 3, 3, 3]);
}

#[test]
fn pop_drains_a_closed_stack_from_its_own_shard_on() {
    assert!(matches!(
        PopStep::<u8>::on_scan(2, 4, false),
        PopStep::Return { result: Err(PopError::Empty) }
    ));
    let mut step = PopStep::<u8>::on_scan(1, 4, true);
    let mut order = Vec::new();
    let mut lost = false;
    while let PopStep::PopOne { visit } = step {
        order.push(visit.shard);
        lost = !lost;
        step = PopStep::on_attempt(visit, if lost { Err(()) } else { Ok(None) });
    }
    assert_eq!(order, vec![1, 1, 0, 0, 3, 3, 2, 2]);
    assert!(matches!(
        step,
        PopStep::Return { result: Err(PopError::Closed) }
    ));
}

#[test]
fn pop_ends_with_the_first_value() {
    let visit = Visit {
        start: 0,
        shard_count: 2,
        shard: 1,
        stage: Stage::Steal { rest: 0, losses: 0 },
    };
    assert!(matches!(
        PopStep::on_attempt(visit, Ok(Some(5u8))),
        PopStep::Return { result: Ok(5) }
    ));
}

#[test]
fn close_passes_over_closed_shards() {
    let step = CloseStep::on_head(2, 0, false, sealed(Some(1)));
    assert!(matches!(
        step,
        CloseStep::LoadHead { shard_count: 2, shard: 1, changed: false }
    ));
    let step = CloseStep::on_head(2, 1, false, sealed(None));
    assert!(matches!(step, CloseStep::Return { changed: false }));
    let step = CloseStep::<usize>::on_sealed(2, 1);
    assert!(matches!(step, CloseStep::Return { changed: true }));
    let step = CloseStep::<usize>::on_refused(2, 1, true);
    assert!(matches!(
        step,
        CloseStep::LoadHead { shard_count: 2, shard: 1, changed: true }
    ));
}

#[test]
fn scan_ends_at_the_first_open_shard() {
    assert!(matches!(
        ClosedScanStep::on_head(3, 0, open(Some(1))),
        ClosedScanStep::Return { closed: false }
    ));
    assert!(matches!(
        ClosedScanStep::on_head(3, 1, sealed(Some(1))),
        ClosedScanStep::LoadHead { shard_count: 3, shard: 2 }
    ));
    assert!(matches!(
        ClosedScanStep::on_head(3, 2, sealed(None)),
        ClosedScanStep::Return { closed: true }
    ));
}

#[test]
fn teardown_follows_the_links() {
    let step = TeardownStep::on_node(2, 0, Some('x'));
    assert!(matches!(
        step,
        TeardownStep::LoadNext { shard_count: 2, shard: 0, node: 'x' }
    ));
    let step = TeardownStep::on_next(2, 0, 'x', None);
    assert!(matches!(
        step,
        TeardownStep::Free { shard_count: 2, shard: 0, node: 'x', next: None }
    ));
    let step = TeardownStep::<char>::on_node(2, 0, None);
    assert!(matches!(
        step,
        TeardownStep::LoadHead { shard_count: 2, shard: 1 }
    ));
    let step = TeardownStep::<char>::on_node(2, 1, None);
    assert!(matches!(step, TeardownStep::Return));
}
