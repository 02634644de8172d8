use concurrent_sharded_stack::{Head, SharedMemory, CLOSED_TAG};

fn top(node: usize) -> Head<usize> {
    Head {
        ptr: Some(node),
        tag: 0,
    }
}

#[test]
fn nodes_are_published_and_unlinked() {
    let mut memory = SharedMemory::new(2);
    let a = memory.allocate("a");
    let b = memory.allocate("b");
    assert_ne!(a, b);

    assert!(memory.publish(1, a, Head::null()));
    assert!(!memory.publish(1, b, Head::null()));
    assert!(memory.publish(1, b, top(a)));
    assert_eq!(memory.load_head(1), top(b));
    assert_eq!(memory.load_head(0), Head::null());
    assert_eq!(memory.load_next(b), Some(a));
    assert_eq!(memory.load_next(a), None);

    assert!(!memory.exchange(1, top(a), Head::null()));
    assert!(memory.exchange(1, top(b), top(a)));
    assert_eq!(memory.take(b), "b");
    assert_eq!(memory.load_next(b), Some(a));
}

#[test]
fn tags_are_part_of_the_head() {
    let mut memory = SharedMemory::new(1);
    let a = memory.allocate(1);
    assert!(memory.publish(0, a, Head::null()));
    let sealed = top(a).with_tag(CLOSED_TAG);
    assert!(memory.exchange(0, top(a), sealed));
    assert_eq!(memory.load_head(0), sealed);
    assert!(!memory.exchange(0, top(a), Head::null()));
}

#[test]
fn numbers_are_used_again_after_a_collection_only() {
    let mut memory = SharedMemory::new(1);
    let a = memory.allocate(1);
    assert_eq!(memory.take(a), 1);
    let b = memory.allocate(2);
    assert_ne!(a, b);
    memory.collect();
    let c = memory.allocate(3);
    assert_eq!(a, c);
    assert_eq!(memory.release(b), 2);
    assert_eq!(memory.allocate(4), b);
}

#[test]
fn bits_come_and_go() {
    let mut memory = SharedMemory::<u8>::new(4);
    memory.set_bit(3);
    memory.set_bit(0);
    assert_eq!(memory.load_bitmap(), 0b1001);
    memory.clear_bit(3);
    memory.clear_bit(2);
    assert_eq!(memory.load_bitmap(), 0b0001);
}
