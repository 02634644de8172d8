use concurrent_sharded_stack::bits::{
    clear_lowest_bit, is_set, lowest_bit, nearest_bit, shard_bit,
};
use concurrent_sharded_stack::{default_concurrency, Head, ShardCountError, ShardLayout, CLOSED_TAG};

#[test]
fn bits_of_a_word() {
    assert_eq!(shard_bit(0), 1);
    assert_eq!(shard_bit(5), 32);
    assert!(is_set(0b101, 2));
    assert!(!is_set(0b101, 1));
    assert_eq!(lowest_bit(0b1011000), 3);
    assert_eq!(clear_lowest_bit(0b1011000), 0b1010000);
    assert_eq!(nearest_bit(0b0101, 3), 2);
    assert_eq!(nearest_bit(0b0011, 3), 1);
    assert_eq!(nearest_bit(0b1000, 3), 3);
    let top = usize::BITS as usize - 1;
    assert_eq!(lowest_bit(shard_bit(top)), top);
    assert_eq!(clear_lowest_bit(shard_bit(top)), 0);
}

#[test]
fn threads_share_the_shards_evenly() {
    let layout = ShardLayout::new(8);
    assert_eq!(layout.shard_count(), 8);
    assert_eq!(layout.shard_index(0), 0);
    assert_eq!(layout.shard_index(13), 5);
    assert_eq!(layout.shard_index(usize::MAX), 7);
    assert_eq!(ShardLayout::new(1).shard_index(17), 0);
}

#[test]
fn default_concurrencies() {
    assert_eq!(default_concurrency(None), 4);
    assert_eq!(default_concurrency(Some(2)), 2);
    assert_eq!(default_concurrency(Some(3)), 4);
    assert_eq!(default_concurrency(Some(33)), 64.min(usize::BITS as usize));
    assert_eq!(
        default_concurrency(Some(usize::MAX / 2 + 1)),
        usize::BITS as usize
    );
}

#[test]
fn refused_shard_counts_say_why() {
    assert_eq!(
        ShardCountError::Zero.message(),
        "shard_count must be non-zero"
    );
    assert_eq!(
        ShardCountError::NotPowerOfTwo.message(),
        "shard_count must be a power of two"
    );
    assert_eq!(
        ShardCountError::TooMany.message(),
        "shard_count must not exceed usize::BITS"
    );
}

#[test]
fn heads_and_tags() {
    let head = Head::<usize>::null();
    assert!(head.is_null());
    assert!(!head.is_closed());
    let sealed = head.with_tag(CLOSED_TAG);
    assert!(sealed.is_null());
    assert!(sealed.is_closed());
    assert!(!Head { ptr: Some(3), tag: 0 }.is_null());
}
