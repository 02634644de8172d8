//! The verified core of a sharded, lock-free stack.
//!
//! A stack keeps its values in several shards, each a linked list of nodes under a head word of
//! its own, so that threads do not all fight over one word. Every operation is a sequence of
//! [`steps`], each of which is one access to memory that the threads share.
//!
//! * [`ConcurrentShardedStack`] runs the steps of one operation at a time, on a
//!   [`SharedMemory`] of its own.
//! * [`calls`] states how its calls relate to one another.
//! * [`interleaving`] lets the steps of any number of operations take turns in any order and
//!   states what holds nevertheless.

pub mod bits;
pub mod calls;
pub mod error;
pub mod head;
pub mod interleaving;
pub mod layout;
pub mod lists;
pub mod memory;
pub mod shards;
pub mod stack;
pub mod steps;

pub use error::{PopError, PushError};
pub use head::{Head, CLOSED_TAG};
pub use layout::{check_shard_count, default_concurrency, ShardCountError, ShardLayout};
pub use memory::SharedMemory;
pub use stack::ConcurrentShardedStack;
