//! Many operations at a time.
//!
//! The operations of different threads take turns, one access to shared memory at a time, in any
//! order. [`system`] says what such a turn does, in terms of the steps that the operations
//! execute; [`consistency`] says what holds whatever the turns were. What follows for the users of
//! the stack stands in
//!
//! * [`laws`], for operations of all kinds,
//! * [`balance`], for what goes in and what comes out,
//! * [`hints`], for the bitmap,
//! * [`closing`], for closes among each other,
//! * [`afterwards`], for operations that are begun on a closed shard or stack,
//! * [`independence`], for pushes on different shards,
//! * [`undisturbed`], for pops that no other operation disturbs,
//! * [`contention`], for pops among operations of all kinds,
//! * [`drain`], for pops among other pops,
//! * [`progress`], for pops that keep coming.

pub mod afterwards;
pub mod balance;
pub mod closing;
pub mod consistency;
pub mod contention;
pub mod drain;
pub mod hints;
pub mod independence;
pub mod laws;
pub mod progress;
pub mod system;
pub mod undisturbed;
