//! Each operation of the stack as a sequence of steps.
//!
//! A step value says which access to shared memory comes next and carries what the operation
//! remembers. Whoever drives the operation performs that one access and calls the matching
//! `on_..` function with what it saw, which decides the following step. Nothing else happens
//! between two accesses, so the steps are also the points at which operations of different
//! threads interleave.

pub mod clear_bit;
pub mod close;
pub mod closed_scan;
pub mod pop;
pub mod pop_one;
pub mod push;
pub mod teardown;

pub use clear_bit::ClearBitStep;
pub use close::CloseStep;
pub use closed_scan::ClosedScanStep;
pub use pop::{PopStep, Stage, Visit};
pub use pop_one::PopOneStep;
pub use push::PushStep;
pub use teardown::TeardownStep;
