//! The tagged pointer at the top of a shard.

use vstd::prelude::*;

verus! {

/// The tag of a shard that takes no more values.
pub const CLOSED_TAG: usize = 1;

/// What a shard's head word holds: the top node, or null, and a tag. `P` names a node.
#[derive(Debug, PartialEq, Eq)]
pub struct Head<P> {
    pub ptr: Option<P>,
    pub tag: usize,
}

impl<P: Copy> Copy for Head<P> {

}

impl<P: Copy> Clone for Head<P> {
    fn clone(&self) -> (copy: Self)
        ensures
            copy == *self,
    {
        *self
    }
}

impl<P> Head<P> {
    /// Whether the shard is closed.
    pub open spec fn closed(self) -> bool {
        self.tag == CLOSED_TAG
    }

    /// The head of a shard that is open and holds nothing.
    pub fn null() -> (head: Self)
        ensures
            head == (Head::<P> { ptr: None, tag: 0 }),
    {
        Head { ptr: None, tag: 0 }
    }

    /// Whether no node hangs off this head, whatever its tag.
    pub fn is_null(&self) -> (null: bool)
        ensures
            null == (self.ptr is None),
    {
        match self.ptr {
            Some(_) => false,
            None => true,
        }
    }

    /// Whether the closed tag is on.
    pub fn is_closed(&self) -> (closed: bool)
        ensures
            closed == self.closed(),
    {
        self.tag == CLOSED_TAG
    }

    /// The same pointer under another tag.
    pub fn with_tag(self, tag: usize) -> (head: Self)
        ensures
            head == (Head { ptr: self.ptr, tag }),
    {
        Head { ptr: self.ptr, tag }
    }
}

/// A head is closed exactly if its tag is 1, whatever node it leads to; putting the closed tag on
/// closes it and keeps the node.
pub proof fn law_closed_tag<P>(head: Head<P>)
    ensures
        head.closed() <==> head.tag == 1,
        (Head { ptr: head.ptr, tag: CLOSED_TAG }).closed(),
{
}

} // verus!
