//! A stack with operations in flight, and the turns they take.

use crate::error::{PopError, PushError};
use crate::head::{Head, CLOSED_TAG};
use crate::layout;
use crate::memory::MemoryView;
use crate::steps::{ClearBitStep, CloseStep, ClosedScanStep, PopOneStep, PopStep, PushStep};
use vstd::prelude::*;

verus! {

/// What a pop is in the middle of.
#[verifier::reject_recursive_types(T)]
pub enum Inner<T> {
    /// An attempt on a shard, and within it possibly the clearing of the shard's bit.
    Attempt { one: PopOneStep<usize, T>, clearing: ClearBitStep },
    /// The question whether all shards are closed.
    Scan { scan: ClosedScanStep },
    /// An access of its own.
    Own,
}

/// An operation in flight, up to its next access.
#[allow(inconsistent_fields)]
#[verifier::reject_recursive_types(T)]
pub enum Operation<T> {
    Push { step: PushStep<usize, usize> },
    Pop { step: PopStep<T>, inner: Inner<T> },
    Close { step: CloseStep<usize> },
    IsClosed { step: ClosedScanStep },
}

/// What an operation returns.
#[allow(inconsistent_fields)]
#[verifier::reject_recursive_types(T)]
pub enum Outcome<T> {
    Push { result: Result<(), PushError<T>> },
    Pop { result: Result<T, PopError> },
    Close { changed: bool },
    IsClosed { closed: bool },
}

/// Where an operation stands after an access.
#[verifier::reject_recursive_types(T)]
pub enum Progress<T> {
    Running { operation: Operation<T> },
    Finished { outcome: Outcome<T> },
}

/// What an access does to the shared memory.
pub enum Effect {
    Nothing,
    /// Points a node that only the push knows at `next`.
    Link { node: usize, next: Option<usize> },
    /// Puts that node on top of `head`.
    Publish { shard: usize, node: usize, head: Head<usize> },
    /// Takes the top node off a shard.
    Unlink { shard: usize, node: usize, tag: usize, next: Option<usize> },
    /// Puts the closed tag on a head.
    Seal { shard: usize, head: Head<usize> },
    SetBit { shard: usize },
    ClearBit { shard: usize },
    /// Moves the value out of a node and gives the node up.
    Take { node: usize },
    /// Gives back a node that only the push knows.
    Release { node: usize },
}

/// The next step of a pop, with the operation it consists of begun.
pub open spec fn pop_at<T>(step: PopStep<T>) -> Progress<T> {
    match step {
        PopStep::PopOne { visit } => Progress::Running {
            operation: Operation::Pop {
                step,
                inner: Inner::Attempt {
                    one: PopOneStep::first(visit.shard),
                    clearing: ClearBitStep::Return,
                },
            },
        },
        PopStep::LoadBitmap { .. } => Progress::Running {
            operation: Operation::Pop { step, inner: Inner::Own },
        },
        PopStep::AllShardsClosed { shard_count, .. } => Progress::Running {
            operation: Operation::Pop {
                step,
                inner: Inner::Scan { scan: ClosedScanStep::first(shard_count) },
            },
        },
        PopStep::Return { result } => Progress::Finished { outcome: Outcome::Pop { result } },
    }
}

/// The next step of an attempt within a pop. An attempt that is over moves the pop on.
pub open spec fn attempt_at<T>(step: PopStep<T>, one: PopOneStep<usize, T>) -> Progress<T> {
    match one {
        PopOneStep::Return { result } => match step {
            PopStep::PopOne { visit } => pop_at(PopStep::after_attempt(visit, result)),
            _ => pop_at(step),
        },
        PopOneStep::ClearBit { shard, .. } => Progress::Running {
            operation: Operation::Pop {
                step,
                inner: Inner::Attempt { one, clearing: ClearBitStep::first(shard) },
            },
        },
        _ => Progress::Running {
            operation: Operation::Pop {
                step,
                inner: Inner::Attempt { one, clearing: ClearBitStep::Return },
            },
        },
    }
}

/// The next step of the clearing of a bit within an attempt. A clearing that is over moves the
/// attempt on.
pub open spec fn clearing_at<T>(
    step: PopStep<T>,
    one: PopOneStep<usize, T>,
    clearing: ClearBitStep,
) -> Progress<T> {
    match clearing {
        ClearBitStep::Return => match one {
            PopOneStep::ClearBit { popped, .. } => attempt_at(
                step,
                PopOneStep::after_bit_cleared(popped),
            ),
            _ => attempt_at(step, one),
        },
        _ => Progress::Running {
            operation: Operation::Pop { step, inner: Inner::Attempt { one, clearing } },
        },
    }
}

/// The next step of a scan within a pop. A scan that is over moves the pop on.
pub open spec fn scan_at<T>(step: PopStep<T>, scan: ClosedScanStep) -> Progress<T> {
    match scan {
        ClosedScanStep::Return { closed } => match step {
            PopStep::AllShardsClosed { start, shard_count } => pop_at(
                PopStep::after_scan(start, shard_count, closed),
            ),
            _ => pop_at(step),
        },
        _ => Progress::Running { operation: Operation::Pop { step, inner: Inner::Scan { scan } } },
    }
}

/// The next step of a push. A refused node hands its value back.
pub open spec fn push_at<T>(memory: MemoryView<T>, step: PushStep<usize, usize>) -> Progress<T> {
    match step {
        PushStep::Return { result: Ok(()) } => Progress::Finished {
            outcome: Outcome::Push { result: Ok(()) },
        },
        PushStep::Return { result: Err(PushError::Closed(node)) } => Progress::Finished {
            outcome: Outcome::Push {
                result: Err(PushError::Closed(memory.nodes[node].value->0)),
            },
        },
        _ => Progress::Running { operation: Operation::Push { step } },
    }
}

/// The next step of a close.
pub open spec fn close_at<T>(step: CloseStep<usize>) -> Progress<T> {
    match step {
        CloseStep::Return { changed } => Progress::Finished { outcome: Outcome::Close { changed } },
        _ => Progress::Running { operation: Operation::Close { step } },
    }
}

/// The next step of the question whether the stack is closed.
pub open spec fn is_closed_at<T>(step: ClosedScanStep) -> Progress<T> {
    match step {
        ClosedScanStep::Return { closed } => Progress::Finished {
            outcome: Outcome::IsClosed { closed },
        },
        _ => Progress::Running { operation: Operation::IsClosed { step } },
    }
}

/// Whether an exchange that may fail for no reason goes through.
pub open spec fn goes_through<T>(
    memory: MemoryView<T>,
    shard: usize,
    head: Head<usize>,
    spurious: bool,
) -> bool {
    !spurious && memory.heads[shard as int] == head
}

impl<T> Operation<T> {
    /// What the next access does to the memory. `spurious` tells whether an exchange that may
    /// fail for no reason does so.
    pub open spec fn effect(self, memory: MemoryView<T>, spurious: bool) -> Effect {
        match self {
            Operation::Push { step } => match step {
                PushStep::LoadHead { shard, node } => if memory.heads[shard as int].closed() {
                    Effect::Release { node }
                } else {
                    Effect::Nothing
                },
                PushStep::Publish { shard, node, head } => if goes_through(
                    memory,
                    shard,
                    head,
                    spurious,
                ) {
                    Effect::Publish { shard, node, head }
                } else {
                    Effect::Link { node, next: head.ptr }
                },
                PushStep::SetBit { shard } => Effect::SetBit { shard },
                _ => Effect::Nothing,
            },
            Operation::Pop { inner: Inner::Attempt { one, clearing }, .. } => match one {
                PopOneStep::Exchange { shard, node, tag, next } => if memory.heads[shard as int]
                    == (Head { ptr: Some(node), tag }) {
                    Effect::Unlink { shard, node, tag, next }
                } else {
                    Effect::Nothing
                },
                PopOneStep::ClearBit { .. } => match clearing {
                    ClearBitStep::ClearBit { shard } => Effect::ClearBit { shard },
                    ClearBitStep::SetBit { shard } => Effect::SetBit { shard },
                    _ => Effect::Nothing,
                },
                PopOneStep::Take { node } => Effect::Take { node },
                _ => Effect::Nothing,
            },
            Operation::Close { step: CloseStep::Seal { shard, head, .. } } => if goes_through(
                memory,
                shard,
                head,
                spurious,
            ) {
                Effect::Seal { shard, head }
            } else {
                Effect::Nothing
            },
            _ => Effect::Nothing,
        }
    }

    /// Where the operation stands after its next access.
    pub open spec fn progress(self, memory: MemoryView<T>, spurious: bool) -> Progress<T> {
        match self {
            Operation::Push { step } => match step {
                PushStep::LoadHead { shard, node } => push_at(
                    memory,
                    PushStep::after_head(shard, node, memory.heads[shard as int]),
                ),
                PushStep::Publish { shard, node, head } => if goes_through(
                    memory,
                    shard,
                    head,
                    spurious,
                ) {
                    push_at(memory, PushStep::after_published(shard, head))
                } else {
                    push_at(memory, PushStep::after_refused(shard, node))
                },
                PushStep::LoadBitmap { shard } => push_at(
                    memory,
                    PushStep::after_bitmap(shard, memory.bitmap),
                ),
                PushStep::SetBit { .. } => push_at(memory, PushStep::after_bit_set()),
                PushStep::Return { .. } => push_at(memory, step),
            },
            Operation::Pop { step, inner } => match inner {
                Inner::Attempt { one, clearing } => match one {
                    PopOneStep::LoadHead { shard } => attempt_at(
                        step,
                        PopOneStep::after_head(shard, memory.heads[shard as int]),
                    ),
                    PopOneStep::LoadNext { shard, node, tag } => attempt_at(
                        step,
                        PopOneStep::after_next(shard, node, tag, memory.nodes[node].next),
                    ),
                    PopOneStep::Exchange { shard, node, tag, next } => if memory.heads[shard as int]
                        == (Head { ptr: Some(node), tag }) {
                        attempt_at(step, PopOneStep::after_exchanged(shard, node, next))
                    } else {
                        attempt_at(step, PopOneStep::after_lost())
                    },
                    PopOneStep::ClearBit { .. } => match clearing {
                        ClearBitStep::LoadBitmap { shard } => clearing_at(
                            step,
                            one,
                            ClearBitStep::after_bitmap(shard, memory.bitmap),
                        ),
                        ClearBitStep::ClearBit { shard } => clearing_at(
                            step,
                            one,
                            ClearBitStep::after_cleared(shard),
                        ),
                        ClearBitStep::LoadHead { shard } => clearing_at(
                            step,
                            one,
                            ClearBitStep::after_head(shard, memory.heads[shard as int]),
                        ),
                        ClearBitStep::SetBit { .. } => clearing_at(
                            step,
                            one,
                            ClearBitStep::after_bit_set(),
                        ),
                        ClearBitStep::Return => clearing_at(step, one, ClearBitStep::Return),
                    },
                    PopOneStep::Take { node } => attempt_at(
                        step,
                        PopOneStep::after_taken(memory.nodes[node].value->0),
                    ),
                    PopOneStep::Return { .. } => attempt_at(step, one),
                },
                Inner::Scan { scan } => match scan {
                    ClosedScanStep::LoadHead { shard_count, shard } => scan_at(
                        step,
                        ClosedScanStep::after_head(
                            shard_count,
                            shard,
                            memory.heads[shard as int],
                        ),
                    ),
                    ClosedScanStep::Return { .. } => scan_at(step, scan),
                },
                Inner::Own => match step {
                    PopStep::LoadBitmap { start, shard_count } => pop_at(
                        PopStep::after_bitmap(start, shard_count, memory.bitmap),
                    ),
                    _ => pop_at(step),
                },
            },
            Operation::Close { step } => match step {
                CloseStep::LoadHead { shard_count, shard, changed } => close_at(
                    CloseStep::after_head(shard_count, shard, changed, memory.heads[shard as int]),
                ),
                CloseStep::Seal { shard_count, shard, changed, head } => if goes_through(
                    memory,
                    shard,
                    head,
                    spurious,
                ) {
                    close_at(CloseStep::after_sealed(shard_count, shard))
                } else {
                    close_at(CloseStep::after_refused(shard_count, shard, changed))
                },
                CloseStep::Return { .. } => close_at(step),
            },
            Operation::IsClosed { step } => match step {
                ClosedScanStep::LoadHead { shard_count, shard } => is_closed_at(
                    ClosedScanStep::after_head(shard_count, shard, memory.heads[shard as int]),
                ),
                ClosedScanStep::Return { .. } => is_closed_at(step),
            },
        }
    }

    /// The head that the operation has read and is about to exchange, with its shard.
    pub open spec fn watched(self) -> Option<(usize, Head<usize>)> {
        match self {
            Operation::Push { step: PushStep::Publish { shard, head, .. } } => Some((shard, head)),
            Operation::Pop { inner: Inner::Attempt { one, .. }, .. } => match one {
                PopOneStep::LoadNext { shard, node, tag } => Some(
                    (shard, Head { ptr: Some(node), tag }),
                ),
                PopOneStep::Exchange { shard, node, tag, .. } => Some(
                    (shard, Head { ptr: Some(node), tag }),
                ),
                _ => None,
            },
            Operation::Close { step: CloseStep::Seal { shard, head, .. } } => Some((shard, head)),
            _ => None,
        }
    }
}

/// What an access makes of the memory.
pub open spec fn memory_after<T>(memory: MemoryView<T>, effect: Effect) -> MemoryView<T> {
    match effect {
        Effect::Nothing => memory,
        Effect::Link { node, next } => memory.linked(node, next),
        Effect::Publish { shard, node, head } => memory.published(shard as int, node, head),
        Effect::Unlink { shard, node, tag, next } => memory.exchanged(
            shard as int,
            Head { ptr: Some(node), tag },
            Head { ptr: next, tag },
        ),
        Effect::Seal { shard, head } => memory.exchanged(
            shard as int,
            head,
            Head { ptr: head.ptr, tag: CLOSED_TAG },
        ),
        Effect::SetBit { shard } => memory.bit_set(shard as int),
        Effect::ClearBit { shard } => memory.bit_cleared(shard as int),
        Effect::Take { node } => memory.taken(node),
        Effect::Release { node } => memory.released(node),
    }
}

/// What an access makes of the lists that hang off the heads.
pub open spec fn lists_after(lists: Seq<Seq<usize>>, effect: Effect) -> Seq<Seq<usize>> {
    match effect {
        Effect::Publish { shard, node, .. } => lists.update(
            shard as int,
            lists[shard as int].push(node),
        ),
        Effect::Unlink { shard, .. } => lists.update(shard as int, lists[shard as int].drop_last()),
        _ => lists,
    }
}

/// What became of the values and of the shards. Operations are known by their numbers.
#[verifier::ext_equal]
#[verifier::reject_recursive_types(T)]
pub struct History<T> {
    /// The value of every push that was begun.
    pub offered: Map<nat, T>,
    /// Which push a node was made for.
    pub origin: Map<usize, nat>,
    /// Which pop got the value of a push.
    pub popped: Map<nat, nat>,
    /// The pushes whose value was handed back.
    pub refused: Set<nat>,
    /// Which close closed a shard.
    pub sealed: Map<usize, nat>,
}

impl<T> History<T> {
    pub open spec fn after(self, operation: nat, effect: Effect) -> Self {
        match effect {
            Effect::Take { node } => History {
                popped: self.popped.insert(self.origin[node], operation),
                ..self
            },
            Effect::Release { node } => History {
                refused: self.refused.insert(self.origin[node]),
                ..self
            },
            Effect::Seal { shard, .. } => History {
                sealed: self.sealed.insert(shard, operation),
                ..self
            },
            _ => self,
        }
    }
}

/// A stack with operations in flight.
#[verifier::ext_equal]
#[verifier::reject_recursive_types(T)]
pub struct System<T> {
    pub memory: MemoryView<T>,
    /// The nodes that hang off each head, top node last.
    pub lists: Seq<Seq<usize>>,
    /// The operations in flight, numbered in the order in which they were begun.
    pub running: Map<nat, Operation<T>>,
    pub begun: nat,
    /// For every node that was given up, the operations that were in flight then: each of them
    /// may have read a pointer to the node before.
    pub guards: Map<usize, Set<nat>>,
    /// The operations that have read a head which another operation has changed since.
    pub overtaken: Set<nat>,
    pub history: History<T>,
}

/// Something that happens to a stack.
#[verifier::reject_recursive_types(T)]
pub enum Event<T> {
    /// A push onto shard `start` is begun, with a node made for its value.
    BeginPush { start: usize, node: usize, value: T },
    /// A pop that tries shard `start` first is begun.
    BeginPop { start: usize },
    BeginClose,
    BeginIsClosed,
    /// An operation makes its next access.
    Access { operation: nat, spurious: bool },
    /// A node that was given up is released.
    Collect { node: usize },
}

impl<T> System<T> {
    pub open spec fn shard_count(self) -> int {
        self.memory.heads.len() as int
    }

    /// A stack with `shard_count` shards, before the first operation.
    pub open spec fn initial(shard_count: nat) -> Self {
        System {
            memory: MemoryView::empty(shard_count),
            lists: Seq::new(shard_count, |i: int| Seq::empty()),
            running: Map::empty(),
            begun: 0,
            guards: Map::empty(),
            overtaken: Set::empty(),
            history: History {
                offered: Map::empty(),
                origin: Map::empty(),
                popped: Map::empty(),
                refused: Set::empty(),
                sealed: Map::empty(),
            },
        }
    }

    /// Whether the event can happen. A node can be made wherever there is none; a node that was
    /// given up can be released once no operation is left that was in flight then.
    pub open spec fn enabled(self, event: Event<T>) -> bool {
        match event {
            Event::BeginPush { start, node, .. } => {
                &&& start < self.shard_count()
                &&& !self.memory.nodes.contains_key(node)
            },
            Event::BeginPop { start } => start < self.shard_count(),
            Event::BeginClose => true,
            Event::BeginIsClosed => true,
            Event::Access { operation, .. } => self.running.contains_key(operation),
            Event::Collect { node } => {
                &&& self.memory.nodes.contains_key(node)
                &&& self.memory.nodes[node].value is None
                &&& self.guards.contains_key(node)
                &&& forall|o: nat| #[trigger]
                    self.guards[node].contains(o) ==> !self.running.contains_key(o)
            },
        }
    }

    /// The stack with one more operation in flight.
    pub open spec fn with_operation(self, operation: Operation<T>) -> Self {
        System {
            running: self.running.insert(self.begun, operation),
            begun: self.begun + 1,
            overtaken: self.overtaken.remove(self.begun),
            ..self
        }
    }

    /// The effect of the next access of an operation.
    pub open spec fn effect(self, operation: nat, spurious: bool) -> Effect {
        self.running[operation].effect(self.memory, spurious)
    }

    /// The progress of an operation by its next access.
    pub open spec fn progress(self, operation: nat, spurious: bool) -> Progress<T> {
        self.running[operation].progress(self.memory, spurious)
    }

    /// The other operations that have read a head which the access changes.
    pub open spec fn overtaken_by(self, operation: nat, spurious: bool) -> Set<nat> {
        let heads = memory_after(self.memory, self.effect(operation, spurious)).heads;
        Set::new(
            |o: nat|
                o != operation && self.running.contains_key(o) && (
                self.running[o].watched() matches Some(w)
                    && heads[w.0 as int] != self.memory.heads[w.0 as int]),
        )
    }

    /// The stack after the next access of an operation.
    pub open spec fn after_access(self, operation: nat, spurious: bool) -> Self {
        let effect = self.effect(operation, spurious);
        System {
            memory: memory_after(self.memory, effect),
            lists: lists_after(self.lists, effect),
            running: match self.progress(operation, spurious) {
                Progress::Running { operation: next } => self.running.insert(operation, next),
                Progress::Finished { .. } => self.running.remove(operation),
            },
            begun: self.begun,
            guards: match effect {
                Effect::Take { node } => self.guards.insert(node, self.running.dom()),
                _ => self.guards,
            },
            overtaken: if self.running[operation].watched() is None {
                self.overtaken.remove(operation)
            } else {
                self.overtaken
            }.union(self.overtaken_by(operation, spurious)),
            history: self.history.after(operation, effect),
        }
    }

    /// The stack after the event.
    pub open spec fn after(self, event: Event<T>) -> Self {
        match event {
            Event::BeginPush { start, node, value } => System {
                memory: self.memory.allocated(node, value),
                history: History {
                    offered: self.history.offered.insert(self.begun, value),
                    origin: self.history.origin.insert(node, self.begun),
                    ..self.history
                },
                ..self.with_operation(
                    Operation::Push { step: PushStep::first(start, node) },
                )
            },
            Event::BeginPop { start } => self.with_operation(
                pop_at(PopStep::<T>::first(start, self.shard_count() as usize))->operation,
            ),
            Event::BeginClose => self.with_operation(
                Operation::Close {
                    step: CloseStep::first(self.shard_count() as usize),
                },
            ),
            Event::BeginIsClosed => self.with_operation(
                Operation::IsClosed {
                    step: ClosedScanStep::first(self.shard_count() as usize),
                },
            ),
            Event::Access { operation, spurious } => self.after_access(operation, spurious),
            Event::Collect { node } => System { memory: self.memory.released(node), ..self },
        }
    }

    /// What an operation returns by the event, if it returns.
    pub open spec fn outcome(self, event: Event<T>) -> Option<Outcome<T>> {
        match event {
            Event::Access { operation, spurious } => match self.progress(operation, spurious) {
                Progress::Finished { outcome } => Some(outcome),
                Progress::Running { .. } => None,
            },
            _ => None,
        }
    }
}

/// Whether `states` can follow upon one another from the making of a stack with `shard_count`
/// shards, by `events`.
pub open spec fn is_execution<T>(
    shard_count: nat,
    states: Seq<System<T>>,
    events: Seq<Event<T>>,
) -> bool {
    &&& layout::valid_shard_count(shard_count as int)
    &&& states.len() == events.len() + 1
    &&& states[0] == System::<T>::initial(shard_count)
    &&& forall|k: int|
        0 <= k < events.len() ==> {
            &&& states[k].enabled(#[trigger] events[k])
            &&& states[k + 1] == states[k].after(events[k])
        }
}

} // verus!
