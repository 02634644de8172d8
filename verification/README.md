# concurrent-sharded-stack

A lock-free stack for many threads, with its logic proved in Verus.

The stack keeps its values in several shards, each a linked list under a head word of its own, and
sends every thread to a shard of its own as long as there are enough. A pop tries its own shard
`start`, then the shards that a shared bitmap hints at, in the order `start ^ 1`, `start ^ 2`,
`start ^ 3` and so on: near ones first. Values come back last in, first out within a shard; between
shards there is no order. A closed stack takes no more values, and hands
out those it has until it is drained.

## Layout

- `src/` is the verified library.
  - `steps` holds every operation as a machine. A step names one access to shared memory, and
    what that access finds decides on the next step.
  - `memory` performs those accesses, and `stack` runs the machines on it, one operation at a
    time, with contracts over what the shards hold (`shards`).
  - `interleaving` lets the accesses of any number of operations take turns in any order, proves
    what stays true throughout (`consistency`), and states what callers can rely on (`laws`,
    `balance`, `closing`, `afterwards`, `independence`, `undisturbed`, `drain`, `progress`).
  - `layout`, `bits`, `head`, `lists` and `error` are the parts these share.
- `app/` runs the same machines on atomic words of `crossbeam_epoch`, for real threads.
- `tests/` runs the library, with operations one after the other and in turns.

## What is taken for granted

The laws about operations in flight hold for accesses that happen one after the other, in an order
that all threads agree on. Memory orderings weaker than that, and the reclamation of nodes by
`crossbeam_epoch`, are not modelled beyond this: a node that was given up is released only when the
operations that were in flight then are over.
