# memory_ordering

Building blocks for low-latency execution, verified with Verus.

- `vwap`: a scheduler that works off a parent order along a volume-weighted average price curve,
  and an order manager that turns market ticks into exchange actions.
- `custom_allocations`: a bump allocator over a buffer of fixed size.
- `memory_ordering`: a lock-free stack whose head is one atomic word.
- `atomics`: the atomic word, which is loom's, and handles that keep a record of what a thread
  does with it.
- `interleavings`: what several threads do to one stack together.
- `binary64`, `rounding`: IEEE 754 binary64 arithmetic on integers, so that what the scheduler
  computes can be stated and proved to the last bit.

Each executable function has a contract over a mathematical model of its type. What holds of
several of them together is stated by the public proof functions whose names begin with `law_`.

`app/` is ordinary Rust around the library: the same types for callers that hold their numbers as
`f64`, the stack with its nodes on the heap, and typed references into the buffer of the
allocator.
