# toccata

A real-time, fallible, per-CPU-aware memory allocator, verified with Verus. It
reserves its whole budget up front and never asks the kernel for memory again: a
request is served from what is there, or refused at once.

- `src/` is the verified library. Addresses are integers, and an operation takes
  the heap it works on by `&mut`. The contracts say which objects and span runs are
  live before and after, what each CPU's stack and each thread's magazine hold, and
  how the accounting moves. `src/lib.rs` lists the layers.
- `tests/` runs the library on concrete values.
- `app/` is what stands around it: the system calls behind a reservation, the
  thread's CPU record, locks, the `#[global_allocator]`, the supervisor's thread,
  and the benchmark program that measures all of it.

What is trusted is in `src/sys/mod.rs`: arrays that the system allocator backs,
through `allocator_api2`.

The reserved memory is locked, so the process needs `RLIMIT_MEMLOCK` of at least the
pool's size; otherwise it fails at start, with a message that says so.
