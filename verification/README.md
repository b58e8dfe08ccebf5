# rand_kernel

The verified core of a small x86_64 teaching kernel, checked with Verus.

- `src/memory/frame.rs` — the bitmap frame allocator: building it from the
  boot memory map, allocation of the lowest free frame, deallocation with
  range and double-free checks, marking ranges used. Its state is modelled as
  `FrameModel` and each operation is specified by a transition on it
  (`alloc_step`, `dealloc_step`, `mark_range_step`, `init_model`).
- `src/memory/mod.rs` — frame rounding, set-up from the memory map with the
  bootloader's regions protected, and the operations on the allocator slot
  the kernel keeps behind a lock.
- `src/memory/heap.rs` — bump allocation arithmetic for the kernel heap.
- `src/sched/circular_queue.rs` — the fixed-capacity ring queue.
- `src/sched/task.rs`, `src/sched/fifo.rs` — tasks and the FIFO scheduler's
  transitions (`schedule_step`, `block_step`, `wake_step`), each returning the
  context switch the caller performs.
- `src/memory/laws.rs`, `src/sched/laws.rs` — properties that span several
  operations, proved over the models.
- `app/` — the kernel around the library: boot entry, serial port, PIC, PIT,
  interrupt handlers, the global locks, stack set-up and the context switch.
