# yaros

A small RISC-V (Sv39) teaching kernel whose core is verified with Verus.

- `src/` is the verified library: Sv39 addresses, page-table entries and
  page tables over a model of physical memory, address spaces (kernel
  layout, ELF loading, copying for `fork`), saved task contexts, the pipe
  ring buffer, console decoding, process bookkeeping (pids, the run queue,
  `wait`/`waitpid`), system-call decoding and the trap decisions, and the
  SBI call encodings.  Each public function carries a contract; the
  properties that span several calls are stated as `law_*` proof
  functions.
- `app/` is the kernel around it: boot, the trap entry, device and console
  I/O, the global state behind a lock, and the loop that carries out what
  the library decides.
- `tests/` exercise the library on concrete values.

Physical memory is modelled by `PhysMemory`: a pool of 4 KiB frames with
an allocator that hands out zeroed frames and recycles returned ones.
Page tables live in that memory, so what the hardware walk finds is stated
over the bytes of the frames.
