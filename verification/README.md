# rcore_os

The core of a small RISC-V teaching kernel, written in Verus with its
behaviour stated in contracts and proved.

- `src/` is the verified library: Sv39 address arithmetic, a stack frame
  allocator, page tables, address spaces (`MemorySet`, `MapArea`) with ELF
  loading (the ELF header and program headers are parsed by verified code),
  the kernel's own address space, pipes, mailboxes, the ready queue and
  stride-scheduling state of tasks, the system calls, the trap decisions and
  what follows them (the saved registers, the processor and the ready
  queue), the initial trap context of a task and the batch loader's bookkeeping.
- `app/` is the kernel around it: boot, the SBI console, the trap entry,
  the switch between tasks and the loops that wait on pipes.
- `tests/` exercises the library on concrete values.

## Memory as the library holds it

Verified code cannot reach physical memory, so the library holds what its
logic reads as plain values:

- a `PageTable` is the map from page number to leaf entry;
  `PageTable::sv39_tables` (and `MemorySet::sv39_tables`) lays out from it
  the frames of the hardware's three-level Sv39 table, with the proof that
  the MMU's walk through them gives exactly that map;
- the contents of each frame an address space owns are a byte vector in its
  `FrameTracker`.

`app/paging.rs` puts this into the machine: it writes the table frames into
physical memory before `satp` names their root, copies the pages of an
address space into their physical frames, and copies what user code stored
back into the library's pages before a system call reads them.
