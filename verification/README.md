# os

Memory management and trap handling of a small RISC-V teaching kernel, as a
verified library, with the machine-facing kernel code around it in `app/`.

- `src/memory/frame_allocator.rs`: a segment-tree frame allocator that hands
  out the lowest free frame, and a first-fit allocator for runs of frames.
- `src/memory/paging.rs`: page tables as maps from page number to entry.
- `src/memory/memory_set/`: permissions (`attr`), the handlers that choose a
  frame for each page (`handler`), memory areas (`area`) and address spaces
  (`MemorySet`), including the kernel's own.
- `src/interrupt.rs`, `src/context.rs`, `src/timer.rs`: trap dispatch,
  breakpoints and the timer tick count.
- `src/init.rs`: the first-fit allocator self-test and the kernel's free
  physical memory range.
- `app/`: boot, control registers, SBI calls, linker symbols, the heap and
  the console.
