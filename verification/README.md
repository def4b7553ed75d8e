# ruke

The memory management of a small x86_64 kernel, verified with Verus:

- `memory`: frames, the `FrameAllocator` interface, and `AreaFrameAllocator`,
  which hands out the free frames of the boot memory areas in order, skipping
  the kernel and the multiboot information.
- `memory::paging`: four-level page tables reached through the recursive P4
  entry. The tables live in `PageTableMemory`, the words the kernel sees at
  the virtual addresses of the recursive mapping. `RecursivePageTable`
  translates addresses, maps and unmaps pages; `laws` proves what these
  promise across calls.
- `boot`: the kernel and boot-information bounds the allocator starts from.
- `cpuio`, `pic`: I/O ports and the interrupt controller, as data.

`app/` holds what touches the hardware: port I/O, the TLB flush, reading the
multiboot information, and the kernel's entry function.
