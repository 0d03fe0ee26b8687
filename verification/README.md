# mmk

The verified core of a nested memory-management kernel for RISC-V Sv39: a small kernel that
owns the page tables and lends memory to an outer kernel running above it.

`src/` is the library, checked by Verus:

- `address`, `flags`, `pte`: addresses and page numbers, entry flags and permissions, page-table
  entries.
- `frame_allocator`: a stack frame allocator that records the owners of every frame in use.
- `phys_mem`, `page_table`: page-table frames and the three-level page table built in them.
- `memory_set`: map areas and the nested kernel's own address space.
- `mm_util`, `util`: user buffers split over pages, `log2`.
- `logging`, `trap`, `task`, `serial`: the log page, trap decisions and the services of the
  nested kernel, task contexts, the serial port's registers.
- `pkcs`: a PKCS#11-style token with sessions and key objects.

`tests/` runs the library on concrete values. `app/` is the kernel around it: boot, the global
state behind locks, the heap, and the reads and writes of raw memory and registers.
