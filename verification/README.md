# rvos

The core of a small RISC-V (Sv39) teaching kernel, written in Verus and
verified: page numbers and frames, a bitmap frame allocator, the
three-level page table with its map, unmap and translate, the kernel's own
address space, trap decoding and dispatch, system calls, tasks (kernel
stacks, loading an ELF image page by page, mapping), round-robin task
switching, the kernel logger, and what the bundled user programs compute
(Fibonacci numbers, a prime sieve, a zigzag walk of a grid).

Layout:

- `src/` — the verified library. Each operation states in its contract
  what it returns and how it changes its arguments; the page table is also
  described by an abstract model (`TreeAbs`) that the laws in
  `page_table.rs`, `kernel_map.rs` and `task.rs` are stated over.
- `tests/` — tests on concrete values.
- `app/` — the machine edge: assembly routines (declared, not included),
  kernel statics and boot, the trap handler that carries out the actions the
  library decides on, ELF parsing with `xmas_elf`, and the user programs'
  printing through system calls.
