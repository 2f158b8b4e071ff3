# rcore_os

The verified core of a small RISC-V (SV39) teaching kernel and of the simple
file system it boots from, written in Verus.

- `src/` is the library. Every function in it is verified except a few
  trusted wrappers around calls into xmas-elf and std (`elf_header`,
  `elf_program_header`, `arc_downgrade`, `weak_upgrade`, `ref_cell_new`):
  - `mm`: physical and virtual addresses, a model of physical memory, the
    frame allocator, three-level page tables, and address spaces (areas,
    the kernel's own space, the space of a program loaded from an ELF file);
  - `task`: identifier allocators, kernel and user stacks, the ready queue,
    the processor, and the bookkeeping of `fork`, `exec` and `exit`;
  - `sync`: interrupt-masking cells, mutexes and condition variables, as
    decisions that the scheduler carries out;
  - `fs`, `net`, `syscall`: the pipe's ring buffer, open flags, the socket and
    port tables, and the decisions of the system calls over these tables;
  - `easy_fs`: the block cache, allocation bitmaps and the layout of the file
    system on disk;
  - `batch`, `loader`, `drivers`: the table of linked-in applications and the
    interrupt controller's register layout.
- `tests/` runs the library on concrete values.
- `app/` is the host-side packer that formats a file system image in a file.

Functions take the state they work on (frame allocator, physical memory,
tables) as parameters; what the kernel keeps in globals, and the work that
only hardware can do (context switches, device registers, `satp`), stays
with the caller.
