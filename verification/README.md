# los

The verified core of a small RISC-V teaching kernel, written in Verus.

- `src/fs`: the on-disk file system: block device and block cache, super
  block, bitmaps, disk inodes and their block maps, directory entries, and
  inodes stored in blocks (lookup, listing, creation, reads and writes).
- `src/file.rs`: files opened by processes.
- `src/mem`: address arithmetic, physical memory, the frame allocator, the
  buddy heap, three-level page tables, ELF reading (through `xmas_elf`),
  and memory sets (the kernel's and a program's address space, forks).
- `src/process.rs`: process ids, the scheduler's queue, waits and forks,
  file-descriptor tables.
- `src/program.rs`: a program's address space and trap context: a new
  process's, a fork's, and the one `exec` puts in place of the old, whose
  frames it gives back.
- `src/syscall.rs`, `src/user.rs`, `src/trap.rs`, `src/io.rs`: system-call
  numbering and dispatch, the user library's requests, trap decisions, and
  user memory: reading user buffers and storing bytes (an exit code, a
  task's id and name) through a process's page table.
- `src/xtask.rs`: the build tool's decisions.
- `app/main.rs`: the build tool itself (command line, cargo, QEMU).
- `tests/`: tests of the library on concrete values.
