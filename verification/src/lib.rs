//! Verified core of a small RISC-V teaching kernel: the on-disk file system
//! structures, address arithmetic, page tables, frame and heap allocators,
//! memory sets, process bookkeeping, the system-call interface, and the
//! decisions of the build tool.
pub mod config;
pub mod program;
pub mod file;
pub mod fs;
pub mod io;
pub mod mem;
pub mod process;
pub mod syscall;
pub mod trap;
pub mod user;
pub mod xtask;
