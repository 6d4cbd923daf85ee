//! Memory management: addresses, page tables, frame and heap allocators and
//! memory sets.
pub mod address;
pub mod physmem;
pub mod frame;
pub mod page_table;
pub mod heap;
pub mod elf;
pub mod memory_set;
