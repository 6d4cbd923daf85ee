use vstd::prelude::*;

verus! {

/// Size of one disk block in bytes.
pub const BLOCK_SIZE: usize = 512;

/// Number of block caches kept in memory at once.
pub const CACHE_NUM: usize = 16;

/// Magic number that marks a valid super block.
pub const EFS_MAGIC: u32 = 0x3b800001;

/// Number of data blocks an inode addresses directly.
pub const INODE_DIRECT_COUNT: usize = 28;

/// Number of block ids held by one index block.
pub const INODE_INDIRECT_COUNT: usize = 128;

/// Size of a page in bytes.
pub const PAGE_SIZE: usize = 4096;

/// Number of bits of the offset inside a page.
pub const PAGE_SIZE_BITS: usize = 12;

/// Virtual address of the trampoline page: the last page of the address
/// space, mapped in every memory set.
pub const TRAMPOLINE: u64 = 0xffff_ffff_ffff_f000;

/// Virtual address of the page that holds a process's trap context, just
/// below the trampoline.
pub const TRAP_CONTEXT: u64 = 0xffff_ffff_ffff_e000;

/// Size of a user stack in bytes.
pub const USER_STACK_SIZE: u64 = 8192;

/// Size of a kernel stack in bytes.
pub const KERNEL_STACK_SIZE: u64 = 8192;

} // verus!
