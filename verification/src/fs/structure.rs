use vstd::prelude::*;
use vstd::bytes::{u32_from_le_bytes, u32_to_le_bytes};
use vstd::std_specs::bits::u64_trailing_ones;
use vstd::string::StringSliceAdditionalSpecFns;
use crate::config::{BLOCK_SIZE, EFS_MAGIC, INODE_DIRECT_COUNT, INODE_INDIRECT_COUNT};
use crate::fs::cache::{
    set_bytes, set_u32, set_u64, u32_at, u64_at, BlockCacheManager, BlockDevice,
};

verus! {

/// The first block of a file system: its magic number and the sizes of its
/// areas, in blocks.
pub struct SuperBlock {
    pub magic: u32,
    pub total_block_num: u32,
    pub inode_bitmap_block_num: u32,
    pub inode_area_block_num: u32,
    pub data_bitmap_block_num: u32,
    pub data_area_block_num: u32,
}

impl SuperBlock {
    /// Marks the super block valid and records the area sizes.
    pub fn init(
        &mut self,
        total_block_num: u32,
        inode_bitmap_block_num: u32,
        inode_area_block_num: u32,
        data_bitmap_block_num: u32,
        data_area_block_num: u32,
    )
        ensures
            final(self).magic == EFS_MAGIC,
            final(self).total_block_num == total_block_num,
            final(self).inode_bitmap_block_num == inode_bitmap_block_num,
            final(self).inode_area_block_num == inode_area_block_num,
            final(self).data_bitmap_block_num == data_bitmap_block_num,
            final(self).data_area_block_num == data_area_block_num,
    {
        self.magic = EFS_MAGIC;
        self.total_block_num = total_block_num;
        self.inode_bitmap_block_num = inode_bitmap_block_num;
        self.inode_area_block_num = inode_area_block_num;
        self.data_bitmap_block_num = data_bitmap_block_num;
        self.data_area_block_num = data_area_block_num;
    }

    /// The on-disk form: the six fields as little-endian `u32`s, in order.
    pub open spec fn spec_bytes(&self) -> Seq<u8> {
        set_u32(set_u32(set_u32(set_u32(set_u32(set_u32(
            Seq::new(24, |i: int| 0u8), 0, self.magic), 4, self.total_block_num), 8,
            self.inode_bitmap_block_num), 12, self.inode_area_block_num), 16,
            self.data_bitmap_block_num), 20, self.data_area_block_num)
    }

    /// Reads a super block from its on-disk form at the start of `data`.
    pub fn from_bytes(data: &[u8]) -> (r: Self)
        requires
            data@.len() >= 24,
        ensures
            r.magic == u32_at(data@, 0),
            r.total_block_num == u32_at(data@, 4),
            r.inode_bitmap_block_num == u32_at(data@, 8),
            r.inode_area_block_num == u32_at(data@, 12),
            r.data_bitmap_block_num == u32_at(data@, 16),
            r.data_area_block_num == u32_at(data@, 20),
    {
        SuperBlock {
            magic: read_u32_le(data, 0),
            total_block_num: read_u32_le(data, 4),
            inode_bitmap_block_num: read_u32_le(data, 8),
            inode_area_block_num: read_u32_le(data, 12),
            data_bitmap_block_num: read_u32_le(data, 16),
            data_area_block_num: read_u32_le(data, 20),
        }
    }

    /// The on-disk form of the super block.
    pub fn to_bytes(&self) -> (r: Vec<u8>)
        ensures
            r@ == self.spec_bytes(),
            r@.len() == 24,
    {
        let mut r: Vec<u8> = Vec::new();
        let mut k: usize = 0;
        while k < 24
            invariant
                0 <= k <= 24,
                r@.len() == k,
                forall|j: int| 0 <= j < k ==> r@[j] == 0u8,
            decreases 24 - k,
        {
            r.push(0u8);
            k = k + 1;
        }
        assert(r@ =~= Seq::new(24, |i: int| 0u8));
        write_u32_le(&mut r, 0, self.magic);
        write_u32_le(&mut r, 4, self.total_block_num);
        write_u32_le(&mut r, 8, self.inode_bitmap_block_num);
        write_u32_le(&mut r, 12, self.inode_area_block_num);
        write_u32_le(&mut r, 16, self.data_bitmap_block_num);
        write_u32_le(&mut r, 20, self.data_area_block_num);
        r
    }

    /// Whether the magic number marks a valid file system.
    pub fn is_valid(&self) -> (r: bool)
        ensures
            r == (self.magic == EFS_MAGIC),
    {
        self.magic == EFS_MAGIC
    }
}


/// The little-endian `u32` at byte `off` of `data`.
pub fn read_u32_le(data: &[u8], off: usize) -> (r: u32)
    requires
        off + 4 <= data@.len(),
    ensures
        r == u32_at(data@, off as int),
{
    let len = data.len();
    let s = vstd::slice::slice_subrange(data, off, off + 4);
    u32_from_le_bytes(s)
}

/// Stores `v` little-endian at byte `off` of `data`.
pub fn write_u32_le(data: &mut Vec<u8>, off: usize, v: u32)
    requires
        off + 4 <= old(data)@.len(),
    ensures
        final(data)@ == set_u32(old(data)@, off as int, v),
        final(data)@.len() == old(data)@.len(),
{
    let bytes = u32_to_le_bytes(v);
    let mut k: usize = 0;
    while k < 4
        invariant
            0 <= k <= 4,
            bytes@.len() == 4,
            off + 4 <= data.len(),
            data@.len() == old(data)@.len(),
            forall|j: int|
                0 <= j < data@.len() ==> #[trigger] data@[j] == if off <= j < off + k {
                    bytes@[j - off]
                } else {
                    old(data)@[j]
                },
        decreases 4 - k,
    {
        data.set(off + k, bytes[k]);
        k = k + 1;
    }
    assert(data@ =~= set_u32(old(data)@, off as int, v));
}


/// The `index`-th 64-bit unit of bitmap block `block` of `disk`.
pub open spec fn bitmap_unit(disk: Map<usize, Seq<u8>>, block: int, index: int) -> u64 {
    u64_at(disk[block as usize], index * 8)
}

/// Every bit of the unit is set.
pub open spec fn unit_full(disk: Map<usize, Seq<u8>>, block: int, index: int) -> bool {
    bitmap_unit(disk, block, index) == u64::MAX
}

/// A run of blocks that records, one bit per item, which items are in use:
/// item `pos` is bit `pos % 64` of unit `(pos % 512) / 64` of block
/// `start_block_id + pos / 512`.
pub struct BitMap {
    pub start_block_id: usize,
    pub block_num: usize,
}

impl BitMap {
    /// A bitmap over `block_num` blocks starting at `start_block_id`.
    pub fn new(start_block_id: usize, block_num: usize) -> (r: Self)
        ensures
            r.start_block_id == start_block_id,
            r.block_num == block_num,
    {
        Self { start_block_id, block_num }
    }

    /// Places the bitmap over `num` blocks starting at `start`.
    pub fn init(&mut self, start: usize, num: usize)
        ensures
            final(self).start_block_id == start,
            final(self).block_num == num,
    {
        self.start_block_id = start;
        self.block_num = num;
    }

    /// Number of blocks the bitmap spans.
    pub fn get_block_num(&self) -> (r: usize)
        ensures
            r == self.block_num,
    {
        self.block_num
    }

    /// Every unit before unit `index` of block `i` (block by block) is full.
    pub open spec fn full_before(&self, disk: Map<usize, Seq<u8>>, i: int, index: int) -> bool {
        forall|bi: int, ui: int|
            0 <= bi < self.block_num && 0 <= ui < 64 && (bi < i || (bi == i && ui < index))
                ==> #[trigger] unit_full(disk, self.start_block_id + bi, ui)
    }

    /// `pos` is where the first clear bit of `d` was found, at bit `off` of
    /// unit `index` of block `i`, reported as `i * 512 + index * 64 + off`,
    /// and `after` is `d` with that bit set.
    pub open spec fn found_at(&self, d: Map<usize, Seq<u8>>, after: Map<usize, Seq<u8>>, pos: usize) -> bool {
        exists|i: int, index: int|
            #![trigger bitmap_unit(d, self.start_block_id + i, index)]
            {
                let block = self.start_block_id + i;
                let unit = bitmap_unit(d, block, index);
                let off = u64_trailing_ones(unit);
                &&& 0 <= i < self.block_num
                &&& 0 <= index < 64
                &&& self.full_before(d, i, index)
                &&& unit != u64::MAX
                &&& pos == i * 512 + index * 64 + off
                &&& after == d.insert(
                    block as usize,
                    set_u64(d[block as usize], index * 8, unit | (1u64 << off)),
                )
            }
    }

    /// Sets the first clear bit, scanning blocks, then units, then bits from
    /// the lowest, and returns its position; `None` when every bit is set.
    pub fn allocate<D: BlockDevice>(&mut self, mgr: &mut BlockCacheManager, device: &mut D) -> (r: Option<usize>)
        requires
            old(mgr).wf(old(device)),
            old(self).start_block_id + old(self).block_num <= usize::MAX,
            old(self).block_num * 512 + 4096 <= usize::MAX,
        ensures
            *final(self) == *old(self),
            final(mgr).wf(final(device)),
            match r {
                None => {
                    &&& old(self).full_before(old(mgr).disk(old(device)), old(self).block_num as int, 0)
                    &&& final(mgr).disk(final(device)) == old(mgr).disk(old(device))
                },
                Some(pos) => old(self).found_at(old(mgr).disk(old(device)), final(mgr).disk(final(device)), pos),
            },
    {
        let ghost d0 = mgr.disk(device);
        let mut i: usize = 0;
        let mut result: Option<usize> = None;
        while i < self.block_num
            invariant_except_break
                result is None,
                mgr.disk(device) == d0,
                self.full_before(d0, i as int, 0),
            invariant
                0 <= i <= self.block_num,
                self.start_block_id + self.block_num <= usize::MAX,
                self.block_num * 512 + 4096 <= usize::MAX,
                mgr.wf(device),
            ensures
                mgr.wf(device),
                result is None ==> mgr.disk(device) == d0 && self.full_before(d0, self.block_num as int, 0),
                result matches Some(pos) ==> self.found_at(d0, mgr.disk(device), pos),
            decreases self.block_num - i,
        {
            let block = self.start_block_id + i;
            assert(i * 512 + 4095 <= usize::MAX) by (nonlinear_arith)
                requires
                    i < self.block_num,
                    self.block_num * 512 + 4096 <= usize::MAX,
            ;
            let mut index: usize = 0;
            while index < 64
                invariant_except_break
                    result is None,
                    mgr.disk(device) == d0,
                    self.full_before(d0, i as int, index as int),
                invariant
                    0 <= i < self.block_num,
                    i * 512 + 4095 <= usize::MAX,
                    0 <= index <= 64,
                    block == self.start_block_id + i,
                    mgr.wf(device),
                ensures
                    mgr.wf(device),
                    result is None ==> mgr.disk(device) == d0 && self.full_before(d0, i as int, 64),
                    result matches Some(pos) ==> self.found_at(d0, mgr.disk(device), pos),
                decreases 64 - index,
            {
                let unit = mgr.read_u64(block, index * 8, device);
                if unit != u64::MAX {
                    let unit_offset = unit.trailing_ones();
                    proof {
                        vstd::std_specs::bits::axiom_u64_trailing_ones(unit);
                    }
                    let new_unit = unit | (1u64 << unit_offset);
                    mgr.modify_u64(block, index * 8, new_unit, device);
                    let pos = i * 512 + index * 64 + unit_offset as usize;
                    assert(bitmap_unit(d0, self.start_block_id + i, index as int) == unit);
                    result = Some(pos);
                    break;
                }
                index = index + 1;
            }
            if result.is_some() {
                break;
            }
            i = i + 1;
        }
        result
    }

    /// `disk` with bit `pos` cleared: bit `pos % 64` of unit `(pos % 512) / 64`
    /// of block `start_block_id + pos / 512`.
    pub open spec fn bit_cleared(&self, disk: Map<usize, Seq<u8>>, pos: usize) -> Map<usize, Seq<u8>> {
        let block = self.start_block_id + pos / 512;
        let index = (pos % 512) / 64;
        let unit = bitmap_unit(disk, block, index as int);
        disk.insert(block as usize, set_u64(disk[block as usize], index * 8, unit & !(1u64 << (pos % 64))))
    }

    /// The first unit with a clear bit is among the first eight units of its
    /// block.
    pub open spec fn first_clear_in_low_units(&self, disk: Map<usize, Seq<u8>>) -> bool {
        exists|i: int, index: int|
            #![trigger bitmap_unit(disk, self.start_block_id + i, index)]
            0 <= i < self.block_num && 0 <= index < 8 && self.full_before(disk, i, index)
                && bitmap_unit(disk, self.start_block_id + i, index) != u64::MAX
    }

    /// Clears bit `pos`, which must be set.
    pub fn dealloc<D: BlockDevice>(&mut self, mgr: &mut BlockCacheManager, device: &mut D, pos: usize)
        requires
            old(mgr).wf(old(device)),
            old(self).start_block_id + pos / 512 <= usize::MAX,
            bitmap_unit(old(mgr).disk(old(device)), old(self).start_block_id + pos / 512, ((pos % 512) / 64) as int)
                & (1u64 << (pos % 64)) != 0,
        ensures
            *final(self) == *old(self),
            final(mgr).wf(final(device)),
            final(mgr).disk(final(device)) == old(self).bit_cleared(old(mgr).disk(old(device)), pos),
    {
        let block_idx = pos / 512;
        let block_offset = pos % 512;
        let unit_idx = block_offset / 64;
        let unit_offset = block_offset % 64;
        let block = self.start_block_id + block_idx;
        let unit = mgr.read_u64(block, unit_idx * 8, device);
        let new_unit = unit & !(1u64 << unit_offset);
        mgr.modify_u64(block, unit_idx * 8, new_unit, device);
    }
}


/// The kind of file an inode describes.
#[derive(PartialEq, Eq, Structural, Clone, Copy)]
pub enum InodeType {
    File,
    Directory,
}

/// The on-disk description of a file: its size and where its data blocks
/// are. Block `k` of the file is `direct_zone[k]` for `k < 28`; the next 128
/// are listed in the first-level index block, the rest in second-level index
/// blocks listed in turn by `second_level_indirect`.
pub struct DiskInode {
    pub size: u32,
    pub direct_zone: [u32; INODE_DIRECT_COUNT],
    pub first_level_indirect: u32,
    pub second_level_indirect: u32,
    pub node_type: InodeType,
}

/// Number of data blocks a file of `size` bytes needs.
pub open spec fn data_blocks(size: int) -> int {
    (size + BLOCK_SIZE - 1) / (BLOCK_SIZE as int)
}

/// Number of blocks, data and index blocks together, a file of `size` bytes
/// needs.
pub open spec fn total_blocks(size: int) -> int {
    let d = data_blocks(size);
    let first = if d > INODE_DIRECT_COUNT { 1int } else { 0int };
    let second = if d > INODE_DIRECT_COUNT + INODE_INDIRECT_COUNT {
        1 + (d - INODE_DIRECT_COUNT - INODE_INDIRECT_COUNT + INODE_INDIRECT_COUNT - 1) / (INODE_INDIRECT_COUNT as int)
    } else {
        0int
    };
    d + first + second
}

/// Block indices below this bound are reachable: an entry of an index block
/// is a `u32` read at the byte offset given by the entry's number, which must
/// leave four bytes inside the block.
pub open spec fn max_block_index() -> int {
    INODE_DIRECT_COUNT + INODE_INDIRECT_COUNT + (BLOCK_SIZE - 3) * INODE_INDIRECT_COUNT
}

/// The id of block `k` of the file described by `ino`, looked up in `disk`.
/// Entry `e` of an index block is the `u32` stored at byte `e` of that block,
/// not at byte `4 * e`, so neighbouring entries share bytes; the writing side
/// (`push_step`) stores them the same way.
pub open spec fn block_map(ino: DiskInode, disk: Map<usize, Seq<u8>>, k: int) -> u32 {
    if k < INODE_DIRECT_COUNT {
        ino.direct_zone@[k]
    } else if k < INODE_DIRECT_COUNT + INODE_INDIRECT_COUNT {
        u32_at(disk[ino.first_level_indirect as usize], k - INODE_DIRECT_COUNT)
    } else {
        let o = k - INODE_DIRECT_COUNT - INODE_INDIRECT_COUNT;
        let p = u32_at(disk[ino.second_level_indirect as usize], o / (INODE_INDIRECT_COUNT as int));
        u32_at(disk[p as usize], o % (INODE_INDIRECT_COUNT as int))
    }
}

/// Byte `p` of the file described by `ino`.
pub open spec fn file_byte(ino: DiskInode, disk: Map<usize, Seq<u8>>, p: int) -> u8 {
    disk[block_map(ino, disk, p / (BLOCK_SIZE as int)) as usize][p % (BLOCK_SIZE as int)]
}

/// Where a read or write of `len` bytes from `start` stops in a file of
/// `size` bytes.
pub open spec fn io_end(start: int, len: int, size: int) -> int {
    if start + len < size {
        start + len
    } else {
        size
    }
}

/// Number of bytes a read or write over `[start, end)` transfers: the whole
/// range when it lies in one block, otherwise up to the start of the block
/// that holds `end`.
pub open spec fn io_len(start: int, end: int) -> int {
    if end <= start {
        0
    } else if end / (BLOCK_SIZE as int) > start / (BLOCK_SIZE as int) {
        (end / (BLOCK_SIZE as int)) * BLOCK_SIZE - start
    } else {
        end - start
    }
}

/// Number of per-block pieces a write over `[start, end)` is cut into.
pub open spec fn num_chunks(start: int, end: int) -> int {
    if end / (BLOCK_SIZE as int) > start / (BLOCK_SIZE as int) {
        end / (BLOCK_SIZE as int) - start / (BLOCK_SIZE as int)
    } else {
        1
    }
}

/// File position where piece `c` of an access from `start` begins.
pub open spec fn chunk_start(start: int, c: int) -> int {
    if c == 0 {
        start
    } else {
        (start / (BLOCK_SIZE as int) + c) * BLOCK_SIZE
    }
}

/// File position where piece `c` of an access over `[start, end)` ends.
pub open spec fn chunk_end(start: int, end: int, c: int) -> int {
    let b = (start / (BLOCK_SIZE as int) + c + 1) * BLOCK_SIZE;
    if b < end {
        b
    } else {
        end
    }
}

/// `disk` after the first `n` pieces of writing `data` over `[start, end)`
/// of the file described by `ino`, each piece going to the block that the
/// file maps its position to at the time it is written.
pub open spec fn write_chunks(
    ino: DiskInode,
    disk: Map<usize, Seq<u8>>,
    start: int,
    end: int,
    data: Seq<u8>,
    n: nat,
) -> Map<usize, Seq<u8>>
    decreases n,
{
    if n == 0 {
        disk
    } else {
        let d = write_chunks(ino, disk, start, end, data, (n - 1) as nat);
        let c = n - 1;
        let id = block_map(ino, d, start / (BLOCK_SIZE as int) + c) as usize;
        let cs = chunk_start(start, c);
        d.insert(
            id,
            set_bytes(d[id], cs % (BLOCK_SIZE as int), data.subrange(cs - start, chunk_end(start, end, c) - start)),
        )
    }
}

/// The block ids `clear_size` collects from the first `n` data blocks of
/// the file described by `ino`, with the index-block fields as they stand
/// afterwards: `(first_level_indirect, second_level_indirect, ids)`. Each
/// index block is listed just before the first entry read from it, and its
/// field is zeroed right after that first entry, so the later entries are
/// read from block 0.
pub open spec fn clear_run(ino: DiskInode, disk: Map<usize, Seq<u8>>, n: nat) -> (u32, u32, Seq<u32>)
    decreases n,
{
    if n == 0 {
        (ino.first_level_indirect, ino.second_level_indirect, Seq::empty())
    } else {
        let prev = clear_run(ino, disk, (n - 1) as nat);
        let first = prev.0;
        let second = prev.1;
        let res = prev.2;
        let index = n - 1;
        if index < INODE_DIRECT_COUNT {
            (first, second, res.push(ino.direct_zone@[index]))
        } else if index < INODE_DIRECT_COUNT + INODE_INDIRECT_COUNT {
            let inner = index - INODE_DIRECT_COUNT;
            let res1 = if inner == 0 { res.push(first) } else { res };
            let res2 = res1.push(u32_at(disk[first as usize], inner));
            (if inner == 0 { 0u32 } else { first }, second, res2)
        } else {
            let off = index - INODE_DIRECT_COUNT - INODE_INDIRECT_COUNT;
            let ii = off / (INODE_INDIRECT_COUNT as int);
            let io = off % (INODE_INDIRECT_COUNT as int);
            let res1 = if off == 0 { res.push(second) } else { res };
            let p = u32_at(disk[second as usize], ii);
            let res2 = if io == 0 { res1.push(p) } else { res1 };
            let res3 = res2.push(u32_at(disk[p as usize], io));
            (first, if off == 0 { 0u32 } else { second }, res3)
        }
    }
}

/// Number of blocks, index blocks included, of a file with `n` data blocks.
pub open spec fn blocks_for(n: int) -> int {
    n + (if n > INODE_DIRECT_COUNT { 1int } else { 0int }) + (if n > INODE_DIRECT_COUNT + INODE_INDIRECT_COUNT {
        1 + (n - INODE_DIRECT_COUNT - INODE_INDIRECT_COUNT + INODE_INDIRECT_COUNT - 1) / (INODE_INDIRECT_COUNT as int)
    } else {
        0int
    })
}

/// One more data block past the direct ones adds itself, the second-level
/// index block when it is the first such block, and a new last-level index
/// block when it starts one.
proof fn lemma_blocks_for_step(off: int)
    requires
        off >= 0,
    ensures
        blocks_for(off + 157) - blocks_for(off + 156) == 1 + (if off == 0 { 1int } else { 0int }) + (if off % 128 == 0 { 1int } else { 0int }),
{
    let q = off / 128;
    let r = off % 128;
    assert(off == 128 * q + r && 0 <= r < 128);
    if off > 0 {
        assert((off + 128) / 128 == q + 1);
        if r == 0 {
            assert((off + 127) / 128 == q);
        } else {
            assert((off + 127) / 128 == q + 1);
        }
    } else {
        assert((off + 128) / 128 == 1);
    }
}

/// `clear_run` over the first `n` data blocks lists as many ids as a file
/// with `n` data blocks has blocks, index blocks included.
pub proof fn lemma_clear_run_len(ino: DiskInode, disk: Map<usize, Seq<u8>>, n: nat)
    ensures
        clear_run(ino, disk, n).2.len() == blocks_for(n as int),
    decreases n,
{
    if n > 0 {
        lemma_clear_run_len(ino, disk, (n - 1) as nat);
        let index = n - 1;
        if index >= INODE_DIRECT_COUNT + INODE_INDIRECT_COUNT {
            let off = index - INODE_DIRECT_COUNT - INODE_INDIRECT_COUNT;
            lemma_blocks_for_step(off);
        }
    }
}

/// The state `push_empty_blocks` works on: the direct block ids, the two
/// index-block fields and the disk.
pub type PushState = (Seq<u32>, u32, u32, Map<usize, Seq<u8>>);

/// One step of `push_empty_blocks` at block `index`, taking ids from the
/// front of `items`: the new state and the ids left, or `None` when the
/// step needs more ids than are left. A step records the id of a data block
/// and, when it is the first block of an index block, the id of that index
/// block first. Entry `e` of an index block is written at byte `e`.
pub open spec fn push_step(st: PushState, items: Seq<u32>, index: int) -> Option<(PushState, Seq<u32>)>
    recommends
        items.len() > 0,
{
    let direct = st.0;
    let first = st.1;
    let second = st.2;
    let disk = st.3;
    if index < INODE_DIRECT_COUNT {
        Some(((direct.update(index, items[0]), first, second, disk), items.drop_first()))
    } else if index < INODE_DIRECT_COUNT + INODE_INDIRECT_COUNT {
        let inner = index - INODE_DIRECT_COUNT;
        let f = if inner == 0 { items[0] } else { first };
        let rest = if inner == 0 { items.drop_first() } else { items };
        if rest.len() == 0 {
            None
        } else {
            let d = disk.insert(f as usize, set_u32(disk[f as usize], inner, rest[0]));
            Some(((direct, f, second, d), rest.drop_first()))
        }
    } else {
        let off = index - INODE_DIRECT_COUNT - INODE_INDIRECT_COUNT;
        let ii = off / (INODE_INDIRECT_COUNT as int);
        let io = off % (INODE_INDIRECT_COUNT as int);
        let s = if off == 0 { items[0] } else { second };
        let r1 = if off == 0 { items.drop_first() } else { items };
        if io == 0 && r1.len() == 0 {
            None
        } else {
            let d1 = if io == 0 { disk.insert(s as usize, set_u32(disk[s as usize], ii, r1[0])) } else { disk };
            let r2 = if io == 0 { r1.drop_first() } else { r1 };
            if r2.len() == 0 {
                None
            } else {
                let p = u32_at(d1[s as usize], ii);
                let d2 = d1.insert(p as usize, set_u32(d1[p as usize], io, r2[0]));
                Some(((direct, first, s, d2), r2.drop_first()))
            }
        }
    }
}

/// `push_empty_blocks` run from block `index` until `items` is used up:
/// the final state, or `None` when some step runs out of ids.
pub open spec fn push_run(st: PushState, items: Seq<u32>, index: int) -> Option<PushState>
    decreases items.len(),
{
    if items.len() == 0 {
        Some(st)
    } else {
        match push_step(st, items, index) {
            None => None,
            Some(next) => if next.1.len() < items.len() {
                push_run(next.0, next.1, index + 1)
            } else {
                None
            },
        }
    }
}

proof fn lemma_in_block(b: int, p: int)
    requires
        b * 512 <= p < b * 512 + 512,
    ensures
        p / 512 == b,
        p % 512 == p - b * 512,
{
}

/// Copies `data` into `buf` from position `at` on.
fn copy_into(buf: &mut [u8], at: usize, data: &Vec<u8>)
    requires
        at + data@.len() <= old(buf)@.len(),
    ensures
        final(buf)@ == set_bytes(old(buf)@, at as int, data@),
        final(buf)@.len() == old(buf)@.len(),
{
    let mut k: usize = 0;
    let n = data.len();
    while k < n
        invariant
            0 <= k <= n,
            n == data@.len(),
            at + n <= buf.len(),
            buf@.len() == old(buf)@.len(),
            forall|j: int|
                0 <= j < buf@.len() ==> #[trigger] buf@[j] == if at <= j < at + k {
                    data@[j - at]
                } else {
                    old(buf)@[j]
                },
        decreases n - k,
    {
        buf[at + k] = data[k];
        k = k + 1;
    }
    assert(buf@ =~= set_bytes(old(buf)@, at as int, data@));
}

impl DiskInode {
    /// Makes the inode describe an empty file of the given type.
    pub fn init(&mut self, node_type: InodeType)
        ensures
            final(self).size == 0,
            forall|k: int| 0 <= k < INODE_DIRECT_COUNT ==> #[trigger] final(self).direct_zone@[k] == 0,
            final(self).first_level_indirect == 0,
            final(self).second_level_indirect == 0,
            final(self).node_type == node_type,
    {
        self.size = 0;
        self.direct_zone = [0; INODE_DIRECT_COUNT];
        self.first_level_indirect = 0;
        self.second_level_indirect = 0;
        self.node_type = node_type;
    }

    /// Number of data blocks a file of `size` bytes needs.
    pub fn data_blocks_num(size: u32) -> (r: usize)
        ensures
            r == data_blocks(size as int),
    {
        ((size as u64 + 511) / 512) as usize
    }

    /// Number of blocks, data and index blocks, a file of `size` bytes needs.
    pub fn total_blocks_num(size: u32) -> (r: usize)
        ensures
            r == total_blocks(size as int),
    {
        let data_blocks_num = Self::data_blocks_num(size);
        let mut res = data_blocks_num;
        if data_blocks_num > INODE_DIRECT_COUNT {
            res += 1;
        }
        if data_blocks_num > INODE_DIRECT_COUNT + INODE_INDIRECT_COUNT {
            res += 1;
            let remains = data_blocks_num - INODE_DIRECT_COUNT - INODE_INDIRECT_COUNT;
            res += (remains + INODE_INDIRECT_COUNT - 1) / INODE_INDIRECT_COUNT;
        }
        res
    }

    /// Number of blocks to add to grow the file to `new_size` bytes.
    pub fn calc_new_blocks(&self, new_size: u32) -> (r: usize)
        requires
            total_blocks(new_size as int) >= total_blocks(self.size as int),
        ensures
            r == total_blocks(new_size as int) - total_blocks(self.size as int),
    {
        Self::total_blocks_num(new_size) - Self::total_blocks_num(self.size)
    }

    /// The id of block `offset` of the file.
    pub fn get_block_id<D: BlockDevice>(
        &self,
        offset: u32,
        mgr: &mut BlockCacheManager,
        device: &mut D,
    ) -> (r: u32)
        requires
            old(mgr).wf(old(device)),
            (offset as int) < max_block_index(),
        ensures
            final(mgr).wf(final(device)),
            final(mgr).disk(final(device)) == old(mgr).disk(old(device)),
            r == block_map(*self, old(mgr).disk(old(device)), offset as int),
    {
        let offset = offset as usize;
        if offset < INODE_DIRECT_COUNT {
            self.direct_zone[offset]
        } else if offset < INODE_DIRECT_COUNT + INODE_INDIRECT_COUNT {
            let inner_offset = offset - INODE_DIRECT_COUNT;
            mgr.read_u32(self.first_level_indirect as usize, inner_offset, device)
        } else {
            let offset = offset - INODE_DIRECT_COUNT - INODE_INDIRECT_COUNT;
            let inner_idx = offset / INODE_INDIRECT_COUNT;
            let inner_offset = offset % INODE_INDIRECT_COUNT;
            let id = mgr.read_u32(self.second_level_indirect as usize, inner_idx, device);
            mgr.read_u32(id as usize, inner_offset, device)
        }
    }

    /// Reads the file from byte `start` into `buf`, up to the end of the
    /// file; returns the number of bytes read, which stops short at the start
    /// of the last block touched when the range spans several blocks.
    pub fn read_at<D: BlockDevice>(
        &self,
        start: usize,
        buf: &mut [u8],
        mgr: &mut BlockCacheManager,
        device: &mut D,
    ) -> (r: usize)
        requires
            old(mgr).wf(old(device)),
            start + old(buf)@.len() <= usize::MAX,
            io_end(start as int, old(buf)@.len() as int, self.size as int) <= max_block_index() * BLOCK_SIZE,
        ensures
            final(mgr).wf(final(device)),
            final(mgr).disk(final(device)) == old(mgr).disk(old(device)),
            r == io_len(start as int, io_end(start as int, old(buf)@.len() as int, self.size as int)),
            final(buf)@.len() == old(buf)@.len(),
            forall|j: int| 0 <= j < r ==> #[trigger] final(buf)@[j] == file_byte(*self, old(mgr).disk(old(device)), start + j),
            forall|j: int| r <= j < old(buf)@.len() ==> #[trigger] final(buf)@[j] == old(buf)@[j],
    {
        let ghost d0 = mgr.disk(device);
        let len = buf.len();
        let size = self.size as usize;
        let end = if start + len < size { start + len } else { size };
        if end <= start {
            return 0;
        }
        let start_block = start / BLOCK_SIZE;
        let end_block = end / BLOCK_SIZE;
        let id = self.get_block_id(start_block as u32, mgr, device);
        let first_end = if (start_block + 1) * BLOCK_SIZE < end { (start_block + 1) * BLOCK_SIZE } else { end };
        let single_size = first_end - start;
        proof {
            mgr.lemma_disk_len(device, id as usize);
        }
        let data = mgr.read_bytes(id as usize, start % BLOCK_SIZE, single_size, device);
        copy_into(buf, 0, &data);
        assert forall|j: int| 0 <= j < single_size implies #[trigger] buf@[j] == file_byte(*self, d0, start + j) by {
            lemma_in_block(start_block as int, start + j);
        }
        let mut read_size = single_size;
        let mut block_offset = start_block + 1;
        while block_offset < end_block
            invariant
                start < end,
                end <= max_block_index() * BLOCK_SIZE,
                start_block == start / BLOCK_SIZE,
                end_block == end / BLOCK_SIZE,
                start_block < block_offset,
                block_offset <= end_block || block_offset == start_block + 1,
                read_size == chunk_end(start as int, end as int, block_offset - start_block - 1) - start,
                read_size <= len,
                len == buf@.len(),
                len == old(buf)@.len(),
                end <= start + len,
                mgr.wf(device),
                mgr.disk(device) == d0,
                forall|j: int| 0 <= j < read_size ==> #[trigger] buf@[j] == file_byte(*self, d0, start + j),
                forall|j: int| read_size <= j < len ==> #[trigger] buf@[j] == old(buf)@[j],
            decreases end_block - block_offset,
        {
            let id = self.get_block_id(block_offset as u32, mgr, device);
            let block_end = if (block_offset + 1) * BLOCK_SIZE < end { (block_offset + 1) * BLOCK_SIZE } else { end };
            let single_size = block_end - block_offset * BLOCK_SIZE;
            proof {
                mgr.lemma_disk_len(device, id as usize);
            }
            let data = mgr.read_bytes(id as usize, 0, single_size, device);
            let ghost before = buf@;
            copy_into(buf, read_size, &data);
            assert forall|j: int| 0 <= j < read_size + single_size implies #[trigger] buf@[j] == file_byte(*self, d0, start + j) by {
                if j >= read_size {
                    lemma_in_block(block_offset as int, start + j);
                } else {
                    assert(buf@[j] == before[j]);
                }
            }
            read_size = read_size + single_size;
            block_offset = block_offset + 1;
        }
        read_size
    }

    /// Writes `buf` into the file from byte `start` on, never past the end
    /// of the file; returns the number of bytes written, which stops short at
    /// the start of the last block touched when the range spans several
    /// blocks.
    pub fn write_at<D: BlockDevice>(
        &self,
        start: usize,
        buf: &[u8],
        mgr: &mut BlockCacheManager,
        device: &mut D,
    ) -> (r: usize)
        requires
            old(mgr).wf(old(device)),
            start + buf@.len() <= usize::MAX,
            io_end(start as int, buf@.len() as int, self.size as int) <= max_block_index() * BLOCK_SIZE,
        ensures
            final(mgr).wf(final(device)),
            r == io_len(start as int, io_end(start as int, buf@.len() as int, self.size as int)),
            ({
                let end = io_end(start as int, buf@.len() as int, self.size as int);
                final(mgr).disk(final(device)) == if end <= start {
                    old(mgr).disk(old(device))
                } else {
                    write_chunks(*self, old(mgr).disk(old(device)), start as int, end, buf@, num_chunks(start as int, end) as nat)
                }
            }),
    {
        let ghost d0 = mgr.disk(device);
        let len = buf.len();
        let size = self.size as usize;
        let end = if start + len < size { start + len } else { size };
        if end <= start {
            return 0;
        }
        let start_block = start / BLOCK_SIZE;
        let end_block = end / BLOCK_SIZE;
        let id = self.get_block_id(start_block as u32, mgr, device);
        let first_end = if (start_block + 1) * BLOCK_SIZE < end { (start_block + 1) * BLOCK_SIZE } else { end };
        let single_size = first_end - start;
        let src = vstd::slice::slice_subrange(buf, 0, single_size);
        proof {
            mgr.lemma_disk_len(device, id as usize);
        }
        mgr.modify_bytes(id as usize, start % BLOCK_SIZE, src, device);
        assert(mgr.disk(device) == write_chunks(*self, d0, start as int, end as int, buf@, 1)) by {
            assert(write_chunks(*self, d0, start as int, end as int, buf@, 0) == d0);
            assert(chunk_end(start as int, end as int, 0) == first_end);
            assert(src@ == buf@.subrange(0, first_end - start));
        }
        let mut write_size = single_size;
        let mut block_offset = start_block + 1;
        while block_offset < end_block
            invariant
                start < end,
                end <= max_block_index() * BLOCK_SIZE,
                start_block == start / BLOCK_SIZE,
                end_block == end / BLOCK_SIZE,
                start_block < block_offset,
                block_offset <= end_block || block_offset == start_block + 1,
                write_size == chunk_end(start as int, end as int, block_offset - start_block - 1) - start,
                write_size <= len,
                len == buf@.len(),
                end <= start + len,
                mgr.wf(device),
                mgr.disk(device) == write_chunks(*self, d0, start as int, end as int, buf@, (block_offset - start_block) as nat),
            decreases end_block - block_offset,
        {
            let id = self.get_block_id(block_offset as u32, mgr, device);
            let block_end = if (block_offset + 1) * BLOCK_SIZE < end { (block_offset + 1) * BLOCK_SIZE } else { end };
            let single_size = block_end - block_offset * BLOCK_SIZE;
            let src = vstd::slice::slice_subrange(buf, write_size, write_size + single_size);
            proof {
                mgr.lemma_disk_len(device, id as usize);
            }
            mgr.modify_bytes(id as usize, 0, src, device);
            write_size = write_size + single_size;
            block_offset = block_offset + 1;
        }
        write_size
    }

    /// Lists the blocks of the file for freeing: for each data block, its
    /// id, preceded by the id of an index block at the first entry read from
    /// it (see `clear_run`). An index-block field is zeroed right after its
    /// first entry is read, so the later entries are read from block 0. The
    /// size and the direct ids are left as they are.
    pub fn clear_size<D: BlockDevice>(&mut self, mgr: &mut BlockCacheManager, device: &mut D) -> (r: Vec<u32>)
        requires
            old(mgr).wf(old(device)),
            data_blocks(old(self).size as int) <= max_block_index(),
        ensures
            final(mgr).wf(final(device)),
            final(mgr).disk(final(device)) == old(mgr).disk(old(device)),
            ({
                let run = clear_run(*old(self), old(mgr).disk(old(device)), data_blocks(old(self).size as int) as nat);
                &&& r@ == run.2
                &&& final(self).first_level_indirect == run.0
                &&& final(self).second_level_indirect == run.1
            }),
            r@.len() == total_blocks(old(self).size as int),
            final(self).size == old(self).size,
            final(self).direct_zone == old(self).direct_zone,
            final(self).node_type == old(self).node_type,
    {
        let ghost d0 = mgr.disk(device);
        let ghost ino = *self;
        let mut res: Vec<u32> = Vec::new();
        let cur = Self::data_blocks_num(self.size);
        let mut index: usize = 0;
        while index < cur
            invariant
                0 <= index <= cur,
                cur == data_blocks(ino.size as int),
                cur <= max_block_index(),
                mgr.wf(device),
                mgr.disk(device) == d0,
                self.size == ino.size,
                self.direct_zone == ino.direct_zone,
                self.node_type == ino.node_type,
                ({
                    let run = clear_run(ino, d0, index as nat);
                    &&& res@ == run.2
                    &&& self.first_level_indirect == run.0
                    &&& self.second_level_indirect == run.1
                }),
            decreases cur - index,
        {
            if index < INODE_DIRECT_COUNT {
                res.push(self.direct_zone[index]);
            } else if index < INODE_DIRECT_COUNT + INODE_INDIRECT_COUNT {
                let inner_idx = index - INODE_DIRECT_COUNT;
                if inner_idx == 0 {
                    res.push(self.first_level_indirect);
                }
                let id = mgr.read_u32(self.first_level_indirect as usize, inner_idx, device);
                res.push(id);
                if inner_idx == 0 {
                    self.first_level_indirect = 0;
                }
            } else {
                let offset = index - INODE_DIRECT_COUNT - INODE_INDIRECT_COUNT;
                let inner_idx = offset / INODE_INDIRECT_COUNT;
                let inner_offset = offset % INODE_INDIRECT_COUNT;
                if offset == 0 {
                    res.push(self.second_level_indirect);
                }
                let ptr = mgr.read_u32(self.second_level_indirect as usize, inner_idx, device);
                if inner_offset == 0 {
                    res.push(ptr);
                }
                let id = mgr.read_u32(ptr as usize, inner_offset, device);
                res.push(id);
                if offset == 0 {
                    self.second_level_indirect = 0;
                }
            }
            index = index + 1;
        }
        proof {
            lemma_clear_run_len(ino, d0, cur as nat);
            assert(total_blocks(ino.size as int) == blocks_for(cur as int));
        }
        res
    }

    /// Grows the file to `new_size` bytes, taking the ids of the blocks to
    /// add, index blocks included, from `new_blocks` in order. Block numbers
    /// are counted from `total_blocks(size)`, index blocks included, so once
    /// the file has index blocks they run ahead of its data blocks; an entry
    /// of an index block is written at the byte given by its number (see
    /// `push_step`).
    pub fn push_empty_blocks<D: BlockDevice>(
        &mut self,
        new_size: u32,
        new_blocks: Vec<u32>,
        mgr: &mut BlockCacheManager,
        device: &mut D,
    )
        requires
            old(mgr).wf(old(device)),
            total_blocks(new_size as int) >= total_blocks(old(self).size as int),
            new_blocks@.len() == total_blocks(new_size as int) - total_blocks(old(self).size as int),
            total_blocks(old(self).size as int) + new_blocks@.len() <= max_block_index(),
            push_run(
                (old(self).direct_zone@, old(self).first_level_indirect, old(self).second_level_indirect, old(mgr).disk(old(device))),
                new_blocks@,
                total_blocks(old(self).size as int),
            ) is Some,
        ensures
            final(mgr).wf(final(device)),
            ({
                let st = push_run(
                    (old(self).direct_zone@, old(self).first_level_indirect, old(self).second_level_indirect, old(mgr).disk(old(device))),
                    new_blocks@,
                    total_blocks(old(self).size as int),
                ).unwrap();
                &&& final(self).direct_zone@ == st.0
                &&& final(self).first_level_indirect == st.1
                &&& final(self).second_level_indirect == st.2
                &&& final(mgr).disk(final(device)) == st.3
            }),
            final(self).size == new_size,
            final(self).node_type == old(self).node_type,
            old(self).size == 0 && data_blocks(new_size as int) <= INODE_DIRECT_COUNT + 1 ==> forall|k: int|
                0 <= k < data_blocks(new_size as int) ==> #[trigger] block_map(*final(self), final(mgr).disk(final(device)), k)
                    == new_blocks@[if k < INODE_DIRECT_COUNT { k } else { k + 1 }],
    {
        let ghost target = push_run(
            (self.direct_zone@, self.first_level_indirect, self.second_level_indirect, mgr.disk(device)),
            new_blocks@,
            total_blocks(self.size as int),
        ).unwrap();
        let cur = Self::total_blocks_num(self.size);
        let n = new_blocks.len();
        let mut pos: usize = 0;
        let mut index = cur;
        assert(new_blocks@.skip(0) =~= new_blocks@);
        while pos < n
            invariant
                0 <= pos <= n,
                n == new_blocks@.len(),
                cur <= index,
                index - cur <= pos,
                cur + n <= max_block_index(),
                mgr.wf(device),
                self.node_type == old(self).node_type,
                push_run(
                    (self.direct_zone@, self.first_level_indirect, self.second_level_indirect, mgr.disk(device)),
                    new_blocks@.skip(pos as int),
                    index as int,
                ) == Some(target),
            decreases n - pos,
        {
            let ghost items = new_blocks@.skip(pos as int);
            let ghost st = (self.direct_zone@, self.first_level_indirect, self.second_level_indirect, mgr.disk(device));
            assert(items.len() > 0);
            let ghost step = push_step(st, items, index as int);
            assert(step is Some);
            if index < INODE_DIRECT_COUNT {
                self.direct_zone[index] = new_blocks[pos];
                pos = pos + 1;
            } else if index < INODE_DIRECT_COUNT + INODE_INDIRECT_COUNT {
                let inner_idx = index - INODE_DIRECT_COUNT;
                if inner_idx == 0 {
                    self.first_level_indirect = new_blocks[pos];
                    pos = pos + 1;
                }
                let v = new_blocks[pos];
                pos = pos + 1;
                mgr.modify_u32(self.first_level_indirect as usize, inner_idx, v, device);
            } else {
                let offset = index - INODE_DIRECT_COUNT - INODE_INDIRECT_COUNT;
                let inner_idx = offset / INODE_INDIRECT_COUNT;
                let inner_offset = offset % INODE_INDIRECT_COUNT;
                if offset == 0 {
                    self.second_level_indirect = new_blocks[pos];
                    pos = pos + 1;
                }
                if inner_offset == 0 {
                    let v = new_blocks[pos];
                    pos = pos + 1;
                    mgr.modify_u32(self.second_level_indirect as usize, inner_idx, v, device);
                }
                let ptr = mgr.read_u32(self.second_level_indirect as usize, inner_idx, device);
                let v = new_blocks[pos];
                pos = pos + 1;
                mgr.modify_u32(ptr as usize, inner_offset, v, device);
            }
            assert(new_blocks@.skip(pos as int) =~= step.unwrap().1);
            assert((self.direct_zone@, self.first_level_indirect, self.second_level_indirect, mgr.disk(device)) == step.unwrap().0);
            index = index + 1;
        }
        assert(new_blocks@.skip(pos as int) =~= Seq::<u32>::empty());
        self.size = new_size;
        proof {
            if old(self).size == 0 && data_blocks(new_size as int) <= INODE_DIRECT_COUNT + 1 {
                assert(total_blocks(0) == 0);
                let st = target;
                assert(self.direct_zone@ == st.0 && self.first_level_indirect == st.1 && self.second_level_indirect == st.2);
                assert(mgr.disk(device) == st.3);
                let g = *self;
                assert(g.size == new_size);
                assert(push_run((old(self).direct_zone@, old(self).first_level_indirect, old(self).second_level_indirect, old(mgr).disk(old(device))), new_blocks@, 0) == Some(st));
                assert forall|b: usize| #[trigger] old(mgr).disk(old(device))[b].len() == BLOCK_SIZE by {
                    old(mgr).lemma_disk_len(old(device), b);
                }
                crate::fs::inode::lemma_push_then_clear(*old(self), old(mgr).disk(old(device)), new_size, new_blocks@);
                assert(clear_run(g, st.3, data_blocks(new_size as int) as nat).2 == new_blocks@);
                assert forall|k: int| 0 <= k < data_blocks(new_size as int) implies #[trigger] block_map(*self, mgr.disk(device), k)
                    == new_blocks@[if k < INODE_DIRECT_COUNT { k } else { k + 1 }] by {
                    assert(block_map(g, st.3, k) == new_blocks@[if k < INODE_DIRECT_COUNT { k } else { k + 1 }]);
                }
            }
        }
    }
}


/// Longest name a directory entry holds, in bytes, its terminating zero
/// excluded.
pub const NAME_LENGTH_LIMIT: usize = 27;

/// Size of a directory entry on disk: the name bytes, then the inode id.
pub const DIR_ENTRY_SIZE: usize = 32;

/// A directory entry: a zero-terminated name and the id of its inode.
pub struct DirEntry {
    pub name: [u8; 28],
    pub inode_id: u32,
}

/// The bytes of `name` before its first zero byte.
pub open spec fn name_prefix(name: Seq<u8>) -> Seq<u8> {
    if exists|i: int| 0 <= i < name.len() && name[i] == 0 {
        name.subrange(0, choose|i: int| 0 <= i < name.len() && name[i] == 0 && forall|j: int| 0 <= j < i ==> name[j] != 0)
    } else {
        name
    }
}

/// A zero byte ends the name within its 28 bytes.
pub open spec fn name_terminated(name: Seq<u8>) -> bool {
    exists|i: int| 0 <= i < 28 && name[i] == 0
}

impl DirEntry {
    /// An entry with an empty name and inode id 0.
    pub fn empty() -> (r: Self)
        ensures
            forall|i: int| 0 <= i < 28 ==> #[trigger] r.name@[i] == 0,
            r.inode_id == 0,
    {
        Self { name: [0u8; 28], inode_id: 0 }
    }

    /// An entry for `name`, whose bytes must be fewer than
    /// `NAME_LENGTH_LIMIT`, and inode `inode_id`.
    pub fn new(name: &str, inode_id: u32) -> (r: Self)
        requires
            name.spec_bytes().len() < NAME_LENGTH_LIMIT,
        ensures
            r.name@ == name.spec_bytes() + Seq::new((28 - name.spec_bytes().len()) as nat, |i: int| 0u8),
            r.inode_id == inode_id,
    {
        let bytes = name.as_bytes();
        let mut cloned = [0u8; 28];
        let n = bytes.len();
        let mut k: usize = 0;
        while k < n
            invariant
                0 <= k <= n,
                n == bytes@.len(),
                n < NAME_LENGTH_LIMIT,
                bytes@ == name.spec_bytes(),
                forall|j: int| 0 <= j < 28 ==> #[trigger] cloned@[j] == if j < k { bytes@[j] } else { 0u8 },
            decreases n - k,
        {
            cloned[k] = bytes[k];
            k = k + 1;
        }
        assert(cloned@ =~= name.spec_bytes() + Seq::new((28 - name.spec_bytes().len()) as nat, |i: int| 0u8));
        Self { name: cloned, inode_id }
    }

    /// The name: the bytes before the first zero byte, which must come
    /// within the 28 name bytes, and which must form UTF-8 text.
    pub fn get_name(&self) -> (r: Vec<u8>)
        requires
            name_terminated(self.name@),
            vstd::utf8::valid_utf8(name_prefix(self.name@)),
        ensures
            r@ == name_prefix(self.name@),
    {
        let mut r: Vec<u8> = Vec::new();
        let mut i: usize = 0;
        while i < 28
            invariant
                0 <= i <= 28,
                r@ == self.name@.subrange(0, i as int),
                forall|j: int| 0 <= j < i ==> self.name@[j] != 0,
            ensures
                0 <= i <= 28,
                r@ == self.name@.subrange(0, i as int),
                forall|j: int| 0 <= j < i ==> self.name@[j] != 0,
                i < 28 ==> self.name@[i as int] == 0,
            decreases 28 - i,
        {
            if self.name[i] == 0 {
                break;
            }
            r.push(self.name[i]);
            i = i + 1;
            assert(r@ =~= self.name@.subrange(0, i as int));
        }
        proof {
            if i < 28 {
                let w = choose|k: int| 0 <= k < self.name@.len() && self.name@[k] == 0 && forall|j: int| 0 <= j < k ==> self.name@[j] != 0;
                assert(0 <= (i as int) < self.name@.len() && self.name@[i as int] == 0 && forall|j: int| 0 <= j < i ==> self.name@[j] != 0);
                assert(w == i) by {
                    if w < i {
                        assert(self.name@[w] != 0);
                    } else if w > i {
                        assert(self.name@[i as int] != 0);
                    }
                }
            } else {
                assert(r@ =~= self.name@);
            }
        }
        r
    }

    /// The id of the entry's inode.
    pub fn get_inode(&self) -> (r: u32)
        ensures
            r == self.inode_id,
    {
        self.inode_id
    }

    /// The on-disk form: the 28 name bytes, then the inode id little-endian.
    pub open spec fn spec_bytes(&self) -> Seq<u8> {
        set_u32(self.name@ + Seq::new(4, |i: int| 0u8), 28, self.inode_id)
    }

    /// The on-disk form of the entry.
    pub fn as_bytes(&self) -> (r: Vec<u8>)
        ensures
            r@ == self.spec_bytes(),
            r@.len() == DIR_ENTRY_SIZE,
    {
        let mut r: Vec<u8> = Vec::new();
        let mut k: usize = 0;
        while k < 28
            invariant
                0 <= k <= 28,
                r@ == self.name@.subrange(0, k as int),
            decreases 28 - k,
        {
            r.push(self.name[k]);
            k = k + 1;
            assert(r@ =~= self.name@.subrange(0, k as int));
        }
        while k < 32
            invariant
                28 <= k <= 32,
                r@ == self.name@ + Seq::new((k - 28) as nat, |i: int| 0u8),
            decreases 32 - k,
        {
            r.push(0u8);
            k = k + 1;
            assert(r@ =~= self.name@ + Seq::new((k - 28) as nat, |i: int| 0u8));
        }
        write_u32_le(&mut r, 28, self.inode_id);
        r
    }

    /// Reads an entry from its on-disk form at the start of `data`.
    pub fn from_bytes(data: &[u8]) -> (r: Self)
        requires
            data@.len() >= DIR_ENTRY_SIZE,
        ensures
            r.name@ == data@.subrange(0, 28),
            r.inode_id == u32_at(data@, 28),
    {
        let mut name = [0u8; 28];
        let mut k: usize = 0;
        while k < 28
            invariant
                0 <= k <= 28,
                data@.len() >= DIR_ENTRY_SIZE,
                forall|j: int| 0 <= j < k ==> #[trigger] name@[j] == data@[j],
            decreases 28 - k,
        {
            name[k] = data[k];
            k = k + 1;
        }
        assert(name@ =~= data@.subrange(0, 28));
        Self { name, inode_id: read_u32_le(data, 28) }
    }
}


/// Whether looking up block `k` of the file reads block `b`: the first-level
/// index block, or the second-level block and the index block it points to.
pub open spec fn consults(ino: DiskInode, disk: Map<usize, Seq<u8>>, k: int, b: u32) -> bool {
    if k < INODE_DIRECT_COUNT {
        false
    } else if k < INODE_DIRECT_COUNT + INODE_INDIRECT_COUNT {
        b == ino.first_level_indirect
    } else {
        let o = k - INODE_DIRECT_COUNT - INODE_INDIRECT_COUNT;
        b == ino.second_level_indirect || b == u32_at(disk[ino.second_level_indirect as usize], o / (INODE_INDIRECT_COUNT as int))
    }
}

/// The file blocks an access over `[start, end)` touches map to distinct
/// disk blocks, none of which is read to look up a touched block.
pub open spec fn blocks_separate(ino: DiskInode, disk: Map<usize, Seq<u8>>, start: int, end: int) -> bool {
    let first = start / (BLOCK_SIZE as int);
    let last = first + num_chunks(start, end);
    &&& forall|k1: int, k2: int|
        first <= k1 < last && first <= k2 < last && k1 != k2 ==> #[trigger] block_map(ino, disk, k1) != #[trigger] block_map(ino, disk, k2)
    &&& forall|k1: int, k2: int|
        first <= k1 < last && first <= k2 < last ==> !#[trigger] consults(ino, disk, k2, block_map(ino, disk, k1))
}

proof fn lemma_map_unchanged(ino: DiskInode, disk: Map<usize, Seq<u8>>, k: int, b: u32, v: Seq<u8>)
    requires
        !consults(ino, disk, k, b),
    ensures
        block_map(ino, disk.insert(b as usize, v), k) == block_map(ino, disk, k),
        forall|b2: u32| #[trigger] consults(ino, disk.insert(b as usize, v), k, b2) == consults(ino, disk, k, b2),
{
    if k >= INODE_DIRECT_COUNT + INODE_INDIRECT_COUNT {
        let o = k - INODE_DIRECT_COUNT - INODE_INDIRECT_COUNT;
        let p = u32_at(disk[ino.second_level_indirect as usize], o / (INODE_INDIRECT_COUNT as int));
        assert(disk.insert(b as usize, v)[ino.second_level_indirect as usize] == disk[ino.second_level_indirect as usize]);
        assert(disk.insert(b as usize, v)[p as usize] == disk[p as usize]);
    } else if k >= INODE_DIRECT_COUNT {
        assert(disk.insert(b as usize, v)[ino.first_level_indirect as usize] == disk[ino.first_level_indirect as usize]);
    }
}

proof fn lemma_write_chunks_prefix(
    ino: DiskInode,
    disk: Map<usize, Seq<u8>>,
    start: int,
    end: int,
    data: Seq<u8>,
    m: nat,
)
    requires
        0 <= start < end,
        end - start <= data.len(),
        1 <= m <= num_chunks(start, end),
        forall|b: usize| #[trigger] disk[b].len() == BLOCK_SIZE,
        blocks_separate(ino, disk, start, end),
    ensures
        ({
            let d = write_chunks(ino, disk, start, end, data, m);
            let first = start / (BLOCK_SIZE as int);
            let last = first + num_chunks(start, end);
            &&& forall|b: usize| #[trigger] d[b].len() == BLOCK_SIZE
            &&& forall|k: int| first <= k < last ==> #[trigger] block_map(ino, d, k) == block_map(ino, disk, k)
            &&& forall|k: int, b: u32| first <= k < last ==> #[trigger] consults(ino, d, k, b) == consults(ino, disk, k, b)
            &&& forall|k: int| first + m <= k < last ==> #[trigger] d[block_map(ino, disk, k) as usize] == disk[block_map(ino, disk, k) as usize]
            &&& forall|j: int| 0 <= j < chunk_end(start, end, m - 1) - start ==> #[trigger] file_byte(ino, d, start + j) == data[j]
        }),
    decreases m,
{
    let first = start / (BLOCK_SIZE as int);
    let last = first + num_chunks(start, end);
    let prev = write_chunks(ino, disk, start, end, data, (m - 1) as nat);
    let c = m - 1;
    let k_c = first + c;
    let b = block_map(ino, prev, k_c);
    let cs = chunk_start(start, c);
    let ce = chunk_end(start, end, c);
    let piece = data.subrange(cs - start, ce - start);
    let d = write_chunks(ino, disk, start, end, data, m);
    if m > 1 {
        lemma_write_chunks_prefix(ino, disk, start, end, data, (m - 1) as nat);
    }
    assert(forall|b2: usize| #[trigger] prev[b2].len() == BLOCK_SIZE);
    assert(b == block_map(ino, disk, k_c));
    assert(cs <= ce);
    assert(first * 512 <= cs);
    assert(ce <= (first + c + 1) * 512);
    lemma_in_block(k_c, cs);
    assert(cs % 512 + (ce - cs) <= 512);
    let newblock = set_bytes(prev[b as usize], cs % 512, piece);
    assert(d == prev.insert(b as usize, newblock));
    assert forall|k: int, b2: u32| first <= k < last implies #[trigger] consults(ino, d, k, b2) == consults(ino, disk, k, b2) by {
        assert(!consults(ino, disk, k, block_map(ino, disk, k_c)));
        lemma_map_unchanged(ino, prev, k, b, newblock);
    }
    assert forall|k: int| first <= k < last implies #[trigger] block_map(ino, d, k) == block_map(ino, disk, k) by {
        assert(!consults(ino, disk, k, block_map(ino, disk, k_c)));
        lemma_map_unchanged(ino, prev, k, b, newblock);
    }
    assert forall|k: int| first + m <= k < last implies #[trigger] d[block_map(ino, disk, k) as usize] == disk[block_map(ino, disk, k) as usize] by {
        assert(block_map(ino, disk, k) != block_map(ino, disk, k_c));
    }
    assert forall|j: int| 0 <= j < ce - start implies #[trigger] file_byte(ino, d, start + j) == data[j] by {
        let p = start + j;
        let k = p / 512;
        if j < cs - start {
            assert(c > 0);
            assert(chunk_end(start, end, (m - 2) as int) == cs);
            assert(file_byte(ino, prev, p) == data[j]);
            assert(first <= k < k_c);
            assert(block_map(ino, disk, k) != block_map(ino, disk, k_c));
            lemma_map_unchanged(ino, prev, k, b, newblock);
        } else {
            lemma_in_block(k_c, p);
            assert(k == k_c);
            lemma_map_unchanged(ino, prev, k, b, newblock);
            assert(d[b as usize] == newblock);
            assert(newblock[p % 512] == piece[p % 512 - cs % 512]);
        }
    }
}

/// Reading a range of a file gives back what writing it stored, as long as
/// the blocks the range touches are distinct and none of them is an index
/// block used to find the others: after `write_at(start, data)`, byte
/// `start + j` of the file is `data[j]` for every `j` below the count that
/// `write_at` and `read_at` report.
pub proof fn lemma_write_then_read(ino: DiskInode, disk: Map<usize, Seq<u8>>, start: int, data: Seq<u8>)
    requires
        0 <= start,
        forall|b: usize| #[trigger] disk[b].len() == BLOCK_SIZE,
        blocks_separate(ino, disk, start, io_end(start, data.len() as int, ino.size as int)),
    ensures
        ({
            let end = io_end(start, data.len() as int, ino.size as int);
            let after = if end <= start {
                disk
            } else {
                write_chunks(ino, disk, start, end, data, num_chunks(start, end) as nat)
            };
            forall|j: int| 0 <= j < io_len(start, end) ==> #[trigger] file_byte(ino, after, start + j) == data[j]
        }),
{
    let end = io_end(start, data.len() as int, ino.size as int);
    if end > start {
        let n = num_chunks(start, end);
        lemma_write_chunks_prefix(ino, disk, start, end, data, n as nat);
        assert(chunk_end(start, end, n - 1) - start == io_len(start, end));
    }
}


proof fn lemma_set_u64_same(s: Seq<u8>, off: int, a: u64, b: u64)
    requires
        0 <= off,
        off + 8 <= s.len(),
    ensures
        set_u64(set_u64(s, off, a), off, b) == set_u64(s, off, b),
        set_u64(s, off, u64_at(s, off)) == s,
{
    vstd::bytes::lemma_auto_spec_u64_to_from_le_bytes();
    crate::fs::cache::lemma_u64_read_write(s, off, a);
    assert(set_u64(set_u64(s, off, a), off, b) =~= set_u64(s, off, b));
    assert(s.subrange(off, off + 8).len() == 8);
    assert(set_u64(s, off, u64_at(s, off)) =~= s);
}

proof fn lemma_pos_parts(i: int, index: int, off: int)
    requires
        0 <= i,
        0 <= index < 8,
        0 <= off < 64,
    ensures
        (i * 512 + index * 64 + off) / 512 == i,
        ((i * 512 + index * 64 + off) % 512) / 64 == index,
        (i * 512 + index * 64 + off) % 64 == off,
{
    lemma_in_block(i, i * 512 + index * 64 + off);
    assert((index * 64 + off) / 64 == index);
    assert((i * 512 + index * 64 + off) % 64 == off) by (nonlinear_arith)
        requires
            0 <= i,
            0 <= index < 8,
            0 <= off < 64,
    ;
}

proof fn lemma_bit_restore(unit: u64, off: u64)
    by (bit_vector)
    requires
        off < 64,
        (unit >> off) & 1u64 == 0u64,
    ensures
        ((unit | (1u64 << off)) & !(1u64 << off)) == unit,
        ((unit | (1u64 << off)) & (1u64 << off)) != 0,
{
}

/// Allocating a bit and then freeing the position returned gives the bitmap
/// back unchanged, whenever the first clear bit lies in the first eight
/// units of its block (the positions that `allocate` and `dealloc` number
/// consistently for both operations).
pub proof fn lemma_alloc_then_dealloc(bm: BitMap, d: Map<usize, Seq<u8>>, after: Map<usize, Seq<u8>>, pos: usize)
    requires
        forall|b: usize| #[trigger] d.dom().contains(b) && d[b].len() == BLOCK_SIZE,
        bm.found_at(d, after, pos),
        bm.first_clear_in_low_units(d),
    ensures
        bitmap_unit(after, bm.start_block_id + pos / 512, ((pos % 512) / 64) as int) & (1u64 << (pos % 64)) != 0,
        bm.bit_cleared(after, pos) == d,
{
    let (i, index) = choose|i: int, index: int|
        #![trigger bitmap_unit(d, bm.start_block_id + i, index)]
        {
            let block = bm.start_block_id + i;
            let unit = bitmap_unit(d, block, index);
            let off = u64_trailing_ones(unit);
            &&& 0 <= i < bm.block_num
            &&& 0 <= index < 64
            &&& bm.full_before(d, i, index)
            &&& unit != u64::MAX
            &&& pos == i * 512 + index * 64 + off
            &&& after == d.insert(block as usize, set_u64(d[block as usize], index * 8, unit | (1u64 << off)))
        };
    let (i2, x2) = choose|i: int, index: int|
        #![trigger bitmap_unit(d, bm.start_block_id + i, index)]
        0 <= i < bm.block_num && 0 <= index < 8 && bm.full_before(d, i, index)
            && bitmap_unit(d, bm.start_block_id + i, index) != u64::MAX;
    assert(i == i2 && index == x2) by {
        if i < i2 || (i == i2 && index < x2) {
            assert(unit_full(d, bm.start_block_id + i, index));
        } else if i2 < i || (i == i2 && x2 < index) {
            assert(unit_full(d, bm.start_block_id + i2, x2));
        }
    }
    let block = bm.start_block_id + i;
    let unit = bitmap_unit(d, block, index);
    let off = u64_trailing_ones(unit);
    vstd::std_specs::bits::axiom_u64_trailing_ones(unit);
    assert(off < 64);
    lemma_pos_parts(i, index, off as int);
    let s0 = d[block as usize];
    assert(d.dom().contains(block as usize));
    crate::fs::cache::lemma_u64_read_write(s0, index * 8, unit | (1u64 << off));
    let newunit = unit | (1u64 << off);
    assert(bitmap_unit(after, block, index) == newunit);
    lemma_bit_restore(unit, off as u64);
    lemma_set_u64_same(s0, index * 8, newunit, unit);
    assert(u64_at(s0, index * 8) == unit);
    assert(after[block as usize] == set_u64(s0, index * 8, newunit));
    assert(set_u64(after[block as usize], index * 8, unit) == s0);
    assert(bm.bit_cleared(after, pos) == after.insert(block as usize, s0));
    assert(after.insert(block as usize, s0) =~= d);
}

} // verus!
