use vstd::prelude::*;
use vstd::bytes::{spec_u32_to_le_bytes, u32_to_le_bytes};
use crate::config::{BLOCK_SIZE, INODE_DIRECT_COUNT, INODE_INDIRECT_COUNT};
use crate::fs::cache::{set_bytes, set_u32, u32_at, BlockCacheManager, BlockDevice};
use crate::fs::structure::{
    block_map, chunk_end, clear_run, data_blocks, num_chunks, push_run, total_blocks, write_chunks, file_byte,
    NAME_LENGTH_LIMIT, io_end, io_len, max_block_index, name_prefix, name_terminated, read_u32_le, DirEntry, DiskInode,
    InodeType, DIR_ENTRY_SIZE,
};
use vstd::string::StringSliceAdditionalSpecFns;
use vstd::utf8::valid_utf8;

verus! {

/// Bytes a disk inode's fields take in its slot: the size, the 28 direct
/// block ids, the two index block ids, each a little-endian `u32`, then one
/// byte for the type. The slot is 128 bytes; its last three bytes are
/// padding that nothing reads or writes.
pub const DISK_INODE_BYTES: usize = 125;

/// The byte that stores an inode type.
pub open spec fn type_byte(t: InodeType) -> u8 {
    match t {
        InodeType::File => 0u8,
        InodeType::Directory => 1u8,
    }
}

/// The little-endian bytes of the ids in `z`, one after the other.
pub open spec fn zone_bytes(z: Seq<u32>) -> Seq<u8>
    decreases z.len(),
{
    if z.len() == 0 {
        Seq::empty()
    } else {
        zone_bytes(z.drop_last()) + spec_u32_to_le_bytes(z.last())
    }
}

/// The stored form of `ino`.
pub open spec fn inode_bytes(ino: DiskInode) -> Seq<u8> {
    spec_u32_to_le_bytes(ino.size) + zone_bytes(ino.direct_zone@) + spec_u32_to_le_bytes(ino.first_level_indirect)
        + spec_u32_to_le_bytes(ino.second_level_indirect) + seq![type_byte(ino.node_type)]
}

/// `ino` is what the stored form `b` describes. A type byte of 1 reads as a
/// directory, any other as a file.
pub open spec fn decodes(ino: DiskInode, b: Seq<u8>) -> bool {
    &&& ino.size == u32_at(b, 0)
    &&& forall|k: int| 0 <= k < INODE_DIRECT_COUNT ==> #[trigger] ino.direct_zone@[k] == u32_at(b, 4 + 4 * k)
    &&& ino.first_level_indirect == u32_at(b, 116)
    &&& ino.second_level_indirect == u32_at(b, 120)
    &&& ino.node_type == if b[124] == 1 { InodeType::Directory } else { InodeType::File }
}

proof fn lemma_zone_bytes(z: Seq<u32>)
    ensures
        zone_bytes(z).len() == 4 * z.len(),
        forall|k: int| 0 <= k < z.len() ==> #[trigger] zone_bytes(z).subrange(4 * k, 4 * k + 4) == spec_u32_to_le_bytes(z[k]),
    decreases z.len(),
{
    vstd::bytes::lemma_auto_spec_u32_to_from_le_bytes();
    if z.len() > 0 {
        let p = z.drop_last();
        lemma_zone_bytes(p);
        assert forall|k: int| 0 <= k < z.len() implies #[trigger] zone_bytes(z).subrange(4 * k, 4 * k + 4) == spec_u32_to_le_bytes(z[k]) by {
            if k < p.len() {
                assert(zone_bytes(z).subrange(4 * k, 4 * k + 4) =~= zone_bytes(p).subrange(4 * k, 4 * k + 4));
            } else {
                assert(zone_bytes(z).subrange(4 * k, 4 * k + 4) =~= spec_u32_to_le_bytes(z.last()));
            }
        }
    }
}

/// Reading an inode back from its stored form gives the inode: the stored
/// form is 125 bytes long and every field decodes to what was stored.
pub proof fn lemma_inode_round_trip(ino: DiskInode)
    ensures
        inode_bytes(ino).len() == DISK_INODE_BYTES,
        decodes(ino, inode_bytes(ino)),
{
    vstd::bytes::lemma_auto_spec_u32_to_from_le_bytes();
    let z = ino.direct_zone@;
    lemma_zone_bytes(z);
    let b = inode_bytes(ino);
    assert(b.subrange(0, 4) =~= spec_u32_to_le_bytes(ino.size));
    assert forall|k: int| 0 <= k < INODE_DIRECT_COUNT implies #[trigger] ino.direct_zone@[k] == u32_at(b, 4 + 4 * k) by {
        assert(b.subrange(4 + 4 * k, 4 + 4 * k + 4) =~= zone_bytes(z).subrange(4 * k, 4 * k + 4));
    }
    assert(b.subrange(116, 120) =~= spec_u32_to_le_bytes(ino.first_level_indirect));
    assert(b.subrange(120, 124) =~= spec_u32_to_le_bytes(ino.second_level_indirect));
}

/// Appends the little-endian bytes of `x` to `v`.
fn push_u32_le(v: &mut Vec<u8>, x: u32)
    ensures
        final(v)@ == old(v)@ + spec_u32_to_le_bytes(x),
{
    let bytes = u32_to_le_bytes(x);
    let mut k: usize = 0;
    while k < 4
        invariant
            0 <= k <= 4,
            bytes@ == spec_u32_to_le_bytes(x),
            bytes@.len() == 4,
            v@ == old(v)@ + bytes@.subrange(0, k as int),
        decreases 4 - k,
    {
        v.push(bytes[k]);
        k = k + 1;
        assert(v@ =~= old(v)@ + bytes@.subrange(0, k as int));
    }
    assert(bytes@.subrange(0, 4) =~= bytes@);
}

impl DiskInode {
    /// The stored form of the inode.
    pub fn to_bytes(&self) -> (r: Vec<u8>)
        ensures
            r@ == inode_bytes(*self),
            r@.len() == DISK_INODE_BYTES,
    {
        let mut r: Vec<u8> = Vec::new();
        push_u32_le(&mut r, self.size);
        let mut k: usize = 0;
        while k < INODE_DIRECT_COUNT
            invariant
                0 <= k <= INODE_DIRECT_COUNT,
                r@ == spec_u32_to_le_bytes(self.size) + zone_bytes(self.direct_zone@.take(k as int)),
            decreases INODE_DIRECT_COUNT - k,
        {
            let ghost before = r@;
            push_u32_le(&mut r, self.direct_zone[k]);
            assert(self.direct_zone@.take(k + 1).drop_last() =~= self.direct_zone@.take(k as int));
            assert(r@ =~= spec_u32_to_le_bytes(self.size) + zone_bytes(self.direct_zone@.take(k + 1)));
            k = k + 1;
        }
        assert(self.direct_zone@.take(INODE_DIRECT_COUNT as int) =~= self.direct_zone@);
        push_u32_le(&mut r, self.first_level_indirect);
        push_u32_le(&mut r, self.second_level_indirect);
        let t: u8 = match self.node_type {
            InodeType::File => 0,
            InodeType::Directory => 1,
        };
        r.push(t);
        proof {
            lemma_inode_round_trip(*self);
            assert(r@ =~= inode_bytes(*self));
        }
        r
    }

    /// Reads an inode from its stored form at the start of `data`.
    pub fn from_bytes(data: &[u8]) -> (r: Self)
        requires
            data@.len() >= DISK_INODE_BYTES,
        ensures
            decodes(r, data@),
    {
        let mut zone = [0u32; INODE_DIRECT_COUNT];
        let mut k: usize = 0;
        while k < INODE_DIRECT_COUNT
            invariant
                0 <= k <= INODE_DIRECT_COUNT,
                data@.len() >= DISK_INODE_BYTES,
                forall|j: int| 0 <= j < k ==> #[trigger] zone@[j] == u32_at(data@, 4 + 4 * j),
            decreases INODE_DIRECT_COUNT - k,
        {
            zone[k] = read_u32_le(data, 4 + 4 * k);
            k = k + 1;
        }
        let node_type = if data[124] == 1 {
            InodeType::Directory
        } else {
            InodeType::File
        };
        DiskInode {
            size: read_u32_le(data, 0),
            direct_zone: zone,
            first_level_indirect: read_u32_le(data, 116),
            second_level_indirect: read_u32_le(data, 120),
            node_type,
        }
    }
}

/// Number of entries of the directory described by `ino`.
pub open spec fn entry_count(ino: DiskInode) -> int {
    ino.size as int / (DIR_ENTRY_SIZE as int)
}

/// The stored bytes of entry `i` of the directory described by `ino`.
pub open spec fn entry_bytes(ino: DiskInode, disk: Map<usize, Seq<u8>>, i: int) -> Seq<u8> {
    Seq::new(DIR_ENTRY_SIZE as nat, |j: int| file_byte(ino, disk, i * (DIR_ENTRY_SIZE as int) + j))
}

/// The name of entry `i`.
pub open spec fn entry_name(ino: DiskInode, disk: Map<usize, Seq<u8>>, i: int) -> Seq<u8> {
    name_prefix(entry_bytes(ino, disk, i).subrange(0, 28))
}

/// The inode id of entry `i`.
pub open spec fn entry_inode(ino: DiskInode, disk: Map<usize, Seq<u8>>, i: int) -> u32 {
    u32_at(entry_bytes(ino, disk, i), 28)
}

/// `ino` describes a directory whose contents lie within reach of its
/// block map, and whose entries carry names that end within their 28 bytes
/// and form UTF-8 text.
pub open spec fn dir_ok(ino: DiskInode, disk: Map<usize, Seq<u8>>) -> bool {
    &&& ino.node_type == InodeType::Directory
    &&& ino.size <= max_block_index() * BLOCK_SIZE
    &&& forall|i: int| 0 <= i < entry_count(ino) ==> {
        &&& name_terminated(#[trigger] entry_bytes(ino, disk, i).subrange(0, 28))
        &&& valid_utf8(entry_name(ino, disk, i))
    }
}

/// Only one inode decodes from given bytes.
pub proof fn lemma_decodes_unique(a: DiskInode, b: DiskInode, bytes: Seq<u8>)
    requires
        decodes(a, bytes),
        decodes(b, bytes),
    ensures
        a == b,
{
    assert(a.direct_zone =~= b.direct_zone) by {
        assert forall|k: int| 0 <= k < INODE_DIRECT_COUNT implies a.direct_zone[k] == b.direct_zone[k] by {
            assert(a.direct_zone@[k] == u32_at(bytes, 4 + 4 * k));
            assert(b.direct_zone@[k] == u32_at(bytes, 4 + 4 * k));
        }
    }
}

/// A read of one entry at `i * 32` inside a file of `size` bytes transfers
/// all 32 bytes: an entry never straddles a block boundary.
proof fn lemma_entry_read_whole(i: int, size: int)
    requires
        0 <= i < size / 32,
    ensures
        io_end(i * 32, 32, size) == i * 32 + 32,
        io_len(i * 32, i * 32 + 32) == 32,
{
    assert(i * 32 + 32 <= size) by (nonlinear_arith)
        requires
            0 <= i < size / 32,
    ;
    let s = i * 32;
    assert((s + 32) / 512 > s / 512 ==> (s + 32) / 512 * 512 == s + 32) by (nonlinear_arith)
        requires
            s == i * 32,
            0 <= i,
    ;
}

/// Whether two byte strings are equal.
fn bytes_eq(a: &[u8], b: &[u8]) -> (r: bool)
    ensures
        r == (a@ == b@),
{
    if a.len() != b.len() {
        return false;
    }
    let mut k: usize = 0;
    while k < a.len()
        invariant
            0 <= k <= a@.len(),
            a@.len() == b@.len(),
            forall|j: int| 0 <= j < k ==> a@[j] == b@[j],
        decreases a@.len() - k,
    {
        if a[k] != b[k] {
            return false;
        }
        k = k + 1;
    }
    assert(a@ =~= b@);
    true
}

/// Blocks, index blocks included, that `d` data blocks take.
spec fn blocks_of(d: int) -> int {
    let first = if d > INODE_DIRECT_COUNT { 1int } else { 0int };
    let second = if d > INODE_DIRECT_COUNT + INODE_INDIRECT_COUNT {
        1 + (d - INODE_DIRECT_COUNT - INODE_INDIRECT_COUNT + INODE_INDIRECT_COUNT - 1) / (INODE_INDIRECT_COUNT as int)
    } else {
        0int
    };
    d + first + second
}

/// `clear_size` lists as many ids as the blocks, index blocks included,
/// that the data blocks it walks take.
proof fn lemma_clear_run_len(ino: DiskInode, disk: Map<usize, Seq<u8>>, n: nat)
    ensures
        clear_run(ino, disk, n).2.len() == blocks_of(n as int),
    decreases n,
{
    if n > 0 {
        lemma_clear_run_len(ino, disk, (n - 1) as nat);
        let index = n - 1;
        if index >= INODE_DIRECT_COUNT + INODE_INDIRECT_COUNT {
            let off = index - INODE_DIRECT_COUNT - INODE_INDIRECT_COUNT;
            assert((off + 128) / 128 - (off + 127) / 128 == if off % 128 == 0 { 1int } else { 0int }) by (nonlinear_arith)
                requires
                    off >= 0,
            ;
        }
    }
}

/// The inode `ino` with its index-block fields set to `first` and
/// `second`.
pub open spec fn with_index_blocks(ino: DiskInode, first: u32, second: u32) -> DiskInode {
    DiskInode {
        size: ino.size,
        direct_zone: ino.direct_zone,
        first_level_indirect: first,
        second_level_indirect: second,
        node_type: ino.node_type,
    }
}

/// `disk` with the 32 bytes `e` stored as entry `i` of the directory
/// described by `ino`, in the block its block map gives for that place.
pub open spec fn entry_stored(ino: DiskInode, disk: Map<usize, Seq<u8>>, i: int, e: Seq<u8>) -> Map<usize, Seq<u8>> {
    let p = i * (DIR_ENTRY_SIZE as int);
    let id = block_map(ino, disk, p / (BLOCK_SIZE as int)) as usize;
    disk.insert(id, set_bytes(disk[id], p % (BLOCK_SIZE as int), e))
}

/// Writing one entry's 32 bytes at its place is a single piece in a single
/// block.
proof fn lemma_entry_write(ino: DiskInode, disk: Map<usize, Seq<u8>>, i: int, e: Seq<u8>)
    requires
        0 <= i,
        e.len() == DIR_ENTRY_SIZE,
    ensures
        num_chunks(i * 32, i * 32 + 32) == 1,
        write_chunks(ino, disk, i * 32, i * 32 + 32, e, 1) == entry_stored(ino, disk, i, e),
{
    let s = i * 32;
    assert(s / 512 * 512 + 512 >= s + 32 && ((s + 32) / 512 > s / 512 ==> (s + 32) / 512 == s / 512 + 1)) by (nonlinear_arith)
        requires
            s == i * 32,
            0 <= i,
    ;
    assert(chunk_end(s, s + 32, 0) == s + 32);
    assert(e.subrange(0, 32) =~= e);
    assert(write_chunks(ino, disk, s, s + 32, e, 0) == disk);
    assert(crate::fs::structure::chunk_start(s, 0) == s);
    assert(s / 512 + 0 == s / (BLOCK_SIZE as int));
}

/// The stored form of the entry for `name` and inode `id`: the name bytes,
/// zeros up to byte 28, then the id.
pub open spec fn entry_for(name: Seq<u8>, id: u32) -> Seq<u8> {
    set_u32(name + Seq::new((DIR_ENTRY_SIZE - name.len()) as nat, |i: int| 0u8), 28, id)
}

/// The stored form of an empty file.
pub open spec fn empty_file_bytes() -> Seq<u8> {
    spec_u32_to_le_bytes(0) + zone_bytes(Seq::new(INODE_DIRECT_COUNT as nat, |k: int| 0u32))
        + spec_u32_to_le_bytes(0) + spec_u32_to_le_bytes(0) + seq![type_byte(InodeType::File)]
}

proof fn lemma_empty_file_bytes_len()
    ensures
        empty_file_bytes().len() == DISK_INODE_BYTES,
{
    vstd::bytes::lemma_auto_spec_u32_to_from_le_bytes();
    lemma_zone_bytes(Seq::new(INODE_DIRECT_COUNT as nat, |k: int| 0u32));
}

/// The disk after the file described by `ino` grows with the ids `blocks`
/// (`push_empty_blocks`).
pub open spec fn grown_disk(ino: DiskInode, disk: Map<usize, Seq<u8>>, blocks: Seq<u32>) -> Map<usize, Seq<u8>> {
    push_run(
        (ino.direct_zone@, ino.first_level_indirect, ino.second_level_indirect, disk),
        blocks,
        total_blocks(ino.size as int),
    ).unwrap().3
}

/// `grown` is the inode `ino` after it grows to `new_size` bytes with the
/// ids `blocks` (`push_empty_blocks`).
pub open spec fn grown_to(ino: DiskInode, disk: Map<usize, Seq<u8>>, blocks: Seq<u32>, new_size: int, grown: DiskInode) -> bool {
    let st = push_run(
        (ino.direct_zone@, ino.first_level_indirect, ino.second_level_indirect, disk),
        blocks,
        total_blocks(ino.size as int),
    ).unwrap();
    &&& grown.size == new_size
    &&& grown.node_type == ino.node_type
    &&& grown.direct_zone@ == st.0
    &&& grown.first_level_indirect == st.1
    &&& grown.second_level_indirect == st.2
}

/// `after` is what `create` leaves on disk when it adds an entry to the
/// directory described by `dir`: the directory grows by one entry with the
/// ids `blocks` (`push_empty_blocks`) into the inode `grown`; the entry `e`
/// is stored as its last entry; `grown` is stored at `at`; and the empty
/// file's inode is stored at `new_at`.
pub open spec fn created(
    dir: DiskInode,
    disk: Map<usize, Seq<u8>>,
    blocks: Seq<u32>,
    e: Seq<u8>,
    at: (usize, usize),
    new_at: (usize, usize),
    grown: DiskInode,
    after: Map<usize, Seq<u8>>,
) -> bool {
    let cnt = entry_count(dir);
    let d2 = entry_stored(grown, grown_disk(dir, disk, blocks), cnt, e);
    let d3 = d2.insert(at.0, set_bytes(d2[at.0], at.1 as int, inode_bytes(grown)));
    &&& grown_to(dir, disk, blocks, (cnt + 1) * (DIR_ENTRY_SIZE as int), grown)
    &&& after == d3.insert(new_at.0, set_bytes(d3[new_at.0], new_at.1 as int, empty_file_bytes()))
}


/// Storing a disk inode and reading it back gives the same inode.
pub proof fn lemma_store_then_read(node: Inode, ino: DiskInode, disk: Map<usize, Seq<u8>>, back: DiskInode)
    requires
        node.placed(),
        disk[node.block_id].len() == BLOCK_SIZE,
        decodes(
            back,
            node.stored(disk.insert(node.block_id, set_bytes(disk[node.block_id], node.block_offset as int, inode_bytes(ino)))),
        ),
    ensures
        back == ino,
{
    lemma_inode_round_trip(ino);
    let d = disk.insert(node.block_id, set_bytes(disk[node.block_id], node.block_offset as int, inode_bytes(ino)));
    assert(node.stored(d) =~= inode_bytes(ino));
    lemma_decodes_unique(back, ino, inode_bytes(ino));
}

/// Growing within the 28 direct blocks records the new ids in the direct
/// zone, from block `index` on, and leaves the disk alone.
proof fn lemma_push_direct(z: Seq<u32>, f: u32, sc: u32, d: Map<usize, Seq<u8>>, items: Seq<u32>, index: int)
    requires
        z.len() == INODE_DIRECT_COUNT,
        0 <= index,
        index + items.len() <= INODE_DIRECT_COUNT,
    ensures
        push_run((z, f, sc, d), items, index) matches Some(st) && {
            &&& st.1 == f
            &&& st.2 == sc
            &&& st.3 == d
            &&& st.0.len() == INODE_DIRECT_COUNT
            &&& forall|k: int| 0 <= k < INODE_DIRECT_COUNT ==> #[trigger] st.0[k] == if index <= k < index + items.len() {
                items[k - index]
            } else {
                z[k]
            }
        },
    decreases items.len(),
{
    if items.len() > 0 {
        let z2 = z.update(index, items[0]);
        lemma_push_direct(z2, f, sc, d, items.drop_first(), index + 1);
    }
}

/// The first `m` steps of a grow from block `index`, all within the 28
/// direct blocks, record the first `m` ids in the direct zone and leave
/// the rest of the grow to run from block `index + m`.
proof fn lemma_push_direct_prefix(z: Seq<u32>, f: u32, sc: u32, d: Map<usize, Seq<u8>>, items: Seq<u32>, index: int, m: int)
    requires
        z.len() == INODE_DIRECT_COUNT,
        0 <= index,
        0 <= m <= items.len(),
        index + m <= INODE_DIRECT_COUNT,
    ensures
        push_run((z, f, sc, d), items, index) == push_run(
            (Seq::new(INODE_DIRECT_COUNT as nat, |k: int| if index <= k < index + m { items[k - index] } else { z[k] }), f, sc, d),
            items.skip(m),
            index + m,
        ),
    decreases m,
{
    let z2 = Seq::new(INODE_DIRECT_COUNT as nat, |k: int| if index <= k < index + m { items[k - index] } else { z[k] });
    if m == 0 {
        assert(items.skip(0) =~= items);
        assert(z2 =~= z);
    } else {
        let zu = z.update(index, items[0]);
        lemma_push_direct_prefix(zu, f, sc, d, items.drop_first(), index + 1, m - 1);
        let z3 = Seq::new(INODE_DIRECT_COUNT as nat, |k: int| if index + 1 <= k < index + 1 + (m - 1) { items.drop_first()[k - (index + 1)] } else { zu[k] });
        assert(z3 =~= z2);
        assert(items.drop_first().skip(m - 1) =~= items.skip(m));
    }
}

/// Listing the first `m` blocks of a file, all direct, gives its first `m`
/// direct ids and leaves the index-block fields alone.
proof fn lemma_clear_direct(g: DiskInode, disk: Map<usize, Seq<u8>>, m: nat)
    requires
        m <= INODE_DIRECT_COUNT,
    ensures
        clear_run(g, disk, m) == (g.first_level_indirect, g.second_level_indirect, g.direct_zone@.take(m as int)),
    decreases m,
{
    if m > 0 {
        lemma_clear_direct(g, disk, (m - 1) as nat);
        assert(g.direct_zone@.take(m - 1).push(g.direct_zone@[m - 1]) =~= g.direct_zone@.take(m as int));
    }
}

/// Growing an empty file to `n` bytes with the ids `blocks` and then
/// listing its blocks for freeing gives `blocks` back, in order, and each
/// data block of the grown file is the id taken for it, when the file takes
/// at most 29 data blocks. Beyond that, the index-block entries, which are
/// written at the byte given by their number, overlap.
pub proof fn lemma_push_then_clear(ino: DiskInode, disk: Map<usize, Seq<u8>>, n: u32, blocks: Seq<u32>)
    requires
        ino.size == 0,
        data_blocks(n as int) <= INODE_DIRECT_COUNT + 1,
        blocks.len() == total_blocks(n as int),
        forall|b: usize| #[trigger] disk[b].len() == BLOCK_SIZE,
    ensures
        push_run((ino.direct_zone@, ino.first_level_indirect, ino.second_level_indirect, disk), blocks, 0) matches Some(st)
            && forall|g: DiskInode|
            g.size == n && g.direct_zone@ == st.0 && g.first_level_indirect == st.1 && g.second_level_indirect == st.2 ==> {
                &&& #[trigger] clear_run(g, st.3, data_blocks(n as int) as nat).2 == blocks
                &&& forall|k: int| 0 <= k < data_blocks(n as int) ==> #[trigger] block_map(g, st.3, k) == blocks[if k < INODE_DIRECT_COUNT { k } else { k + 1 }]
            },
{
    let dn = data_blocks(n as int);
    let z = ino.direct_zone@;
    let f = ino.first_level_indirect;
    let sc = ino.second_level_indirect;
    assert(total_blocks(0) == 0);
    let m = if dn <= INODE_DIRECT_COUNT { dn } else { INODE_DIRECT_COUNT as int };
    assert(blocks.len() == if dn <= INODE_DIRECT_COUNT { dn } else { dn + 1 });
    lemma_push_direct_prefix(z, f, sc, disk, blocks, 0, m);
    let z2 = Seq::new(INODE_DIRECT_COUNT as nat, |k: int| if 0 <= k < 0 + m { blocks[k - 0] } else { z[k] });
    let rest = blocks.skip(m);
    if dn <= INODE_DIRECT_COUNT {
        assert(rest.len() == 0);
        let st = (z2, f, sc, disk);
        assert(push_run((z, f, sc, disk), blocks, 0) == Some(st));
        assert forall|g: DiskInode|
            g.size == n && g.direct_zone@ == st.0 && g.first_level_indirect == st.1 && g.second_level_indirect == st.2 implies {
                &&& #[trigger] clear_run(g, st.3, dn as nat).2 == blocks
                &&& forall|k: int| 0 <= k < dn ==> #[trigger] block_map(g, st.3, k) == blocks[if k < INODE_DIRECT_COUNT { k } else { k + 1 }]
            } by {
            lemma_clear_direct(g, disk, dn as nat);
            assert(g.direct_zone@.take(dn) =~= blocks);
        }
    } else {
        assert(rest.len() == 2);
        let b28 = rest[0];
        let b29 = rest[1];
        let d2 = disk.insert(b28 as usize, crate::fs::cache::set_u32(disk[b28 as usize], 0, b29));
        let st = (z2, b28, sc, d2);
        assert(rest.drop_first().drop_first().len() == 0);
        assert(rest.drop_first()[0] == b29);
        assert(crate::fs::structure::push_step((z2, f, sc, disk), rest, INODE_DIRECT_COUNT as int)
            == Some((st, rest.drop_first().drop_first())));
        assert(push_run(st, rest.drop_first().drop_first(), INODE_DIRECT_COUNT + 1) == Some(st));
        assert(push_run((z2, f, sc, disk), rest, INODE_DIRECT_COUNT as int) == Some(st));
        crate::fs::cache::lemma_u32_read_write(disk[b28 as usize], 0, b29);
        assert forall|g: DiskInode|
            g.size == n && g.direct_zone@ == st.0 && g.first_level_indirect == st.1 && g.second_level_indirect == st.2 implies {
                &&& #[trigger] clear_run(g, st.3, dn as nat).2 == blocks
                &&& forall|k: int| 0 <= k < dn ==> #[trigger] block_map(g, st.3, k) == blocks[if k < INODE_DIRECT_COUNT { k } else { k + 1 }]
            } by {
            lemma_clear_direct(g, d2, INODE_DIRECT_COUNT as nat);
            assert(dn == INODE_DIRECT_COUNT + 1);
            assert(clear_run(g, d2, dn as nat).2 =~= g.direct_zone@.take(INODE_DIRECT_COUNT as int).push(b28).push(b29));
            assert(g.direct_zone@.take(INODE_DIRECT_COUNT as int).push(b28).push(b29) =~= blocks);
        }
    }
}

/// The name stored in an entry for `name` reads back as `name`, when `name`
/// has no zero byte and leaves room for the terminating zero.
proof fn lemma_entry_for_name(name: Seq<u8>, id: u32)
    requires
        name.len() < NAME_LENGTH_LIMIT,
        forall|i: int| 0 <= i < name.len() ==> name[i] != 0,
    ensures
        entry_for(name, id).len() == DIR_ENTRY_SIZE,
        name_prefix(entry_for(name, id).subrange(0, 28)) == name,
        name_terminated(entry_for(name, id).subrange(0, 28)),
        u32_at(entry_for(name, id), 28) == id,
{
    let padded = name + Seq::new((DIR_ENTRY_SIZE - name.len()) as nat, |i: int| 0u8);
    crate::fs::cache::lemma_u32_read_write(padded, 28, id);
    let e = entry_for(name, id);
    let n28 = e.subrange(0, 28);
    let k = name.len() as int;
    assert(n28[k] == 0);
    assert(forall|j: int| 0 <= j < k ==> n28[j] == name[j]);
    let w = choose|i: int| 0 <= i < n28.len() && n28[i] == 0 && forall|j: int| 0 <= j < i ==> n28[j] != 0;
    assert(0 <= k < n28.len() && n28[k] == 0 && forall|j: int| 0 <= j < k ==> n28[j] != 0);
    assert(w == k) by {
        if w < k {
            assert(n28[w] == name[w]);
        } else if w > k {
            assert(n28[k] != 0);
        }
    }
    assert(n28.subrange(0, k) =~= name);
}

/// The stored form of an empty file reads as an empty file.
proof fn lemma_empty_file_bytes(ino: DiskInode)
    requires
        decodes(ino, empty_file_bytes()),
    ensures
        ino.size == 0,
        ino.node_type == InodeType::File,
        empty_file_bytes().len() == DISK_INODE_BYTES,
{
    vstd::bytes::lemma_auto_spec_u32_to_from_le_bytes();
    lemma_zone_bytes(Seq::new(INODE_DIRECT_COUNT as nat, |k: int| 0u32));
    assert(empty_file_bytes().subrange(0, 4) =~= spec_u32_to_le_bytes(0));
}

/// What `create` adds, looking the name up finds: when the directory stays
/// within its direct blocks, the block ids of the directory and the ids it
/// grows with are distinct and none is a block holding one of the two
/// inodes, the two inodes' slots do not overlap, and `name` has no zero
/// byte, then after `create` the directory stored at `at` reads back as the
/// grown directory, its first entry named `name` is the new last entry and
/// names `id`, the entries before it are as they were, and the inode stored
/// at `new_at` reads as an empty file.
#[verifier::spinoff_prover]
#[verifier::rlimit(80)]
pub proof fn lemma_create_then_find(
    dir: DiskInode,
    disk: Map<usize, Seq<u8>>,
    blocks: Seq<u32>,
    name: Seq<u8>,
    id: u32,
    at: Inode,
    new_at: Inode,
    grown: DiskInode,
    after: Map<usize, Seq<u8>>,
)
    requires
        forall|b: usize| #[trigger] disk[b].len() == BLOCK_SIZE,
        at.placed(),
        new_at.placed(),
        at.block_id != new_at.block_id || at.block_offset + DISK_INODE_BYTES <= new_at.block_offset
            || new_at.block_offset + DISK_INODE_BYTES <= at.block_offset,
        name.len() < NAME_LENGTH_LIMIT,
        forall|i: int| 0 <= i < name.len() ==> name[i] != 0,
        forall|j: int| 0 <= j < entry_count(dir) ==> #[trigger] entry_name(dir, disk, j) != name,
        (entry_count(dir) + 1) * (DIR_ENTRY_SIZE as int) <= INODE_DIRECT_COUNT * BLOCK_SIZE,
        blocks.len() == total_blocks((entry_count(dir) + 1) * (DIR_ENTRY_SIZE as int)) - total_blocks(dir.size as int),
        ({
            let ids = dir.direct_zone@.take(data_blocks(dir.size as int)) + blocks;
            &&& ids.no_duplicates()
            &&& forall|k: int| 0 <= k < ids.len() ==> #[trigger] ids[k] as usize != at.block_id && ids[k] as usize != new_at.block_id
        }),
        created(dir, disk, blocks, entry_for(name, id), (at.block_id, at.block_offset), (new_at.block_id, new_at.block_offset), grown, after),
    ensures
        decodes(grown, at.stored(after)),
        entry_count(grown) == entry_count(dir) + 1,
        entry_name(grown, after, entry_count(dir)) == name,
        entry_inode(grown, after, entry_count(dir)) == id,
        forall|j: int| 0 <= j < entry_count(dir) ==> #[trigger] entry_bytes(grown, after, j) == entry_bytes(dir, disk, j),
        forall|ino: DiskInode| #[trigger] decodes(ino, new_at.stored(after)) ==> ino.size == 0 && ino.node_type == InodeType::File,
{
    let cnt = entry_count(dir);
    let new_size = (cnt + 1) * (DIR_ENTRY_SIZE as int);
    let ds = data_blocks(dir.size as int);
    let dn = data_blocks(new_size);
    assert(dir.size < new_size);
    assert(ds <= dn && dn <= INODE_DIRECT_COUNT);
    assert(total_blocks(dir.size as int) == ds);
    assert(total_blocks(new_size) == dn);
    lemma_push_direct(dir.direct_zone@, dir.first_level_indirect, dir.second_level_indirect, disk, blocks, ds);
    let d1 = grown_disk(dir, disk, blocks);
    assert(d1 == disk);
    let ids = dir.direct_zone@.take(ds) + blocks;
    assert forall|k: int| 0 <= k < dn implies #[trigger] grown.direct_zone@[k] == ids[k] by {
    }
    let e = entry_for(name, id);
    lemma_entry_for_name(name, id);
    let pe = cnt * 32;
    let be = grown.direct_zone@[pe / 512];
    assert(pe / 512 < dn) by (nonlinear_arith)
        requires
            pe == cnt * 32,
            dn == (new_size + 511) / 512,
            new_size == (cnt + 1) * 32,
            cnt >= 0,
    ;
    assert(pe % 512 + 32 <= 512) by (nonlinear_arith)
        requires
            pe == cnt * 32,
            cnt >= 0,
    ;
    let d2 = entry_stored(grown, d1, cnt, e);
    let d3 = d2.insert(at.block_id, set_bytes(d2[at.block_id], at.block_offset as int, inode_bytes(grown)));
    lemma_inode_round_trip(grown);
    // the directory's stored form
    assert(be as usize != at.block_id && be as usize != new_at.block_id);
    lemma_empty_file_bytes_len();
    assert(d2[at.block_id] == disk[at.block_id]);
    assert(d3[at.block_id].len() == BLOCK_SIZE);
    assert(d3[at.block_id].subrange(at.block_offset as int, at.block_offset + DISK_INODE_BYTES) =~= inode_bytes(grown));
    if new_at.block_id == at.block_id {
        assert(after[at.block_id].subrange(at.block_offset as int, at.block_offset + DISK_INODE_BYTES)
            =~= d3[at.block_id].subrange(at.block_offset as int, at.block_offset + DISK_INODE_BYTES));
    } else {
        assert(after[at.block_id] == d3[at.block_id]);
    }
    assert(at.stored(after) =~= inode_bytes(grown));
    // the new inode's stored form
    assert(new_at.stored(after) =~= empty_file_bytes()) by {
        lemma_empty_file_bytes_len();
    }
    assert forall|ino: DiskInode| #[trigger] decodes(ino, new_at.stored(after)) implies ino.size == 0 && ino.node_type == InodeType::File by {
        lemma_empty_file_bytes(ino);
    }
    // bytes of the data blocks as they end up
    assert forall|p: int| 0 <= p < new_size implies #[trigger] file_byte(grown, after, p) == if p < pe {
        file_byte(dir, disk, p)
    } else {
        e[p - pe]
    } by {
        let k = p / 512;
        assert(k < dn) by (nonlinear_arith)
            requires
                0 <= p < new_size,
                k == p / 512,
                dn == (new_size + 511) / 512,
        ;
        let b = grown.direct_zone@[k];
        assert(b == ids[k]);
        assert(b as usize != at.block_id && b as usize != new_at.block_id);
        if p < pe {
            assert(k < ds) by (nonlinear_arith)
                requires
                    0 <= p < pe,
                    pe == cnt * 32,
                    cnt == dir.size / 32,
                    k == p / 512,
                    ds == (dir.size + 511) / 512,
            ;
            assert(ids[k] == dir.direct_zone@[k]);
            if b == be {
                assert(k == pe / 512) by {
                    if k != pe / 512 {
                        assert(ids[k] != ids[pe / 512]);
                    }
                }
                assert(p % 512 < pe % 512) by (nonlinear_arith)
                    requires
                        0 <= p < pe,
                        p / 512 == pe / 512,
                ;
            }
        } else {
            assert(k == pe / 512) by (nonlinear_arith)
                requires
                    pe <= p < pe + 32,
                    k == p / 512,
                    pe == cnt * 32,
                    cnt >= 0,
            ;
            assert(p % 512 - pe % 512 == p - pe) by (nonlinear_arith)
                requires
                    pe <= p < pe + 32,
                    p / 512 == pe / 512,
            ;
        }
    }
    assert(entry_bytes(grown, after, cnt) =~= e);
    assert forall|j: int| 0 <= j < cnt implies #[trigger] entry_bytes(grown, after, j) == entry_bytes(dir, disk, j) by {
        assert forall|q: int| 0 <= q < 32 implies #[trigger] entry_bytes(grown, after, j)[q] == entry_bytes(dir, disk, j)[q] by {
            assert(j * 32 + q < pe) by (nonlinear_arith)
                requires
                    0 <= j < cnt,
                    0 <= q < 32,
                    pe == cnt * 32,
            ;
        }
        assert(entry_bytes(grown, after, j) =~= entry_bytes(dir, disk, j));
    }
}

/// Where a disk inode is stored: the block that holds it and its byte
/// offset there.
pub struct Inode {
    pub block_id: usize,
    pub block_offset: usize,
}

impl Inode {
    /// The inode stored in block `block_id` at byte `block_offset`.
    pub fn new(block_id: usize, block_offset: usize) -> (r: Self)
        ensures
            r.block_id == block_id,
            r.block_offset == block_offset,
    {
        Self { block_id, block_offset }
    }

    /// The stored form of the inode in `disk`.
    pub open spec fn stored(&self, disk: Map<usize, Seq<u8>>) -> Seq<u8> {
        disk[self.block_id].subrange(self.block_offset as int, self.block_offset + DISK_INODE_BYTES)
    }

    /// The inode's slot lies inside its block.
    pub open spec fn placed(&self) -> bool {
        self.block_offset + DISK_INODE_BYTES <= BLOCK_SIZE
    }

    /// Reads the disk inode from its block.
    pub fn read_disk_inode<D: BlockDevice>(&self, mgr: &mut BlockCacheManager, device: &mut D) -> (r: DiskInode)
        requires
            old(mgr).wf(old(device)),
            self.placed(),
        ensures
            final(mgr).wf(final(device)),
            final(mgr).disk(final(device)) == old(mgr).disk(old(device)),
            decodes(r, self.stored(old(mgr).disk(old(device)))),
    {
        proof {
            mgr.lemma_disk_len(device, self.block_id);
        }
        let bytes = mgr.read_bytes(self.block_id, self.block_offset, DISK_INODE_BYTES, device);
        DiskInode::from_bytes(bytes.as_slice())
    }

    /// Stores `ino` as the disk inode, in its block.
    pub fn modify_disk_inode<D: BlockDevice>(&self, ino: &DiskInode, mgr: &mut BlockCacheManager, device: &mut D)
        requires
            old(mgr).wf(old(device)),
            self.placed(),
        ensures
            final(mgr).wf(final(device)),
            final(mgr).disk(final(device)) == old(mgr).disk(old(device)).insert(
                self.block_id,
                set_bytes(old(mgr).disk(old(device))[self.block_id], self.block_offset as int, inode_bytes(*ino)),
            ),
    {
        let bytes = ino.to_bytes();
        mgr.modify_bytes(self.block_id, self.block_offset, bytes.as_slice(), device);
    }

    /// Reads entry `i` of the directory `disk_inode`.
    fn read_entry<D: BlockDevice>(disk_inode: &DiskInode, i: usize, mgr: &mut BlockCacheManager, device: &mut D) -> (r: DirEntry)
        requires
            old(mgr).wf(old(device)),
            i < entry_count(*disk_inode),
            disk_inode.size <= max_block_index() * BLOCK_SIZE,
        ensures
            final(mgr).wf(final(device)),
            final(mgr).disk(final(device)) == old(mgr).disk(old(device)),
            r.name@ == entry_bytes(*disk_inode, old(mgr).disk(old(device)), i as int).subrange(0, 28),
            r.inode_id == entry_inode(*disk_inode, old(mgr).disk(old(device)), i as int),
    {
        let ghost d0 = mgr.disk(device);
        let offset = i * DIR_ENTRY_SIZE;
        let mut buf = [0u8; 32];
        proof {
            lemma_entry_read_whole(i as int, disk_inode.size as int);
        }
        disk_inode.read_at(offset, &mut buf, mgr, device);
        assert(buf@ =~= entry_bytes(*disk_inode, d0, i as int));
        DirEntry::from_bytes(&buf)
    }

    /// The id of the inode that the directory `disk_inode` lists under
    /// `name`: the first entry with that name wins.
    pub fn find_inode_id<D: BlockDevice>(
        &self,
        name: &str,
        disk_inode: &DiskInode,
        mgr: &mut BlockCacheManager,
        device: &mut D,
    ) -> (r: Option<u32>)
        requires
            old(mgr).wf(old(device)),
            dir_ok(*disk_inode, old(mgr).disk(old(device))),
        ensures
            final(mgr).wf(final(device)),
            final(mgr).disk(final(device)) == old(mgr).disk(old(device)),
            ({
                let d = old(mgr).disk(old(device));
                match r {
                    Some(id) => exists|i: int|
                        0 <= i < entry_count(*disk_inode) && #[trigger] entry_name(*disk_inode, d, i) == name.spec_bytes()
                            && id == entry_inode(*disk_inode, d, i)
                            && forall|j: int| 0 <= j < i ==> entry_name(*disk_inode, d, j) != name.spec_bytes(),
                    None => forall|i: int|
                        0 <= i < entry_count(*disk_inode) ==> #[trigger] entry_name(*disk_inode, d, i) != name.spec_bytes(),
                }
            }),
    {
        let ghost d0 = mgr.disk(device);
        let file_cnt = (disk_inode.size as usize) / DIR_ENTRY_SIZE;
        let target = name.as_bytes();
        let mut i: usize = 0;
        while i < file_cnt
            invariant
                0 <= i <= file_cnt,
                file_cnt == entry_count(*disk_inode),
                dir_ok(*disk_inode, d0),
                target@ == name.spec_bytes(),
                mgr.wf(device),
                mgr.disk(device) == d0,
                d0 == old(mgr).disk(old(device)),
                forall|j: int| 0 <= j < i ==> #[trigger] entry_name(*disk_inode, d0, j) != name.spec_bytes(),
            decreases file_cnt - i,
        {
            let dir = Self::read_entry(disk_inode, i, mgr, device);
            assert(name_terminated(entry_bytes(*disk_inode, d0, i as int).subrange(0, 28)));
            let entry_name_bytes = dir.get_name();
            if bytes_eq(entry_name_bytes.as_slice(), target) {
                proof {
                    assert(entry_name(*disk_inode, d0, i as int) == name.spec_bytes());
                }
                return Some(dir.get_inode());
            }
            i = i + 1;
        }
        None
    }

    /// Looks `name` up in this directory: the id of the inode it names.
    pub fn find<D: BlockDevice>(&self, name: &str, mgr: &mut BlockCacheManager, device: &mut D) -> (r: Option<u32>)
        requires
            old(mgr).wf(old(device)),
            self.placed(),
            forall|ino: DiskInode| decodes(ino, self.stored(old(mgr).disk(old(device)))) ==> dir_ok(ino, old(mgr).disk(old(device))),
        ensures
            final(mgr).wf(final(device)),
            final(mgr).disk(final(device)) == old(mgr).disk(old(device)),
            forall|ino: DiskInode| #[trigger] decodes(ino, self.stored(old(mgr).disk(old(device)))) ==> {
                let d = old(mgr).disk(old(device));
                match r {
                    Some(id) => exists|i: int|
                        0 <= i < entry_count(ino) && #[trigger] entry_name(ino, d, i) == name.spec_bytes()
                            && id == entry_inode(ino, d, i)
                            && forall|j: int| 0 <= j < i ==> entry_name(ino, d, j) != name.spec_bytes(),
                    None => forall|i: int| 0 <= i < entry_count(ino) ==> #[trigger] entry_name(ino, d, i) != name.spec_bytes(),
                }
            },
    {
        let ghost d0 = mgr.disk(device);
        let disk_inode = self.read_disk_inode(mgr, device);
        let r = self.find_inode_id(name, &disk_inode, mgr, device);
        proof {
            assert forall|ino: DiskInode| #[trigger] decodes(ino, self.stored(d0)) implies {
                match r {
                    Some(id) => exists|i: int|
                        0 <= i < entry_count(ino) && #[trigger] entry_name(ino, d0, i) == name.spec_bytes()
                            && id == entry_inode(ino, d0, i)
                            && forall|j: int| 0 <= j < i ==> entry_name(ino, d0, j) != name.spec_bytes(),
                    None => forall|i: int| 0 <= i < entry_count(ino) ==> #[trigger] entry_name(ino, d0, i) != name.spec_bytes(),
                }
            } by {
                lemma_decodes_unique(ino, disk_inode, self.stored(d0));
                if let Some(id) = r {
                    let i = choose|i: int|
                        0 <= i < entry_count(disk_inode) && #[trigger] entry_name(disk_inode, d0, i) == name.spec_bytes()
                            && id == entry_inode(disk_inode, d0, i)
                            && forall|j: int| 0 <= j < i ==> entry_name(disk_inode, d0, j) != name.spec_bytes();
                    assert(entry_bytes(ino, d0, i) == entry_bytes(disk_inode, d0, i));
                    assert forall|j: int| 0 <= j < i implies entry_name(ino, d0, j) != name.spec_bytes() by {
                        assert(entry_bytes(ino, d0, j) == entry_bytes(disk_inode, d0, j));
                        assert(entry_name(ino, d0, j) == entry_name(disk_inode, d0, j));
                        assert(entry_name(disk_inode, d0, j) != name.spec_bytes());
                    }
                    assert(entry_name(ino, d0, i) == name.spec_bytes());
                } else {
                    assert forall|i: int| 0 <= i < entry_count(ino) implies #[trigger] entry_name(ino, d0, i) != name.spec_bytes() by {
                        assert(entry_bytes(ino, d0, i) == entry_bytes(disk_inode, d0, i));
                        assert(entry_name(disk_inode, d0, i) != name.spec_bytes());
                    }
                }
            }
        }
        r
    }

    /// Lists the blocks of the file, index blocks included, for the file
    /// system to free (see `DiskInode::clear_size`), and stores the inode
    /// back with its index-block fields as `clear_size` leaves them. There
    /// are as many ids as the file's size takes blocks.
    pub fn clear_data<D: BlockDevice>(&self, mgr: &mut BlockCacheManager, device: &mut D) -> (r: Vec<u32>)
        requires
            old(mgr).wf(old(device)),
            self.placed(),
            forall|ino: DiskInode| decodes(ino, self.stored(old(mgr).disk(old(device)))) ==> data_blocks(ino.size as int) <= max_block_index(),
        ensures
            final(mgr).wf(final(device)),
            forall|ino: DiskInode| #[trigger] decodes(ino, self.stored(old(mgr).disk(old(device)))) ==> {
                let d = old(mgr).disk(old(device));
                let run = clear_run(ino, d, data_blocks(ino.size as int) as nat);
                &&& r@ == run.2
                &&& r@.len() == total_blocks(ino.size as int)
                &&& final(mgr).disk(final(device)) == d.insert(
                    self.block_id,
                    set_bytes(d[self.block_id], self.block_offset as int, inode_bytes(with_index_blocks(ino, run.0, run.1))),
                )
            },
    {
        let ghost d0 = mgr.disk(device);
        let mut disk_inode = self.read_disk_inode(mgr, device);
        let ghost ino0 = disk_inode;
        let need_dealloc = disk_inode.clear_size(mgr, device);
        proof {
            lemma_clear_run_len(ino0, d0, data_blocks(ino0.size as int) as nat);
            assert(disk_inode.direct_zone =~= ino0.direct_zone);
        }
        self.modify_disk_inode(&disk_inode, mgr, device);
        proof {
            assert forall|ino: DiskInode| #[trigger] decodes(ino, self.stored(d0)) implies {
                let run = clear_run(ino, d0, data_blocks(ino.size as int) as nat);
                &&& need_dealloc@ == run.2
                &&& need_dealloc@.len() == total_blocks(ino.size as int)
                &&& mgr.disk(device) == d0.insert(
                    self.block_id,
                    set_bytes(d0[self.block_id], self.block_offset as int, inode_bytes(with_index_blocks(ino, run.0, run.1))),
                )
            } by {
                lemma_decodes_unique(ino, ino0, self.stored(d0));
                let run = clear_run(ino, d0, data_blocks(ino.size as int) as nat);
                assert(disk_inode == with_index_blocks(ino, run.0, run.1));
            }
        }
        need_dealloc
    }

    /// Adds a file named `name` to this directory: `None`, with nothing
    /// changed, when an entry already has that name; otherwise the directory
    /// grows by one entry, taking the ids `new_blocks` for the blocks it
    /// needs, the entry records `name` and `new_id`, the inode at `new_inode`
    /// becomes an empty file, every cached block is written back, and the
    /// result is `new_inode`. The file system that hands out `new_id`, the
    /// blocks and the new inode's place is the caller's; the ids and blocks
    /// are only asked for when no entry has the name, so a caller can look
    /// the name up (`find`) before it takes them.
    pub fn create<D: BlockDevice>(
        &self,
        name: &str,
        new_id: u32,
        new_blocks: Vec<u32>,
        new_inode: &Inode,
        mgr: &mut BlockCacheManager,
        device: &mut D,
    ) -> (r: Option<Inode>)
        requires
            old(mgr).wf(old(device)),
            self.placed(),
            new_inode.placed(),
            name.spec_bytes().len() < NAME_LENGTH_LIMIT,
            forall|ino: DiskInode| decodes(ino, self.stored(old(mgr).disk(old(device)))) ==> {
                let new_size = (entry_count(ino) + 1) * (DIR_ENTRY_SIZE as int);
                &&& dir_ok(ino, old(mgr).disk(old(device)))
                &&& !(exists|i: int| 0 <= i < entry_count(ino) && #[trigger] entry_name(ino, old(mgr).disk(old(device)), i)
                    == name.spec_bytes()) ==> {
                    &&& new_size <= max_block_index() * BLOCK_SIZE
                    &&& total_blocks(new_size) <= max_block_index()
                    &&& new_blocks@.len() == total_blocks(new_size) - total_blocks(ino.size as int)
                    &&& push_run(
                        (ino.direct_zone@, ino.first_level_indirect, ino.second_level_indirect, old(mgr).disk(old(device))),
                        new_blocks@,
                        total_blocks(ino.size as int),
                    ) is Some
                }
            },
        ensures
            final(mgr).wf(final(device)),
            forall|ino: DiskInode| #[trigger] decodes(ino, self.stored(old(mgr).disk(old(device)))) ==> {
                let d = old(mgr).disk(old(device));
                if exists|i: int| 0 <= i < entry_count(ino) && #[trigger] entry_name(ino, d, i) == name.spec_bytes() {
                    &&& r is None
                    &&& final(mgr).disk(final(device)) == d
                } else {
                    &&& r == Some(*new_inode)
                    &&& exists|grown: DiskInode| created(
                        ino,
                        d,
                        new_blocks@,
                        entry_for(name.spec_bytes(), new_id),
                        (self.block_id, self.block_offset),
                        (new_inode.block_id, new_inode.block_offset),
                        grown,
                        final(mgr).disk(final(device)),
                    )
                    &&& forall|id: usize| #[trigger] final(device).block(id) == final(mgr).disk(final(device))[id]
                }
            },
    {
        let ghost d0 = mgr.disk(device);
        let mut dir = self.read_disk_inode(mgr, device);
        let ghost dir0 = dir;
        if self.find_inode_id(name, &dir, mgr, device).is_some() {
            proof {
                assert forall|ino: DiskInode| #[trigger] decodes(ino, self.stored(d0)) implies
                    exists|i: int| 0 <= i < entry_count(ino) && #[trigger] entry_name(ino, d0, i) == name.spec_bytes() by {
                    lemma_decodes_unique(ino, dir0, self.stored(d0));
                }
            }
            return None;
        }
        let file_cnt = (dir.size as usize) / DIR_ENTRY_SIZE;
        let new_size = ((file_cnt + 1) * DIR_ENTRY_SIZE) as u32;
        let need = dir.calc_new_blocks(new_size);
        let ghost st = push_run(
            (dir.direct_zone@, dir.first_level_indirect, dir.second_level_indirect, d0),
            new_blocks@,
            total_blocks(dir.size as int),
        ).unwrap();
        dir.push_empty_blocks(new_size, new_blocks, mgr, device);
        let ghost grown = dir;
        let ghost d1 = mgr.disk(device);
        let entry = DirEntry::new(name, new_id);
        let bytes = entry.as_bytes();
        proof {
            assert(entry.name@ + Seq::new(4, |i: int| 0u8) =~= name.spec_bytes() + Seq::new((DIR_ENTRY_SIZE - name.spec_bytes().len()) as nat, |i: int| 0u8));
            assert(bytes@ == entry_for(name.spec_bytes(), new_id));
            lemma_entry_read_whole(file_cnt as int, new_size as int);
            lemma_entry_write(grown, d1, file_cnt as int, bytes@);
        }
        dir.write_at(file_cnt * DIR_ENTRY_SIZE, bytes.as_slice(), mgr, device);
        self.modify_disk_inode(&dir, mgr, device);
        let fresh = DiskInode {
            size: 0,
            direct_zone: [0u32; INODE_DIRECT_COUNT],
            first_level_indirect: 0,
            second_level_indirect: 0,
            node_type: InodeType::File,
        };
        proof {
            assert(fresh.direct_zone@ =~= Seq::new(INODE_DIRECT_COUNT as nat, |k: int| 0u32));
        }
        new_inode.modify_disk_inode(&fresh, mgr, device);
        let ghost d4 = mgr.disk(device);
        mgr.sync_all(device);
        proof {
            assert forall|ino: DiskInode| #[trigger] decodes(ino, self.stored(d0)) implies {
                &&& !(exists|i: int| 0 <= i < entry_count(ino) && #[trigger] entry_name(ino, d0, i) == name.spec_bytes())
                &&& created(
                    ino,
                    d0,
                    new_blocks@,
                    entry_for(name.spec_bytes(), new_id),
                    (self.block_id, self.block_offset),
                    (new_inode.block_id, new_inode.block_offset),
                    grown,
                    mgr.disk(device),
                )
            } by {
                lemma_decodes_unique(ino, dir0, self.stored(d0));
            }
        }
        Some(Inode::new(new_inode.block_id, new_inode.block_offset))
    }

    /// Reads the file from byte `start` into `buf`, as `DiskInode::read_at`
    /// does for the inode stored here.
    pub fn read_at<D: BlockDevice>(&self, start: usize, buf: &mut [u8], mgr: &mut BlockCacheManager, device: &mut D) -> (r: usize)
        requires
            old(mgr).wf(old(device)),
            self.placed(),
            start + old(buf)@.len() <= usize::MAX,
            forall|ino: DiskInode| decodes(ino, self.stored(old(mgr).disk(old(device)))) ==>
                io_end(start as int, old(buf)@.len() as int, ino.size as int) <= max_block_index() * BLOCK_SIZE,
        ensures
            final(mgr).wf(final(device)),
            final(mgr).disk(final(device)) == old(mgr).disk(old(device)),
            final(buf)@.len() == old(buf)@.len(),
            forall|ino: DiskInode| #[trigger] decodes(ino, self.stored(old(mgr).disk(old(device)))) ==> {
                &&& r == io_len(start as int, io_end(start as int, old(buf)@.len() as int, ino.size as int))
                &&& forall|j: int| 0 <= j < r ==> #[trigger] final(buf)@[j] == file_byte(ino, old(mgr).disk(old(device)), start + j)
                &&& forall|j: int| r <= j < old(buf)@.len() ==> #[trigger] final(buf)@[j] == old(buf)@[j]
            },
    {
        let ghost d0 = mgr.disk(device);
        let disk_inode = self.read_disk_inode(mgr, device);
        let r = disk_inode.read_at(start, buf, mgr, device);
        proof {
            assert forall|ino: DiskInode| #[trigger] decodes(ino, self.stored(d0)) implies ino == disk_inode by {
                lemma_decodes_unique(ino, disk_inode, self.stored(d0));
            }
        }
        r
    }

    /// Writes `buf` into the file from byte `start` on. When the write
    /// reaches past the end of the file, the file first grows to
    /// `start + buf.len()` bytes, taking the ids `new_blocks` for the blocks it
    /// needs (none are given otherwise), and the grown inode is stored back.
    /// Returns what `DiskInode::write_at` returns.
    pub fn write_at<D: BlockDevice>(
        &self,
        start: usize,
        buf: &[u8],
        new_blocks: Vec<u32>,
        mgr: &mut BlockCacheManager,
        device: &mut D,
    ) -> (r: usize)
        requires
            old(mgr).wf(old(device)),
            self.placed(),
            start + buf@.len() <= u32::MAX,
            forall|ino: DiskInode| decodes(ino, self.stored(old(mgr).disk(old(device)))) ==> {
                let end = start + buf@.len();
                if end > ino.size {
                    &&& end <= max_block_index() * BLOCK_SIZE
                    &&& total_blocks(end) <= max_block_index()
                    &&& new_blocks@.len() == total_blocks(end) - total_blocks(ino.size as int)
                    &&& push_run(
                        (ino.direct_zone@, ino.first_level_indirect, ino.second_level_indirect, old(mgr).disk(old(device))),
                        new_blocks@,
                        total_blocks(ino.size as int),
                    ) is Some
                } else {
                    &&& new_blocks@.len() == 0
                    &&& ino.size <= max_block_index() * BLOCK_SIZE
                }
            },
        ensures
            final(mgr).wf(final(device)),
            forall|ino: DiskInode| #[trigger] decodes(ino, self.stored(old(mgr).disk(old(device)))) ==> {
                let d = old(mgr).disk(old(device));
                let end = start + buf@.len();
                if end > ino.size {
                    exists|grown: DiskInode| {
                        let d1 = grown_disk(ino, d, new_blocks@);
                        let d2 = if end <= start {
                            d1
                        } else {
                            write_chunks(grown, d1, start as int, end, buf@, num_chunks(start as int, end) as nat)
                        };
                        &&& #[trigger] grown_to(ino, d, new_blocks@, end, grown)
                        &&& r == io_len(start as int, end)
                        &&& final(mgr).disk(final(device)) == d2.insert(
                            self.block_id,
                            set_bytes(d2[self.block_id], self.block_offset as int, inode_bytes(grown)),
                        )
                    }
                } else {
                    let e = io_end(start as int, buf@.len() as int, ino.size as int);
                    &&& r == io_len(start as int, e)
                    &&& final(mgr).disk(final(device)) == if e <= start {
                        d
                    } else {
                        write_chunks(ino, d, start as int, e, buf@, num_chunks(start as int, e) as nat)
                    }
                }
            },
    {
        let ghost d0 = mgr.disk(device);
        let mut disk_inode = self.read_disk_inode(mgr, device);
        let ghost ino0 = disk_inode;
        if start + buf.len() > disk_inode.size as usize {
            let new_size = (start + buf.len()) as u32;
            disk_inode.push_empty_blocks(new_size, new_blocks, mgr, device);
            let ghost grown = disk_inode;
            let ghost d1 = mgr.disk(device);
            let r = disk_inode.write_at(start, buf, mgr, device);
            let ghost d2 = mgr.disk(device);
            self.modify_disk_inode(&disk_inode, mgr, device);
            proof {
                assert forall|ino: DiskInode| #[trigger] decodes(ino, self.stored(d0)) implies {
                    let end = start + buf@.len();
                    exists|grown: DiskInode| {
                        let d1 = grown_disk(ino, d0, new_blocks@);
                        let d2 = if end <= start {
                            d1
                        } else {
                            write_chunks(grown, d1, start as int, end, buf@, num_chunks(start as int, end) as nat)
                        };
                        &&& #[trigger] grown_to(ino, d0, new_blocks@, end, grown)
                        &&& r == io_len(start as int, end)
                        &&& mgr.disk(device) == d2.insert(
                            self.block_id,
                            set_bytes(d2[self.block_id], self.block_offset as int, inode_bytes(grown)),
                        )
                    }
                } by {
                    lemma_decodes_unique(ino, ino0, self.stored(d0));
                    assert(grown_to(ino, d0, new_blocks@, start + buf@.len(), grown));
                    assert(io_end(start as int, buf@.len() as int, grown.size as int) == start + buf@.len());
                    assert(d1 == grown_disk(ino, d0, new_blocks@));
                }
            }
            r
        } else {
            let r = disk_inode.write_at(start, buf, mgr, device);
            proof {
                assert forall|ino: DiskInode| #[trigger] decodes(ino, self.stored(d0)) implies ino == ino0 by {
                    lemma_decodes_unique(ino, ino0, self.stored(d0));
                }
            }
            r
        }
    }

    /// The names of the entries of this directory, in order.
    pub fn ls<D: BlockDevice>(&self, mgr: &mut BlockCacheManager, device: &mut D) -> (r: Vec<Vec<u8>>)
        requires
            old(mgr).wf(old(device)),
            self.placed(),
            forall|ino: DiskInode| decodes(ino, self.stored(old(mgr).disk(old(device)))) ==> dir_ok(ino, old(mgr).disk(old(device))),
        ensures
            final(mgr).wf(final(device)),
            final(mgr).disk(final(device)) == old(mgr).disk(old(device)),
            forall|ino: DiskInode| #[trigger] decodes(ino, self.stored(old(mgr).disk(old(device)))) ==> {
                &&& r@.len() == entry_count(ino)
                &&& forall|i: int| 0 <= i < r@.len() ==> #[trigger] r@[i]@ == entry_name(ino, old(mgr).disk(old(device)), i)
            },
    {
        let ghost d0 = mgr.disk(device);
        let disk_inode = self.read_disk_inode(mgr, device);
        let file_cnt = (disk_inode.size as usize) / DIR_ENTRY_SIZE;
        let mut res: Vec<Vec<u8>> = Vec::new();
        let mut i: usize = 0;
        while i < file_cnt
            invariant
                0 <= i <= file_cnt,
                file_cnt == entry_count(disk_inode),
                dir_ok(disk_inode, d0),
                mgr.wf(device),
                mgr.disk(device) == d0,
                res@.len() == i,
                forall|j: int| 0 <= j < i ==> #[trigger] res@[j]@ == entry_name(disk_inode, d0, j),
            decreases file_cnt - i,
        {
            let dir = Self::read_entry(&disk_inode, i, mgr, device);
            assert(name_terminated(entry_bytes(disk_inode, d0, i as int).subrange(0, 28)));
            res.push(dir.get_name());
            i = i + 1;
        }
        proof {
            assert forall|ino: DiskInode| #[trigger] decodes(ino, self.stored(d0)) implies {
                &&& res@.len() == entry_count(ino)
                &&& forall|i: int| 0 <= i < res@.len() ==> #[trigger] res@[i]@ == entry_name(ino, d0, i)
            } by {
                lemma_decodes_unique(ino, disk_inode, self.stored(d0));
                assert forall|i: int| 0 <= i < res@.len() implies #[trigger] res@[i]@ == entry_name(ino, d0, i) by {
                    assert(entry_bytes(ino, d0, i) == entry_bytes(disk_inode, d0, i));
                }
            }
        }
        res
    }
}

} // verus!
