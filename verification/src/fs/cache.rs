use vstd::prelude::*;
use vstd::bytes::{
    spec_u32_from_le_bytes, spec_u32_to_le_bytes, spec_u64_from_le_bytes, spec_u64_to_le_bytes,
    u32_from_le_bytes, u32_to_le_bytes, u64_from_le_bytes, u64_to_le_bytes,
};
use std::collections::VecDeque;
use crate::config::{BLOCK_SIZE, CACHE_NUM};

verus! {

/// A block of zero bytes.
pub open spec fn zero_block() -> Seq<u8> {
    Seq::new(BLOCK_SIZE as nat, |i: int| 0u8)
}

/// The little-endian `u32` stored at byte `off` of `s`.
pub open spec fn u32_at(s: Seq<u8>, off: int) -> u32 {
    spec_u32_from_le_bytes(s.subrange(off, off + 4))
}

/// `s` with the little-endian encoding of `v` stored at byte `off`.
pub open spec fn set_u32(s: Seq<u8>, off: int, v: u32) -> Seq<u8> {
    s.subrange(0, off) + spec_u32_to_le_bytes(v) + s.subrange(off + 4, s.len() as int)
}

/// The little-endian `u64` stored at byte `off` of `s`.
pub open spec fn u64_at(s: Seq<u8>, off: int) -> u64 {
    spec_u64_from_le_bytes(s.subrange(off, off + 8))
}

/// `s` with the little-endian encoding of `v` stored at byte `off`.
pub open spec fn set_u64(s: Seq<u8>, off: int, v: u64) -> Seq<u8> {
    s.subrange(0, off) + spec_u64_to_le_bytes(v) + s.subrange(off + 8, s.len() as int)
}

/// `s` with the bytes of `data` stored from byte `off` on.
pub open spec fn set_bytes(s: Seq<u8>, off: int, data: Seq<u8>) -> Seq<u8> {
    s.subrange(0, off) + data + s.subrange(off + data.len(), s.len() as int)
}

/// Reading a `u32` back where one was stored gives the stored value, and the
/// length is kept.
pub proof fn lemma_u32_read_write(s: Seq<u8>, off: int, v: u32)
    requires
        0 <= off,
        off + 4 <= s.len(),
    ensures
        set_u32(s, off, v).len() == s.len(),
        u32_at(set_u32(s, off, v), off) == v,
        forall|i: int| 0 <= i < s.len() && !(off <= i < off + 4) ==> set_u32(s, off, v)[i] == s[i],
{
    vstd::bytes::lemma_auto_spec_u32_to_from_le_bytes();
    let t = set_u32(s, off, v);
    assert(t.subrange(off, off + 4) =~= spec_u32_to_le_bytes(v));
}

/// Reading a `u64` back where one was stored gives the stored value, and the
/// length is kept.
pub proof fn lemma_u64_read_write(s: Seq<u8>, off: int, v: u64)
    requires
        0 <= off,
        off + 8 <= s.len(),
    ensures
        set_u64(s, off, v).len() == s.len(),
        u64_at(set_u64(s, off, v), off) == v,
        forall|i: int| 0 <= i < s.len() && !(off <= i < off + 8) ==> set_u64(s, off, v)[i] == s[i],
{
    vstd::bytes::lemma_auto_spec_u64_to_from_le_bytes();
    let t = set_u64(s, off, v);
    assert(t.subrange(off, off + 8) =~= spec_u64_to_le_bytes(v));
}

/// Storing a `u64` leaves every `u64` that does not overlap it unchanged.
pub proof fn lemma_u64_other(s: Seq<u8>, off: int, other: int, v: u64)
    requires
        0 <= off,
        off + 8 <= s.len(),
        0 <= other,
        other + 8 <= s.len(),
        off + 8 <= other || other + 8 <= off,
    ensures
        u64_at(set_u64(s, off, v), other) == u64_at(s, other),
{
    lemma_u64_read_write(s, off, v);
    assert(set_u64(s, off, v).subrange(other, other + 8) =~= s.subrange(other, other + 8));
}

/// A device that stores fixed-size blocks, implemented by the users of the
/// file system (a disk image file, a virtio disk, memory).
pub trait BlockDevice {
    /// What block `block_id` holds.
    spec fn block(&self, block_id: usize) -> Seq<u8>;

    /// Every block is `BLOCK_SIZE` bytes long.
    proof fn lemma_block_len(&self, block_id: usize)
        ensures
            self.block(block_id).len() == BLOCK_SIZE,
    ;

    /// Copies block `block_id` into `buf`.
    fn read_block(&self, block_id: usize, buf: &mut [u8])
        requires
            old(buf)@.len() == BLOCK_SIZE,
        ensures
            final(buf)@ == self.block(block_id),
    ;

    /// Stores `buf` as block `block_id`; no other block changes.
    fn write_block(&mut self, block_id: usize, buf: &[u8])
        requires
            buf@.len() == BLOCK_SIZE,
        ensures
            forall|i: usize|
                #[trigger] final(self).block(i) == if i == block_id {
                    buf@
                } else {
                    old(self).block(i)
                },
    ;
}

/// A block device kept in memory; blocks never written read as zeros.
pub struct MemBlockDevice {
    blocks: Vec<Vec<u8>>,
}

impl MemBlockDevice {
    /// A device whose blocks all read as zeros.
    pub fn new() -> (r: Self)
        ensures
            forall|i: usize| #[trigger] r.block(i) == zero_block(),
    {
        MemBlockDevice { blocks: Vec::new() }
    }
}

impl BlockDevice for MemBlockDevice {
    closed spec fn block(&self, block_id: usize) -> Seq<u8> {
        if block_id < self.blocks@.len() && self.blocks@[block_id as int]@.len() == BLOCK_SIZE {
            self.blocks@[block_id as int]@
        } else {
            zero_block()
        }
    }

    proof fn lemma_block_len(&self, block_id: usize) {
    }

    fn read_block(&self, block_id: usize, buf: &mut [u8]) {
        let stored = block_id < self.blocks.len() && self.blocks[block_id].len() == BLOCK_SIZE;
        let mut i: usize = 0;
        while i < BLOCK_SIZE
            invariant
                0 <= i <= BLOCK_SIZE,
                buf@.len() == BLOCK_SIZE,
                stored == (block_id < self.blocks@.len() && self.blocks@[block_id as int]@.len()
                    == BLOCK_SIZE),
                forall|j: int| 0 <= j < i ==> buf@[j] == self.block(block_id)[j],
            decreases BLOCK_SIZE - i,
        {
            if stored {
                buf[i] = self.blocks[block_id][i];
            } else {
                buf[i] = 0;
            }
            i = i + 1;
        }
        assert(buf@ =~= self.block(block_id));
    }

    fn write_block(&mut self, block_id: usize, buf: &[u8]) {
        while self.blocks.len() <= block_id
            invariant
                self.blocks@.len() <= block_id + 1 || self.blocks@.len() == old(self).blocks@.len(),
                forall|i: usize| #[trigger] self.block(i) == old(self).block(i),
            decreases block_id + 1 - self.blocks@.len(),
        {
            let mut zeros: Vec<u8> = Vec::new();
            let mut k: usize = 0;
            while k < BLOCK_SIZE
                invariant
                    0 <= k <= BLOCK_SIZE,
                    zeros@.len() == k,
                    forall|j: int| 0 <= j < k ==> zeros@[j] == 0u8,
                decreases BLOCK_SIZE - k,
            {
                zeros.push(0u8);
                k = k + 1;
            }
            assert(zeros@ =~= zero_block());
            let ghost before = *self;
            self.blocks.push(zeros);
            assert forall|i: usize| #[trigger] self.block(i) == before.block(i) by {
                if i < before.blocks@.len() {
                    assert(self.blocks@[i as int] == before.blocks@[i as int]);
                }
            }
        }
        let data = vstd::slice::slice_to_vec(buf);
        let ghost before = *self;
        self.blocks.set(block_id, data);
        assert forall|i: usize| #[trigger]
            self.block(i) == (if i == block_id { buf@ } else { old(self).block(i) }) by {
            assert(before.block(i) == old(self).block(i));
            if i != block_id && i < before.blocks@.len() {
                assert(self.blocks@[i as int] == before.blocks@[i as int]);
            }
            if i == block_id {
                assert(self.blocks@[i as int]@ == buf@);
            }
        }
    }
}

/// The in-memory copy of one disk block.
pub struct BlockCache {
    cache: Vec<u8>,
    block_id: usize,
    dirt: bool,
}

impl BlockCache {
    /// The cached bytes.
    pub closed spec fn data(&self) -> Seq<u8> {
        self.cache@
    }

    /// The id of the cached block.
    pub closed spec fn id(&self) -> usize {
        self.block_id
    }

    /// Whether the cached copy was modified since it was read.
    pub closed spec fn dirty(&self) -> bool {
        self.dirt
    }

    /// Reads block `block_id` from `device` into a fresh, clean cache.
    pub fn new<D: BlockDevice>(block_id: usize, device: &D) -> (r: Self)
        ensures
            r.data() == device.block(block_id),
            r.id() == block_id,
            !r.dirty(),
    {
        let mut cache: Vec<u8> = Vec::new();
        let mut k: usize = 0;
        while k < BLOCK_SIZE
            invariant
                0 <= k <= BLOCK_SIZE,
                cache@.len() == k,
            decreases BLOCK_SIZE - k,
        {
            cache.push(0u8);
            k = k + 1;
        }
        device.read_block(block_id, cache.as_mut_slice());
        BlockCache { cache, block_id, dirt: false }
    }

    /// Writes the cached copy back to the device if it was modified.
    pub fn sync<D: BlockDevice>(&mut self, device: &mut D)
        requires
            old(self).data().len() == BLOCK_SIZE,
        ensures
            *final(self) == *old(self),
            forall|i: usize|
                #[trigger] final(device).block(i) == if old(self).dirty() && i == old(self).id() {
                    old(self).data()
                } else {
                    old(device).block(i)
                },
    {
        if self.dirt {
            device.write_block(self.block_id, self.cache.as_slice());
        }
    }

    /// The `len` bytes that start at byte `offset`.
    pub fn read(&self, offset: usize, len: usize) -> (r: Vec<u8>)
        requires
            offset + len <= self.data().len(),
        ensures
            r@ == self.data().subrange(offset as int, offset + len),
    {
        let mut r: Vec<u8> = Vec::new();
        let mut k: usize = 0;
        while k < len
            invariant
                0 <= k <= len,
                offset + len <= self.cache.len(),
                r@ == self.cache@.subrange(offset as int, offset + k),
            decreases len - k,
        {
            r.push(self.cache[offset + k]);
            k = k + 1;
            assert(r@ =~= self.cache@.subrange(offset as int, offset + k));
        }
        r
    }

    /// Stores `data` from byte `offset` on and marks the cache modified.
    pub fn modify(&mut self, offset: usize, data: &[u8])
        requires
            offset + data@.len() <= old(self).data().len(),
        ensures
            final(self).data() == set_bytes(old(self).data(), offset as int, data@),
            final(self).id() == old(self).id(),
            final(self).dirty(),
    {
        let mut k: usize = 0;
        while k < data.len()
            invariant
                0 <= k <= data@.len(),
                offset + data@.len() <= self.cache.len(),
                self.cache@.len() == old(self).cache@.len(),
                self.block_id == old(self).block_id,
                forall|j: int|
                    0 <= j < self.cache@.len() ==> #[trigger] self.cache@[j] == if offset <= j
                        < offset + k {
                        data@[j - offset]
                    } else {
                        old(self).cache@[j]
                    },
            decreases data@.len() - k,
        {
            self.cache.set(offset + k, data[k]);
            k = k + 1;
        }
        self.dirt = true;
        assert(self.cache@ =~= set_bytes(old(self).cache@, offset as int, data@));
    }

    /// The little-endian `u32` at byte `offset`.
    pub fn read_u32(&self, offset: usize) -> (r: u32)
        requires
            offset + 4 <= self.data().len(),
        ensures
            r == u32_at(self.data(), offset as int),
    {
        let s = self.read(offset, 4);
        u32_from_le_bytes(s.as_slice())
    }

    /// Stores `v` little-endian at byte `offset`.
    pub fn modify_u32(&mut self, offset: usize, v: u32)
        requires
            offset + 4 <= old(self).data().len(),
        ensures
            final(self).data() == set_u32(old(self).data(), offset as int, v),
            final(self).id() == old(self).id(),
            final(self).dirty(),
    {
        let bytes = u32_to_le_bytes(v);
        self.modify(offset, bytes.as_slice());
    }

    /// The little-endian `u64` at byte `offset`.
    pub fn read_u64(&self, offset: usize) -> (r: u64)
        requires
            offset + 8 <= self.data().len(),
        ensures
            r == u64_at(self.data(), offset as int),
    {
        let s = self.read(offset, 8);
        u64_from_le_bytes(s.as_slice())
    }

    /// Stores `v` little-endian at byte `offset`.
    pub fn modify_u64(&mut self, offset: usize, v: u64)
        requires
            offset + 8 <= old(self).data().len(),
        ensures
            final(self).data() == set_u64(old(self).data(), offset as int, v),
            final(self).id() == old(self).id(),
            final(self).dirty(),
    {
        let bytes = u64_to_le_bytes(v);
        self.modify(offset, bytes.as_slice());
    }
}


/// Keeps at most `CACHE_NUM` block caches, each for a different block; when
/// full, the oldest cache is written back and dropped to make room.
pub struct BlockCacheManager {
    queue: VecDeque<BlockCache>,
}

impl BlockCacheManager {
    /// The caches, oldest first.
    pub closed spec fn entries(&self) -> Seq<BlockCache> {
        self.queue@
    }

    /// Structure that does not depend on the device: a bounded number of
    /// full-size caches for distinct blocks.
    pub closed spec fn inv(&self) -> bool {
        &&& self.queue@.len() <= CACHE_NUM
        &&& forall|i: int| 0 <= i < self.queue@.len() ==> #[trigger] self.queue@[i].data().len() == BLOCK_SIZE
        &&& forall|i: int, j: int|
            0 <= i < j < self.queue@.len() ==> #[trigger] self.queue@[i].id() != #[trigger] self.queue@[j].id()
    }

    /// Every unmodified cache holds what the device holds.
    pub closed spec fn coherent<D: BlockDevice>(&self, dev: &D) -> bool {
        forall|i: int|
            0 <= i < self.queue@.len() && !self.queue@[i].dirty() ==> #[trigger] self.queue@[i].data()
                == dev.block(self.queue@[i].id())
    }

    /// The manager is well formed with respect to `dev`.
    pub open spec fn wf<D: BlockDevice>(&self, dev: &D) -> bool {
        self.inv() && self.coherent(dev)
    }

    /// Whether block `id` is cached.
    pub closed spec fn cached(&self, id: usize) -> bool {
        exists|i: int| 0 <= i < self.queue@.len() && #[trigger] self.queue@[i].id() == id
    }

    /// Position of the cache of block `id`.
    closed spec fn slot(&self, id: usize) -> int {
        choose|i: int| 0 <= i < self.queue@.len() && #[trigger] self.queue@[i].id() == id
    }

    /// What block `id` holds as seen through the caches.
    pub closed spec fn logical<D: BlockDevice>(&self, dev: &D, id: usize) -> Seq<u8> {
        if self.cached(id) {
            self.queue@[self.slot(id)].data()
        } else {
            dev.block(id)
        }
    }

    /// The disk as seen through the caches: cached blocks as cached, the
    /// others as the device holds them.
    pub open spec fn disk<D: BlockDevice>(&self, dev: &D) -> Map<usize, Seq<u8>> {
        Map::new(|id: usize| true, |id: usize| self.logical(dev, id))
    }

    /// Number of caches held.
    pub closed spec fn len(&self) -> nat {
        self.queue@.len()
    }

    proof fn lemma_logical_slot<D: BlockDevice>(&self, dev: &D, i: int)
        requires
            self.inv(),
            0 <= i < self.queue@.len(),
        ensures
            self.cached(self.queue@[i].id()),
            self.logical(dev, self.queue@[i].id()) == self.queue@[i].data(),
    {
        let id = self.queue@[i].id();
        assert(self.queue@[i].id() == id);
        let k = self.slot(id);
        if k != i {
            if k < i {
                assert(self.queue@[k].id() != self.queue@[i].id());
            } else {
                assert(self.queue@[i].id() != self.queue@[k].id());
            }
        }
    }

    /// Every block seen through the caches is `BLOCK_SIZE` bytes long.
    pub proof fn lemma_disk_len<D: BlockDevice>(&self, dev: &D, id: usize)
        requires
            self.inv(),
        ensures
            self.disk(dev)[id].len() == BLOCK_SIZE,
    {
        dev.lemma_block_len(id);
        if self.cached(id) {
            let k = self.slot(id);
            assert(self.queue@[k].data().len() == BLOCK_SIZE);
        }
    }

    /// With no cache held, the disk is what the device holds.
    pub proof fn lemma_empty<D: BlockDevice>(&self, dev: &D)
        requires
            self.inv(),
            self.len() == 0,
        ensures
            self.wf(dev),
            forall|id: usize| #[trigger] self.disk(dev)[id] == dev.block(id),
    {
    }

    /// A manager holding no cache.
    pub fn new() -> (r: Self)
        ensures
            r.inv(),
            r.len() == 0,
    {
        BlockCacheManager { queue: VecDeque::new() }
    }

    /// Position of the cache of block `id`, reading the block from `device`
    /// first when it is not cached. The disk as seen through the caches does
    /// not change.
    pub fn get_block<D: BlockDevice>(&mut self, id: usize, device: &mut D) -> (idx: usize)
        requires
            old(self).wf(old(device)),
        ensures
            final(self).wf(final(device)),
            final(self).disk(final(device)) == old(self).disk(old(device)),
            idx < final(self).len(),
            final(self).entries()[idx as int].id() == id,
            old(self).cached(id) ==> final(self).entries() == old(self).entries() && *final(device) == *old(device),
            !old(self).cached(id) ==> {
                let q = old(self).entries();
                let kept = if q.len() == CACHE_NUM { q.subrange(1, q.len() as int) } else { q };
                &&& idx == kept.len()
                &&& final(self).entries().len() == kept.len() + 1
                &&& final(self).entries().subrange(0, kept.len() as int) == kept
                &&& final(self).entries()[idx as int].data() == old(device).block(id)
                &&& !final(self).entries()[idx as int].dirty()
                &&& forall|b: usize| #[trigger] final(device).block(b) == if q.len() == CACHE_NUM && q[0].dirty() && b == q[0].id() {
                    q[0].data()
                } else {
                    old(device).block(b)
                }
            },
    {
        let mut i: usize = 0;
        let mut found = false;
        while i < self.queue.len()
            invariant
                0 <= i <= self.queue@.len(),
                found ==> i < self.queue@.len() && self.queue@[i as int].id() == id,
                !found ==> forall|j: int| 0 <= j < i ==> #[trigger] self.queue@[j].id() != id,
            ensures
                found ==> i < self.queue@.len() && self.queue@[i as int].id() == id,
                !found ==> forall|j: int| 0 <= j < self.queue@.len() ==> #[trigger] self.queue@[j].id() != id,
            decreases self.queue@.len() - i,
        {
            if self.queue[i].block_id == id {
                found = true;
                break;
            }
            i = i + 1;
        }
        if found {
            proof {
                assert(self.cached(id));
            }
            return i;
        }
        assert(!self.cached(id));
        let ghost d0 = old(self).disk(old(device));
        if self.queue.len() == CACHE_NUM {
            let ghost q0 = self.queue@;
            let ghost dev0 = *device;
            let mut evicted = self.queue.pop_front().unwrap();
            evicted.sync(device);
            assert(self.queue@ =~= q0.subrange(1, q0.len() as int));
            assert forall|j: int|
                0 <= j < self.queue@.len() && !self.queue@[j].dirty() implies #[trigger] self.queue@[j].data()
                == device.block(self.queue@[j].id()) by {
                assert(q0[j + 1] == self.queue@[j]);
                assert(q0[0].id() != q0[j + 1].id());
            }
            assert forall|x: usize| #[trigger] self.logical(device, x) == d0[x] by {
                old(self).lemma_logical_slot(&dev0, 0);
                if x == q0[0].id() {
                    if self.cached(x) {
                        let k = self.slot(x);
                        assert(q0[k + 1].id() == x);
                        assert(q0[0].id() != q0[k + 1].id());
                    }
                } else if old(self).cached(x) {
                    let k = old(self).slot(x);
                    assert(q0[k].id() == x);
                    assert(k != 0);
                    assert(self.queue@[k - 1].id() == x);
                    self.lemma_logical_slot(device, k - 1);
                } else {
                    if self.cached(x) {
                        let k = self.slot(x);
                        assert(q0[k + 1].id() == x);
                    }
                }
            }
        }
        let ghost q1 = self.queue@;
        assert(self.disk(device) =~= d0) by {
            assert forall|x: usize| #[trigger] self.disk(device)[x] == d0[x] by {
                if self.queue@.len() == old(self).queue@.len() {
                    assert(self.queue@ == old(self).queue@);
                }
            }
        }
        assert forall|b: usize| #[trigger] device.block(b) == if old(self).queue@.len() == CACHE_NUM && old(self).queue@[0].dirty() && b == old(self).queue@[0].id() {
            old(self).queue@[0].data()
        } else {
            old(device).block(b)
        } by {}
        assert(device.block(id) == old(device).block(id)) by {
            if old(self).queue@.len() == CACHE_NUM {
                assert(old(self).queue@[0].id() != id);
            }
        }
        let cache = BlockCache::new(id, device);
        proof {
            device.lemma_block_len(id);
        }
        self.queue.push_back(cache);
        assert(self.queue@.subrange(0, q1.len() as int) =~= q1);
        let idx = self.queue.len() - 1;
        assert forall|x: usize| #[trigger] self.logical(device, x) == d0[x] by {
            self.lemma_logical_slot(device, idx as int);
            if x != id {
                if self.cached(x) {
                    let k = self.slot(x);
                    assert(k != idx);
                    assert(q1[k].id() == x);
                    assert(exists|m: int| 0 <= m < q1.len() && #[trigger] q1[m].id() == x);
                } else {
                    assert forall|m: int| 0 <= m < q1.len() implies #[trigger] q1[m].id() != x by {
                        assert(self.queue@[m] == q1[m]);
                    }
                }
            }
        }
        assert(self.disk(device) =~= d0);
        idx
    }

    proof fn lemma_update_slot<D: BlockDevice>(old_m: &Self, new_m: &Self, dev: &D, idx: int)
        requires
            old_m.wf(dev),
            0 <= idx < old_m.queue@.len(),
            new_m.queue@ == old_m.queue@.update(idx, new_m.queue@[idx]),
            new_m.queue@[idx].id() == old_m.queue@[idx].id(),
            new_m.queue@[idx].data().len() == BLOCK_SIZE,
            new_m.queue@[idx].dirty(),
        ensures
            new_m.wf(dev),
            new_m.disk(dev) == old_m.disk(dev).insert(old_m.queue@[idx].id(), new_m.queue@[idx].data()),
    {
        let id = old_m.queue@[idx].id();
        assert forall|i: int, j: int|
            0 <= i < j < new_m.queue@.len() implies #[trigger] new_m.queue@[i].id() != #[trigger] new_m.queue@[j].id() by {
            assert(old_m.queue@[i].id() != old_m.queue@[j].id());
        }
        assert forall|i: int| 0 <= i < new_m.queue@.len() implies #[trigger] new_m.queue@[i].data().len() == BLOCK_SIZE by {
            if i != idx {
                assert(old_m.queue@[i].data().len() == BLOCK_SIZE);
            }
        }
        assert forall|i: int|
            0 <= i < new_m.queue@.len() && !new_m.queue@[i].dirty() implies #[trigger] new_m.queue@[i].data()
                == dev.block(new_m.queue@[i].id()) by {
            assert(old_m.queue@[i] == new_m.queue@[i]);
        }
        assert forall|x: usize| #[trigger] new_m.disk(dev)[x] == old_m.disk(dev).insert(id, new_m.queue@[idx].data())[x] by {
            new_m.lemma_logical_slot(dev, idx);
            old_m.lemma_logical_slot(dev, idx);
            if x != id {
                if old_m.cached(x) {
                    let k = old_m.slot(x);
                    assert(old_m.queue@[k].id() == x);
                    assert(new_m.queue@[k] == old_m.queue@[k]);
                    new_m.lemma_logical_slot(dev, k);
                    old_m.lemma_logical_slot(dev, k);
                } else if new_m.cached(x) {
                    let k = new_m.slot(x);
                    assert(new_m.queue@[k] == old_m.queue@[k]);
                }
            }
        }
        assert(new_m.disk(dev) =~= old_m.disk(dev).insert(id, new_m.queue@[idx].data()));
    }

    /// The little-endian `u32` at byte `offset` of block `id`.
    pub fn read_u32<D: BlockDevice>(&mut self, id: usize, offset: usize, device: &mut D) -> (r: u32)
        requires
            old(self).wf(old(device)),
            offset + 4 <= BLOCK_SIZE,
        ensures
            final(self).wf(final(device)),
            final(self).disk(final(device)) == old(self).disk(old(device)),
            r == u32_at(old(self).disk(old(device))[id], offset as int),
    {
        let idx = self.get_block(id, device);
        proof {
            self.lemma_logical_slot(device, idx as int);
        }
        self.queue[idx].read_u32(offset)
    }

    /// The little-endian `u64` at byte `offset` of block `id`.
    pub fn read_u64<D: BlockDevice>(&mut self, id: usize, offset: usize, device: &mut D) -> (r: u64)
        requires
            old(self).wf(old(device)),
            offset + 8 <= BLOCK_SIZE,
        ensures
            final(self).wf(final(device)),
            final(self).disk(final(device)) == old(self).disk(old(device)),
            r == u64_at(old(self).disk(old(device))[id], offset as int),
    {
        let idx = self.get_block(id, device);
        proof {
            self.lemma_logical_slot(device, idx as int);
        }
        self.queue[idx].read_u64(offset)
    }

    /// The `len` bytes of block `id` that start at byte `offset`.
    pub fn read_bytes<D: BlockDevice>(&mut self, id: usize, offset: usize, len: usize, device: &mut D) -> (r: Vec<u8>)
        requires
            old(self).wf(old(device)),
            offset + len <= BLOCK_SIZE,
        ensures
            final(self).wf(final(device)),
            final(self).disk(final(device)) == old(self).disk(old(device)),
            r@ == old(self).disk(old(device))[id].subrange(offset as int, offset + len),
    {
        let idx = self.get_block(id, device);
        proof {
            self.lemma_logical_slot(device, idx as int);
        }
        self.queue[idx].read(offset, len)
    }

    /// Stores `v` little-endian at byte `offset` of block `id`.
    pub fn modify_u32<D: BlockDevice>(&mut self, id: usize, offset: usize, v: u32, device: &mut D)
        requires
            old(self).wf(old(device)),
            offset + 4 <= BLOCK_SIZE,
        ensures
            final(self).wf(final(device)),
            final(self).disk(final(device)) == old(self).disk(old(device)).insert(
                id,
                set_u32(old(self).disk(old(device))[id], offset as int, v),
            ),
    {
        let idx = self.get_block(id, device);
        let ghost mid = BlockCacheManager { queue: self.queue };
        proof {
            self.lemma_logical_slot(device, idx as int);
        }
        let mut c = self.queue.remove(idx).unwrap();
        c.modify_u32(offset, v);
        proof {
            lemma_u32_read_write(mid.queue@[idx as int].data(), offset as int, v);
        }
        self.queue.insert(idx, c);
        proof {
            assert(self.queue@ =~= mid.queue@.update(idx as int, self.queue@[idx as int]));
            Self::lemma_update_slot(&mid, self, device, idx as int);
        }
    }

    /// Stores `v` little-endian at byte `offset` of block `id`.
    pub fn modify_u64<D: BlockDevice>(&mut self, id: usize, offset: usize, v: u64, device: &mut D)
        requires
            old(self).wf(old(device)),
            offset + 8 <= BLOCK_SIZE,
        ensures
            final(self).wf(final(device)),
            final(self).disk(final(device)) == old(self).disk(old(device)).insert(
                id,
                set_u64(old(self).disk(old(device))[id], offset as int, v),
            ),
    {
        let idx = self.get_block(id, device);
        let ghost mid = BlockCacheManager { queue: self.queue };
        proof {
            self.lemma_logical_slot(device, idx as int);
        }
        let mut c = self.queue.remove(idx).unwrap();
        c.modify_u64(offset, v);
        proof {
            lemma_u64_read_write(mid.queue@[idx as int].data(), offset as int, v);
        }
        self.queue.insert(idx, c);
        proof {
            assert(self.queue@ =~= mid.queue@.update(idx as int, self.queue@[idx as int]));
            Self::lemma_update_slot(&mid, self, device, idx as int);
        }
    }

    /// Stores `data` in block `id` from byte `offset` on.
    pub fn modify_bytes<D: BlockDevice>(&mut self, id: usize, offset: usize, data: &[u8], device: &mut D)
        requires
            old(self).wf(old(device)),
            offset + data@.len() <= BLOCK_SIZE,
        ensures
            final(self).wf(final(device)),
            final(self).disk(final(device)) == old(self).disk(old(device)).insert(
                id,
                set_bytes(old(self).disk(old(device))[id], offset as int, data@),
            ),
    {
        let idx = self.get_block(id, device);
        let ghost mid = BlockCacheManager { queue: self.queue };
        proof {
            self.lemma_logical_slot(device, idx as int);
        }
        let mut c = self.queue.remove(idx).unwrap();
        c.modify(offset, data);
        self.queue.insert(idx, c);
        proof {
            assert(self.queue@ =~= mid.queue@.update(idx as int, self.queue@[idx as int]));
            Self::lemma_update_slot(&mid, self, device, idx as int);
        }
    }

    /// Writes every modified cache back; afterwards the device holds the disk
    /// as it was seen through the caches.
    pub fn sync_all<D: BlockDevice>(&mut self, device: &mut D)
        requires
            old(self).wf(old(device)),
        ensures
            final(self).wf(final(device)),
            final(self).disk(final(device)) == old(self).disk(old(device)),
            forall|id: usize| #[trigger] final(device).block(id) == old(self).disk(old(device))[id],
    {
        let ghost d0 = self.disk(device);
        let ghost dev0 = *device;
        let mut i: usize = 0;
        while i < self.queue.len()
            invariant
                0 <= i <= self.queue@.len(),
                self.queue@ == old(self).queue@,
                self.inv(),
                forall|j: int| 0 <= j < self.queue@.len() && (j < i || !self.queue@[j].dirty()) ==>
                    #[trigger] self.queue@[j].data() == device.block(self.queue@[j].id()),
                forall|x: usize| !self.cached(x) ==> #[trigger] device.block(x) == dev0.block(x),
                forall|j: int| i <= j < self.queue@.len() ==> #[trigger] device.block(self.queue@[j].id())
                    == dev0.block(self.queue@[j].id()),
                d0 == old(self).disk(&dev0),
            decreases self.queue@.len() - i,
        {
            let ghost dv = *device;
            let ghost pre = *self;
            assert(forall|x: usize| !pre.cached(x) ==> #[trigger] dv.block(x) == dev0.block(x));
            let mut c = self.queue.remove(i).unwrap();
            c.sync(device);
            self.queue.insert(i, c);
            assert(self.queue@ =~= pre.queue@);
            proof {
                assert forall|j: int| 0 <= j < self.queue@.len() && j != i implies
                    #[trigger] device.block(self.queue@[j].id()) == dv.block(self.queue@[j].id()) by {
                    if j < i {
                        assert(self.queue@[j].id() != self.queue@[i as int].id());
                    } else {
                        assert(self.queue@[i as int].id() != self.queue@[j].id());
                    }
                }
                assert forall|x: usize| !self.cached(x) implies #[trigger] device.block(x) == dev0.block(x) by {
                    assert(self.queue@[i as int].id() == self.queue@[i as int].id());
                    assert(x != self.queue@[i as int].id());
                    assert(!pre.cached(x));
                    assert(dv.block(x) == dev0.block(x));
                }
            }
            i = i + 1;
        }
        assert forall|x: usize| #[trigger] device.block(x) == d0[x] by {
            if self.cached(x) {
                let k = self.slot(x);
                self.lemma_logical_slot(device, k);
                self.lemma_logical_slot(&dev0, k);
            }
        }
        assert forall|x: usize| #[trigger] self.disk(device)[x] == d0[x] by {
            if self.cached(x) {
                let k = self.slot(x);
                self.lemma_logical_slot(device, k);
                self.lemma_logical_slot(&dev0, k);
            }
        }
        assert(self.disk(device) =~= d0);
    }
}

} // verus!
