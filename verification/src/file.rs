//! Files opened by processes: an inode with a position and access rights.
use vstd::prelude::*;
use crate::config::{BLOCK_SIZE, PAGE_SIZE};
use crate::fs::cache::{set_bytes, BlockCacheManager, BlockDevice};
use crate::fs::inode::{decodes, grown_disk, grown_to, inode_bytes, lemma_decodes_unique, Inode};
use crate::fs::structure::{file_byte, io_end, io_len, max_block_index, num_chunks, push_run, total_blocks, write_chunks, DiskInode};
use crate::io::UserSlice;
use crate::mem::physmem::PhysMem;

verus! {

/// `n` bytes of the file described by `ino`, from byte `off` on.
pub open spec fn file_bytes(ino: DiskInode, disk: Map<usize, Seq<u8>>, off: int, n: int) -> Seq<u8> {
    Seq::new(n as nat, |j: int| file_byte(ino, disk, off + j))
}

/// Memory, position and whether reading stopped after reading the file
/// described by `ino`, from byte `off` on, into the first `n` pieces of a
/// user buffer: each piece takes what one read of its length gives, and an
/// empty read stops the reading.
pub open spec fn read_pieces(
    ino: DiskInode,
    disk: Map<usize, Seq<u8>>,
    mem: Map<u64, Seq<u8>>,
    pieces: Seq<UserSlice>,
    off: int,
    n: nat,
) -> (Map<u64, Seq<u8>>, int, bool)
    decreases n,
{
    if n == 0 {
        (mem, off, false)
    } else {
        let prev = read_pieces(ino, disk, mem, pieces, off, (n - 1) as nat);
        let m = prev.0;
        let o = prev.1;
        if prev.2 {
            prev
        } else {
            let p = pieces[n - 1];
            let r = io_len(o, io_end(o, p.end - p.start, ino.size as int));
            if r == 0 {
                (m, o, true)
            } else {
                (m.insert(p.ppn, set_bytes(m[p.ppn], p.start as int, file_bytes(ino, disk, o, r))), o + r, false)
            }
        }
    }
}

/// The bytes `read_all` gathers from the file described by `ino`, from
/// byte `off` on, with the buffer holding `buf` before: each read of a
/// block's worth fills the front of the buffer, and the whole buffer is
/// appended, until a read gives nothing.
pub open spec fn read_all_run(ino: DiskInode, disk: Map<usize, Seq<u8>>, off: int, buf: Seq<u8>) -> Seq<u8>
    decreases ino.size - off,
{
    let r = io_len(off, io_end(off, BLOCK_SIZE as int, ino.size as int));
    if r <= 0 || off >= ino.size {
        Seq::empty()
    } else {
        let b2 = file_bytes(ino, disk, off, r) + buf.subrange(r, buf.len() as int);
        b2 + read_all_run(ino, disk, off + r, b2)
    }
}

/// What every open file tells: whether it may be read and written.
pub trait File {
    /// Whether the file may be read.
    fn readable(&self) -> bool;

    /// Whether the file may be written.
    fn writeable(&self) -> bool;
}

/// A file opened by a process: the inode, the position of the next read or
/// write, and whether it may be read and written.
pub struct OSInode {
    pub readable: bool,
    pub writeable: bool,
    pub offset: usize,
    pub inode: Inode,
}

impl OSInode {
    /// The file `inode` opened at its start.
    pub fn new(readable: bool, writeable: bool, inode: Inode) -> (r: Self)
        ensures
            r.readable == readable,
            r.writeable == writeable,
            r.offset == 0,
            r.inode == inode,
    {
        Self { readable, writeable, offset: 0, inode }
    }

    /// Reads the file from its position into the pieces of a user buffer,
    /// piece after piece, until a read gives nothing; the position moves on
    /// by what was read, which is the result (`read_pieces`).
    pub fn read<D: BlockDevice>(
        &mut self,
        buf: &Vec<UserSlice>,
        mem: &mut PhysMem,
        mgr: &mut BlockCacheManager,
        device: &mut D,
    ) -> (r: usize)
        requires
            old(mgr).wf(old(device)),
            old(mem).wf(),
            old(self).inode.placed(),
            old(self).offset + PAGE_SIZE <= usize::MAX,
            forall|i: int| 0 <= i < buf@.len() ==> {
                let p = #[trigger] buf@[i];
                &&& old(mem).has(p.ppn)
                &&& p.start <= p.end <= PAGE_SIZE
            },
            forall|ino: DiskInode| decodes(ino, old(self).inode.stored(old(mgr).disk(old(device)))) ==> ino.size
                <= max_block_index() * BLOCK_SIZE,
        ensures
            final(mgr).wf(final(device)),
            final(mgr).disk(final(device)) == old(mgr).disk(old(device)),
            final(mem).wf(),
            final(self).inode == old(self).inode,
            final(self).readable == old(self).readable,
            final(self).writeable == old(self).writeable,
            forall|ino: DiskInode| #[trigger] decodes(ino, old(self).inode.stored(old(mgr).disk(old(device)))) ==> {
                let run = read_pieces(ino, old(mgr).disk(old(device)), old(mem)@, buf@, old(self).offset as int, buf@.len());
                &&& final(mem)@ == run.0
                &&& final(self).offset == run.1
                &&& r == run.1 - old(self).offset
            },
    {
        let ghost d0 = mgr.disk(device);
        let ghost m0 = mem@;
        let ghost off0 = self.offset as int;
        let ino = self.inode.read_disk_inode(mgr, device);
        let n = buf.len();
        let mut total: usize = 0;
        let mut done = false;
        let mut i: usize = 0;
        while i < n && !done
            invariant
                0 <= i <= n,
                n == buf@.len(),
                mgr.wf(device),
                mgr.disk(device) == d0,
                mem.wf(),
                decodes(ino, self.inode.stored(d0)),
                ino.size <= max_block_index() * BLOCK_SIZE,
                self.inode == old(self).inode,
                self.readable == old(self).readable,
                self.writeable == old(self).writeable,
                self.offset + PAGE_SIZE <= usize::MAX,
                self.offset <= off0 || self.offset <= ino.size,
                off0 == old(self).offset,
                total == self.offset - off0,
                forall|k: int| 0 <= k < buf@.len() ==> {
                    let p = #[trigger] buf@[k];
                    &&& old(mem).has(p.ppn)
                    &&& p.start <= p.end <= PAGE_SIZE
                },
                mem.base() == old(mem).base(),
                mem.count() == old(mem).count(),
                self.inode.placed(),
                (mem@, self.offset as int, done) == read_pieces(ino, d0, m0, buf@, off0, i as nat),
                done ==> read_pieces(ino, d0, m0, buf@, off0, n as nat) == read_pieces(ino, d0, m0, buf@, off0, i as nat),
            decreases n - i,
        {
            let p = buf[i];
            let len = (p.end - p.start) as usize;
            let mut tmp: Vec<u8> = vec![0u8; len];
            proof {
                assert forall|x: DiskInode| decodes(x, self.inode.stored(mgr.disk(device))) implies
                    io_end(self.offset as int, len as int, x.size as int) <= max_block_index() * BLOCK_SIZE by {
                    lemma_decodes_unique(x, ino, self.inode.stored(d0));
                }
            }
            let got = self.inode.read_at(self.offset, tmp.as_mut_slice(), mgr, device);
            proof {
                lemma_decodes_unique(ino, ino, self.inode.stored(d0));
            }
            if got == 0 {
                done = true;
                proof {
                    lemma_read_pieces_stopped(ino, d0, m0, buf@, off0, (i + 1) as nat, n as nat);
                }
            } else {
                let ghost before = mem@;
                let piece = vstd::slice::slice_subrange(tmp.as_slice(), 0, got);
                mem.write_bytes(p.ppn, p.start as usize, piece);
                proof {
                    assert(piece@ =~= file_bytes(ino, d0, self.offset as int, got as int));
                }
                self.offset = self.offset + got;
                total = total + got;
            }
            i = i + 1;
        }
        proof {
            if !done {
                assert(i == n);
            }
            assert forall|x: DiskInode| #[trigger] decodes(x, old(self).inode.stored(d0)) implies {
                let run = read_pieces(x, d0, m0, buf@, off0, buf@.len());
                &&& mem@ == run.0
                &&& self.offset == run.1
                &&& total == run.1 - off0
            } by {
                lemma_decodes_unique(x, ino, self.inode.stored(d0));
            }
        }
        total
    }

    /// Reads the rest of the file, a block's worth at a time into a
    /// zero-filled buffer of `BLOCK_SIZE` bytes, appending the whole buffer
    /// after each read that gives something (`read_all_run`); the position
    /// moves to where reading stopped.
    pub fn read_all<D: BlockDevice>(&mut self, mgr: &mut BlockCacheManager, device: &mut D) -> (r: Vec<u8>)
        requires
            old(mgr).wf(old(device)),
            old(self).inode.placed(),
            old(self).offset + PAGE_SIZE <= usize::MAX,
            forall|ino: DiskInode| decodes(ino, old(self).inode.stored(old(mgr).disk(old(device)))) ==> ino.size
                <= max_block_index() * BLOCK_SIZE,
        ensures
            final(mgr).wf(final(device)),
            final(mgr).disk(final(device)) == old(mgr).disk(old(device)),
            final(self).inode == old(self).inode,
            final(self).readable == old(self).readable,
            final(self).writeable == old(self).writeable,
            forall|ino: DiskInode| #[trigger] decodes(ino, old(self).inode.stored(old(mgr).disk(old(device)))) ==> {
                &&& r@ == read_all_run(ino, old(mgr).disk(old(device)), old(self).offset as int, Seq::new(BLOCK_SIZE as nat, |j: int| 0u8))
                &&& final(self).offset == if old(self).offset < ino.size { ino.size as int } else { old(self).offset as int }
            },
    {
        let ghost d0 = mgr.disk(device);
        let ghost off0 = self.offset as int;
        let ino = self.inode.read_disk_inode(mgr, device);
        let mut buffer: Vec<u8> = vec![0u8; BLOCK_SIZE];
        let mut res: Vec<u8> = Vec::new();
        proof {
            assert(buffer@ =~= Seq::new(BLOCK_SIZE as nat, |j: int| 0u8));
        }
        let ghost buf0 = buffer@;
        loop
            invariant
                mgr.wf(device),
                mgr.disk(device) == d0,
                decodes(ino, self.inode.stored(d0)),
                ino.size <= max_block_index() * BLOCK_SIZE,
                self.inode == old(self).inode,
                self.readable == old(self).readable,
                self.writeable == old(self).writeable,
                off0 == old(self).offset,
                self.offset + PAGE_SIZE <= usize::MAX,
                self.offset <= off0 || self.offset <= ino.size,
                self.inode.placed(),
                buffer@.len() == BLOCK_SIZE,
                off0 <= ino.size ==> self.offset <= ino.size,
                off0 > ino.size ==> self.offset == off0,
                res@ + read_all_run(ino, d0, self.offset as int, buffer@) == read_all_run(ino, d0, off0, buf0),
            ensures
                res@ == read_all_run(ino, d0, off0, buf0),
                self.offset == if off0 < ino.size { ino.size as int } else { off0 },
                mgr.wf(device),
                mgr.disk(device) == d0,
                self.inode == old(self).inode,
                self.readable == old(self).readable,
                self.writeable == old(self).writeable,
            decreases ino.size - self.offset,
        {
            let ghost bb = buffer@;
            proof {
                assert forall|x: DiskInode| decodes(x, self.inode.stored(mgr.disk(device))) implies
                    io_end(self.offset as int, BLOCK_SIZE as int, x.size as int) <= max_block_index() * BLOCK_SIZE by {
                    lemma_decodes_unique(x, ino, self.inode.stored(d0));
                }
            }
            let len = self.inode.read_at(self.offset, buffer.as_mut_slice(), mgr, device);
            proof {
                lemma_decodes_unique(ino, ino, self.inode.stored(d0));
            }
            if len == 0 {
                proof {
                    lemma_read_ends(ino.size as int, self.offset as int);
                }
                break;
            }
            let ghost before = res@;
            let ghost b2 = buffer@;
            proof {
                assert(b2 =~= file_bytes(ino, d0, self.offset as int, len as int) + bb.subrange(len as int, bb.len() as int));
            }
            let mut k: usize = 0;
            while k < BLOCK_SIZE
                invariant
                    0 <= k <= BLOCK_SIZE,
                    buffer@ == b2,
                    b2.len() == BLOCK_SIZE,
                    res@ == before + b2.subrange(0, k as int),
                decreases BLOCK_SIZE - k,
            {
                res.push(buffer[k]);
                k = k + 1;
                proof {
                    assert(res@ =~= before + b2.subrange(0, k as int));
                }
            }
            proof {
                assert(b2.subrange(0, BLOCK_SIZE as int) =~= b2);
            }
            self.offset = self.offset + len;
        }
        proof {
            assert forall|x: DiskInode| #[trigger] decodes(x, old(self).inode.stored(d0)) implies {
                &&& res@ == read_all_run(x, d0, off0, Seq::new(BLOCK_SIZE as nat, |j: int| 0u8))
                &&& self.offset == if off0 < x.size { x.size as int } else { off0 }
            } by {
                lemma_decodes_unique(x, ino, self.inode.stored(d0));
            }
        }
        res
    }
}

impl OSInode {
    /// Writes `buf`, the bytes of a user buffer gathered in order, into the
    /// file at its position, as `Inode::write_at` does there (the file grows
    /// to hold them, taking the ids `new_blocks` for the blocks it needs);
    /// the position moves on by what was written, which is the result.
    pub fn write<D: BlockDevice>(
        &mut self,
        buf: &[u8],
        new_blocks: Vec<u32>,
        mgr: &mut BlockCacheManager,
        device: &mut D,
    ) -> (r: usize)
        requires
            old(mgr).wf(old(device)),
            old(self).inode.placed(),
            old(self).offset + buf@.len() <= u32::MAX,
            forall|ino: DiskInode| decodes(ino, old(self).inode.stored(old(mgr).disk(old(device)))) ==> {
                let end = old(self).offset + buf@.len();
                if end > ino.size {
                    &&& end <= max_block_index() * BLOCK_SIZE
                    &&& total_blocks(end) <= max_block_index()
                    &&& new_blocks@.len() == total_blocks(end) - total_blocks(ino.size as int)
                    &&& push_run(
                        (ino.direct_zone@, ino.first_level_indirect, ino.second_level_indirect, old(mgr).disk(old(device))),
                        new_blocks@,
                        total_blocks(ino.size as int),
                    ) is Some
                } else {
                    &&& new_blocks@.len() == 0
                    &&& ino.size <= max_block_index() * BLOCK_SIZE
                }
            },
        ensures
            final(mgr).wf(final(device)),
            final(self).inode == old(self).inode,
            final(self).readable == old(self).readable,
            final(self).writeable == old(self).writeable,
            final(self).offset == old(self).offset + r,
            forall|ino: DiskInode| #[trigger] decodes(ino, old(self).inode.stored(old(mgr).disk(old(device)))) ==> {
                let d = old(mgr).disk(old(device));
                let start = old(self).offset as int;
                let end = start + buf@.len();
                let inode = old(self).inode;
                if end > ino.size {
                    exists|grown: DiskInode| {
                        let d1 = grown_disk(ino, d, new_blocks@);
                        let d2 = if end <= start {
                            d1
                        } else {
                            write_chunks(grown, d1, start, end, buf@, num_chunks(start, end) as nat)
                        };
                        &&& #[trigger] grown_to(ino, d, new_blocks@, end, grown)
                        &&& r == io_len(start, end)
                        &&& final(mgr).disk(final(device)) == d2.insert(
                            inode.block_id,
                            set_bytes(d2[inode.block_id], inode.block_offset as int, inode_bytes(grown)),
                        )
                    }
                } else {
                    let e = io_end(start, buf@.len() as int, ino.size as int);
                    &&& r == io_len(start, e)
                    &&& final(mgr).disk(final(device)) == if e <= start {
                        d
                    } else {
                        write_chunks(ino, d, start, e, buf@, num_chunks(start, e) as nat)
                    }
                }
            },
    {
        let ghost d0 = mgr.disk(device);
        let ino = self.inode.read_disk_inode(mgr, device);
        let r = self.inode.write_at(self.offset, buf, new_blocks, mgr, device);
        proof {
            assert(decodes(ino, self.inode.stored(d0)));
            assert(r <= buf@.len());
        }
        self.offset = self.offset + r;
        r
    }
}

impl File for OSInode {
    fn readable(&self) -> (r: bool)
        ensures
            r == self.readable,
    {
        self.readable
    }

    fn writeable(&self) -> (r: bool)
        ensures
            r == self.writeable,
    {
        self.writeable
    }
}

/// A read from `off` in a file of `size` bytes gives nothing exactly when
/// `off` is at or past the end.
proof fn lemma_read_ends(size: int, off: int)
    requires
        0 <= off,
        io_len(off, io_end(off, BLOCK_SIZE as int, size)) == 0,
    ensures
        off >= size,
{
}

/// Once the reading has stopped, the pieces after change nothing.
proof fn lemma_read_pieces_stopped(
    ino: DiskInode,
    disk: Map<usize, Seq<u8>>,
    mem: Map<u64, Seq<u8>>,
    pieces: Seq<UserSlice>,
    off: int,
    i: nat,
    n: nat,
)
    requires
        i <= n,
        read_pieces(ino, disk, mem, pieces, off, i).2,
    ensures
        read_pieces(ino, disk, mem, pieces, off, n) == read_pieces(ino, disk, mem, pieces, off, i),
    decreases n - i,
{
    if i < n {
        lemma_read_pieces_stopped(ino, disk, mem, pieces, off, i, (n - 1) as nat);
    }
}

} // verus!
