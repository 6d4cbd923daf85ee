//! The address spaces and trap contexts of programs: a new process's, the
//! one `exec` puts in place, and a fork's.
use vstd::prelude::*;
use crate::config::{BLOCK_SIZE, PAGE_SIZE};
use crate::file::{read_all_run, OSInode};
use crate::fs::cache::{BlockCacheManager, BlockDevice};
use crate::fs::inode::{decodes, dir_ok, entry_count, entry_inode, entry_name, lemma_decodes_unique, Inode};
use crate::fs::structure::{max_block_index, DiskInode};
use crate::mem::address::PA_MASK;
use crate::mem::elf::{elf_segments_of, ElfSegment};
use crate::mem::frame::StackFrameAllocator;
use crate::mem::memory_set::{
    area_frames_from, elf_built, elf_layout_ok, elf_spans, frames_from, frame_owned, lemma_built_kept, lemma_wf_kept, stack_top,
    trampoline_pte, trampoline_vpn, MapType, MemorySet,
};
use crate::mem::page_table::{alloc_ok, frames_kept, mapping, same_outside, table_ok, PPN_LIMIT};
use crate::mem::physmem::PhysMem;
use crate::syscall::RestoreBehavior;
use crate::trap::{fork_trap_context, with_a0, zero_regs, RegInfo, TrapContext};
use vstd::string::StringSliceAdditionalSpecFns;

verus! {

/// The first entry of the directory described by `dir` that is named
/// `name`, if any.
pub open spec fn first_named(dir: DiskInode, d: Map<usize, Seq<u8>>, name: Seq<u8>) -> Option<int> {
    if exists|i: int| 0 <= i < entry_count(dir) && #[trigger] entry_name(dir, d, i) == name {
        Some(
            choose|i: int|
                0 <= i < entry_count(dir) && #[trigger] entry_name(dir, d, i) == name && forall|j: int|
                    0 <= j < i ==> entry_name(dir, d, j) != name,
        )
    } else {
        None
    }
}

/// The bytes of the program named `name` in the directory `root`, on disk
/// `d`, where the inode with id `k` lies at `inode_at[k]`: `None` when no
/// entry has the name; else the first such entry's file, read whole as
/// `OSInode::read_all` reads it from its start.
pub open spec fn program_bytes(root: Inode, inode_at: Seq<Inode>, d: Map<usize, Seq<u8>>, name: Seq<u8>) -> Option<Seq<u8>> {
    let dir = choose|x: DiskInode| decodes(x, root.stored(d));
    match first_named(dir, d, name) {
        Some(i) => {
            let f = choose|x: DiskInode| decodes(x, inode_at[entry_inode(dir, d, i) as int].stored(d));
            Some(read_all_run(f, d, 0, Seq::new(BLOCK_SIZE as nat, |j: int| 0u8)))
        },
        None => None,
    }
}

/// The program `data` can be mapped with the frames `free` counts, as
/// `MemorySet::from_elf_checked` asks.
pub open spec fn program_fits(data: Seq<u8>, free: int) -> bool {
    elf_segments_of(data) matches Some((h, segs)) && elf_layout_ok(segs, data.len() as int) && free >= 3 + frames_from(
        elf_spans(segs),
        0,
    )
}

/// Every frame of the address space `ms` is free in `a`: the frames of its
/// framed pages, and its table frames below `current`, the first frame
/// never handed out when it was given back.
pub open spec fn given_back(ms: MemorySet, current: u64, a: StackFrameAllocator) -> bool {
    &&& forall|i: int, v: u64|
        0 <= i < ms.areas@.len() && #[trigger] ms.areas@[i].has_page(v) && ms.areas@[i].map_type == MapType::Framed
            ==> a.is_free(ms.areas@[i].data_frames@[v].ppn.0)
    &&& forall|t: u64| #[trigger] ms.page_table.tables().contains(t) && t < current ==> a.is_free(t)
}

/// The trap context a program starts from: every register zero but the
/// stack pointer at `top`, `sstatus` zero, and the return address at its
/// entry point `entry`; the bytes of the fresh trap-context page it lives in
/// are zero but for these.
pub open spec fn start_context(top: u64, entry: u64) -> TrapContext {
    TrapContext { info: RegInfo { sp: top as usize, ..zero_regs() }, sstatus: 0, spec: entry as usize }
}

/// The trap context of a program with the stack top `top` and the entry
/// point `entry`.
fn start_context_of(top: u64, entry: u64) -> (r: TrapContext)
    ensures
        r == start_context(top, entry),
{
    let mut ctx = TrapContext::new(0);
    ctx.info.sp = top as usize;
    ctx.spec = entry as usize;
    ctx
}

/// The bytes of the program named `name` in the directory `root` (the
/// inode with id `k` lies at `inode_at[k]`), read whole: `None` for an
/// empty name or a name no entry has.
fn find_program<D: BlockDevice>(
    name: &str,
    root: &Inode,
    inode_at: &Vec<Inode>,
    mgr: &mut BlockCacheManager,
    device: &mut D,
) -> (r: Option<Vec<u8>>)
    requires
        old(mgr).wf(old(device)),
        root.placed(),
        forall|ino: DiskInode| #[trigger] decodes(ino, root.stored(old(mgr).disk(old(device)))) ==> dir_ok(ino, old(mgr).disk(old(device))),
        forall|ino: DiskInode, i: int|
            decodes(ino, root.stored(old(mgr).disk(old(device)))) && 0 <= i < entry_count(ino) ==> #[trigger] entry_inode(
                ino,
                old(mgr).disk(old(device)),
                i,
            ) < inode_at@.len(),
        forall|k: int| 0 <= k < inode_at@.len() ==> (#[trigger] inode_at@[k]).placed() && forall|ino: DiskInode|
            decodes(ino, inode_at@[k].stored(old(mgr).disk(old(device)))) ==> ino.size <= max_block_index() * BLOCK_SIZE,
    ensures
        final(mgr).wf(final(device)),
        final(mgr).disk(final(device)) == old(mgr).disk(old(device)),
        r matches Some(v) ==> name.spec_bytes().len() > 0 && program_bytes(*root, inode_at@, old(mgr).disk(old(device)), name.spec_bytes()) == Some(v@),
        r is None ==> name.spec_bytes().len() == 0 || program_bytes(*root, inode_at@, old(mgr).disk(old(device)), name.spec_bytes()) is None,
{
    let ghost d0 = mgr.disk(device);
    let ghost bytes = name.spec_bytes();
    if name.as_bytes().len() == 0 {
        return None;
    }
    let dir = root.read_disk_inode(mgr, device);
    let found = root.find(name, mgr, device);
    let ghost dsel = choose|x: DiskInode| decodes(x, root.stored(d0));
    proof {
        lemma_decodes_unique(dsel, dir, root.stored(d0));
    }
    let id = match found {
        Some(id) => id,
        None => {
            proof {
                assert(first_named(dir, d0, bytes) is None);
                assert(program_bytes(*root, inode_at@, d0, bytes) is None);
            }
            return None;
        },
    };
    let ghost i = choose|i: int|
        0 <= i < entry_count(dir) && #[trigger] entry_name(dir, d0, i) == bytes && id == entry_inode(dir, d0, i)
            && forall|j: int| 0 <= j < i ==> entry_name(dir, d0, j) != bytes;
    proof {
        let c = first_named(dir, d0, bytes)->0;
        assert(first_named(dir, d0, bytes) is Some);
        if c < i {
            assert(entry_name(dir, d0, c) != bytes);
        } else if i < c {
            assert(entry_name(dir, d0, i) != bytes);
        }
        assert(c == i);
        assert(decodes(dir, root.stored(old(mgr).disk(old(device)))));
        assert(0 <= i < entry_count(dir));
        assert(entry_inode(dir, old(mgr).disk(old(device)), i) < inode_at@.len());
    }
    let at = &inode_at[id as usize];
    let file_ino = at.read_disk_inode(mgr, device);
    let mut file = OSInode::new(true, false, Inode::new(at.block_id, at.block_offset));
    let data = file.read_all(mgr, device);
    let ghost fsel = choose|x: DiskInode| decodes(x, inode_at@[id as int].stored(d0));
    proof {
        lemma_decodes_unique(fsel, file_ino, inode_at@[id as int].stored(d0));
        assert(program_bytes(*root, inode_at@, d0, bytes) == Some(data@));
    }
    Some(data)
}

/// Replaces the program of the current process, whose address space is
/// `ms` and whose trap context is `ctx`, by the program named `name` in the
/// directory `root` (the inode with id `k` lies at `inode_at[k]`): the
/// file is read whole, `ms` becomes the address space that
/// `MemorySet::from_elf_checked` builds from its bytes, and `ctx` the
/// context that starts it (`start_context`), and the frames of the replaced
/// address space are given back (`given_back`); the answer is 0. An empty
/// name, a name no entry has, or a file that is no program that can be
/// mapped with the free frames, is answered with -1 and changes nothing.
pub fn exec_current<D: BlockDevice>(
    name: &str,
    root: &Inode,
    inode_at: &Vec<Inode>,
    mgr: &mut BlockCacheManager,
    device: &mut D,
    ms: &mut MemorySet,
    ctx: &mut TrapContext,
    trampoline_pa: u64,
    alloc: &mut StackFrameAllocator,
    mem: &mut PhysMem,
) -> (r: RestoreBehavior)
    requires
        old(mgr).wf(old(device)),
        root.placed(),
        forall|ino: DiskInode| #[trigger] decodes(ino, root.stored(old(mgr).disk(old(device)))) ==> dir_ok(ino, old(mgr).disk(old(device))),
        forall|ino: DiskInode, i: int|
            decodes(ino, root.stored(old(mgr).disk(old(device)))) && 0 <= i < entry_count(ino) ==> #[trigger] entry_inode(
                ino,
                old(mgr).disk(old(device)),
                i,
            ) < inode_at@.len(),
        forall|k: int| 0 <= k < inode_at@.len() ==> (#[trigger] inode_at@[k]).placed() && forall|ino: DiskInode|
            decodes(ino, inode_at@[k].stored(old(mgr).disk(old(device)))) ==> ino.size <= max_block_index() * BLOCK_SIZE,
        old(ms).wf(*old(alloc), *old(mem)),
        (trampoline_pa & PA_MASK) % (PAGE_SIZE as u64) == 0,
    ensures
        final(mgr).wf(final(device)),
        final(mgr).disk(final(device)) == old(mgr).disk(old(device)),
        ({
            let pb = program_bytes(*root, inode_at@, old(mgr).disk(old(device)), name.spec_bytes());
            if name.spec_bytes().len() > 0 && pb is Some && program_fits(pb->0, old(alloc).free_count()) {
                let data = pb->0;
                let (h, segs) = elf_segments_of(data)->0;
                &&& r == RestoreBehavior::DirectReturn(0)
                &&& final(ms).wf(*final(alloc), *final(mem))
                &&& elf_built(*final(ms), final(mem)@, segs, data, trampoline_pa)
                &&& *final(ctx) == start_context(stack_top(segs) as u64, h.entry)
                &&& given_back(*old(ms), old(alloc).current, *final(alloc))
            } else {
                &&& r == RestoreBehavior::DirectReturn(usize::MAX)
                &&& *final(ms) == *old(ms)
                &&& *final(ctx) == *old(ctx)
                &&& *final(alloc) == *old(alloc)
                &&& *final(mem) == *old(mem)
            }
        }),
{
    match find_program(name, root, inode_at, mgr, device) {
        Some(data) => run_program(data.as_slice(), ms, ctx, trampoline_pa, alloc, mem),
        None => RestoreBehavior::DirectReturn(usize::MAX),
    }
}

/// Puts the program `data` in the place of the one whose address space is
/// `ms` and whose trap context is `ctx`, as `exec_current` does once it has
/// read the file: 0 when `data` is a program that can be mapped with the
/// free frames, else -1 with nothing changed.
fn run_program(
    data: &[u8],
    ms: &mut MemorySet,
    ctx: &mut TrapContext,
    trampoline_pa: u64,
    alloc: &mut StackFrameAllocator,
    mem: &mut PhysMem,
) -> (r: RestoreBehavior)
    requires
        old(ms).wf(*old(alloc), *old(mem)),
        (trampoline_pa & PA_MASK) % (PAGE_SIZE as u64) == 0,
    ensures
        if program_fits(data@, old(alloc).free_count()) {
            let (h, segs) = elf_segments_of(data@)->0;
            &&& r == RestoreBehavior::DirectReturn(0)
            &&& final(ms).wf(*final(alloc), *final(mem))
            &&& elf_built(*final(ms), final(mem)@, segs, data@, trampoline_pa)
            &&& *final(ctx) == start_context(stack_top(segs) as u64, h.entry)
            &&& given_back(*old(ms), old(alloc).current, *final(alloc))
        } else {
            &&& r == RestoreBehavior::DirectReturn(usize::MAX)
            &&& *final(ms) == *old(ms)
            &&& *final(ctx) == *old(ctx)
            &&& *final(alloc) == *old(alloc)
            &&& *final(mem) == *old(mem)
        },
{
    let ghost a0 = *alloc;
    let ghost mem0 = *mem;
    let ghost prev = *ms;
    match MemorySet::from_elf_checked(data, trampoline_pa, alloc, mem) {
        Some((new_ms, top, entry)) => {
            let ghost parsed = elf_segments_of(data@)->0;
            let ghost segs = parsed.1;
            replace_space(ms, new_ms, alloc, mem, Ghost(a0), Ghost(mem0), Ghost(segs), Ghost(data@), Ghost(trampoline_pa));
            *ctx = start_context_of(top, entry);
            RestoreBehavior::DirectReturn(0)
        },
        None => RestoreBehavior::DirectReturn(usize::MAX),
    }
}

/// Puts `nw`, an address space built from frames that were free in `a0`
/// while `ms` was well formed in `a0` and `mem0`, in the place of `ms`, and
/// gives the frames of the replaced address space back to `alloc`
/// (`MemorySet::release`).
fn replace_space(
    ms: &mut MemorySet,
    nw: MemorySet,
    alloc: &mut StackFrameAllocator,
    mem: &mut PhysMem,
    Ghost(a0): Ghost<StackFrameAllocator>,
    Ghost(mem0): Ghost<PhysMem>,
    Ghost(segs): Ghost<Seq<ElfSegment>>,
    Ghost(data): Ghost<Seq<u8>>,
    Ghost(trampoline_pa): Ghost<u64>,
)
    requires
        old(ms).wf(a0, mem0),
        nw.wf(*old(alloc), *old(mem)),
        elf_built(nw, old(mem)@, segs, data, trampoline_pa),
        frames_kept(a0, *old(alloc), mem0@, old(mem)@, Set::empty(), nw.page_table.tables()),
        forall|a: int, v: u64| 0 <= a < nw.areas@.len() && #[trigger] nw.areas@[a].data_frames@.contains_key(v)
            ==> a0.is_free(nw.areas@[a].data_frames@[v].ppn.0),
        mem0.base() == old(mem).base(),
        mem0.count() == old(mem).count(),
    ensures
        *final(ms) == nw,
        final(ms).wf(*final(alloc), *final(mem)),
        elf_built(nw, final(mem)@, segs, data, trampoline_pa),
        given_back(*old(ms), old(alloc).current, *final(alloc)),
{
    let ghost a1 = *alloc;
    let ghost mem1 = *mem;
    let ghost prev = *ms;
    proof {
        lemma_wf_kept(prev, a0, mem0, a1, mem1, nw.page_table.tables());
    }
    let mut replaced = nw;
    std::mem::swap(ms, &mut replaced);
    replaced.release(alloc, mem);
    proof {
        lemma_release_keeps(prev, *ms, a0, mem0, a1, mem1, *alloc, *mem, segs, data, trampoline_pa);
    }
}

/// The address space and trap context of a new process running the program
/// in the ELF file `elf_data`: the address space `MemorySet::from_elf_checked`
/// builds, and the context that starts the program (`start_context`).
/// `None`, with nothing changed, when `from_elf_checked` gives `None`.
pub fn new_program(
    elf_data: &[u8],
    trampoline_pa: u64,
    alloc: &mut StackFrameAllocator,
    mem: &mut PhysMem,
) -> (r: Option<(MemorySet, TrapContext)>)
    requires
        old(mem).wf(),
        alloc_ok(*old(alloc), *old(mem), Set::empty()),
        (trampoline_pa & PA_MASK) % (PAGE_SIZE as u64) == 0,
    ensures
        r is Some <==> program_fits(elf_data@, old(alloc).free_count()),
        r is None ==> *final(alloc) == *old(alloc) && *final(mem) == *old(mem),
        r matches Some((ms, ctx)) ==> elf_segments_of(elf_data@) matches Some((h, segs)) && {
            &&& ms.wf(*final(alloc), *final(mem))
            &&& elf_built(ms, final(mem)@, segs, elf_data@, trampoline_pa)
            &&& ctx == start_context(stack_top(segs) as u64, h.entry)
        },
{
    match MemorySet::from_elf_checked(elf_data, trampoline_pa, alloc, mem) {
        Some((ms, top, entry)) => Some((ms, start_context_of(top, entry))),
        None => None,
    }
}

/// The address space and trap context of a fork of a process whose address
/// space is `parent` and whose trap context is `ctx`: a fresh page table
/// with a copy of every area of the parent (`MemorySet::fork_from`: the same
/// pages and rights, framed pages in fresh frames holding copies of the
/// parent's) and the trampoline mapped; the context is the parent's with
/// `a0` zero, so that the fork answers 0 in the child.
pub fn fork_program(
    parent: &MemorySet,
    ctx: &TrapContext,
    trampoline_pa: u64,
    alloc: &mut StackFrameAllocator,
    mem: &mut PhysMem,
) -> (r: (MemorySet, TrapContext))
    requires
        parent.wf(*old(alloc), *old(mem)),
        (trampoline_pa & PA_MASK) % (PAGE_SIZE as u64) == 0,
        forall|i: int| 0 <= i < parent.areas@.len() ==> {
            let ar = #[trigger] parent.areas@[i];
            &&& ar.vpn_range.start.0 <= ar.vpn_range.end.0
            &&& !ar.has_page(trampoline_vpn())
        },
        old(alloc).free_count() >= 3 + area_frames_from(parent.areas@, 0),
    ensures
        r.0.wf(*final(alloc), *final(mem)),
        r.0.areas@.len() == parent.areas@.len(),
        forall|i: int| 0 <= i < parent.areas@.len() ==> {
            let ar = #[trigger] parent.areas@[i];
            let nw = r.0.areas@[i];
            &&& nw.vpn_range == ar.vpn_range
            &&& nw.map_type == ar.map_type
            &&& nw.map_per == ar.map_per
            &&& ar.map_type == MapType::Framed ==> forall|v: u64| #[trigger] ar.has_page(v) ==> final(mem)@[nw.target(v)] == old(mem)@[ar.data_frames@[v].ppn.0]
        },
        mapping(final(mem)@, r.0.root(), trampoline_vpn()) == Some(trampoline_pte(trampoline_pa)),
        r.1.info == with_a0(ctx.info, 0),
        r.1.sstatus == ctx.sstatus,
        r.1.spec == ctx.spec,
{
    let ghost a0 = *alloc;
    let ghost mem0 = *mem;
    proof {
        crate::mem::memory_set::lemma_area_frames_nonneg(parent.areas@, 0);
    }
    let mut child = MemorySet::empty(alloc, mem);
    let ghost a1 = *alloc;
    let ghost mem1 = *mem;
    let ghost child_tables1 = child.page_table.tables();
    proof {
        mem0.lemma_view();
        mem.lemma_view();
        assert forall|i: int| 0 <= i < parent.areas@.len() implies {
            let ar = #[trigger] parent.areas@[i];
            &&& ar.vpn_range.start.0 <= ar.vpn_range.end.0 <= crate::mem::page_table::VPN_LIMIT
            &&& ar.map_type == MapType::Framed ==> forall|v: u64| #[trigger] ar.has_page(v) ==> ar.data_frames@.contains_key(v)
            &&& forall|v: u64| #[trigger] ar.data_frames@.contains_key(v) ==> crate::mem::memory_set::frame_foreign(*alloc, *mem, child.page_table.tables(), ar.data_frames@[v].ppn.0)
            &&& forall|v: u64| #[trigger] ar.has_page(v) ==> mapping(mem@, child.root(), v) is None
        } by {
            let ar = parent.areas@[i];
            assert(parent.area_ok(i, a0, mem0));
            assert forall|v: u64| #[trigger] ar.data_frames@.contains_key(v) implies crate::mem::memory_set::frame_foreign(*alloc, *mem, child.page_table.tables(), ar.data_frames@[v].ppn.0) by {
                let f = ar.data_frames@[v].ppn.0;
                assert(frame_owned(a0, mem0, parent.page_table.tables(), f));
                if alloc.is_free(f) {
                    assert(a0.is_free(f));
                }
                if child.page_table.tables().contains(f) {
                    assert(a0.is_free(f));
                }
            }
        }
    }
    child.fork_from(parent, alloc, mem);
    let ghost a2 = *alloc;
    let ghost mem2 = *mem;
    let ghost ts2 = child.page_table.tables();
    let ghost c2 = child;
    proof {
        assert forall|i: int| 0 <= i < child.areas@.len() implies !(#[trigger] child.areas@[i]).has_page(trampoline_vpn()) by {
            assert(parent.areas@[i].vpn_range == child.areas@[i].vpn_range);
        }
        assert(trampoline_vpn() < crate::mem::page_table::VPN_LIMIT) by {
            crate::mem::memory_set::lemma_trampoline_below_limit();
        }
    }
    child.map_trampoline(trampoline_pa, alloc, mem);
    proof {
        mem0.lemma_view();
        mem2.lemma_view();
        assert forall|i: int| 0 <= i < parent.areas@.len() implies {
            let ar = #[trigger] parent.areas@[i];
            let nw = child.areas@[i];
            ar.map_type == MapType::Framed ==> forall|v: u64| #[trigger] ar.has_page(v) ==> mem@[nw.target(v)] == mem0@[ar.data_frames@[v].ppn.0]
        } by {
            let ar = parent.areas@[i];
            let nw = child.areas@[i];
            assert(nw == c2.areas@[i]);
            if ar.map_type == MapType::Framed {
                assert forall|v: u64| #[trigger] ar.has_page(v) implies mem@[nw.target(v)] == mem0@[ar.data_frames@[v].ppn.0] by {
                    let g = ar.data_frames@[v].ppn.0;
                    assert(parent.area_ok(i, a0, mem0));
                    assert(ar.data_frames@.contains_key(v));
                    assert(frame_owned(a0, mem0, parent.page_table.tables(), g));
                    crate::mem::page_table::lemma_kept_at(a0, a1, mem0@, mem1@, Set::empty(), child_tables1, g);
                    assert(c2.area_ok(i, a2, mem2));
                    assert(nw.vpn_range == ar.vpn_range && nw.map_type == ar.map_type);
                    assert(nw.has_page(v));
                    assert(nw.data_frames@.contains_key(v));
                    let f = nw.target(v);
                    assert(frame_owned(a2, mem2, ts2, f));
                    crate::mem::page_table::lemma_kept_at(a2, *alloc, mem2@, mem@, ts2, child.page_table.tables(), f);
                }
            }
        }
    }
    (child, fork_trap_context(ctx))
}

/// What exec needs of giving back the replaced address space `prev`: the
/// address space `nw` built in its place, from frames that were free before,
/// stays well formed and built.
proof fn lemma_release_keeps(
    prev: MemorySet,
    nw: MemorySet,
    a0: StackFrameAllocator,
    mem0: PhysMem,
    a1: StackFrameAllocator,
    mem1: PhysMem,
    a2: StackFrameAllocator,
    mem2: PhysMem,
    segs: Seq<ElfSegment>,
    data: Seq<u8>,
    trampoline_pa: u64,
)
    requires
        prev.wf(a0, mem0),
        prev.wf(a1, mem1),
        nw.wf(a1, mem1),
        elf_built(nw, mem1@, segs, data, trampoline_pa),
        frames_kept(a0, a1, mem0@, mem1@, Set::empty(), nw.page_table.tables()),
        forall|a: int, v: u64| 0 <= a < nw.areas@.len() && #[trigger] nw.areas@[a].data_frames@.contains_key(v)
            ==> a0.is_free(nw.areas@[a].data_frames@[v].ppn.0),
        mem0.base() == mem1.base() && mem0.count() == mem1.count(),
        mem2.wf(),
        mem2.base() == mem1.base(),
        mem2.count() == mem1.count(),
        a2.wf(),
        a2.current == a1.current,
        forall|p: u64| #[trigger] same_outside(mem1@, mem2@, prev.page_table.tables(), p),
        forall|g: u64| #[trigger] a2.is_free(g) ==> a1.is_free(g) || prev.page_table.tables().contains(g)
            || exists|i: int, v: u64|
            0 <= i < prev.areas@.len() && prev.areas@[i].has_page(v) && prev.areas@[i].data_frames@.contains_key(v)
                && prev.areas@[i].data_frames@[v].ppn.0 == g,
    ensures
        nw.wf(a2, mem2),
        elf_built(nw, mem2@, segs, data, trampoline_pa),
{
    let ts_new = nw.page_table.tables();
    let ts_old = prev.page_table.tables();
    mem0.lemma_view();
    mem1.lemma_view();
    mem2.lemma_view();
    assert forall|g: u64| #[trigger] a2.is_free(g) implies mem2.has(g) && g < PPN_LIMIT by {
        if !a1.is_free(g) && !ts_old.contains(g) {
            let (i, v) = choose|i: int, v: u64|
                0 <= i < prev.areas@.len() && prev.areas@[i].has_page(v) && prev.areas@[i].data_frames@.contains_key(v)
                    && prev.areas@[i].data_frames@[v].ppn.0 == g;
            assert(prev.area_ok(i, a1, mem1));
            assert(frame_owned(a1, mem1, ts_old, g));
        }
        if ts_old.contains(g) {
            assert(table_ok(mem1@, g));
        }
    }
    assert forall|g: u64| a0.is_free(g) implies !(#[trigger] ts_old.contains(g)) && forall|i: int, v: u64|
        0 <= i < prev.areas@.len() && #[trigger] prev.areas@[i].data_frames@.contains_key(v)
            ==> prev.areas@[i].data_frames@[v].ppn.0 != g by {
        assert forall|i: int, v: u64| 0 <= i < prev.areas@.len() && #[trigger] prev.areas@[i].data_frames@.contains_key(v)
            implies prev.areas@[i].data_frames@[v].ppn.0 != g by {
            assert(prev.area_ok(i, a0, mem0));
        }
    }
    assert forall|t: u64| #[trigger] ts_new.contains(t) implies !a2.is_free(t) && mem2@[t] == mem1@[t] by {
        assert(a0.is_free(t));
        assert(same_outside(mem1@, mem2@, ts_old, t));
        assert(table_ok(mem1@, t));
        if a2.is_free(t) && !a1.is_free(t) && !ts_old.contains(t) {
            let (i, v) = choose|i: int, v: u64|
                0 <= i < prev.areas@.len() && prev.areas@[i].has_page(v) && prev.areas@[i].data_frames@.contains_key(v)
                    && prev.areas@[i].data_frames@[v].ppn.0 == t;
            assert(prev.areas@[i].data_frames@.contains_key(v));
        }
    }
    assert forall|i: int, v: u64|
        0 <= i < nw.areas@.len() && #[trigger] nw.areas@[i].data_frames@.contains_key(v) implies {
            let f = nw.areas@[i].data_frames@[v].ppn.0;
            !a2.is_free(f) && mem2@[f] == mem1@[f]
        } by {
        let f = nw.areas@[i].data_frames@[v].ppn.0;
        assert(a0.is_free(f));
        assert(nw.area_ok(i, a1, mem1));
        assert(frame_owned(a1, mem1, ts_new, f));
        assert(same_outside(mem1@, mem2@, ts_old, f));
        if a2.is_free(f) && !a1.is_free(f) && !ts_old.contains(f) {
            let (j, w) = choose|j: int, w: u64|
                0 <= j < prev.areas@.len() && prev.areas@[j].has_page(w) && prev.areas@[j].data_frames@.contains_key(w)
                    && prev.areas@[j].data_frames@[w].ppn.0 == f;
            assert(prev.areas@[j].data_frames@.contains_key(w));
        }
    }
    lemma_built_kept(nw, a1, mem1, a2, mem2, segs, data, trampoline_pa);
}

} // verus!
