use vstd::prelude::*;
use std::collections::BTreeMap;
use crate::config::{PAGE_SIZE, TRAMPOLINE, TRAP_CONTEXT, USER_STACK_SIZE};
use crate::mem::address::{lemma_low_bits, sign_extend, PhyAddr, PhyPageNum, VirAddr, VirPageNum, VPNRange, PA_MASK, VA_MASK};
use crate::mem::elf::{elf_segments_of, read_segments, ElfSegment};
use crate::mem::frame::{lemma_alloc_takes_free, lemma_dealloc_then_alloc, FrameTracker, StackFrameAllocator};
use crate::mem::page_table::{
    alloc_ok, frames_kept, frames_needed, kept_frame, lemma_needed_near, same_outside, lemma_kept_at, lemma_frames_kept_trans, lemma_pte_make,
    lemma_same_tables, mapping, pte_make, table_ok, PTEFlags, PageTable, FLAG_V, PPN_LIMIT, VPN_LIMIT,
};
use crate::mem::physmem::{zero_page, PhysMem};
use crate::fs::cache::set_bytes;

verus! {

/// Keys of the frame maps are page numbers, whose order is that of `u64`.
proof fn lemma_page_keys_ordered()
    ensures
        vstd::laws_cmp::obeys_cmp::<u64>(),
{
    broadcast use vstd::laws_cmp::group_laws_cmp;
}

/// How the pages of an area reach memory.
#[derive(Clone, Copy, PartialEq, Eq, Structural, Debug)]
pub enum MapType {
    /// Page `v` is backed by frame `v`.
    Identical,
    /// Each page is backed by a frame of its own.
    Framed,
}

/// Readable.
pub const PERM_R: u8 = 2;

/// Writable.
pub const PERM_W: u8 = 4;

/// Executable.
pub const PERM_X: u8 = 8;

/// Reachable from user mode.
pub const PERM_U: u8 = 16;

/// The page of the trampoline is the last one of the 39-bit address space,
/// the trap context's page lies below it, and the permission sets used for
/// the kernel's and a program's areas are kept whole by the four-bit mask.
proof fn lemma_layout_constants()
    ensures
        (TRAMPOLINE & VA_MASK) / 4096 == 0x7ff_ffff,
        TRAMPOLINE & 0x7f_ffff_ffff < 0x80_0000_0000,
        (TRAP_CONTEXT & 0x7f_ffff_ffff) / 4096 <= ((TRAMPOLINE & 0x7f_ffff_ffff) + 4096 - 1) / 4096,
        (PERM_R | PERM_X) & 30 == PERM_R | PERM_X,
        PERM_R & 30 == PERM_R,
        (PERM_R | PERM_W) & 30 == PERM_R | PERM_W,
        (PERM_R | PERM_W | PERM_U) & 30 == PERM_R | PERM_W | PERM_U,
{
    assert((TRAMPOLINE & VA_MASK) / 4096 == 0x7ff_ffff
        && TRAMPOLINE & 0x7f_ffff_ffff < 0x80_0000_0000
        && (TRAP_CONTEXT & 0x7f_ffff_ffff) / 4096 <= ((TRAMPOLINE & 0x7f_ffff_ffff) + 4096 - 1) / 4096
        && (PERM_R | PERM_X) & 30 == PERM_R | PERM_X
        && PERM_R & 30 == PERM_R
        && (PERM_R | PERM_W) & 30 == PERM_R | PERM_W
        && (PERM_R | PERM_W | PERM_U) & 30 == PERM_R | PERM_W | PERM_U) by (bit_vector);
}

/// The trampoline page is the last page of the 39-bit address space.
pub proof fn lemma_trampoline_below_limit()
    ensures
        trampoline_vpn() == 0x7ff_ffff,
{
    lemma_layout_constants();
}

/// The access rights of an area: bits `R`, `W`, `X`, `U` in the positions
/// they have in a page-table entry.
#[derive(Clone, Copy, PartialEq, Eq, Structural, Debug)]
pub struct MapPermission {
    pub bits: u8,
}

impl MapPermission {
    /// The rights named by `bits`, other bits dropped.
    pub fn from_bits_truncate(bits: u8) -> (r: Self)
        ensures
            r.bits == bits & 30,
    {
        MapPermission { bits: bits & 30 }
    }

    /// The bits of the rights.
    pub fn bits(&self) -> (r: u8)
        ensures
            r == self.bits,
    {
        self.bits
    }

    /// The rights of both.
    pub fn union(self, other: Self) -> (r: Self)
        ensures
            r.bits == self.bits | other.bits,
    {
        MapPermission { bits: self.bits | other.bits }
    }
}

/// A frame owned by an area: held, handed out, no page table and fit for
/// an entry.
pub open spec fn frame_owned(a: StackFrameAllocator, mem: PhysMem, tables: Set<u64>, f: u64) -> bool {
    &&& mem.has(f)
    &&& !a.is_free(f)
    &&& !tables.contains(f)
    &&& f < PPN_LIMIT
    &&& f < a.current
}

/// Bytes `[k * PAGE_SIZE, (k + 1) * PAGE_SIZE)` of `data`, cut at its end.
pub open spec fn chunk(data: Seq<u8>, k: int) -> Seq<u8> {
    let hi = if (k + 1) * PAGE_SIZE < data.len() {
        (k + 1) * PAGE_SIZE
    } else {
        data.len() as int
    };
    data.subrange(k * PAGE_SIZE, hi)
}

/// Number of pages that `len` bytes cover.
pub open spec fn chunk_count(len: int) -> int {
    (len + PAGE_SIZE - 1) / (PAGE_SIZE as int)
}

/// Frame `p`, when it was held and `hit` is false, is held in `m1` with the
/// bytes it had in `m0`.
pub open spec fn kept_unless(m0: Map<u64, Seq<u8>>, m1: Map<u64, Seq<u8>>, hit: bool, p: u64) -> bool {
    m0.dom().contains(p) && !hit ==> m1.dom().contains(p) && m1[p] == m0[p]
}

/// What page `k` of a framed area holds once the area is pushed with
/// `data`: the `k`-th page of the data, the rest zero.
pub open spec fn initial_page(data: Option<Seq<u8>>, k: int) -> Seq<u8> {
    match data {
        Some(d) => if k < chunk_count(d.len() as int) {
            set_bytes(zero_page(), 0, chunk(d, k))
        } else {
            zero_page()
        },
        None => zero_page(),
    }
}

/// The page of the trampoline in every address space.
pub open spec fn trampoline_vpn() -> u64 {
    (TRAMPOLINE & VA_MASK) / (PAGE_SIZE as u64)
}

/// The entry that maps the trampoline page to the page of physical address
/// `pa`: readable and executable.
pub open spec fn trampoline_pte(pa: u64) -> u64 {
    pte_make((pa & PA_MASK) / (PAGE_SIZE as u64), PERM_R | PERM_X | FLAG_V)
}

/// The `satp` value that turns on three-level paging with the table whose
/// root frame is `root`.
pub open spec fn token_of(root: u64) -> u64 {
    (8u64 << 60u64) | root
}

/// The first page of the area that starts at address `x`.
pub open spec fn span_start(x: u64) -> u64 {
    (x & VA_MASK) / (PAGE_SIZE as u64)
}

/// The page just past the area that ends at address `y`.
pub open spec fn span_end(y: u64) -> u64 {
    (((y & VA_MASK) + PAGE_SIZE - 1) / (PAGE_SIZE as int)) as u64
}

/// Where the kernel image and physical memory lie: the start and end
/// addresses of each section, the end of physical memory, and the physical
/// address of the trampoline code.
#[derive(Clone, Copy, Debug)]
pub struct KernelLayout {
    pub text_start: u64,
    pub text_end: u64,
    pub rodata_start: u64,
    pub rodata_end: u64,
    pub data_start: u64,
    pub data_end: u64,
    pub bss_start_with_stack: u64,
    pub bss_end: u64,
    pub kernel_end: u64,
    pub memory_end: u64,
    pub trampoline: u64,
}

impl KernelLayout {
    /// The sections follow each other in this order on distinct pages, below
    /// the trampoline page, and the trampoline code starts a page.
    pub open spec fn ok(&self) -> bool {
        &&& span_start(self.text_start) <= span_end(self.text_end)
        &&& span_end(self.text_end) <= span_start(self.rodata_start)
        &&& span_start(self.rodata_start) <= span_end(self.rodata_end)
        &&& span_end(self.rodata_end) <= span_start(self.data_start)
        &&& span_start(self.data_start) <= span_end(self.data_end)
        &&& span_end(self.data_end) <= span_start(self.bss_start_with_stack)
        &&& span_start(self.bss_start_with_stack) <= span_end(self.bss_end)
        &&& span_end(self.bss_end) <= span_start(self.kernel_end)
        &&& span_start(self.kernel_end) <= span_end(self.memory_end)
        &&& span_end(self.memory_end) <= trampoline_vpn()
        &&& (self.trampoline & PA_MASK) % (PAGE_SIZE as u64) == 0
    }

    /// The pages of the sections and of the rest of memory, in order.
    pub open spec fn spans(&self) -> Seq<(u64, u64)> {
        seq![
            (span_start(self.text_start), span_end(self.text_end)),
            (span_start(self.rodata_start), span_end(self.rodata_end)),
            (span_start(self.data_start), span_end(self.data_end)),
            (span_start(self.bss_start_with_stack), span_end(self.bss_end)),
            (span_start(self.kernel_end), span_end(self.memory_end)),
        ]
    }

    /// Frames that building the kernel's address space can take: the root
    /// table, the two tables above the trampoline page, and the tables that
    /// each span needs when mapped in order after it (`span_need`).
    pub open spec fn frames(&self) -> int {
        3 + span_need(self.spans(), 0) + span_need(self.spans(), 1) + span_need(self.spans(), 2) + span_need(self.spans(), 3)
            + span_need(self.spans(), 4)
    }
}

/// The loadable segments, in order.
pub open spec fn loads(segs: Seq<ElfSegment>) -> Seq<ElfSegment> {
    segs.filter(|s: ElfSegment| s.is_load)
}

/// The first page of a segment and the page past it.
pub open spec fn seg_span(s: ElfSegment) -> (u64, u64) {
    (span_start(s.virtual_addr), span_end((s.virtual_addr + s.mem_size) as u64))
}

/// Number of pages of a span.
pub open spec fn span_pages(sp: (u64, u64)) -> int {
    if sp.0 <= sp.1 {
        sp.1 - sp.0
    } else {
        0
    }
}

/// Number of last-level and second-level page tables that the pages of a
/// span can need: one for each 2 MiB region and one for each 1 GiB region
/// that it touches.
pub open spec fn span_tables(sp: (u64, u64)) -> int {
    if sp.0 < sp.1 {
        ((sp.1 - 1) / 512 - sp.0 / 512 + 1) + ((sp.1 - 1) / 262144 - sp.0 / 262144 + 1)
    } else {
        0
    }
}

/// A span needs no negative number of tables.
proof fn lemma_span_tables_nonneg(sp: (u64, u64))
    ensures
        span_tables(sp) >= 0,
{
    if sp.0 < sp.1 {
        let e = (sp.1 - 1) as u64;
        assert(sp.0 <= e ==> sp.0 / 512 <= e / 512 && sp.0 / 262144 <= e / 262144) by (nonlinear_arith);
    }
}

/// Of the tables of the span `[s, e)`, those not yet paid for once its
/// pages below `v` are mapped: the regions above the one of page `v - 1`.
pub open spec fn tables_left(s: u64, v: u64, e: u64) -> int {
    if v >= e {
        0
    } else if v <= s {
        span_tables((s, e))
    } else {
        ((e - 1) / 512 - (v - 1) / 512) + ((e - 1) / 262144 - (v - 1) / 262144)
    }
}

/// Tables that the pages of the span `[s, e)` after its first can need:
/// one for each 2 MiB region and each 1 GiB region they reach beyond those
/// of the first page.
pub open spec fn later_tables(s: u64, e: u64) -> int {
    ((e - 1) / 512 - s / 512) + ((e - 1) / 262144 - s / 262144)
}

/// Some page of span `sp` lies in region `c` of `size` pages.
pub open spec fn span_touches(sp: (u64, u64), c: int, size: int) -> bool {
    sp.0 < sp.1 && (sp.0 as int) / size <= c && c <= (sp.1 - 1) / size
}

/// The region of `size` pages that holds page `v` also holds the
/// trampoline page or a page of one of the spans before span `k`.
pub open spec fn region_seen(sp: Seq<(u64, u64)>, k: int, v: u64, size: int) -> bool {
    (v as int) / size == (trampoline_vpn() as int) / size || exists|j: int| 0 <= j < k && #[trigger] span_touches(sp[j], (v as int) / size, size)
}

/// Tables the first page of span `k` can need once the trampoline page and
/// the spans before it are mapped: none when a page of its 2 MiB region is
/// mapped, one when only a page of its 1 GiB region is, else two.
pub open spec fn first_tables(sp: Seq<(u64, u64)>, k: int) -> int {
    let v = sp[k].0;
    if region_seen(sp, k, v, 512) {
        0
    } else if region_seen(sp, k, v, 262144) {
        1
    } else {
        2
    }
}

/// Tables that mapping span `k` can need once the trampoline page and the
/// spans before it are mapped: those of its first page, and one for each
/// further region it reaches.
pub open spec fn span_need(sp: Seq<(u64, u64)>, k: int) -> int {
    if sp[k].0 < sp[k].1 {
        first_tables(sp, k) + later_tables(sp[k].0, sp[k].1)
    } else {
        0
    }
}

/// Every page of span `sp` is mapped.
pub open spec fn span_mapped(m: Map<u64, Seq<u8>>, root: u64, sp: (u64, u64)) -> bool {
    forall|p: u64| sp.0 <= p < sp.1 ==> #[trigger] mapping(m, root, p) is Some
}

/// With the trampoline page and the spans before span `k` mapped, the
/// first page of span `k` needs no more tables than `first_tables` counts.
proof fn lemma_first_seen(m: Map<u64, Seq<u8>>, root: u64, sp: Seq<(u64, u64)>, k: int)
    requires
        0 <= k < sp.len(),
        sp[k].0 < VPN_LIMIT,
        trampoline_vpn() == 0x7ff_ffff,
        mapping(m, root, trampoline_vpn()) is Some,
        forall|j: int| 0 <= j < k ==> (#[trigger] sp[j]).1 <= VPN_LIMIT && span_mapped(m, root, sp[j]),
    ensures
        frames_needed(m, root, sp[k].0) <= first_tables(sp, k),
{
    let v = sp[k].0;
    let t = trampoline_vpn();
    lemma_needed_near(m, root, t, v);
    if region_seen(sp, k, v, 512) {
        if v / 512 != t / 512 {
            let j = choose|j: int| 0 <= j < k && #[trigger] span_touches(sp[j], (v as int) / 512, 512);
            let a = sp[j].0;
            let b = sp[j].1;
            let c = (v as int) / 512;
            assert(span_mapped(m, root, sp[j]));
            let p: u64 = if a / 512 == c { a } else { (c * 512) as u64 };
            assert(a <= p < b && p / 512 == c) by (nonlinear_arith)
                requires
                    a < b,
                    a / 512 <= c,
                    c <= (b - 1) / 512,
                    p == if a / 512 == c { a as int } else { c * 512 },
                    b <= 0x800_0000,
            ;
            assert(mapping(m, root, p) is Some);
            lemma_needed_near(m, root, p, v);
        }
    } else if region_seen(sp, k, v, 262144) {
        if v / 262144 != t / 262144 {
            let j = choose|j: int| 0 <= j < k && #[trigger] span_touches(sp[j], (v as int) / 262144, 262144);
            let a = sp[j].0;
            let b = sp[j].1;
            let c = (v as int) / 262144;
            assert(span_mapped(m, root, sp[j]));
            let p: u64 = if a / 262144 == c { a } else { (c * 262144) as u64 };
            assert(a <= p < b && p / 262144 == c) by (nonlinear_arith)
                requires
                    a < b,
                    a / 262144 <= c,
                    c <= (b - 1) / 262144,
                    p == if a / 262144 == c { a as int } else { c * 262144 },
                    b <= 0x800_0000,
            ;
            assert(mapping(m, root, p) is Some);
            lemma_needed_near(m, root, p, v);
        }
    }
}

/// Span `k` needs no negative number of tables.
proof fn lemma_span_need_nonneg(sp: Seq<(u64, u64)>, k: int)
    requires
        0 <= k < sp.len(),
    ensures
        span_need(sp, k) >= 0,
{
    lemma_later_nonneg(sp[k].0, sp[k].1);
}

/// A span mapped before a change that keeps every mapping outside another
/// span, which it does not meet, stays mapped.
proof fn lemma_still_mapped(m0: Map<u64, Seq<u8>>, m1: Map<u64, Seq<u8>>, root: u64, sp: (u64, u64), other: (u64, u64))
    requires
        span_mapped(m0, root, sp),
        sp.1 <= VPN_LIMIT,
        sp.1 <= other.0 || other.1 <= sp.0,
        forall|x: u64| x < VPN_LIMIT && !(other.0 <= x < other.1) ==> #[trigger] mapping(m1, root, x) == mapping(m0, root, x),
    ensures
        span_mapped(m1, root, sp),
{
    assert forall|p: u64| sp.0 <= p < sp.1 implies #[trigger] mapping(m1, root, p) is Some by {
        assert(mapping(m1, root, p) == mapping(m0, root, p));
    }
}

/// Before span `k` of the five kernel spans is mapped, with the trampoline
/// page and the spans before it mapped, its first page needs no more tables
/// than `first_tables` counts.
proof fn lemma_kernel_step(m: Map<u64, Seq<u8>>, root: u64, sp: Seq<(u64, u64)>, k: int)
    requires
        sp.len() == 5,
        0 <= k < 5,
        trampoline_vpn() == 0x7ff_ffff,
        mapping(m, root, trampoline_vpn()) is Some,
        forall|j: int| 0 <= j < 5 ==> (#[trigger] sp[j]).1 <= VPN_LIMIT,
        k > 0 ==> span_mapped(m, root, sp[0]),
        k > 1 ==> span_mapped(m, root, sp[1]),
        k > 2 ==> span_mapped(m, root, sp[2]),
        k > 3 ==> span_mapped(m, root, sp[3]),
    ensures
        sp[k].0 < sp[k].1 ==> frames_needed(m, root, sp[k].0) <= first_tables(sp, k),
{
    assert forall|j: int| 0 <= j < k implies (#[trigger] sp[j]).1 <= VPN_LIMIT && span_mapped(m, root, sp[j]) by {
        if j == 0 {
        } else if j == 1 {
        } else if j == 2 {
        } else {
        }
    }
    if sp[k].0 < sp[k].1 {
        lemma_first_seen(m, root, sp, k);
    }
}

/// A span whose pages are all mapped is mapped.
proof fn lemma_now_mapped(m: Map<u64, Seq<u8>>, root: u64, sp: Seq<(u64, u64)>, k: int)
    requires
        0 <= k < sp.len(),
        forall|v: u64| sp[k].0 <= v < sp[k].1 ==> #[trigger] mapping(m, root, v) is Some,
    ensures
        span_mapped(m, root, sp[k]),
{
}

/// A span reaches no fewer regions than its first page does.
proof fn lemma_later_nonneg(s: u64, e: u64)
    ensures
        s < e ==> later_tables(s, e) >= 0,
{
    if s < e {
        let ev = (e - 1) as u64;
        assert(s <= ev ==> s / 512 <= ev / 512 && s / 262144 <= ev / 262144) by (bit_vector);
    }
}

/// Once the first page of a span is mapped, the tables left are those
/// beyond the regions of the first page, and the first page needs at most
/// the two tables of a full span.
proof fn lemma_first_step(m: Map<u64, Seq<u8>>, root: u64, s: u64, e: u64)
    requires
        s < e <= VPN_LIMIT,
    ensures
        tables_left(s, (s + 1) as u64, e) == later_tables(s, e),
        later_tables(s, e) >= 0,
        frames_needed(m, root, s) <= 2,
        frames_needed(m, root, s) + later_tables(s, e) <= span_tables((s, e)),
{
    let ev = (e - 1) as u64;
    assert(s <= ev ==> s / 512 <= ev / 512 && s / 262144 <= ev / 262144) by (bit_vector);
}

/// Mapping page `v` of the span `[s, e)`, where page `v - 1` is mapped
/// unless `v` is the first, makes no more tables than `v` starts paying
/// for.
proof fn lemma_tables_step(m: Map<u64, Seq<u8>>, root: u64, s: u64, v: u64, e: u64)
    requires
        s <= v < e <= VPN_LIMIT,
        v > s ==> mapping(m, root, (v - 1) as u64) is Some,
    ensures
        frames_needed(m, root, v) >= 0,
        tables_left(s, (v + 1) as u64, e) >= 0,
        frames_needed(m, root, v) + tables_left(s, (v + 1) as u64, e) <= tables_left(s, v, e),
{
    let ev = (e - 1) as u64;
    assert(v <= ev && ev < 0x800_0000 ==> v / 512 <= ev / 512 && v / 262144 <= ev / 262144) by (bit_vector);
    if v > s {
        let w = (v - 1) as u64;
        lemma_needed_near(m, root, w, v);
        assert(w / 512 <= v / 512 && v / 512 <= w / 512 + 1 && w / 262144 <= v / 262144 && v / 262144 <= w / 262144 + 1
            && (v / 512 == w / 512 ==> v / 262144 == w / 262144)) by (bit_vector)
            requires
                w + 1 == v,
                v < 0x800_0000,
        ;
    } else {
        assert(s / 512 <= s / 512 + 1);
    }
}

/// A loadable segment can be mapped: its end address fits, its bytes lie
/// inside a file of `len` bytes, its pages are in order and hold its bytes.
pub open spec fn seg_ok(s: ElfSegment, len: int) -> bool {
    s.is_load ==> {
        &&& s.virtual_addr + s.mem_size <= u64::MAX
        &&& s.offset + s.file_size <= len
        &&& s.file_size + PAGE_SIZE <= usize::MAX
        &&& seg_span(s).0 <= seg_span(s).1
        &&& s.file_size <= span_pages(seg_span(s)) * PAGE_SIZE
    }
}

/// The rights of a loadable segment: user mode and its own flags.
pub open spec fn seg_perm(s: ElfSegment) -> u8 {
    PERM_U | (if s.readable { PERM_R } else { 0 }) | (if s.writable { PERM_W } else { 0 }) | (if s.executable { PERM_X } else { 0 })
}

/// The page past the last loadable segment, or page 0 when there is none.
pub open spec fn last_load_end(segs: Seq<ElfSegment>) -> u64 {
    if loads(segs).len() == 0 {
        0
    } else {
        seg_span(loads(segs).last()).1
    }
}

/// Bottom of the user stack: one guard page above the last loadable
/// segment.
pub open spec fn stack_bottom(segs: Seq<ElfSegment>) -> int {
    sign_extend(last_load_end(segs) << 12u64) + PAGE_SIZE
}

/// Top of the user stack.
pub open spec fn stack_top(segs: Seq<ElfSegment>) -> int {
    stack_bottom(segs) + USER_STACK_SIZE
}

/// The pages of the user stack.
pub open spec fn stack_span(segs: Seq<ElfSegment>) -> (u64, u64) {
    (span_start(stack_bottom(segs) as u64), span_end(stack_top(segs) as u64))
}

/// The page of the trap context.
pub open spec fn trap_span() -> (u64, u64) {
    (span_start(TRAP_CONTEXT), span_end(TRAMPOLINE))
}

/// The pages of every area of a program: its loadable segments in order,
/// then the user stack, then the trap context.
pub open spec fn elf_spans(segs: Seq<ElfSegment>) -> Seq<(u64, u64)> {
    loads(segs).map_values(|s: ElfSegment| seg_span(s)) + seq![stack_span(segs), trap_span()]
}

/// Two spans share a page.
pub open spec fn spans_overlap(p: (u64, u64), q: (u64, u64)) -> bool {
    p.0 < p.1 && q.0 < q.1 && p.0 < q.1 && q.0 < p.1
}

/// No two spans share a page, and none holds the trampoline page.
pub open spec fn spans_apart(sp: Seq<(u64, u64)>) -> bool {
    &&& forall|i: int, j: int| 0 <= i < j < sp.len() ==> !spans_overlap(#[trigger] sp[i], #[trigger] sp[j])
    &&& forall|i: int| 0 <= i < sp.len() ==> !((#[trigger] sp[i]).0 <= trampoline_vpn() < sp[i].1)
}

/// Frames that framed areas over the spans from `k` on can take, mapped in
/// order after the trampoline page: a frame for each page and the tables
/// their pages can need (`span_need`).
pub open spec fn frames_from(sp: Seq<(u64, u64)>, k: int) -> int
    decreases sp.len() - k,
{
    if k >= sp.len() || k < 0 {
        0
    } else {
        span_pages(sp[k]) + span_need(sp, k) + frames_from(sp, k + 1)
    }
}

/// A program whose segments can all be mapped from a file of `len` bytes:
/// each loadable segment fits, the user stack fits below the top of the
/// address space and is in order, and no two areas share a page.
pub open spec fn elf_layout_ok(segs: Seq<ElfSegment>, len: int) -> bool {
    &&& forall|i: int| 0 <= i < segs.len() ==> seg_ok(#[trigger] segs[i], len)
    &&& stack_top(segs) <= u64::MAX
    &&& stack_span(segs).0 <= stack_span(segs).1
    &&& spans_apart(elf_spans(segs))
}

/// The loadable segments of the first `i + 1` segments: those of the first
/// `i`, and segment `i` when it is loadable.
proof fn lemma_loads_step(segs: Seq<ElfSegment>, i: int)
    requires
        0 <= i < segs.len(),
    ensures
        loads(segs.take(i + 1)) == if segs[i].is_load {
            loads(segs.take(i)).push(segs[i])
        } else {
            loads(segs.take(i))
        },
{
    reveal(Seq::filter);
    assert(segs.take(i + 1).drop_last() =~= segs.take(i));
    assert(segs.take(i + 1).last() == segs[i]);
}

/// The first and past-the-last page of a segment whose end address fits.
fn seg_span_of(s: &ElfSegment) -> (r: (u64, u64))
    requires
        s.virtual_addr + s.mem_size <= u64::MAX,
    ensures
        r == seg_span(*s),
{
    let start = VirAddr::from(s.virtual_addr);
    let end = VirAddr::from(s.virtual_addr + s.mem_size);
    proof {
        let e = (s.virtual_addr + s.mem_size) as u64;
        assert(e & 0x7f_ffff_ffff < 0x80_0000_0000) by { lemma_low_bits(e); }
    }
    (start.floor_to_vpn().0, end.ceil_to_vpn().0)
}

/// The pages of `[start, end)`.
fn span_of(start: u64, end: u64) -> (r: (u64, u64))
    ensures
        r == (span_start(start), span_end(end)),
{
    let s = VirAddr::from(start);
    let e = VirAddr::from(end);
    proof {
        assert(end & 0x7f_ffff_ffff < 0x80_0000_0000) by { lemma_low_bits(end); }
    }
    (s.floor_to_vpn().0, e.ceil_to_vpn().0)
}

/// The pages of every area of a program with segments `segs`, read from a
/// file of `len` bytes (`elf_spans`), when they can all be mapped
/// (`elf_layout_ok`); `None` when they cannot.
pub fn check_layout(segs: &Vec<ElfSegment>, len: usize) -> (r: Option<Vec<(u64, u64)>>)
    ensures
        r is Some <==> elf_layout_ok(segs@, len as int),
        r matches Some(v) ==> v@ == elf_spans(segs@),
{
    let mut spans: Vec<(u64, u64)> = Vec::new();
    let mut last_end: u64 = 0;
    let mut i: usize = 0;
    while i < segs.len()
        invariant
            0 <= i <= segs@.len(),
            spans@ == loads(segs@.take(i as int)).map_values(|s: ElfSegment| seg_span(s)),
            forall|j: int| 0 <= j < i ==> seg_ok(#[trigger] segs@[j], len as int),
            last_end == last_load_end(segs@.take(i as int)),
        decreases segs@.len() - i,
    {
        let s = segs[i];
        proof {
            lemma_loads_step(segs@, i as int);
        }
        if s.is_load {
            if s.virtual_addr > u64::MAX - s.mem_size {
                return None;
            }
            if (s.offset as u128) + (s.file_size as u128) > (len as u128) {
                return None;
            }
            if (s.file_size as u128) + (PAGE_SIZE as u128) > (usize::MAX as u128) {
                return None;
            }
            let sp = seg_span_of(&s);
            if sp.0 > sp.1 {
                return None;
            }
            proof {
                let e = (s.virtual_addr + s.mem_size) as u64;
                assert(e & 0x7f_ffff_ffff < 0x80_0000_0000) by { lemma_low_bits(e); }
                assert(sp.1 <= 0x800_0000);
            }
            if s.file_size > (sp.1 - sp.0) * (PAGE_SIZE as u64) {
                return None;
            }
            let ghost before = spans@;
            spans.push(sp);
            last_end = sp.1;
            proof {
                assert(spans@ =~= loads(segs@.take(i + 1)).map_values(|s: ElfSegment| seg_span(s)));
            }
        } else {
            proof {
                assert(spans@ =~= loads(segs@.take(i + 1)).map_values(|s: ElfSegment| seg_span(s)));
            }
        }
        i = i + 1;
    }
    proof {
        assert(segs@.take(segs@.len() as int) =~= segs@);
    }
    let base: u64 = u64::from(VirAddr::from(VirPageNum(last_end)));
    if base > u64::MAX - (PAGE_SIZE as u64) {
        return None;
    }
    let btm = base + PAGE_SIZE as u64;
    if btm > u64::MAX - USER_STACK_SIZE {
        return None;
    }
    let top = btm + USER_STACK_SIZE;
    let stack = span_of(btm, top);
    if stack.0 > stack.1 {
        return None;
    }
    spans.push(stack);
    spans.push(span_of(TRAP_CONTEXT, TRAMPOLINE));
    proof {
        assert(spans@ =~= elf_spans(segs@));
    }
    let tramp = VirAddr::from(TRAMPOLINE).floor_to_vpn().0;
    let n = spans.len();
    let mut a: usize = 0;
    while a < n
        invariant
            n == spans@.len(),
            spans@ == elf_spans(segs@),
            0 <= a <= n,
            tramp == trampoline_vpn(),
            forall|x: int, y: int| 0 <= x < a && x < y < n ==> !spans_overlap(#[trigger] spans@[x], #[trigger] spans@[y]),
            forall|x: int| 0 <= x < a ==> !((#[trigger] spans@[x]).0 <= trampoline_vpn() < spans@[x].1),
        decreases n - a,
    {
        let p = spans[a];
        if p.0 <= tramp && tramp < p.1 {
            proof {
                if spans_apart(spans@) {
                    assert(!((spans@[a as int]).0 <= trampoline_vpn() < spans@[a as int].1));
                }
            }
            return None;
        }
        let mut b: usize = a + 1;
        while b < n
            invariant
                n == spans@.len(),
                spans@ == elf_spans(segs@),
                0 <= a < n,
                a < b <= n,
                p == spans@[a as int],
                forall|y: int| a < y < b ==> !spans_overlap(p, #[trigger] spans@[y]),
            decreases n - b,
        {
            let q = spans[b];
            if p.0 < p.1 && q.0 < q.1 && p.0 < q.1 && q.0 < p.1 {
                proof {
                    if spans_apart(spans@) {
                        assert(!spans_overlap(spans@[a as int], spans@[b as int]));
                    }
                }
                return None;
            }
            b = b + 1;
        }
        a = a + 1;
    }
    Some(spans)
}

/// The loadable segments of the first `i` segments begin the loadable
/// segments of all.
proof fn lemma_loads_prefix(segs: Seq<ElfSegment>, i: int)
    requires
        0 <= i <= segs.len(),
    ensures
        loads(segs.take(i)).len() <= loads(segs).len(),
        forall|a: int| 0 <= a < loads(segs.take(i)).len() ==> #[trigger] loads(segs.take(i))[a] == loads(segs)[a],
    decreases segs.len() - i,
{
    if i == segs.len() {
        assert(segs.take(i) =~= segs);
    } else {
        lemma_loads_prefix(segs, i + 1);
        lemma_loads_step(segs, i);
        let l0 = loads(segs.take(i));
        let l1 = loads(segs.take(i + 1));
        assert forall|a: int| 0 <= a < l0.len() implies #[trigger] l0[a] == loads(segs)[a] by {
            assert(l1[a] == l0[a]);
            assert(l1[a] == loads(segs)[a]);
        }
    }
}

/// A count of frames for spans is never negative.
proof fn lemma_frames_from_nonneg(sp: Seq<(u64, u64)>, k: int)
    ensures
        frames_from(sp, k) >= 0,
    decreases sp.len() - k,
{
    if 0 <= k < sp.len() {
        lemma_frames_from_nonneg(sp, k + 1);
        lemma_later_nonneg(sp[k].0, sp[k].1);
    }
}

/// A count of frames for areas is never negative.
pub proof fn lemma_area_frames_nonneg(areas: Seq<MapArea>, k: int)
    ensures
        area_frames_from(areas, k) >= 0,
    decreases areas.len() - k,
{
    if 0 <= k < areas.len() {
        lemma_area_frames_nonneg(areas, k + 1);
        let a = areas[k];
        lemma_span_tables_nonneg((a.vpn_range.start.0, a.vpn_range.end.0));
    }
}

/// Whether some page of span `sp` lies in region `c` of `size` pages.
fn touches_region(sp: (u64, u64), c: u64, size: u64) -> (r: bool)
    requires
        size > 0,
    ensures
        r == span_touches(sp, c as int, size as int),
{
    sp.0 < sp.1 && sp.0 / size <= c && c <= (sp.1 - 1) / size
}

/// The tables that mapping span `k` can need after the trampoline page and
/// the spans before it (`span_need`).
fn span_need_at(spans: &Vec<(u64, u64)>, k: usize) -> (r: u64)
    requires
        k < spans@.len(),
        forall|a: int| 0 <= a < spans@.len() ==> (#[trigger] spans@[a]).1 <= 0x800_0000,
    ensures
        r == span_need(spans@, k as int),
        r <= 0x4_0200,
{
    let v = spans[k].0;
    let e = spans[k].1;
    if v >= e {
        return 0;
    }
    proof {
        lemma_layout_constants();
    }
    let t: u64 = 0x7ff_ffff;
    let mut seen9 = v / 512 == t / 512;
    let mut seen18 = v / 262144 == t / 262144;
    let mut j: usize = 0;
    while j < k
        invariant
            j <= k,
            k < spans@.len(),
            v == spans@[k as int].0,
            t == trampoline_vpn(),
            seen9 == ((v as int) / 512 == (t as int) / 512 || exists|i: int| 0 <= i < j && #[trigger] span_touches(spans@[i], (v as int) / 512, 512)),
            seen18 == ((v as int) / 262144 == (t as int) / 262144 || exists|i: int| 0 <= i < j && #[trigger] span_touches(spans@[i], (v as int) / 262144, 262144)),
        decreases k - j,
    {
        if touches_region(spans[j], v / 512, 512) {
            seen9 = true;
        }
        if touches_region(spans[j], v / 262144, 262144) {
            seen18 = true;
        }
        proof {
            if !seen9 {
                assert forall|i: int| 0 <= i < j + 1 implies !#[trigger] span_touches(spans@[i], (v as int) / 512, 512) by {
                }
            }
            if !seen18 {
                assert forall|i: int| 0 <= i < j + 1 implies !#[trigger] span_touches(spans@[i], (v as int) / 262144, 262144) by {
                }
            }
        }
        j = j + 1;
    }
    let first: u64 = if seen9 {
        0
    } else if seen18 {
        1
    } else {
        2
    };
    proof {
        assert(v < e && e <= 0x800_0000 ==> (e - 1) / 512 >= v / 512 && (e - 1) / 262144 >= v / 262144 && (e - 1) / 512 < 0x4_0000
            && (e - 1) / 262144 < 0x200) by (nonlinear_arith);
    }
    first + ((e - 1) / 512 - v / 512) + ((e - 1) / 262144 - v / 262144)
}

/// The frames that framed areas over the spans can take (`frames_from`),
/// counted from the last span.
fn spans_frames(spans: &Vec<(u64, u64)>) -> (r: u128)
    requires
        forall|a: int| 0 <= a < spans@.len() ==> (#[trigger] spans@[a]).1 <= 0x800_0000,
    ensures
        r == frames_from(spans@, 0),
        r <= spans@.len() * 0x900_0000,
{
    let mut acc: u128 = 0;
    let mut k: usize = spans.len();
    while k > 0
        invariant
            k <= spans@.len(),
            spans@.len() <= usize::MAX,
            forall|a: int| 0 <= a < spans@.len() ==> (#[trigger] spans@[a]).1 <= 0x800_0000,
            acc == frames_from(spans@, k as int),
            acc <= (spans@.len() - k) * 0x900_0000,
        decreases k,
    {
        k = k - 1;
        let sp = spans[k];
        let need = span_need_at(spans, k);
        let p: u128 = if sp.0 < sp.1 {
            (sp.1 - sp.0) as u128 + need as u128
        } else {
            0
        };
        acc = acc + p;
    }
    acc
}

/// The bytes of a loadable segment in the file.
pub open spec fn seg_bytes(data: Seq<u8>, s: ElfSegment) -> Seq<u8> {
    data.subrange(s.offset as int, s.offset + s.file_size)
}

/// What area `a` of a program starts with: the bytes of its segment for a
/// loadable segment, nothing for the stack and the trap context.
pub open spec fn area_data(segs: Seq<ElfSegment>, data: Seq<u8>, a: int) -> Option<Seq<u8>> {
    if a < loads(segs).len() {
        Some(seg_bytes(data, loads(segs)[a]))
    } else {
        None
    }
}

/// The rights of area `a` of a program.
pub open spec fn area_perm(segs: Seq<ElfSegment>, a: int) -> u8 {
    if a < loads(segs).len() {
        seg_perm(loads(segs)[a])
    } else if a == loads(segs).len() {
        PERM_R | PERM_W | PERM_U
    } else {
        PERM_R | PERM_W
    }
}

/// Area `a` of `ms` is area `a` of the program: its pages, framed, its
/// rights, and its frames holding what it starts with.
pub open spec fn area_built(ms: MemorySet, m: Map<u64, Seq<u8>>, segs: Seq<ElfSegment>, data: Seq<u8>, a: int) -> bool {
    let area = ms.areas@[a];
    let sp = elf_spans(segs)[a];
    &&& area.vpn_range.start.0 == sp.0
    &&& area.vpn_range.end.0 == sp.1
    &&& area.map_type == MapType::Framed
    &&& area.map_per.bits == area_perm(segs, a)
    &&& forall|v: u64| #[trigger] area.has_page(v) ==> m[area.target(v)] == initial_page(area_data(segs, data, a), v - sp.0)
}

/// The address space of a program: its areas in order, each built from
/// its segment, the trampoline mapped, and no other page mapped.
pub open spec fn elf_built(ms: MemorySet, m: Map<u64, Seq<u8>>, segs: Seq<ElfSegment>, data: Seq<u8>, trampoline_pa: u64) -> bool {
    &&& ms.areas@.len() == elf_spans(segs).len()
    &&& forall|a: int| 0 <= a < elf_spans(segs).len() ==> #[trigger] area_built(ms, m, segs, data, a)
    &&& mapping(m, ms.root(), trampoline_vpn()) == Some(trampoline_pte(trampoline_pa))
    &&& forall|x: u64|
        x < VPN_LIMIT && x != trampoline_vpn() && (forall|a: int| 0 <= a < ms.areas@.len() ==> !#[trigger] ms.areas@[a].has_page(x))
            ==> #[trigger] mapping(m, ms.root(), x) is None
}

/// A frame another address space owns here: held, handed out, and no
/// table of this page table.
pub open spec fn frame_foreign(a: StackFrameAllocator, mem: PhysMem, tables: Set<u64>, f: u64) -> bool {
    mem.has(f) && !a.is_free(f) && !tables.contains(f)
}

/// Frames that mapping copies of the areas from `k` on can take.
pub open spec fn area_frames_from(areas: Seq<MapArea>, k: int) -> int
    decreases areas.len() - k,
{
    if k >= areas.len() || k < 0 {
        0
    } else {
        areas[k].frames_for() + area_frames_from(areas, k + 1)
    }
}

/// A run of virtual pages mapped the same way with the same rights; for a
/// framed area, the frame of each mapped page.
pub struct MapArea {
    pub vpn_range: VPNRange,
    pub data_frames: BTreeMap<u64, FrameTracker>,
    pub map_type: MapType,
    pub map_per: MapPermission,
}

impl MapArea {
    /// Whether page `v` is in the area.
    pub open spec fn has_page(&self, v: u64) -> bool {
        self.vpn_range.start.0 <= v < self.vpn_range.end.0
    }

    /// The frame that backs page `v`.
    pub open spec fn target(&self, v: u64) -> u64 {
        match self.map_type {
            MapType::Identical => v,
            MapType::Framed => self.data_frames@[v].ppn.0,
        }
    }

    /// Number of pages of the area.
    pub open spec fn page_count(&self) -> int {
        if self.vpn_range.start.0 <= self.vpn_range.end.0 {
            self.vpn_range.end.0 - self.vpn_range.start.0
        } else {
            0
        }
    }

    /// Frames a page of the area takes besides tables: one when the area
    /// is framed.
    pub open spec fn frame_cost(&self) -> int {
        if self.map_type == MapType::Framed {
            1
        } else {
            0
        }
    }

    /// Frames that mapping the pages of the area from page `v` on can take:
    /// a frame for each page when the area is framed, and the tables that
    /// are not yet paid for.
    pub open spec fn frames_left(&self, v: u64) -> int {
        let s = self.vpn_range.start.0;
        let e = self.vpn_range.end.0;
        (if self.map_type == MapType::Framed && v < e {
            e - v
        } else {
            0
        }) + tables_left(s, v, e)
    }

    /// Frames that mapping the whole area can take, whatever the page
    /// table holds.
    pub open spec fn frames_for(&self) -> int {
        self.frames_left(self.vpn_range.start.0)
    }

    /// Frames that mapping the whole area in the page table with root
    /// `root` in memory `m` can take: a frame for each page when the area is
    /// framed, the tables its first page needs there, and one table for
    /// each further 2 MiB region and each further 1 GiB region it reaches.
    pub open spec fn frames_in(&self, m: Map<u64, Seq<u8>>, root: u64) -> int {
        let s = self.vpn_range.start.0;
        let e = self.vpn_range.end.0;
        if s < e {
            (if self.map_type == MapType::Framed {
                e - s
            } else {
                0
            }) + frames_needed(m, root, s) + later_tables(s, e)
        } else {
            0
        }
    }

    /// The entry that maps page `v`.
    pub open spec fn pte_of(&self, v: u64) -> u64 {
        pte_make(self.target(v), self.map_per.bits | FLAG_V)
    }

    /// Every frame of the area is owned.
    pub open spec fn frames_ok(&self, a: StackFrameAllocator, mem: PhysMem, tables: Set<u64>) -> bool {
        forall|v: u64| #[trigger] self.data_frames@.contains_key(v) ==> frame_owned(a, mem, tables, self.data_frames@[v].ppn.0)
    }

    /// Every frame of the area is held, no page table, and fits an entry.
    pub open spec fn frames_held(&self, mem: PhysMem, tables: Set<u64>) -> bool {
        forall|v: u64|
            #[trigger] self.data_frames@.contains_key(v) ==> {
                let f = self.data_frames@[v].ppn.0;
                mem.has(f) && !tables.contains(f) && f < PPN_LIMIT
            }
    }

    /// Every page of the area is mapped as the area says; a framed area has
    /// a frame for each.
    pub open spec fn mapped_in(&self, m: Map<u64, Seq<u8>>, root: u64) -> bool {
        forall|v: u64|
            #[trigger] self.has_page(v) ==> mapping(m, root, v) == Some(self.pte_of(v)) && (self.map_type
                == MapType::Framed ==> self.data_frames@.contains_key(v))
    }

    /// Whether frame `p` backs a page of the area below page `upto`.
    pub open spec fn backs_before(&self, upto: int, p: u64) -> bool {
        exists|v: u64| self.vpn_range.start.0 <= v < upto && #[trigger] self.target(v) == p
    }

    /// Whether frame `p` backs one of the first pages that `len` bytes
    /// cover.
    pub open spec fn copies_into(&self, len: int, p: u64) -> bool {
        self.backs_before(self.vpn_range.start.0 + chunk_count(len), p)
    }

    /// The frames of different pages are different.
    pub open spec fn frames_distinct(&self) -> bool {
        forall|v1: u64, v2: u64|
            #![trigger self.data_frames@[v1], self.data_frames@[v2]]
            self.data_frames@.contains_key(v1) && self.data_frames@.contains_key(v2) && v1 != v2
                ==> self.data_frames@[v1].ppn.0 != self.data_frames@[v2].ppn.0
    }

    /// The frames a framed area got for its pages `[s, e)`: one fresh
    /// zeroed frame each, free before, next to the frames it had.
    pub open spec fn fresh_frames(
        &self,
        old_frames: Map<u64, FrameTracker>,
        a0: StackFrameAllocator,
        mem: Map<u64, Seq<u8>>,
        s: u64,
        e: u64,
    ) -> bool {
        &&& forall|v: u64| #[trigger] self.data_frames@.contains_key(v) <==> old_frames.contains_key(v) || s <= v < e
        &&& forall|v: u64| #[trigger] old_frames.contains_key(v) ==> self.data_frames@[v] == old_frames[v]
        &&& forall|v: u64|
            s <= v < e ==> a0.is_free(#[trigger] self.data_frames@[v].ppn.0) && mem[self.data_frames@[v].ppn.0]
                == zero_page()
    }

    /// The area of the pages that hold `[start, end)`, with no frame yet.
    pub fn new(start: VirAddr, end: VirAddr, map_type: MapType, map_per: MapPermission) -> (r: Self)
        requires
            start.0 / (PAGE_SIZE as u64) <= (end.0 + PAGE_SIZE - 1) / (PAGE_SIZE as int),
            end.0 + PAGE_SIZE <= u64::MAX,
        ensures
            r.vpn_range.start.0 == start.0 / (PAGE_SIZE as u64),
            r.vpn_range.end.0 == (end.0 + PAGE_SIZE - 1) / (PAGE_SIZE as int),
            r.data_frames@ == Map::<u64, FrameTracker>::empty(),
            r.map_type == map_type,
            r.map_per == map_per,
    {
        Self {
            vpn_range: VPNRange::new(start.floor_to_vpn(), end.ceil_to_vpn()),
            data_frames: BTreeMap::new(),
            map_type,
            map_per,
        }
    }

    /// Maps page `vpn` in `page_table`: to frame `vpn` for an identical
    /// area, else to a fresh zeroed frame that the area then owns.
    pub fn reflect_one_vpn_to_page_table(
        &mut self,
        vpn: VirPageNum,
        page_table: &mut PageTable,
        alloc: &mut StackFrameAllocator,
        mem: &mut PhysMem,
    )
        requires
            old(page_table).wf(old(mem)@),
            old(mem).wf(),
            alloc_ok(*old(alloc), *old(mem), old(page_table).tables()),
            old(alloc).free_count() >= frames_needed(old(mem)@, old(page_table).root_ppn.0, vpn.0) + old(self).frame_cost(),
            vpn.0 < VPN_LIMIT,
            mapping(old(mem)@, old(page_table).root_ppn.0, vpn.0) is None,
            old(self).map_type == MapType::Framed ==> !old(self).data_frames@.contains_key(vpn.0),
            old(self).frames_ok(*old(alloc), *old(mem), old(page_table).tables()),
        ensures
            final(page_table).root_ppn == old(page_table).root_ppn,
            final(page_table).wf(final(mem)@),
            final(mem).wf(),
            final(mem).base() == old(mem).base(),
            final(mem).count() == old(mem).count(),
            alloc_ok(*final(alloc), *final(mem), final(page_table).tables()),
            frames_kept(*old(alloc), *final(alloc), old(mem)@, final(mem)@, old(page_table).tables(), final(page_table).tables()),
            final(self).frames_ok(*final(alloc), *final(mem), final(page_table).tables()),
            final(alloc).free_count() >= old(alloc).free_count() - frames_needed(old(mem)@, old(page_table).root_ppn.0, vpn.0) - old(self).frame_cost(),
            final(self).vpn_range == old(self).vpn_range,
            final(self).map_type == old(self).map_type,
            final(self).map_per == old(self).map_per,
            mapping(final(mem)@, final(page_table).root_ppn.0, vpn.0) == Some(final(self).pte_of(vpn.0)),
            forall|x: u64| x < VPN_LIMIT && x != vpn.0 ==> #[trigger] mapping(final(mem)@, final(page_table).root_ppn.0, x) == mapping(old(mem)@, old(page_table).root_ppn.0, x),
            old(self).map_type == MapType::Identical ==> final(self).data_frames@ == old(self).data_frames@,
            old(self).map_type == MapType::Framed ==> {
                let f = final(self).data_frames@[vpn.0].ppn.0;
                &&& final(self).data_frames@ == old(self).data_frames@.insert(vpn.0, final(self).data_frames@[vpn.0])
                &&& old(alloc).is_free(f)
                &&& final(mem)@[f] == zero_page()
            },
    {
        let ghost a0 = *alloc;
        let ghost m0 = mem@;
        let ghost ts0 = page_table.tables();
        let ppn: PhyPageNum;
        match self.map_type {
            MapType::Identical => {
                ppn = PhyPageNum(vpn.0);
            },
            MapType::Framed => {
                let f = alloc.alloc_frame();
                proof {
                    lemma_alloc_takes_free(a0, *alloc, f);
                }
                let frame = FrameTracker::new(f.unwrap(), mem);
                ppn = frame.ppn;
                proof {
                    lemma_page_keys_ordered();
                    assert(!ts0.contains(ppn.0));
                    assert forall|t: u64| #[trigger] ts0.contains(t) implies mem@.dom().contains(t) && mem@[t] == m0[t] by {
                        assert(table_ok(m0, t));
                        assert(t != ppn.0);
                    }
                    lemma_same_tables(m0, mem@, page_table.root_ppn.0, ts0);
                    mem.lemma_view();
                }
                self.data_frames.insert(vpn.0, frame);
            },
        }
        let ghost a1 = *alloc;
        let ghost m1 = mem@;
        proof {
            assert forall|p: u64| #[trigger] kept_frame(a0, m0, m1, ts0, p) by {
            }
            assert(frames_kept(a0, a1, m0, m1, ts0, ts0));
            assert(alloc_ok(a1, *mem, ts0));
            lemma_pte_make(ppn.0, self.map_per.bits | FLAG_V);
        }
        page_table.build_reflect(vpn, ppn, PTEFlags::from_bits(self.map_per.bits()).unwrap(), alloc, mem);
        proof {
            lemma_frames_kept_trans(a0, a1, *alloc, m0, m1, mem@, ts0, ts0, page_table.tables());
            assert forall|v: u64| #[trigger] self.data_frames@.contains_key(v) implies frame_owned(*alloc, *mem, page_table.tables(), self.data_frames@[v].ppn.0) by {
                let f = self.data_frames@[v].ppn.0;
                if v != vpn.0 || self.map_type == MapType::Identical {
                    assert(old(self).data_frames@.contains_key(v));
                    assert(frame_owned(a0, *old(mem), ts0, f));
                    old(mem).lemma_view();
                    lemma_kept_at(a0, *alloc, m0, mem@, ts0, page_table.tables(), f);
                } else {
                    lemma_kept_at(a1, *alloc, m1, mem@, ts0, page_table.tables(), f);
                }
                mem.lemma_view();
            }
            if self.map_type == MapType::Framed {
                lemma_kept_at(a1, *alloc, m1, mem@, ts0, page_table.tables(), ppn.0);
            }
        }
    }

    /// Copies `data` into the frames of a framed area, page by page from its
    /// first page; an identical area is left alone.
    pub fn copy_data(&self, page_table: &PageTable, data: &[u8], mem: &mut PhysMem)
        requires
            page_table.wf(old(mem)@),
            old(mem).wf(),
            self.map_type == MapType::Framed ==> {
                &&& data@.len() <= self.page_count() * PAGE_SIZE
                &&& data@.len() + PAGE_SIZE <= usize::MAX
                &&& self.vpn_range.end.0 <= VPN_LIMIT
                &&& self.mapped_in(old(mem)@, page_table.root_ppn.0)
                &&& self.frames_held(*old(mem), page_table.tables())
                &&& self.frames_distinct()
            },
        ensures
            page_table.wf(final(mem)@),
            final(mem).wf(),
            final(mem).base() == old(mem).base(),
            final(mem).count() == old(mem).count(),
            forall|x: u64| #[trigger] mapping(final(mem)@, page_table.root_ppn.0, x) == mapping(old(mem)@, page_table.root_ppn.0, x),
            self.map_type == MapType::Identical ==> final(mem)@ == old(mem)@,
            self.map_type == MapType::Framed ==> {
                &&& forall|v: u64|
                    self.vpn_range.start.0 <= v < self.vpn_range.start.0 + chunk_count(data@.len() as int) ==> final(mem)@[#[trigger] self.target(v)]
                        == set_bytes(old(mem)@[self.target(v)], 0, chunk(data@, v - self.vpn_range.start.0))
                &&& forall|p: u64| #[trigger] kept_unless(old(mem)@, final(mem)@, self.copies_into(data@.len() as int, p), p)
            },
    {
        if self.map_type == MapType::Framed {
            let len = data.len();
            let ghost s = self.vpn_range.start.0;
            let ghost m0 = mem@;
            let ghost root = page_table.root_ppn.0;
            let mut current_vpn = self.vpn_range.get_start();
            let mut start: usize = 0;
            while start < len
                invariant
                    len == data@.len(),
                    len + PAGE_SIZE <= usize::MAX,
                    len <= self.page_count() * PAGE_SIZE,
                    self.map_type == MapType::Framed,
                    self.vpn_range.end.0 <= VPN_LIMIT,
                    page_table.root_ppn.0 == root,
                    s == self.vpn_range.start.0,
                    start as int == (current_vpn.0 - s) * PAGE_SIZE,
                    s <= current_vpn.0,
                    start < len + PAGE_SIZE,
                    old(mem).wf(),
                    m0 == old(mem)@,
                    mem.wf(),
                    mem.base() == old(mem).base(),
                    mem.count() == old(mem).count(),
                    page_table.wf(mem@),
                    self.mapped_in(m0, root),
                    self.frames_held(*old(mem), page_table.tables()),
                    self.frames_distinct(),
                    forall|x: u64| #[trigger] mapping(mem@, root, x) == mapping(m0, root, x),
                    forall|t: u64| #[trigger] page_table.tables().contains(t) ==> mem@[t] == m0[t],
                    forall|v: u64| s <= v < current_vpn.0 ==> mem@[#[trigger] self.target(v)] == set_bytes(m0[self.target(v)], 0, chunk(data@, v - s)),
                    forall|p: u64| #[trigger] kept_unless(m0, mem@, self.backs_before(current_vpn.0 as int, p), p),
                decreases len + PAGE_SIZE - start,
            {
                let ghost k = current_vpn.0 - s;
                proof {
                    assert(k * PAGE_SIZE < self.page_count() * PAGE_SIZE);
                    assert(k < self.page_count()) by (nonlinear_arith)
                        requires
                            k * PAGE_SIZE < self.page_count() * PAGE_SIZE,
                    ;
                    assert(self.has_page(current_vpn.0));
                    page_table.lemma_walk_ok(mem@, current_vpn.0);
                    assert(mapping(mem@, root, current_vpn.0) == mapping(m0, root, current_vpn.0));
                }
                let end = if len < start + PAGE_SIZE {
                    len
                } else {
                    start + PAGE_SIZE
                };
                let src = &data[start..end];
                let pte = page_table.vpn_to_pte(current_vpn, mem).unwrap();
                let ppn = pte.ppn();
                let ghost f = self.target(current_vpn.0);
                proof {
                    assert(mapping(m0, root, current_vpn.0) == Some(self.pte_of(current_vpn.0)));
                    assert(self.data_frames@.contains_key(current_vpn.0));
                    lemma_pte_make(f, self.map_per.bits | FLAG_V);
                    assert(ppn.0 == f);
                    mem.lemma_view();
                    old(mem).lemma_view();
                    assert(src@ == chunk(data@, k));
                }
                let ghost m1 = mem@;
                mem.write_bytes(ppn.0, 0, src);
                proof {
                    assert(!page_table.tables().contains(f));
                    assert forall|t: u64| #[trigger] page_table.tables().contains(t) implies mem@.dom().contains(t) && mem@[t] == m1[t] by {
                        assert(table_ok(m1, t));
                    }
                    lemma_same_tables(m1, mem@, root, page_table.tables());
                    assert forall|v: u64| s <= v < current_vpn.0 + 1 implies mem@[#[trigger] self.target(v)] == set_bytes(m0[self.target(v)], 0, chunk(data@, v - s)) by {
                        if v != current_vpn.0 {
                            assert(self.has_page(v));
                            assert(self.data_frames@.contains_key(v));
                            assert(self.target(v) != f);
                        } else {
                            assert(kept_unless(m0, m1, self.backs_before(current_vpn.0 as int, f), f));
                            if self.backs_before(current_vpn.0 as int, f) {
                                let w = choose|w: u64| s <= w < current_vpn.0 && #[trigger] self.target(w) == f;
                                assert(self.has_page(w));
                                assert(self.data_frames@.contains_key(w));
                            }
                        }
                    }
                    assert forall|p: u64| #[trigger] kept_unless(m0, mem@, self.backs_before(current_vpn.0 + 1, p), p) by {
                        assert(kept_unless(m0, m1, self.backs_before(current_vpn.0 as int, p), p));
                        if p == f {
                            assert(self.target(current_vpn.0) == p);
                        } else if self.backs_before(current_vpn.0 as int, p) {
                            let w = choose|w: u64| s <= w < current_vpn.0 && #[trigger] self.target(w) == p;
                            assert(self.target(w) == p);
                        }
                    }
                }
                start = start + PAGE_SIZE;
                current_vpn.step();
            }
            proof {
                let k = current_vpn.0 - s;
                assert(k == chunk_count(len as int)) by (nonlinear_arith)
                    requires
                        start as int == k * PAGE_SIZE,
                        len <= start,
                        start < len + PAGE_SIZE,
                ;
                assert forall|v: u64| s <= v < s + chunk_count(data@.len() as int) implies mem@[#[trigger] self.target(v)]
                    == set_bytes(old(mem)@[self.target(v)], 0, chunk(data@, v - s)) by {
                    assert(v < current_vpn.0);
                }
                assert forall|p: u64| #[trigger] kept_unless(old(mem)@, mem@, self.copies_into(data@.len() as int, p), p) by {
                    assert(kept_unless(m0, mem@, self.backs_before(current_vpn.0 as int, p), p));
                }
            }
        }
    }

    /// Copies, page by page, the frames of `other`, an area over the same
    /// pages, into the frames of this framed area; an identical area is
    /// left alone.
    pub fn clone_data(&self, page_table: &PageTable, other: &MapArea, mem: &mut PhysMem)
        requires
            page_table.wf(old(mem)@),
            old(mem).wf(),
            self.map_type == MapType::Framed ==> {
                &&& other.vpn_range == self.vpn_range
                &&& self.vpn_range.end.0 <= VPN_LIMIT
                &&& self.mapped_in(old(mem)@, page_table.root_ppn.0)
                &&& self.frames_held(*old(mem), page_table.tables())
                &&& self.frames_distinct()
                &&& forall|v: u64| #[trigger] other.has_page(v) ==> other.data_frames@.contains_key(v)
                &&& forall|v: u64| #[trigger] other.data_frames@.contains_key(v) ==> old(mem).has(other.data_frames@[v].ppn.0)
                &&& forall|v1: u64, v2: u64|
                    self.has_page(v1) && self.has_page(v2) ==> #[trigger] other.data_frames@[v1].ppn.0 != #[trigger] self.target(v2)
            },
        ensures
            page_table.wf(final(mem)@),
            final(mem).wf(),
            final(mem).base() == old(mem).base(),
            final(mem).count() == old(mem).count(),
            forall|x: u64| #[trigger] mapping(final(mem)@, page_table.root_ppn.0, x) == mapping(old(mem)@, page_table.root_ppn.0, x),
            self.map_type == MapType::Identical ==> final(mem)@ == old(mem)@,
            self.map_type == MapType::Framed ==> {
                &&& forall|v: u64| #[trigger] self.has_page(v) ==> final(mem)@[self.target(v)] == old(mem)@[other.data_frames@[v].ppn.0]
                &&& forall|p: u64| #[trigger] kept_unless(old(mem)@, final(mem)@, self.backs_before(self.vpn_range.end.0 as int, p), p)
            },
    {
        if self.map_type == MapType::Framed {
            proof {
                lemma_page_keys_ordered();
            }
            let ghost s = self.vpn_range.start.0;
            let ghost m0 = mem@;
            let ghost root = page_table.root_ppn.0;
            let mut iter = other.vpn_range.into_iter();
            while iter.current.0 < iter.end.0
                invariant
                    self.map_type == MapType::Framed,
                    other.vpn_range == self.vpn_range,
                    iter.end == self.vpn_range.end,
                    self.vpn_range.end.0 <= VPN_LIMIT,
                    page_table.root_ppn.0 == root,
                    s == self.vpn_range.start.0,
                    s <= iter.current.0,
                    iter.current.0 <= self.vpn_range.end.0 || iter.current.0 == s,
                    old(mem).wf(),
                    m0 == old(mem)@,
                    mem.wf(),
                    mem.base() == old(mem).base(),
                    mem.count() == old(mem).count(),
                    page_table.wf(mem@),
                    self.mapped_in(m0, root),
                    self.frames_held(*old(mem), page_table.tables()),
                    self.frames_distinct(),
                    forall|v: u64| #[trigger] other.has_page(v) ==> other.data_frames@.contains_key(v),
                    forall|v: u64| #[trigger] other.data_frames@.contains_key(v) ==> old(mem).has(other.data_frames@[v].ppn.0),
                    forall|v1: u64, v2: u64|
                        self.has_page(v1) && self.has_page(v2) ==> #[trigger] other.data_frames@[v1].ppn.0 != #[trigger] self.target(v2),
                    forall|x: u64| #[trigger] mapping(mem@, root, x) == mapping(m0, root, x),
                    forall|v: u64| s <= v < iter.current.0 ==> mem@[#[trigger] self.target(v)] == m0[other.data_frames@[v].ppn.0],
                    forall|p: u64| #[trigger] kept_unless(m0, mem@, self.backs_before(iter.current.0 as int, p), p),
                decreases self.vpn_range.end.0 - iter.current.0,
            {
                let vpn = iter.next().unwrap();
                proof {
                    assert(self.has_page(vpn.0));
                    assert(other.has_page(vpn.0));
                    page_table.lemma_walk_ok(mem@, vpn.0);
                    assert(mapping(mem@, root, vpn.0) == mapping(m0, root, vpn.0));
                    mem.lemma_view();
                    old(mem).lemma_view();
                }
                let src_frame = other.data_frames.get(&vpn.0).unwrap();
                let ghost g = src_frame.ppn.0;
                proof {
                    assert(other.data_frames@.contains_key(vpn.0));
                    assert(g == other.data_frames@[vpn.0].ppn.0);
                    assert(kept_unless(m0, mem@, self.backs_before(vpn.0 as int, g), g));
                    if self.backs_before(vpn.0 as int, g) {
                        let w = choose|w: u64| s <= w < vpn.0 && #[trigger] self.target(w) == g;
                        assert(self.has_page(w));
                        assert(other.data_frames@[vpn.0].ppn.0 != self.target(w));
                    }
                }
                let src = mem.read_bytes(src_frame.ppn.0, 0, PAGE_SIZE);
                let pte = page_table.vpn_to_pte(vpn, mem).unwrap();
                let ppn = pte.ppn();
                let ghost f = self.target(vpn.0);
                proof {
                    assert(mapping(m0, root, vpn.0) == Some(self.pte_of(vpn.0)));
                    assert(self.data_frames@.contains_key(vpn.0));
                    lemma_pte_make(f, self.map_per.bits | FLAG_V);
                    assert(ppn.0 == f);
                    assert(src@ == m0[g]);
                }
                let ghost m1 = mem@;
                mem.write_bytes(ppn.0, 0, src.as_slice());
                proof {
                    assert(!page_table.tables().contains(f));
                    assert forall|t: u64| #[trigger] page_table.tables().contains(t) implies mem@.dom().contains(t) && mem@[t] == m1[t] by {
                        assert(table_ok(m1, t));
                    }
                    lemma_same_tables(m1, mem@, root, page_table.tables());
                    assert(set_bytes(m1[f], 0, src@) =~= src@);
                    assert forall|v: u64| s <= v < vpn.0 + 1 implies mem@[#[trigger] self.target(v)] == m0[other.data_frames@[v].ppn.0] by {
                        if v != vpn.0 {
                            assert(self.has_page(v));
                            assert(self.data_frames@.contains_key(v));
                            assert(self.target(v) != f);
                        }
                    }
                    assert forall|p: u64| #[trigger] kept_unless(m0, mem@, self.backs_before(vpn.0 + 1, p), p) by {
                        assert(kept_unless(m0, m1, self.backs_before(vpn.0 as int, p), p));
                        if p == f {
                            assert(self.target(vpn.0) == p);
                        } else if self.backs_before(vpn.0 as int, p) {
                            let w = choose|w: u64| s <= w < vpn.0 && #[trigger] self.target(w) == p;
                            assert(self.target(w) == p);
                        }
                    }
                }
            }
            proof {
                assert forall|v: u64| #[trigger] self.has_page(v) implies mem@[self.target(v)] == old(mem)@[other.data_frames@[v].ppn.0] by {
                    assert(s <= v < iter.current.0);
                }
                assert forall|p: u64| #[trigger] kept_unless(old(mem)@, mem@, self.backs_before(self.vpn_range.end.0 as int, p), p) by {
                    assert(kept_unless(m0, mem@, self.backs_before(iter.current.0 as int, p), p));
                    if iter.current.0 != self.vpn_range.end.0 {
                        if self.backs_before(iter.current.0 as int, p) || self.backs_before(self.vpn_range.end.0 as int, p) {
                            let w = choose|w: u64| s <= w < iter.current.0 && #[trigger] self.target(w) == p;
                        }
                    }
                }
            }
        }
    }

    /// Unmaps page `vpn`, which must be mapped; a framed area drops the
    /// page's frame and gives it back to `alloc`.
    pub fn remove_one_vpn_from_page_table(
        &mut self,
        vpn: VirPageNum,
        page_table: &PageTable,
        alloc: &mut StackFrameAllocator,
        mem: &mut PhysMem,
    )
        requires
            page_table.wf(old(mem)@),
            old(mem).wf(),
            alloc_ok(*old(alloc), *old(mem), page_table.tables()),
            vpn.0 < VPN_LIMIT,
            mapping(old(mem)@, page_table.root_ppn.0, vpn.0) is Some,
            old(self).frames_ok(*old(alloc), *old(mem), page_table.tables()),
            old(self).frames_distinct(),
        ensures
            page_table.wf(final(mem)@),
            final(mem).wf(),
            final(mem).base() == old(mem).base(),
            final(mem).count() == old(mem).count(),
            alloc_ok(*final(alloc), *final(mem), page_table.tables()),
            final(self).frames_ok(*final(alloc), *final(mem), page_table.tables()),
            final(self).frames_distinct(),
            forall|p: u64| #[trigger] same_outside(old(mem)@, final(mem)@, page_table.tables(), p),
            final(self).vpn_range == old(self).vpn_range,
            final(self).map_type == old(self).map_type,
            final(self).map_per == old(self).map_per,
            mapping(final(mem)@, page_table.root_ppn.0, vpn.0) is None,
            forall|x: u64| x < VPN_LIMIT && x != vpn.0 ==> #[trigger] mapping(final(mem)@, page_table.root_ppn.0, x) == mapping(old(mem)@, page_table.root_ppn.0, x),
            final(alloc).current == old(alloc).current,
            final(alloc).end == old(alloc).end,
            forall|g: u64| old(alloc).is_free(g) ==> #[trigger] final(alloc).is_free(g),
            old(self).map_type == MapType::Framed ==> final(self).data_frames@ == old(self).data_frames@.remove(vpn.0),
            old(self).map_type == MapType::Framed && old(self).data_frames@.contains_key(vpn.0) ==> final(alloc).recycled@
                == old(alloc).recycled@.push(old(self).data_frames@[vpn.0].ppn.0),
            !(old(self).map_type == MapType::Framed && old(self).data_frames@.contains_key(vpn.0)) ==> *final(alloc)
                == *old(alloc),
            old(self).map_type == MapType::Identical ==> final(self).data_frames@ == old(self).data_frames@,
    {
        let ghost a0 = *alloc;
        if self.map_type == MapType::Framed {
            proof {
                lemma_page_keys_ordered();
            }
            let removed = self.data_frames.remove(&vpn.0);
            match removed {
                Some(frame) => {
                    proof {
                        assert(old(self).data_frames@.contains_key(vpn.0));
                        assert(frame_owned(a0, *old(mem), page_table.tables(), frame.ppn.0));
                        assert(!a0.recycled@.contains(frame.ppn.0));
                    }
                    alloc.dealloc(frame.ppn);
                    proof {
                        lemma_dealloc_then_alloc(a0, *alloc, frame.ppn.0);
                        old(mem).lemma_view();
                        assert forall|v: u64| #[trigger] self.data_frames@.contains_key(v) implies frame_owned(*alloc, *old(mem), page_table.tables(), self.data_frames@[v].ppn.0) by {
                            assert(old(self).data_frames@.contains_key(v));
                            assert(old(self).data_frames@[v] == self.data_frames@[v]);
                            assert(old(self).data_frames@[v].ppn.0 != old(self).data_frames@[vpn.0].ppn.0);
                        }
                        assert forall|t: u64| #[trigger] page_table.tables().contains(t) implies !alloc.is_free(t) by {
                            assert(!a0.is_free(t));
                        }
                        assert forall|g: u64| #[trigger] alloc.is_free(g) implies old(mem).has(g) && g < PPN_LIMIT by {
                            if g != frame.ppn.0 {
                                assert(a0.is_free(g));
                            }
                        }
                    }
                },
                None => {},
            }
        }
        let ghost m1 = mem@;
        let ghost mem1 = *mem;
        page_table.remove_reflect(vpn, mem);
        proof {
            mem.lemma_view();
            mem1.lemma_view();
            assert forall|v: u64| #[trigger] self.data_frames@.contains_key(v) implies frame_owned(*alloc, *mem, page_table.tables(), self.data_frames@[v].ppn.0) by {
                assert(frame_owned(*alloc, mem1, page_table.tables(), self.data_frames@[v].ppn.0));
            }
            assert forall|g: u64| #[trigger] alloc.is_free(g) implies mem.has(g) && g < PPN_LIMIT by {
                assert(mem1.has(g));
            }
        }
    }

    /// Unmaps every page of the area, which must all be mapped, in order; a
    /// framed area gives the frame of each page back.
    pub fn remove_self_from_page_table(
        &mut self,
        page_table: &PageTable,
        alloc: &mut StackFrameAllocator,
        mem: &mut PhysMem,
    )
        requires
            page_table.wf(old(mem)@),
            old(mem).wf(),
            alloc_ok(*old(alloc), *old(mem), page_table.tables()),
            old(self).vpn_range.end.0 <= VPN_LIMIT,
            forall|v: u64| #[trigger] old(self).has_page(v) ==> mapping(old(mem)@, page_table.root_ppn.0, v) is Some,
            old(self).frames_ok(*old(alloc), *old(mem), page_table.tables()),
            old(self).frames_distinct(),
        ensures
            page_table.wf(final(mem)@),
            final(mem).wf(),
            final(mem).base() == old(mem).base(),
            final(mem).count() == old(mem).count(),
            alloc_ok(*final(alloc), *final(mem), page_table.tables()),
            final(self).frames_ok(*final(alloc), *final(mem), page_table.tables()),
            final(self).frames_distinct(),
            forall|p: u64| #[trigger] same_outside(old(mem)@, final(mem)@, page_table.tables(), p),
            final(self).vpn_range == old(self).vpn_range,
            final(self).map_type == old(self).map_type,
            final(self).map_per == old(self).map_per,
            forall|v: u64| #[trigger] old(self).has_page(v) ==> mapping(final(mem)@, page_table.root_ppn.0, v) is None,
            forall|x: u64| x < VPN_LIMIT && !old(self).has_page(x) ==> #[trigger] mapping(final(mem)@, page_table.root_ppn.0, x) == mapping(old(mem)@, page_table.root_ppn.0, x),
            final(alloc).current == old(alloc).current,
            final(alloc).end == old(alloc).end,
            forall|g: u64| old(alloc).is_free(g) ==> #[trigger] final(alloc).is_free(g),
            old(self).map_type == MapType::Identical ==> final(self).data_frames@ == old(self).data_frames@ && *final(alloc) == *old(alloc),
            old(self).map_type == MapType::Framed ==> {
                &&& forall|v: u64| #[trigger] final(self).data_frames@.contains_key(v) <==> old(self).data_frames@.contains_key(v) && !old(self).has_page(v)
                &&& forall|v: u64| #[trigger] final(self).data_frames@.contains_key(v) ==> final(self).data_frames@[v] == old(self).data_frames@[v]
                &&& forall|v: u64| old(self).has_page(v) && #[trigger] old(self).data_frames@.contains_key(v) ==> final(alloc).is_free(old(self).data_frames@[v].ppn.0)
                &&& forall|g: u64| #[trigger] final(alloc).is_free(g) ==> old(alloc).is_free(g) || exists|v: u64| old(self).has_page(v) && old(self).data_frames@.contains_key(v) && old(self).data_frames@[v].ppn.0 == g
            },
    {
        let ghost a0 = *alloc;
        let ghost m0 = mem@;
        let ghost s = self.vpn_range.start.0;
        let ghost e = self.vpn_range.end.0;
        let ghost root = page_table.root_ppn.0;
        let ghost df0 = self.data_frames@;
        let mut iter = self.vpn_range.into_iter();
        proof {
            assert forall|v: u64| iter.current.0 <= v < e implies #[trigger] mapping(mem@, root, v) is Some by {
                assert(old(self).has_page(v));
            }
        }
        while iter.current.0 < iter.end.0
            invariant
                iter.end.0 == e,
                s <= iter.current.0,
                iter.current.0 <= e || iter.current.0 == s,
                e <= VPN_LIMIT,
                page_table.root_ppn.0 == root,
                self.vpn_range == old(self).vpn_range,
                self.map_type == old(self).map_type,
                self.map_per == old(self).map_per,
                page_table.wf(mem@),
                mem.wf(),
                mem.base() == old(mem).base(),
                mem.count() == old(mem).count(),
                alloc_ok(*alloc, *mem, page_table.tables()),
                alloc.current == a0.current,
                alloc.end == a0.end,
                forall|g: u64| a0.is_free(g) ==> #[trigger] alloc.is_free(g),
                self.frames_ok(*alloc, *mem, page_table.tables()),
                self.frames_distinct(),
                forall|p: u64| #[trigger] same_outside(m0, mem@, page_table.tables(), p),
                forall|v: u64| s <= v < iter.current.0 ==> #[trigger] mapping(mem@, root, v) is None,
                forall|v: u64| iter.current.0 <= v < e ==> #[trigger] mapping(mem@, root, v) is Some,
                forall|x: u64| x < VPN_LIMIT && !(s <= x < iter.current.0) ==> #[trigger] mapping(mem@, root, x) == mapping(m0, root, x),
                self.map_type == MapType::Identical ==> self.data_frames@ == df0 && *alloc == a0,
                self.map_type == MapType::Framed ==> {
                    &&& forall|v: u64| #[trigger] self.data_frames@.contains_key(v) <==> df0.contains_key(v) && !(s <= v < iter.current.0)
                    &&& forall|v: u64| #[trigger] self.data_frames@.contains_key(v) ==> self.data_frames@[v] == df0[v]
                    &&& forall|v: u64| s <= v < iter.current.0 && #[trigger] df0.contains_key(v) ==> alloc.is_free(df0[v].ppn.0)
                    &&& forall|g: u64| #[trigger] alloc.is_free(g) ==> a0.is_free(g) || exists|v: u64| s <= v < iter.current.0 && df0.contains_key(v) && df0[v].ppn.0 == g
                },
            decreases e - iter.current.0,
        {
            let ghost cur = iter.current.0;
            let vpn = iter.next().unwrap();
            let ghost a1 = *alloc;
            let ghost m1 = mem@;
            let ghost df1 = self.data_frames@;
            assert(mapping(mem@, root, vpn.0) is Some);
            self.remove_one_vpn_from_page_table(vpn, page_table, alloc, mem);
            proof {
                assert forall|p: u64| #[trigger] same_outside(m0, mem@, page_table.tables(), p) by {
                    assert(same_outside(m0, m1, page_table.tables(), p));
                    assert(same_outside(m1, mem@, page_table.tables(), p));
                }
                if self.map_type == MapType::Framed {
                    assert forall|v: u64| s <= v < iter.current.0 && #[trigger] df0.contains_key(v) implies alloc.is_free(df0[v].ppn.0) by {
                        if v != vpn.0 {
                            assert(s <= v < cur);
                            assert(a1.is_free(df0[v].ppn.0));
                        } else {
                            assert(df1.contains_key(v));
                            assert(df1[v] == df0[v]);
                            let f = df0[v].ppn.0;
                            assert(alloc.recycled@ == a1.recycled@.push(f));
                            assert(alloc.recycled@[alloc.recycled@.len() - 1] == f);
                            assert(alloc.recycled@.contains(f));
                        }
                    }
                    assert forall|g: u64| #[trigger] alloc.is_free(g) implies a0.is_free(g) || exists|v: u64| s <= v < iter.current.0 && df0.contains_key(v) && df0[v].ppn.0 == g by {
                        if !a1.is_free(g) {
                            assert(df1.contains_key(vpn.0));
                            assert(df0.contains_key(vpn.0) && df0[vpn.0].ppn.0 == g);
                        } else if !a0.is_free(g) {
                            let w = choose|v: u64| s <= v < cur && df0.contains_key(v) && df0[v].ppn.0 == g;
                            assert(s <= w < iter.current.0);
                        }
                    }
                }
            }
        }
        proof {
            if self.map_type == MapType::Framed {
                assert forall|g: u64| #[trigger] alloc.is_free(g) implies a0.is_free(g) || exists|v: u64| old(self).has_page(v) && df0.contains_key(v) && df0[v].ppn.0 == g by {
                    if !a0.is_free(g) {
                        let w = choose|v: u64| s <= v < iter.current.0 && df0.contains_key(v) && df0[v].ppn.0 == g;
                        assert(old(self).has_page(w));
                    }
                }
                assert forall|v: u64| old(self).has_page(v) && #[trigger] df0.contains_key(v) implies alloc.is_free(df0[v].ppn.0) by {
                    assert(s <= v < iter.current.0);
                }
                assert forall|v: u64| #[trigger] self.data_frames@.contains_key(v) <==> df0.contains_key(v) && !old(self).has_page(v) by {
                    if s <= v < iter.current.0 {
                        assert(old(self).has_page(v));
                    }
                }
            }
        }
    }

    /// Maps every page of the area in `page_table`, in order; for a framed
    /// area each page gets a fresh zeroed frame of its own.
    pub fn reflect_self_to_page_table(
        &mut self,
        page_table: &mut PageTable,
        alloc: &mut StackFrameAllocator,
        mem: &mut PhysMem,
    )
        requires
            old(page_table).wf(old(mem)@),
            old(mem).wf(),
            alloc_ok(*old(alloc), *old(mem), old(page_table).tables()),
            old(self).vpn_range.end.0 <= VPN_LIMIT,
            old(alloc).free_count() >= old(self).frames_in(old(mem)@, old(page_table).root_ppn.0),
            forall|v: u64| #[trigger] old(self).has_page(v) ==> mapping(old(mem)@, old(page_table).root_ppn.0, v) is None,
            old(self).map_type == MapType::Framed ==> forall|v: u64| #[trigger] old(self).has_page(v) ==> !old(self).data_frames@.contains_key(v),
            old(self).frames_ok(*old(alloc), *old(mem), old(page_table).tables()),
            old(self).frames_distinct(),
        ensures
            final(page_table).root_ppn == old(page_table).root_ppn,
            final(page_table).wf(final(mem)@),
            final(mem).wf(),
            final(mem).base() == old(mem).base(),
            final(mem).count() == old(mem).count(),
            alloc_ok(*final(alloc), *final(mem), final(page_table).tables()),
            frames_kept(*old(alloc), *final(alloc), old(mem)@, final(mem)@, old(page_table).tables(), final(page_table).tables()),
            final(self).frames_ok(*final(alloc), *final(mem), final(page_table).tables()),
            final(self).frames_distinct(),
            final(alloc).free_count() >= old(alloc).free_count() - old(self).frames_in(old(mem)@, old(page_table).root_ppn.0),
            final(self).vpn_range == old(self).vpn_range,
            final(self).map_type == old(self).map_type,
            final(self).map_per == old(self).map_per,
            forall|v: u64| #[trigger] final(self).has_page(v) ==> mapping(final(mem)@, final(page_table).root_ppn.0, v) == Some(final(self).pte_of(v)),
            forall|x: u64| x < VPN_LIMIT && !old(self).has_page(x) ==> #[trigger] mapping(final(mem)@, final(page_table).root_ppn.0, x) == mapping(old(mem)@, old(page_table).root_ppn.0, x),
            old(self).map_type == MapType::Identical ==> final(self).data_frames@ == old(self).data_frames@,
            old(self).map_type == MapType::Framed ==> final(self).fresh_frames(
                old(self).data_frames@,
                *old(alloc),
                final(mem)@,
                old(self).vpn_range.start.0,
                old(self).vpn_range.end.0,
            ),
    {
        let ghost a0 = *alloc;
        let ghost m0 = mem@;
        let ghost ts0 = page_table.tables();
        let ghost s = self.vpn_range.start.0;
        let ghost e = self.vpn_range.end.0;
        let ghost root = page_table.root_ppn.0;
        let mut iter = self.vpn_range.into_iter();
        proof {
            assert forall|v: u64| iter.current.0 <= v < e implies #[trigger] mapping(mem@, root, v) is None by {
                assert(old(self).has_page(v));
            }
            if self.map_type == MapType::Framed {
                assert forall|v: u64| iter.current.0 <= v < e implies !#[trigger] self.data_frames@.contains_key(v) by {
                    assert(old(self).has_page(v));
                }
            }
        }
        while iter.current.0 < iter.end.0
            invariant
                iter.end.0 == e,
                s == old(self).vpn_range.start.0,
                e == old(self).vpn_range.end.0,
                s <= iter.current.0,
                iter.current.0 <= e || iter.current.0 == s,
                e <= VPN_LIMIT,
                self.vpn_range == old(self).vpn_range,
                self.map_type == old(self).map_type,
                self.map_per == old(self).map_per,
                page_table.root_ppn.0 == root,
                page_table.wf(mem@),
                mem.wf(),
                mem.base() == old(mem).base(),
                mem.count() == old(mem).count(),
                alloc_ok(*alloc, *mem, page_table.tables()),
                iter.current.0 == s ==> mem@ == m0,
                iter.current.0 == s ==> alloc.free_count() >= old(self).frames_in(m0, root),
                iter.current.0 == s ==> alloc.free_count() == a0.free_count(),
                iter.current.0 > s ==> alloc.free_count() >= self.frames_left(iter.current.0),
                iter.current.0 > s ==> alloc.free_count() - self.frames_left(iter.current.0) >= a0.free_count() - old(self).frames_in(m0, root),
                frames_kept(a0, *alloc, m0, mem@, ts0, page_table.tables()),
                self.frames_ok(*alloc, *mem, page_table.tables()),
                self.frames_distinct(),
                forall|v: u64| s <= v < iter.current.0 ==> #[trigger] mapping(mem@, root, v) == Some(self.pte_of(v)),
                forall|v: u64| iter.current.0 <= v < e ==> #[trigger] mapping(mem@, root, v) is None,
                forall|x: u64| x < VPN_LIMIT && !(s <= x < iter.current.0) ==> #[trigger] mapping(mem@, root, x) == mapping(m0, root, x),
                self.map_type == MapType::Identical ==> self.data_frames@ == old(self).data_frames@,
                self.map_type == MapType::Framed ==> forall|v: u64| iter.current.0 <= v < e ==> !#[trigger] self.data_frames@.contains_key(v),
                self.map_type == MapType::Framed ==> self.fresh_frames(old(self).data_frames@, a0, mem@, s, iter.current.0),
            decreases e - iter.current.0,
        {
            let ghost cur = iter.current.0;
            let vpn = iter.next().unwrap();
            let ghost a1 = *alloc;
            let ghost m1 = mem@;
            let ghost mem1 = *mem;
            let ghost ts1 = page_table.tables();
            let ghost before = self.data_frames@;
            proof {
                if self.map_type == MapType::Framed {
                    assert(!self.data_frames@.contains_key(vpn.0));
                }
            }
            proof {
                assert(vpn.0 == cur);
                if cur > s {
                    assert(mapping(m1, root, (cur - 1) as u64) == Some(self.pte_of((cur - 1) as u64)));
                    lemma_tables_step(m1, root, s, cur, e);
                    assert(self.frames_left(cur) >= frames_needed(m1, root, cur) + self.frame_cost() + self.frames_left((cur + 1) as u64));
                } else {
                    lemma_first_step(m1, root, s, e);
                    lemma_tables_step(m1, root, s, cur, e);
                    assert(old(self).frames_in(m0, root) == frames_needed(m1, root, cur) + self.frame_cost() + self.frames_left((cur + 1) as u64));
                }
            }
            self.reflect_one_vpn_to_page_table(vpn, page_table, alloc, mem);
            proof {
                lemma_frames_kept_trans(a0, a1, *alloc, m0, m1, mem@, ts0, ts1, page_table.tables());
                if self.map_type == MapType::Framed {
                    let fv = self.data_frames@[vpn.0].ppn.0;
                    assert(!before.contains_key(vpn.0));
                    assert(self.data_frames@.contains_key(vpn.0));
                    assert(frame_owned(*alloc, *mem, page_table.tables(), fv));
                    assert forall|v1: u64, v2: u64|
                        #![trigger self.data_frames@[v1], self.data_frames@[v2]]
                        self.data_frames@.contains_key(v1) && self.data_frames@.contains_key(v2) && v1 != v2
                            implies self.data_frames@[v1].ppn.0 != self.data_frames@[v2].ppn.0 by {
                        if v1 == vpn.0 {
                            assert(before.contains_key(v2));
                            assert(!a1.is_free(before[v2].ppn.0));
                        } else if v2 == vpn.0 {
                            assert(before.contains_key(v1));
                            assert(!a1.is_free(before[v1].ppn.0));
                        } else {
                            assert(before[v1] == self.data_frames@[v1]);
                            assert(before[v2] == self.data_frames@[v2]);
                        }
                    }
                    assert forall|v: u64| s <= v < iter.current.0 implies a0.is_free(#[trigger] self.data_frames@[v].ppn.0)
                        && mem@[self.data_frames@[v].ppn.0] == zero_page() by {
                        if v != vpn.0 {
                            let f = self.data_frames@[v].ppn.0;
                            assert(before[v] == self.data_frames@[v]);
                            assert(before.contains_key(v));
                            assert(frame_owned(a1, mem1, ts1, f));
                            assert(m1[f] == zero_page());
                            mem1.lemma_view();
                            lemma_kept_at(a1, *alloc, m1, mem@, ts1, page_table.tables(), f);
                        } else {
                            if !a0.is_free(fv) {
                                assert(a1.is_free(fv));
                            }
                        }
                    }
                }
            }
        }
    }
}

/// An address space: a page table and the areas mapped in it.
pub struct MemorySet {
    pub page_table: PageTable,
    pub areas: Vec<MapArea>,
}

impl MemorySet {
    /// The root of the page table.
    pub open spec fn root(&self) -> u64 {
        self.page_table.root_ppn.0
    }

    /// No page lies in two areas.
    pub open spec fn areas_disjoint(&self) -> bool {
        forall|i: int, j: int, v: u64|
            0 <= i < self.areas@.len() && 0 <= j < self.areas@.len() && i != j && #[trigger] self.areas@[i].has_page(v)
                ==> !#[trigger] self.areas@[j].has_page(v)
    }

    /// No frame is owned by two areas.
    pub open spec fn frames_apart(&self) -> bool {
        forall|i: int, j: int, v1: u64, v2: u64|
            0 <= i < self.areas@.len() && 0 <= j < self.areas@.len() && i != j
                && #[trigger] self.areas@[i].data_frames@.contains_key(v1) && #[trigger] self.areas@[j].data_frames@.contains_key(v2)
                ==> self.areas@[i].data_frames@[v1].ppn.0 != self.areas@[j].data_frames@[v2].ppn.0
    }

    /// Area `i` is mapped as it says and owns its frames.
    pub open spec fn area_ok(&self, i: int, a: StackFrameAllocator, mem: PhysMem) -> bool {
        let area = self.areas@[i];
        &&& area.frames_ok(a, mem, self.page_table.tables())
        &&& area.frames_distinct()
        &&& area.mapped_in(mem@, self.root())
        &&& area.vpn_range.end.0 <= VPN_LIMIT
    }

    /// The page table is well formed in `mem`, `a` hands out only frames
    /// nobody owns, and every area is mapped and owns its frames alone.
    pub open spec fn wf(&self, a: StackFrameAllocator, mem: PhysMem) -> bool {
        &&& mem.wf()
        &&& self.page_table.wf(mem@)
        &&& alloc_ok(a, mem, self.page_table.tables())
        &&& forall|i: int| 0 <= i < self.areas@.len() ==> #[trigger] self.area_ok(i, a, mem)
        &&& self.areas_disjoint()
        &&& self.frames_apart()
    }

    /// Maps every page of `map_area`, a fresh area, copies `init_data` into
    /// its frames when it is framed, and adds it to the areas.
    pub fn push_area(
        &mut self,
        map_area: MapArea,
        init_data: Option<&[u8]>,
        alloc: &mut StackFrameAllocator,
        mem: &mut PhysMem,
    )
        requires
            old(self).wf(*old(alloc), *old(mem)),
            map_area.data_frames@ == Map::<u64, FrameTracker>::empty(),
            map_area.vpn_range.end.0 <= VPN_LIMIT,
            old(alloc).free_count() >= map_area.frames_in(old(mem)@, old(self).root()),
            forall|v: u64| #[trigger] map_area.has_page(v) ==> mapping(old(mem)@, old(self).root(), v) is None,
            map_area.map_type == MapType::Framed ==> match init_data {
                Some(d) => d@.len() <= map_area.page_count() * PAGE_SIZE && d@.len() + PAGE_SIZE <= usize::MAX,
                None => true,
            },
        ensures
            final(self).wf(*final(alloc), *final(mem)),
            final(self).root() == old(self).root(),
            final(self).areas@.len() == old(self).areas@.len() + 1,
            forall|i: int| 0 <= i < old(self).areas@.len() ==> #[trigger] final(self).areas@[i] == old(self).areas@[i],
            final(self).areas@.last().vpn_range == map_area.vpn_range,
            final(self).areas@.last().map_type == map_area.map_type,
            final(self).areas@.last().map_per == map_area.map_per,
            map_area.map_type == MapType::Framed ==> forall|v: u64| #[trigger] map_area.has_page(v) ==> {
                let f = final(self).areas@.last().data_frames@[v].ppn.0;
                &&& old(alloc).is_free(f)
                &&& final(mem)@[f] == initial_page(
                    match init_data {
                        Some(d) => Some(d@),
                        None => None,
                    },
                    v - map_area.vpn_range.start.0,
                )
            },
            forall|x: u64| x < VPN_LIMIT && !map_area.has_page(x) ==> #[trigger] mapping(final(mem)@, final(self).root(), x) == mapping(old(mem)@, old(self).root(), x),
            frames_kept(*old(alloc), *final(alloc), old(mem)@, final(mem)@, old(self).page_table.tables(), final(self).page_table.tables()),
            final(alloc).free_count() >= old(alloc).free_count() - map_area.frames_in(old(mem)@, old(self).root()),
            final(mem).base() == old(mem).base(),
            final(mem).count() == old(mem).count(),
            forall|v: u64| #[trigger] final(self).areas@.last().data_frames@.contains_key(v) ==> map_area.has_page(v)
                && old(alloc).is_free(final(self).areas@.last().data_frames@[v].ppn.0),
    {
        let ghost a0 = *alloc;
        let ghost m0 = mem@;
        let ghost mem0 = *mem;
        let ghost ts0 = self.page_table.tables();
        let ghost root = self.root();
        let mut map_area = map_area;
        let ghost fresh = map_area;
        map_area.reflect_self_to_page_table(&mut self.page_table, alloc, mem);
        let ghost m1 = mem@;
        let ghost mem1 = *mem;
        proof {
            mem.lemma_view();
            mem0.lemma_view();
            assert forall|v: u64| #[trigger] map_area.has_page(v) implies mapping(m1, root, v) == Some(map_area.pte_of(v))
                && (map_area.map_type == MapType::Framed ==> map_area.data_frames@.contains_key(v)) by {
                assert(fresh.has_page(v));
            }
            assert(map_area.mapped_in(m1, root));
            assert forall|v: u64| #[trigger] map_area.data_frames@.contains_key(v) implies {
                let f = map_area.data_frames@[v].ppn.0;
                mem.has(f) && !self.page_table.tables().contains(f) && f < PPN_LIMIT
            } by {
                assert(frame_owned(*alloc, *mem, self.page_table.tables(), map_area.data_frames@[v].ppn.0));
            }
        }
        match init_data {
            Some(data) => {
                map_area.copy_data(&self.page_table, data, mem);
            },
            None => {},
        }
        let ghost m2 = mem@;
        proof {
            mem.lemma_view();
            // The copy touched only frames of the new area, which were free
            // before and are no table.
            assert forall|x: u64| #[trigger] mapping(m2, root, x) == mapping(m1, root, x) by {
            }
        }
        self.areas.push(map_area);
        proof {
            let n = old(self).areas@.len();
            let ts = self.page_table.tables();
            assert(self.areas@[n as int] == map_area);
            // frames of the new area were free before
            assert forall|v: u64| #[trigger] map_area.data_frames@.contains_key(v) implies a0.is_free(map_area.data_frames@[v].ppn.0) by {
                if map_area.map_type == MapType::Framed {
                    assert(fresh.has_page(v));
                }
            }
            // old areas
            assert forall|i: int| 0 <= i < self.areas@.len() implies #[trigger] self.area_ok(i, *alloc, *mem) by {
                if i < n {
                    let ar = self.areas@[i];
                    assert(ar == old(self).areas@[i]);
                    assert(old(self).area_ok(i, a0, mem0));
                    assert forall|v: u64| #[trigger] ar.data_frames@.contains_key(v) implies frame_owned(*alloc, *mem, ts, ar.data_frames@[v].ppn.0) by {
                        let f = ar.data_frames@[v].ppn.0;
                        assert(frame_owned(a0, mem0, ts0, f));
                        lemma_kept_at(a0, *alloc, m0, m1, ts0, ts, f);
                    }
                    assert forall|v: u64| #[trigger] ar.has_page(v) implies mapping(mem@, root, v) == Some(ar.pte_of(v))
                        && (ar.map_type == MapType::Framed ==> ar.data_frames@.contains_key(v)) by {
                        assert(mapping(m0, root, v) == Some(ar.pte_of(v)));
                        if map_area.has_page(v) {
                            assert(fresh.has_page(v));
                        }
                        assert(v < VPN_LIMIT);
                        assert(mapping(m2, root, v) == mapping(m1, root, v));
                    }
                } else {
                    assert forall|v: u64| #[trigger] map_area.has_page(v) implies mapping(mem@, root, v) == Some(map_area.pte_of(v))
                        && (map_area.map_type == MapType::Framed ==> map_area.data_frames@.contains_key(v)) by {
                        assert(mapping(m2, root, v) == mapping(m1, root, v));
                    }
                    assert forall|v: u64| #[trigger] map_area.data_frames@.contains_key(v) implies frame_owned(*alloc, *mem, ts, map_area.data_frames@[v].ppn.0) by {
                    }
                }
            }
            let len = match init_data {
                Some(d) => d@.len() as int,
                None => 0int,
            };
            // a frame the copy wrote is a frame of the new area
            assert forall|p: u64| map_area.map_type == MapType::Framed && #[trigger] map_area.copies_into(len, p) implies a0.is_free(p) by {
                let w = choose|w: u64| map_area.vpn_range.start.0 <= w < map_area.vpn_range.start.0 + chunk_count(len) && #[trigger] map_area.target(w) == p;
                {
                    assert(w - map_area.vpn_range.start.0 < chunk_count(len));
                    if !map_area.has_page(w) {
                        assert(len <= map_area.page_count() * PAGE_SIZE);
                        assert(chunk_count(len) <= map_area.page_count()) by (nonlinear_arith)
                            requires
                                len <= map_area.page_count() * PAGE_SIZE,
                                chunk_count(len) == (len + PAGE_SIZE - 1) / (PAGE_SIZE as int),
                                map_area.page_count() >= 0,
                        ;
                    }
                    assert(map_area.has_page(w));
                    assert(fresh.has_page(w));
                    assert(map_area.data_frames@.contains_key(w));
                }
            }
            assert forall|p: u64| #[trigger] kept_frame(a0, m0, mem@, ts0, p) by {
                if m0.dom().contains(p) && !ts0.contains(p) && !a0.is_free(p) {
                    lemma_kept_at(a0, *alloc, m0, m1, ts0, ts, p);
                    if map_area.map_type == MapType::Framed {
                        match init_data {
                            Some(d) => {
                                assert(kept_unless(m1, m2, map_area.copies_into(d@.len() as int, p), p));
                                assert(len == d@.len());
                                if map_area.copies_into(d@.len() as int, p) {
                                    assert(a0.is_free(p));
                                }
                            },
                            None => {},
                        }
                    }
                }
            }
            if map_area.map_type == MapType::Framed {
                assert forall|v: u64| #[trigger] fresh.has_page(v) implies {
                    let f = self.areas@.last().data_frames@[v].ppn.0;
                    &&& a0.is_free(f)
                    &&& mem@[f] == initial_page(
                        match init_data {
                            Some(d) => Some(d@),
                            None => None,
                        },
                        v - fresh.vpn_range.start.0,
                    )
                } by {
                    assert(map_area.has_page(v));
                    let f = map_area.data_frames@[v].ppn.0;
                    assert(m1[f] == zero_page());
                    match init_data {
                        Some(d) => {
                            let k = v - map_area.vpn_range.start.0;
                            if k < chunk_count(d@.len() as int) {
                                assert(map_area.target(v) == f);
                            } else {
                                assert(kept_unless(m1, m2, map_area.copies_into(d@.len() as int, f), f));
                                if map_area.copies_into(d@.len() as int, f) {
                                    let w = choose|w: u64| map_area.vpn_range.start.0 <= w < map_area.vpn_range.start.0 + chunk_count(d@.len() as int) && #[trigger] map_area.target(w) == f;
                                    assert(map_area.has_page(w));
                                    assert(w != v);
                                    assert(map_area.data_frames@.contains_key(w));
                                    assert(map_area.data_frames@.contains_key(v));
                                }
                            }
                        },
                        None => {},
                    }
                }
            }
            assert forall|i: int, j: int, v: u64|
                0 <= i < self.areas@.len() && 0 <= j < self.areas@.len() && i != j && #[trigger] self.areas@[i].has_page(v)
                    implies !#[trigger] self.areas@[j].has_page(v) by {
                if i == n {
                    assert(fresh.has_page(v));
                    assert(old(self).area_ok(j, a0, mem0));
                    if self.areas@[j].has_page(v) {
                        assert(mapping(m0, root, v) is Some);
                    }
                } else if j == n {
                    assert(old(self).area_ok(i, a0, mem0));
                    if map_area.has_page(v) {
                        assert(fresh.has_page(v));
                        assert(mapping(m0, root, v) is Some);
                    }
                } else {
                    assert(old(self).areas_disjoint());
                }
            }
            assert forall|i: int, j: int, v1: u64, v2: u64|
                0 <= i < self.areas@.len() && 0 <= j < self.areas@.len() && i != j
                    && #[trigger] self.areas@[i].data_frames@.contains_key(v1) && #[trigger] self.areas@[j].data_frames@.contains_key(v2)
                    implies self.areas@[i].data_frames@[v1].ppn.0 != self.areas@[j].data_frames@[v2].ppn.0 by {
                if i == n {
                    assert(old(self).area_ok(j, a0, mem0));
                    assert(frame_owned(a0, mem0, ts0, self.areas@[j].data_frames@[v2].ppn.0));
                } else if j == n {
                    assert(old(self).area_ok(i, a0, mem0));
                    assert(frame_owned(a0, mem0, ts0, self.areas@[i].data_frames@[v1].ppn.0));
                } else {
                    assert(old(self).frames_apart());
                }
            }
        }
    }

    /// Maps the trampoline page to the page of `trampoline_pa`, the
    /// physical address of the trampoline code; readable and executable.
    pub fn map_trampoline(&mut self, trampoline_pa: u64, alloc: &mut StackFrameAllocator, mem: &mut PhysMem)
        requires
            old(self).wf(*old(alloc), *old(mem)),
            (trampoline_pa & PA_MASK) % (PAGE_SIZE as u64) == 0,
            old(alloc).free_count() >= frames_needed(old(mem)@, old(self).root(), trampoline_vpn()),
            mapping(old(mem)@, old(self).root(), trampoline_vpn()) is None,
            forall|i: int| 0 <= i < old(self).areas@.len() ==> !(#[trigger] old(self).areas@[i]).has_page(trampoline_vpn()),
        ensures
            final(self).wf(*final(alloc), *final(mem)),
            final(self).root() == old(self).root(),
            final(self).areas@ == old(self).areas@,
            mapping(final(mem)@, final(self).root(), trampoline_vpn()) == Some(trampoline_pte(trampoline_pa)),
            forall|x: u64| x < VPN_LIMIT && x != trampoline_vpn() ==> #[trigger] mapping(final(mem)@, final(self).root(), x) == mapping(old(mem)@, old(self).root(), x),
            frames_kept(*old(alloc), *final(alloc), old(mem)@, final(mem)@, old(self).page_table.tables(), final(self).page_table.tables()),
            final(alloc).free_count() >= old(alloc).free_count() - frames_needed(old(mem)@, old(self).root(), trampoline_vpn()),
            final(mem).base() == old(mem).base(),
            final(mem).count() == old(mem).count(),
    {
        let ghost a0 = *alloc;
        let ghost m0 = mem@;
        let ghost mem0 = *mem;
        let ghost ts0 = self.page_table.tables();
        let ghost root = self.root();
        let va = VirAddr::from(TRAMPOLINE);
        let vpn: VirPageNum = VirPageNum::from(va);
        let pa = PhyAddr::from(trampoline_pa);
        let ppn = PhyPageNum::from_aligned(pa);
        proof {
            lemma_layout_constants();
            assert((trampoline_pa & 0x00ff_ffff_ffff_ffff) / 4096 < 0x1000_0000_0000) by { lemma_low_bits(trampoline_pa); }
            assert(vpn.0 == trampoline_vpn());
        }
        let flags = PTEFlags::from_bits_truncate(PERM_R).union(PTEFlags::from_bits_truncate(PERM_X));
        self.page_table.build_reflect(vpn, ppn, flags, alloc, mem);
        proof {
            let ts = self.page_table.tables();
            let fb = flags.bits;
            assert(fb | FLAG_V == PERM_R | PERM_X | FLAG_V) by (bit_vector)
                requires
                    fb == PERM_R | PERM_X,
            ;
            mem.lemma_view();
            mem0.lemma_view();
            assert forall|i: int| 0 <= i < self.areas@.len() implies #[trigger] self.area_ok(i, *alloc, *mem) by {
                let ar = self.areas@[i];
                assert(old(self).area_ok(i, a0, mem0));
                assert forall|v: u64| #[trigger] ar.data_frames@.contains_key(v) implies frame_owned(*alloc, *mem, ts, ar.data_frames@[v].ppn.0) by {
                    let f = ar.data_frames@[v].ppn.0;
                    assert(frame_owned(a0, mem0, ts0, f));
                    lemma_kept_at(a0, *alloc, m0, mem@, ts0, ts, f);
                }
                assert forall|v: u64| #[trigger] ar.has_page(v) implies mapping(mem@, root, v) == Some(ar.pte_of(v))
                    && (ar.map_type == MapType::Framed ==> ar.data_frames@.contains_key(v)) by {
                    assert(mapping(m0, root, v) == Some(ar.pte_of(v)));
                    assert(v < VPN_LIMIT);
                }
            }
        }
    }

    /// Gives the frames of the address space back to `alloc`, as dropping
    /// it does: the areas are unmapped from the last to the first, each
    /// giving back the frames of its pages (`remove_self_from_page_table`),
    /// then every table frame that `alloc` has handed out is given back. No
    /// other frame becomes free, and no free frame stops being free.
    pub fn release(self, alloc: &mut StackFrameAllocator, mem: &mut PhysMem)
        requires
            self.wf(*old(alloc), *old(mem)),
        ensures
            final(mem).wf(),
            final(mem).base() == old(mem).base(),
            final(mem).count() == old(mem).count(),
            final(alloc).wf(),
            final(alloc).current == old(alloc).current,
            forall|p: u64| #[trigger] same_outside(old(mem)@, final(mem)@, self.page_table.tables(), p),
            forall|g: u64| old(alloc).is_free(g) ==> #[trigger] final(alloc).is_free(g),
            forall|i: int, v: u64|
                0 <= i < self.areas@.len() && #[trigger] self.areas@[i].has_page(v) && self.areas@[i].map_type == MapType::Framed
                    ==> final(alloc).is_free(self.areas@[i].data_frames@[v].ppn.0),
            forall|t: u64| #[trigger] self.page_table.tables().contains(t) && t < old(alloc).current ==> final(alloc).is_free(t),
            forall|g: u64| #[trigger] final(alloc).is_free(g) ==> old(alloc).is_free(g) || self.page_table.tables().contains(g)
                || exists|i: int, v: u64|
                0 <= i < self.areas@.len() && self.areas@[i].has_page(v) && self.areas@[i].data_frames@.contains_key(v)
                    && self.areas@[i].data_frames@[v].ppn.0 == g,
    {
        let ghost a0 = *alloc;
        let ghost orig = self.areas@;
        let ghost pt0 = self.page_table;
        let ghost ts = pt0.tables();
        let ghost root = pt0.root_ppn.0;
        let mut ms = self;
        while ms.areas.len() > 0
            invariant
                ms.page_table == pt0,
                ts == ms.page_table.tables(),
                root == ms.page_table.root_ppn.0,
                ms.areas@.len() <= orig.len(),
                forall|i: int| 0 <= i < ms.areas@.len() ==> #[trigger] ms.areas@[i] == orig[i],
                ms.page_table.wf(mem@),
                mem.wf(),
                mem.base() == old(mem).base(),
                mem.count() == old(mem).count(),
                alloc_ok(*alloc, *mem, ts),
                alloc.current == a0.current,
                ms.areas_disjoint(),
                ms.frames_apart(),
                forall|i: int| 0 <= i < ms.areas@.len() ==> #[trigger] ms.area_ok(i, *alloc, *mem),
                forall|g: u64| a0.is_free(g) ==> #[trigger] alloc.is_free(g),
                forall|p: u64| #[trigger] same_outside(old(mem)@, mem@, ts, p),
                forall|i: int, v: u64|
                    ms.areas@.len() <= i < orig.len() && #[trigger] orig[i].has_page(v) && orig[i].data_frames@.contains_key(v)
                        && orig[i].map_type == MapType::Framed ==> alloc.is_free(orig[i].data_frames@[v].ppn.0),
                forall|g: u64| #[trigger] alloc.is_free(g) ==> a0.is_free(g) || exists|i: int, v: u64|
                    ms.areas@.len() <= i < orig.len() && orig[i].has_page(v) && orig[i].data_frames@.contains_key(v)
                        && orig[i].data_frames@[v].ppn.0 == g,
            decreases ms.areas@.len(),
        {
            let ghost n = ms.areas@.len() - 1;
            let ghost a1 = *alloc;
            let ghost m1 = mem@;
            let ghost mem1 = *mem;
            let ghost ms0 = ms;
            let mut area = ms.areas.pop().unwrap();
            proof {
                assert(area == orig[n]);
                assert(ms.areas@.len() == n);
                assert forall|i: int| 0 <= i < n implies #[trigger] ms.areas@[i] == orig[i] by {
                }
            }
            let ghost popped = area;
            proof {
                assert(ms.page_table.tables() == ts);
                assert(ms0.area_ok(n, a1, mem1));
            }
            area.remove_self_from_page_table(&ms.page_table, alloc, mem);
            proof {
                mem1.lemma_view();
                mem.lemma_view();
                assert forall|p: u64| #[trigger] same_outside(old(mem)@, mem@, ts, p) by {
                    assert(same_outside(old(mem)@, m1, ts, p));
                    assert(same_outside(m1, mem@, ts, p));
                }
                assert forall|i: int| 0 <= i < ms.areas@.len() implies #[trigger] ms.area_ok(i, *alloc, *mem) by {
                    let ar = ms.areas@[i];
                    assert(ar == orig[i]);
                    assert(ms0.areas@[i] == ar);
                    assert(ms0.area_ok(i, a1, mem1));
                    assert forall|v: u64| #[trigger] ar.data_frames@.contains_key(v) implies frame_owned(*alloc, *mem, ts, ar.data_frames@[v].ppn.0) by {
                        let f = ar.data_frames@[v].ppn.0;
                        assert(frame_owned(a1, mem1, ts, f));
                        if alloc.is_free(f) {
                            if popped.map_type == MapType::Framed {
                                let w = choose|w: u64| popped.has_page(w) && popped.data_frames@.contains_key(w) && popped.data_frames@[w].ppn.0 == f;
                                assert(f != popped.data_frames@[w].ppn.0);
                            }
                        }
                    }
                    assert forall|v: u64| #[trigger] ar.has_page(v) implies mapping(mem@, root, v) == Some(ar.pte_of(v))
                        && (ar.map_type == MapType::Framed ==> ar.data_frames@.contains_key(v)) by {
                        assert(ms0.areas@[i].has_page(v));
                        assert(ms0.areas@[n].has_page(v) ==> false);
                        assert(!popped.has_page(v));
                        assert(v < VPN_LIMIT);
                        assert(mapping(mem@, root, v) == mapping(m1, root, v));
                    }
                }
                assert forall|i: int, v: u64|
                    ms.areas@.len() <= i < orig.len() && #[trigger] orig[i].has_page(v) && orig[i].data_frames@.contains_key(v)
                        && orig[i].map_type == MapType::Framed implies alloc.is_free(orig[i].data_frames@[v].ppn.0) by {
                    if i > n {
                        assert(a1.is_free(orig[i].data_frames@[v].ppn.0));
                    }
                }
                assert forall|g: u64| #[trigger] alloc.is_free(g) implies a0.is_free(g) || exists|i: int, v: u64|
                    ms.areas@.len() <= i < orig.len() && orig[i].has_page(v) && orig[i].data_frames@.contains_key(v)
                        && orig[i].data_frames@[v].ppn.0 == g by {
                    if !a1.is_free(g) {
                        if popped.map_type == MapType::Framed {
                            let w = choose|w: u64| popped.has_page(w) && popped.data_frames@.contains_key(w) && popped.data_frames@[w].ppn.0 == g;
                            assert(orig[n].has_page(w) && orig[n].data_frames@.contains_key(w) && orig[n].data_frames@[w].ppn.0 == g);
                        }
                    }
                }
            }
        }
        let ghost a2 = *alloc;
        let mut k: usize = 0;
        while k < ms.page_table.frames.len()
            invariant
                0 <= k <= ms.page_table.frames@.len(),
                ms.page_table == pt0,
                ts == ms.page_table.tables(),
                alloc.wf(),
                alloc.current == a0.current,
                forall|g: u64| a2.is_free(g) ==> #[trigger] alloc.is_free(g),
                forall|g: u64| #[trigger] alloc.is_free(g) ==> a2.is_free(g) || ts.contains(g),
                forall|j: int| 0 <= j < k && #[trigger] ms.page_table.frames@[j].ppn.0 < a0.current ==> alloc.is_free(ms.page_table.frames@[j].ppn.0),
            decreases ms.page_table.frames@.len() - k,
        {
            let f = ms.page_table.frames[k].ppn;
            let ghost a3 = *alloc;
            if alloc.can_dealloc(f) {
                alloc.dealloc(f);
                proof {
                    crate::mem::frame::lemma_dealloc_then_alloc(a3, *alloc, f.0);
                    assert(ms.page_table.frames@[k as int].ppn.0 == f.0);
                    assert(ts.contains(f.0));
                }
            } else {
                proof {
                    if f.0 < a0.current {
                        assert(a3.recycled@.contains(f.0));
                    }
                }
            }
            k = k + 1;
        }
        let r = ms.page_table.root_ppn;
        let ghost a4 = *alloc;
        if alloc.can_dealloc(r) {
            alloc.dealloc(r);
            proof {
                crate::mem::frame::lemma_dealloc_then_alloc(a4, *alloc, r.0);
            }
        } else {
            proof {
                if r.0 < a0.current {
                    assert(a4.recycled@.contains(r.0));
                }
            }
        }
        proof {
            assert forall|i: int, v: u64|
                0 <= i < orig.len() && #[trigger] orig[i].has_page(v) && orig[i].map_type == MapType::Framed
                    implies alloc.is_free(orig[i].data_frames@[v].ppn.0) by {
                assert(self.area_ok(i, a0, *old(mem)));
                assert(orig[i].data_frames@.contains_key(v));
                assert(a2.is_free(orig[i].data_frames@[v].ppn.0));
                assert(a4.is_free(orig[i].data_frames@[v].ppn.0));
            }
            assert forall|t: u64| #[trigger] ts.contains(t) && t < a0.current implies alloc.is_free(t) by {
                if t != root {
                    let j = choose|j: int| 0 <= j < self.page_table.frames@.len() && #[trigger] self.page_table.frames@[j].ppn.0 == t;
                    assert(a4.is_free(t));
                }
            }
            assert forall|g: u64| #[trigger] alloc.is_free(g) implies a0.is_free(g) || ts.contains(g)
                || exists|i: int, v: u64|
                0 <= i < orig.len() && orig[i].has_page(v) && orig[i].data_frames@.contains_key(v) && orig[i].data_frames@[v].ppn.0 == g by {
                if !ts.contains(g) {
                    assert(a4.is_free(g));
                    assert(a2.is_free(g));
                }
            }
        }
    }

    /// The `satp` value that makes this address space the current one.
    pub fn token(&self) -> (r: u64)
        requires
            self.root() < 0x1000_0000_0000_0000,
        ensures
            r == token_of(self.root()),
    {
        (8u64 << 60u64) | self.page_table.address()
    }

    /// Adds the identical area of the pages that hold `[start, end)`, with
    /// rights `perm`.
    fn push_identical(&mut self, start: u64, end: u64, perm: MapPermission, alloc: &mut StackFrameAllocator, mem: &mut PhysMem)
        requires
            old(self).wf(*old(alloc), *old(mem)),
            span_start(start) <= span_end(end),
            span_end(end) <= VPN_LIMIT,
            span_start(start) < span_end(end) ==> old(alloc).free_count() >= frames_needed(old(mem)@, old(self).root(), span_start(start))
                + later_tables(span_start(start), span_end(end)),
            forall|v: u64| span_start(start) <= v < span_end(end) ==> #[trigger] mapping(old(mem)@, old(self).root(), v) is None,
        ensures
            final(self).wf(*final(alloc), *final(mem)),
            final(self).root() == old(self).root(),
            final(self).areas@.len() == old(self).areas@.len() + 1,
            forall|i: int| 0 <= i < old(self).areas@.len() ==> #[trigger] final(self).areas@[i] == old(self).areas@[i],
            final(self).areas@.last().vpn_range.start.0 == span_start(start),
            final(self).areas@.last().vpn_range.end.0 == span_end(end),
            final(self).areas@.last().map_type == MapType::Identical,
            final(self).areas@.last().map_per == perm,
            forall|v: u64| span_start(start) <= v < span_end(end) ==> #[trigger] mapping(final(mem)@, final(self).root(), v) == Some(pte_make(v, perm.bits | FLAG_V)),
            forall|x: u64| x < VPN_LIMIT && !(span_start(start) <= x < span_end(end)) ==> #[trigger] mapping(final(mem)@, final(self).root(), x) == mapping(old(mem)@, old(self).root(), x),
            span_start(start) < span_end(end) ==> final(alloc).free_count() >= old(alloc).free_count() - frames_needed(old(mem)@, old(self).root(), span_start(start))
                - later_tables(span_start(start), span_end(end)),
            span_start(start) >= span_end(end) ==> final(alloc).free_count() >= old(alloc).free_count(),
            final(mem).base() == old(mem).base(),
            final(mem).count() == old(mem).count(),
    {
        let s = VirAddr::from(start);
        let e = VirAddr::from(end);
        proof {
            assert(end & 0x7f_ffff_ffff < 0x80_0000_0000) by { lemma_low_bits(end); }
            assert(start & 0x7f_ffff_ffff < 0x80_0000_0000) by { lemma_low_bits(start); }
        }
        let area = MapArea::new(s, e, MapType::Identical, perm);
        proof {
            assert forall|v: u64| #[trigger] area.has_page(v) implies mapping(old(mem)@, old(self).root(), v) is None by {
            }
        }
        self.push_area(area, None, alloc, mem);
        proof {
            let last = self.areas@.last();
            assert(old(self).areas@.len() < self.areas@.len());
            assert(self.area_ok(self.areas@.len() - 1, *alloc, *mem));
            assert forall|v: u64| span_start(start) <= v < span_end(end) implies #[trigger] mapping(mem@, self.root(), v) == Some(pte_make(v, perm.bits | FLAG_V)) by {
                assert(last.has_page(v));
            }
        }
    }

    /// The kernel's address space: the trampoline, and each section of the
    /// kernel and the rest of physical memory mapped to itself, text
    /// readable and executable, read-only data readable, the rest readable
    /// and writable.
    #[verifier::rlimit(60)]
    pub fn build_kernel_space(layout: KernelLayout, alloc: &mut StackFrameAllocator, mem: &mut PhysMem) -> (r: Self)
        requires
            old(mem).wf(),
            alloc_ok(*old(alloc), *old(mem), Set::empty()),
            layout.ok(),
            old(alloc).free_count() >= layout.frames(),
        ensures
            r.wf(*final(alloc), *final(mem)),
            r.areas@.len() == 5,
            r.areas@[0].vpn_range.start.0 == span_start(layout.text_start) && r.areas@[0].vpn_range.end.0 == span_end(layout.text_end),
            r.areas@[1].vpn_range.start.0 == span_start(layout.rodata_start) && r.areas@[1].vpn_range.end.0 == span_end(layout.rodata_end),
            r.areas@[2].vpn_range.start.0 == span_start(layout.data_start) && r.areas@[2].vpn_range.end.0 == span_end(layout.data_end),
            r.areas@[3].vpn_range.start.0 == span_start(layout.bss_start_with_stack) && r.areas@[3].vpn_range.end.0 == span_end(layout.bss_end),
            r.areas@[4].vpn_range.start.0 == span_start(layout.kernel_end) && r.areas@[4].vpn_range.end.0 == span_end(layout.memory_end),
            forall|i: int| 0 <= i < 5 ==> (#[trigger] r.areas@[i]).map_type == MapType::Identical,
            r.areas@[0].map_per.bits == PERM_R | PERM_X,
            r.areas@[1].map_per.bits == PERM_R,
            r.areas@[2].map_per.bits == PERM_R | PERM_W,
            r.areas@[3].map_per.bits == PERM_R | PERM_W,
            r.areas@[4].map_per.bits == PERM_R | PERM_W,
            forall|i: int, v: u64| 0 <= i < 5 && #[trigger] r.areas@[i].has_page(v) ==> mapping(final(mem)@, r.root(), v) == Some(pte_make(v, r.areas@[i].map_per.bits | FLAG_V)),
            mapping(final(mem)@, r.root(), trampoline_vpn()) == Some(trampoline_pte(layout.trampoline)),
            forall|x: u64| x < VPN_LIMIT && x != trampoline_vpn() && (forall|i: int| 0 <= i < 5 ==> !#[trigger] r.areas@[i].has_page(x)) ==> #[trigger] mapping(final(mem)@, r.root(), x) is None,
    {
        let ghost sp = layout.spans();
        proof {
            lemma_layout_constants();
            assert forall|j: int| 0 <= j < 5 implies (#[trigger] sp[j]).1 <= VPN_LIMIT by {
                if j == 0 {
                } else if j == 1 {
                } else if j == 2 {
                } else if j == 3 {
                } else {
                }
            }
            lemma_span_need_nonneg(sp, 0);
            lemma_span_need_nonneg(sp, 1);
            lemma_span_need_nonneg(sp, 2);
            lemma_span_need_nonneg(sp, 3);
            lemma_span_need_nonneg(sp, 4);
        }
        let mut ms = Self::empty(alloc, mem);
        ms.map_trampoline(layout.trampoline, alloc, mem);
        let ghost root = ms.root();
        let ghost m1 = mem@;
        proof {
            lemma_kernel_step(mem@, root, sp, 0);
        }
        ms.push_identical(layout.text_start, layout.text_end, MapPermission::from_bits_truncate(PERM_R | PERM_X), alloc, mem);
        let ghost m2 = mem@;
        proof {
            lemma_now_mapped(mem@, root, sp, 0);
            lemma_kernel_step(mem@, root, sp, 1);
        }
        ms.push_identical(layout.rodata_start, layout.rodata_end, MapPermission::from_bits_truncate(PERM_R), alloc, mem);
        let ghost m3 = mem@;
        proof {
            lemma_still_mapped(m2, mem@, root, sp[0], sp[1]);
            lemma_now_mapped(mem@, root, sp, 1);
            lemma_kernel_step(mem@, root, sp, 2);
        }
        ms.push_identical(layout.data_start, layout.data_end, MapPermission::from_bits_truncate(PERM_R | PERM_W), alloc, mem);
        let ghost m4 = mem@;
        proof {
            lemma_still_mapped(m3, mem@, root, sp[0], sp[2]);
            lemma_still_mapped(m3, mem@, root, sp[1], sp[2]);
            lemma_now_mapped(mem@, root, sp, 2);
            lemma_kernel_step(mem@, root, sp, 3);
        }
        ms.push_identical(layout.bss_start_with_stack, layout.bss_end, MapPermission::from_bits_truncate(PERM_R | PERM_W), alloc, mem);
        let ghost m5 = mem@;
        proof {
            lemma_still_mapped(m4, mem@, root, sp[0], sp[3]);
            lemma_still_mapped(m4, mem@, root, sp[1], sp[3]);
            lemma_still_mapped(m4, mem@, root, sp[2], sp[3]);
            lemma_now_mapped(mem@, root, sp, 3);
            lemma_kernel_step(mem@, root, sp, 4);
        }
        ms.push_identical(layout.kernel_end, layout.memory_end, MapPermission::from_bits_truncate(PERM_R | PERM_W), alloc, mem);
        proof {
            lemma_layout_constants();
            assert forall|x: u64|
                x < VPN_LIMIT && x != trampoline_vpn() && (forall|i: int| 0 <= i < 5 ==> !#[trigger] ms.areas@[i].has_page(x)) implies #[trigger] mapping(mem@, ms.root(), x) is None by {
                assert(!ms.areas@[0].has_page(x));
                assert(!ms.areas@[1].has_page(x));
                assert(!ms.areas@[2].has_page(x));
                assert(!ms.areas@[3].has_page(x));
                assert(!ms.areas@[4].has_page(x));
                assert(mapping(m1, ms.root(), x) is None);
            }
        }
        ms
    }

    /// The address space of a program whose program headers are `segs` and
    /// whose file is `data`, with the trampoline at `trampoline_pa`: each
    /// loadable segment in a framed area with its bytes copied in, then a
    /// user stack one guard page above the last one, then the trap context;
    /// returns it with the top of the user stack and `entry`. `None`, with
    /// nothing changed, when the program cannot be mapped or `alloc` has
    /// fewer frames than the root table, the two tables above the trampoline
    /// page, and for each area in turn a frame per page and the tables its
    /// pages can need (`frames_from`): none for its first page when a page
    /// of its 2 MiB region is already mapped, one when only a page of its
    /// 1 GiB region is, and one for each further region it reaches.
    pub fn from_elf_segments(
        entry: u64,
        segs: &Vec<ElfSegment>,
        data: &[u8],
        trampoline_pa: u64,
        alloc: &mut StackFrameAllocator,
        mem: &mut PhysMem,
    ) -> (r: Option<(Self, u64, u64)>)
        requires
            old(mem).wf(),
            alloc_ok(*old(alloc), *old(mem), Set::empty()),
            (trampoline_pa & PA_MASK) % (PAGE_SIZE as u64) == 0,
        ensures
            r is Some <==> elf_layout_ok(segs@, data@.len() as int) && old(alloc).free_count() >= 3 + frames_from(elf_spans(segs@), 0),
            r is None ==> *final(alloc) == *old(alloc) && *final(mem) == *old(mem),
            r matches Some((ms, top, e)) ==> {
                &&& ms.wf(*final(alloc), *final(mem))
                &&& frames_kept(*old(alloc), *final(alloc), old(mem)@, final(mem)@, Set::empty(), ms.page_table.tables())
                &&& forall|a: int, v: u64| 0 <= a < ms.areas@.len() && #[trigger] ms.areas@[a].data_frames@.contains_key(v)
                    ==> old(alloc).is_free(ms.areas@[a].data_frames@[v].ppn.0)
                &&& elf_built(ms, final(mem)@, segs@, data@, trampoline_pa)
                &&& top == stack_top(segs@)
                &&& e == entry
            },
            final(mem).wf(),
            final(mem).base() == old(mem).base(),
            final(mem).count() == old(mem).count(),
    {
        let len = data.len();
        let spans = match check_layout(segs, len) {
            Some(v) => v,
            None => return None,
        };
        let ghost sp = spans@;
        let ghost ld = loads(segs@);
        proof {
            assert forall|a: int| 0 <= a < spans@.len() implies (#[trigger] spans@[a]).1 <= 0x800_0000 by {
                assert(spans@[a].1 <= 0x800_0000) by {
                    if a < ld.len() {
                        let sg = ld[a];
                        let e = (sg.virtual_addr + sg.mem_size) as u64;
                        assert(e & 0x7f_ffff_ffff < 0x80_0000_0000) by { lemma_low_bits(e); }
                    } else if a == ld.len() {
                        let t = stack_top(segs@) as u64;
                        assert(t & 0x7f_ffff_ffff < 0x80_0000_0000) by { lemma_low_bits(t); }
                    } else {
                        lemma_layout_constants();
                    }
                }
            }
        }
        let needed = spans_frames(&spans);
        let count = spans.len();
        proof {
            assert(needed <= 0x1_0000_0000_0000_0000 * 0x900_0000) by (nonlinear_arith)
                requires
                    needed <= spans@.len() * 0x900_0000,
                    spans@.len() <= 0x1_0000_0000_0000_0000,
            ;
        }
        if alloc.free_frames() < 3 + needed {
            return None;
        }
        let ghost fa0 = *alloc;
        let ghost fm0 = mem@;
        let mut ms = Self::empty(alloc, mem);
        let ghost fa1 = *alloc;
        let ghost fm1 = mem@;
        let ghost ft1 = ms.page_table.tables();
        proof {
            lemma_layout_constants();
        }
        ms.map_trampoline(trampoline_pa, alloc, mem);
        proof {
            lemma_frames_kept_trans(fa0, fa1, *alloc, fm0, fm1, mem@, Set::empty(), ft1, ms.page_table.tables());
        }
        let ghost root = ms.root();
        let mut max_end_vpn = VirPageNum(0);
        let mut i: usize = 0;
        let mut k: usize = 0;
        while i < segs.len()
            invariant
                0 <= i <= segs@.len(),
                sp == elf_spans(segs@),
                ld == loads(segs@),
                trampoline_vpn() == 0x7ff_ffff,
                data@.len() <= usize::MAX,
                spans_apart(sp),
                forall|j: int| 0 <= j < segs@.len() ==> seg_ok(#[trigger] segs@[j], data@.len() as int),
                k == loads(segs@.take(i as int)).len(),
                k <= ld.len(),
                forall|a: int| 0 <= a < k ==> #[trigger] loads(segs@.take(i as int))[a] == ld[a],
                max_end_vpn.0 == last_load_end(segs@.take(i as int)),
                ms.wf(*alloc, *mem),
                frames_kept(fa0, *alloc, fm0, mem@, Set::empty(), ms.page_table.tables()),
                forall|a: int, v: u64| 0 <= a < ms.areas@.len() && #[trigger] ms.areas@[a].data_frames@.contains_key(v)
                    ==> fa0.is_free(ms.areas@[a].data_frames@[v].ppn.0),
                ms.root() == root,
                ms.areas@.len() == k,
                forall|a: int| 0 <= a < k ==> #[trigger] area_built(ms, mem@, segs@, data@, a),
                mapping(mem@, root, trampoline_vpn()) == Some(trampoline_pte(trampoline_pa)),
                forall|x: u64|
                    x < VPN_LIMIT && x != trampoline_vpn() && (forall|a: int| 0 <= a < ms.areas@.len() ==> !#[trigger] ms.areas@[a].has_page(x))
                        ==> #[trigger] mapping(mem@, root, x) is None,
                alloc.free_count() >= frames_from(sp, k as int),
                mem.base() == old(mem).base(),
                mem.count() == old(mem).count(),
            decreases segs@.len() - i,
        {
            let seg = segs[i];
            proof {
                lemma_loads_step(segs@, i as int);
                lemma_loads_prefix(segs@, i as int + 1);
                assert(segs@.take(i as int + 1).len() == i + 1);
            }
            if seg.is_load {
                let ghost a0 = *alloc;
                let ghost mem0 = *mem;
                let ghost m0 = mem@;
                let ghost ms0 = ms;
                let ghost ts0 = ms.page_table.tables();
                proof {
                    assert(seg == segs@[i as int]);
                    assert(seg_ok(segs@[i as int], data@.len() as int));
                    assert(seg.offset + seg.file_size <= data@.len());
                    assert(seg.file_size <= span_pages(seg_span(seg)) * PAGE_SIZE);
                    assert(loads(segs@.take(i as int + 1))[k as int] == seg);
                    assert(ld[k as int] == seg);
                    assert(sp[k as int] == seg_span(seg));
                }
                let start = VirAddr::from(seg.virtual_addr);
                let end = VirAddr::from(seg.virtual_addr + seg.mem_size);
                let r = seg.readable;
                let w = seg.writable;
                let x = seg.executable;
                let bits: u8 = PERM_U | (if r { PERM_R } else { 0 }) | (if w { PERM_W } else { 0 }) | (if x { PERM_X } else { 0 });
                proof {
                    assert((16u8 | (if r { 2u8 } else { 0u8 }) | (if w { 4u8 } else { 0u8 }) | (if x { 8u8 } else { 0u8 })) & 30u8
                        == (16u8 | (if r { 2u8 } else { 0u8 }) | (if w { 4u8 } else { 0u8 }) | (if x { 8u8 } else { 0u8 }))) by (bit_vector);
                    let e = (seg.virtual_addr + seg.mem_size) as u64;
                    assert(e & 0x7f_ffff_ffff < 0x80_0000_0000) by { lemma_low_bits(e); }
                }
                let permission = MapPermission::from_bits_truncate(bits);
                let map_area = MapArea::new(start, end, MapType::Framed, permission);
                max_end_vpn = map_area.vpn_range.get_end();
                let lo = seg.offset as usize;
                let hi = (seg.offset + seg.file_size) as usize;
                let bytes = &data[lo..hi];
                proof {
                    assert forall|v: u64| #[trigger] map_area.has_page(v) implies mapping(mem@, root, v) is None by {
                        assert(v != trampoline_vpn());
                        assert forall|a: int| 0 <= a < ms.areas@.len() implies !#[trigger] ms.areas@[a].has_page(v) by {
                            assert(area_built(ms, mem@, segs@, data@, a));
                            assert(!spans_overlap(sp[a], sp[k as int]));
                        }
                    }
                    assert(map_area.page_count() == span_pages(sp[k as int]));
                    lemma_frames_from_nonneg(sp, k + 1);
                    assert(frames_from(sp, k as int) == span_pages(sp[k as int]) + span_need(sp, k as int) + frames_from(sp, k + 1));
                    assert forall|j: int| 0 <= j < k implies (#[trigger] sp[j]).1 <= VPN_LIMIT && span_mapped(mem@, root, sp[j]) by {
                        assert(area_built(ms, mem@, segs@, data@, j));
                        assert(ms.area_ok(j, *alloc, *mem));
                        assert forall|p: u64| sp[j].0 <= p < sp[j].1 implies #[trigger] mapping(mem@, root, p) is Some by {
                            assert(ms.areas@[j].has_page(p));
                        }
                    }
                    if sp[k as int].0 < sp[k as int].1 {
                        lemma_first_seen(mem@, root, sp, k as int);
                    }
                    assert(!map_area.has_page(trampoline_vpn()));
                }
                ms.push_area(map_area, Some(bytes), alloc, mem);
                proof {
                    lemma_frames_kept_trans(fa0, a0, *alloc, fm0, m0, mem@, Set::empty(), ts0, ms.page_table.tables());
                    assert forall|a: int, v: u64| 0 <= a < ms.areas@.len() && #[trigger] ms.areas@[a].data_frames@.contains_key(v)
                        implies fa0.is_free(ms.areas@[a].data_frames@[v].ppn.0) by {
                        if a < ms0.areas@.len() {
                            assert(ms.areas@[a] == ms0.areas@[a]);
                        } else {
                            assert(a0.is_free(ms.areas@[a].data_frames@[v].ppn.0));
                        }
                    }
                    let ts = ms.page_table.tables();
                    mem0.lemma_view();
                    assert forall|a: int| 0 <= a < k + 1 implies #[trigger] area_built(ms, mem@, segs@, data@, a) by {
                        if a < k {
                            let ar = ms.areas@[a];
                            assert(ar == ms0.areas@[a]);
                            assert(area_built(ms0, m0, segs@, data@, a));
                            assert(ms0.area_ok(a, a0, mem0));
                            assert forall|v: u64| #[trigger] ar.has_page(v) implies mem@[ar.target(v)] == initial_page(area_data(segs@, data@, a), v - sp[a].0) by {
                                assert(ar.data_frames@.contains_key(v));
                                assert(frame_owned(a0, mem0, ts0, ar.target(v)));
                                lemma_kept_at(a0, *alloc, m0, mem@, ts0, ts, ar.target(v));
                            }
                        } else {
                            let ar = ms.areas@[a];
                            assert(area_data(segs@, data@, a) == Some(bytes@));
                            assert(area_perm(segs@, a) == bits);
                            assert forall|v: u64| #[trigger] ar.has_page(v) implies mem@[ar.target(v)] == initial_page(area_data(segs@, data@, a), v - sp[a].0) by {
                                assert(map_area.has_page(v));
                            }
                        }
                    }
                    assert forall|xx: u64|
                        xx < VPN_LIMIT && xx != trampoline_vpn() && (forall|a: int| 0 <= a < ms.areas@.len() ==> !#[trigger] ms.areas@[a].has_page(xx))
                            implies #[trigger] mapping(mem@, root, xx) is None by {
                        assert(!ms.areas@[k as int].has_page(xx));
                        assert forall|a: int| 0 <= a < ms0.areas@.len() implies !#[trigger] ms0.areas@[a].has_page(xx) by {
                            assert(ms.areas@[a] == ms0.areas@[a]);
                        }
                    }
                    assert(loads(segs@.take(i as int + 1)).last() == seg);
                }
                k = k + 1;
            } else {
                proof {
                    assert(loads(segs@.take(i as int + 1)) == loads(segs@.take(i as int)));
                }
            }
            i = i + 1;
        }
        proof {
            assert(segs@.take(segs@.len() as int) =~= segs@);
        }
        let ghost nl: int = ld.len() as int;
        let max_end_va: VirAddr = VirAddr::from(max_end_vpn);
        let mut user_stack_btm_va: u64 = u64::from(max_end_va);
        user_stack_btm_va = user_stack_btm_va + PAGE_SIZE as u64;
        let user_stack_top_va = user_stack_btm_va + USER_STACK_SIZE;
        proof {
            assert(user_stack_btm_va == stack_bottom(segs@));
            assert(sp[nl as int] == stack_span(segs@));
            assert(sp[nl + 1] == trap_span());
            assert(user_stack_top_va & 0x7f_ffff_ffff < 0x80_0000_0000) by { lemma_low_bits(user_stack_top_va); }
        }
        let ghost a0 = *alloc;
        let ghost mem0 = *mem;
        let ghost m0 = mem@;
        let ghost ms0 = ms;
        let ghost ts0 = ms.page_table.tables();
        let stack_area = MapArea::new(
            VirAddr::from(user_stack_btm_va),
            VirAddr::from(user_stack_top_va),
            MapType::Framed,
            MapPermission::from_bits_truncate(PERM_R | PERM_W | PERM_U),
        );
        proof {
            assert(stack_area.vpn_range.start.0 == sp[nl as int].0);
            assert(stack_area.vpn_range.end.0 == sp[nl as int].1);
            assert forall|v: u64| #[trigger] stack_area.has_page(v) implies mapping(mem@, root, v) is None by {
                assert(v != trampoline_vpn());
                assert forall|a: int| 0 <= a < ms.areas@.len() implies !#[trigger] ms.areas@[a].has_page(v) by {
                    assert(area_built(ms, mem@, segs@, data@, a));
                    assert(!spans_overlap(sp[a], sp[nl as int]));
                }
            }
            lemma_frames_from_nonneg(sp, nl + 1);
            assert(frames_from(sp, nl as int) == span_pages(sp[nl as int]) + span_need(sp, nl as int) + frames_from(sp, nl + 1));
            assert forall|j: int| 0 <= j < nl implies (#[trigger] sp[j]).1 <= VPN_LIMIT && span_mapped(mem@, root, sp[j]) by {
                assert(area_built(ms, mem@, segs@, data@, j));
                assert(ms.area_ok(j, *alloc, *mem));
                assert forall|p: u64| sp[j].0 <= p < sp[j].1 implies #[trigger] mapping(mem@, root, p) is Some by {
                    assert(ms.areas@[j].has_page(p));
                }
            }
            if sp[nl as int].0 < sp[nl as int].1 {
                lemma_first_seen(mem@, root, sp, nl as int);
            }
            assert(!stack_area.has_page(trampoline_vpn()));
        }
        ms.push_area(stack_area, None, alloc, mem);
        proof {
            lemma_frames_kept_trans(fa0, a0, *alloc, fm0, m0, mem@, Set::empty(), ts0, ms.page_table.tables());
            assert forall|a: int, v: u64| 0 <= a < ms.areas@.len() && #[trigger] ms.areas@[a].data_frames@.contains_key(v)
                implies fa0.is_free(ms.areas@[a].data_frames@[v].ppn.0) by {
                if a < ms0.areas@.len() {
                    assert(ms.areas@[a] == ms0.areas@[a]);
                } else {
                    assert(a0.is_free(ms.areas@[a].data_frames@[v].ppn.0));
                }
            }
        }
        let ghost a1 = *alloc;
        let ghost mem1 = *mem;
        let ghost m1 = mem@;
        let ghost ms1 = ms;
        let ghost ts1 = ms.page_table.tables();
        proof {
            mem0.lemma_view();
            lemma_layout_constants();
            assert forall|a: int| 0 <= a < nl + 1 implies #[trigger] area_built(ms, mem@, segs@, data@, a) by {
                if a < nl {
                    let ar = ms.areas@[a];
                    assert(ar == ms0.areas@[a]);
                    assert(area_built(ms0, m0, segs@, data@, a));
                    assert(ms0.area_ok(a, a0, mem0));
                    assert forall|v: u64| #[trigger] ar.has_page(v) implies mem@[ar.target(v)] == initial_page(area_data(segs@, data@, a), v - sp[a].0) by {
                        assert(ar.data_frames@.contains_key(v));
                        assert(frame_owned(a0, mem0, ts0, ar.target(v)));
                        lemma_kept_at(a0, *alloc, m0, mem@, ts0, ms.page_table.tables(), ar.target(v));
                    }
                } else {
                    let ar = ms.areas@[a];
                    assert forall|v: u64| #[trigger] ar.has_page(v) implies mem@[ar.target(v)] == initial_page(area_data(segs@, data@, a), v - sp[a].0) by {
                        assert(stack_area.has_page(v));
                    }
                }
            }
            assert forall|v: u64| span_start(TRAP_CONTEXT) <= v < span_end(TRAMPOLINE) implies #[trigger] mapping(mem@, root, v) is None by {
                assert(v != trampoline_vpn());
                assert(!spans_overlap(sp[nl], sp[nl + 1]));
                assert(!stack_area.has_page(v));
                assert forall|a: int| 0 <= a < ms0.areas@.len() implies !#[trigger] ms0.areas@[a].has_page(v) by {
                    assert(area_built(ms0, m0, segs@, data@, a));
                    assert(!spans_overlap(sp[a], sp[nl + 1]));
                }
                assert(v < VPN_LIMIT);
                assert(mapping(mem@, root, v) == mapping(m0, root, v));
            }
            lemma_layout_constants();
        }
        let trap_area = MapArea::new(
            VirAddr::from(TRAP_CONTEXT),
            VirAddr::from(TRAMPOLINE),
            MapType::Framed,
            MapPermission::from_bits_truncate(PERM_R | PERM_W),
        );
        proof {
            assert forall|v: u64| #[trigger] trap_area.has_page(v) implies mapping(mem@, root, v) is None by {
                assert(span_start(TRAP_CONTEXT) <= v < span_end(TRAMPOLINE));
            }
            assert(frames_from(sp, nl + 1) == span_pages(sp[nl + 1]) + span_need(sp, nl + 1) + frames_from(sp, nl + 2));
            assert forall|j: int| 0 <= j < nl + 1 implies (#[trigger] sp[j]).1 <= VPN_LIMIT && span_mapped(mem@, root, sp[j]) by {
                assert(area_built(ms, mem@, segs@, data@, j));
                assert(ms.area_ok(j, *alloc, *mem));
                assert forall|p: u64| sp[j].0 <= p < sp[j].1 implies #[trigger] mapping(mem@, root, p) is Some by {
                    assert(ms.areas@[j].has_page(p));
                }
            }
            if sp[nl + 1].0 < sp[nl + 1].1 {
                lemma_first_seen(mem@, root, sp, nl + 1);
            }
            lemma_frames_from_nonneg(sp, nl + 2);
            assert(!trap_area.has_page(trampoline_vpn()));
        }
        ms.push_area(trap_area, None, alloc, mem);
        proof {
            lemma_frames_kept_trans(fa0, a1, *alloc, fm0, m1, mem@, Set::empty(), ts1, ms.page_table.tables());
            assert forall|a: int, v: u64| 0 <= a < ms.areas@.len() && #[trigger] ms.areas@[a].data_frames@.contains_key(v)
                implies fa0.is_free(ms.areas@[a].data_frames@[v].ppn.0) by {
                if a < ms1.areas@.len() {
                    assert(ms.areas@[a] == ms1.areas@[a]);
                } else {
                    assert(a1.is_free(ms.areas@[a].data_frames@[v].ppn.0));
                }
            }
            mem1.lemma_view();
            assert forall|a: int| 0 <= a < nl + 2 implies #[trigger] area_built(ms, mem@, segs@, data@, a) by {
                if a < nl + 1 {
                    let ar = ms.areas@[a];
                    assert(ar == ms1.areas@[a]);
                    assert(area_built(ms1, m1, segs@, data@, a));
                    assert(ms1.area_ok(a, a1, mem1));
                    assert forall|v: u64| #[trigger] ar.has_page(v) implies mem@[ar.target(v)] == initial_page(area_data(segs@, data@, a), v - sp[a].0) by {
                        assert(ar.data_frames@.contains_key(v));
                        assert(frame_owned(a1, mem1, ts1, ar.target(v)));
                        lemma_kept_at(a1, *alloc, m1, mem@, ts1, ms.page_table.tables(), ar.target(v));
                    }
                } else {
                    let ar = ms.areas@[a];
                    assert forall|v: u64| #[trigger] ar.has_page(v) implies mem@[ar.target(v)] == initial_page(area_data(segs@, data@, a), v - sp[a].0) by {
                        assert(trap_area.has_page(v));
                    }
                }
            }
            assert forall|xx: u64|
                xx < VPN_LIMIT && xx != trampoline_vpn() && (forall|a: int| 0 <= a < ms.areas@.len() ==> !#[trigger] ms.areas@[a].has_page(xx))
                    implies #[trigger] mapping(mem@, root, xx) is None by {
                assert(!ms.areas@[nl + 1].has_page(xx));
                assert(!ms.areas@[nl as int].has_page(xx));
                assert forall|a: int| 0 <= a < ms0.areas@.len() implies !#[trigger] ms0.areas@[a].has_page(xx) by {
                    assert(ms.areas@[a] == ms0.areas@[a]);
                }
            }
        }
        Some((ms, user_stack_top_va, entry))
    }

    /// The address space of the program in the ELF file `elf_data`, which
    /// `xmas_elf` must accept with all its program headers, as
    /// `from_elf_segments` builds it from those headers, with the top of its
    /// user stack and its entry point. `None`, with nothing changed, when
    /// the program cannot be mapped or `alloc` has fewer frames than
    /// `from_elf_segments` asks for.
    pub fn from_elf(
        elf_data: &[u8],
        trampoline_pa: u64,
        alloc: &mut StackFrameAllocator,
        mem: &mut PhysMem,
    ) -> (r: Option<(Self, u64, u64)>)
        requires
            old(mem).wf(),
            alloc_ok(*old(alloc), *old(mem), Set::empty()),
            (trampoline_pa & PA_MASK) % (PAGE_SIZE as u64) == 0,
            elf_segments_of(elf_data@) is Some,
        ensures
            r is Some <==> (elf_segments_of(elf_data@) matches Some((h, segs)) && elf_layout_ok(segs, elf_data@.len() as int)
                && old(alloc).free_count() >= 3 + frames_from(elf_spans(segs), 0)),
            r is None ==> *final(alloc) == *old(alloc) && *final(mem) == *old(mem),
            r matches Some((ms, top, e)) ==> elf_segments_of(elf_data@) matches Some((h, segs)) && {
                &&& ms.wf(*final(alloc), *final(mem))
                &&& frames_kept(*old(alloc), *final(alloc), old(mem)@, final(mem)@, Set::empty(), ms.page_table.tables())
                &&& forall|a: int, v: u64| 0 <= a < ms.areas@.len() && #[trigger] ms.areas@[a].data_frames@.contains_key(v)
                    ==> old(alloc).is_free(ms.areas@[a].data_frames@[v].ppn.0)
                &&& elf_built(ms, final(mem)@, segs, elf_data@, trampoline_pa)
                &&& top == stack_top(segs)
                &&& e == h.entry
            },
            final(mem).wf(),
            final(mem).base() == old(mem).base(),
            final(mem).count() == old(mem).count(),
    {
        let (header, segs) = read_segments(elf_data).unwrap();
        Self::from_elf_segments(header.entry, &segs, elf_data, trampoline_pa, alloc, mem)
    }

    /// `from_elf` on any file: `None`, with nothing changed, also when
    /// `xmas_elf` refuses the file or one of its program headers.
    pub fn from_elf_checked(
        elf_data: &[u8],
        trampoline_pa: u64,
        alloc: &mut StackFrameAllocator,
        mem: &mut PhysMem,
    ) -> (r: Option<(Self, u64, u64)>)
        requires
            old(mem).wf(),
            alloc_ok(*old(alloc), *old(mem), Set::empty()),
            (trampoline_pa & PA_MASK) % (PAGE_SIZE as u64) == 0,
        ensures
            r is Some <==> (elf_segments_of(elf_data@) matches Some((h, segs)) && elf_layout_ok(segs, elf_data@.len() as int)
                && old(alloc).free_count() >= 3 + frames_from(elf_spans(segs), 0)),
            r is None ==> *final(alloc) == *old(alloc) && *final(mem) == *old(mem),
            r matches Some((ms, top, e)) ==> elf_segments_of(elf_data@) matches Some((h, segs)) && {
                &&& ms.wf(*final(alloc), *final(mem))
                &&& frames_kept(*old(alloc), *final(alloc), old(mem)@, final(mem)@, Set::empty(), ms.page_table.tables())
                &&& forall|a: int, v: u64| 0 <= a < ms.areas@.len() && #[trigger] ms.areas@[a].data_frames@.contains_key(v)
                    ==> old(alloc).is_free(ms.areas@[a].data_frames@[v].ppn.0)
                &&& elf_built(ms, final(mem)@, segs, elf_data@, trampoline_pa)
                &&& top == stack_top(segs)
                &&& e == h.entry
            },
            final(mem).wf(),
            final(mem).base() == old(mem).base(),
            final(mem).count() == old(mem).count(),
    {
        if read_segments(elf_data).is_none() {
            return None;
        }
        Self::from_elf(elf_data, trampoline_pa, alloc, mem)
    }

    /// Adds a copy of `other_area`, an area of another address space: the
    /// same pages mapped the same way with the same rights, a framed area's
    /// frames fresh and holding copies of the other's.
    pub fn fork_area(&mut self, other_area: &MapArea, alloc: &mut StackFrameAllocator, mem: &mut PhysMem)
        requires
            old(self).wf(*old(alloc), *old(mem)),
            other_area.vpn_range.start.0 <= other_area.vpn_range.end.0,
            other_area.vpn_range.end.0 <= VPN_LIMIT,
            old(alloc).free_count() >= other_area.frames_in(old(mem)@, old(self).root()),
            forall|v: u64| #[trigger] other_area.has_page(v) ==> mapping(old(mem)@, old(self).root(), v) is None,
            other_area.map_type == MapType::Framed ==> forall|v: u64| #[trigger] other_area.has_page(v) ==> other_area.data_frames@.contains_key(v),
            forall|v: u64| #[trigger] other_area.data_frames@.contains_key(v) ==> frame_foreign(*old(alloc), *old(mem), old(self).page_table.tables(), other_area.data_frames@[v].ppn.0),
        ensures
            final(self).wf(*final(alloc), *final(mem)),
            final(self).root() == old(self).root(),
            final(self).areas@.len() == old(self).areas@.len() + 1,
            forall|i: int| 0 <= i < old(self).areas@.len() ==> #[trigger] final(self).areas@[i] == old(self).areas@[i],
            final(self).areas@.last().vpn_range == other_area.vpn_range,
            final(self).areas@.last().map_type == other_area.map_type,
            final(self).areas@.last().map_per == other_area.map_per,
            other_area.map_type == MapType::Framed ==> forall|v: u64| #[trigger] other_area.has_page(v) ==> final(mem)@[final(self).areas@.last().target(v)]
                == old(mem)@[other_area.data_frames@[v].ppn.0],
            forall|x: u64| x < VPN_LIMIT && !other_area.has_page(x) ==> #[trigger] mapping(final(mem)@, final(self).root(), x) == mapping(old(mem)@, old(self).root(), x),
            frames_kept(*old(alloc), *final(alloc), old(mem)@, final(mem)@, old(self).page_table.tables(), final(self).page_table.tables()),
            final(alloc).free_count() >= old(alloc).free_count() - other_area.frames_in(old(mem)@, old(self).root()),
            final(mem).base() == old(mem).base(),
            final(mem).count() == old(mem).count(),
    {
        let ghost a0 = *alloc;
        let ghost m0 = mem@;
        let ghost mem0 = *mem;
        let ghost ts0 = self.page_table.tables();
        let ghost root = self.root();
        let range = other_area.vpn_range;
        proof {
            let s0 = range.start.0;
            let e0 = range.end.0;
            assert(s0 <= 0x800_0000 && e0 <= 0x800_0000 ==> (s0 << 12u64) / 4096 == s0 && (e0 << 12u64) / 4096 == e0
                && ((e0 << 12u64) + 4096 - 1) / 4096 == e0 && (e0 << 12u64) + 4096 <= u64::MAX) by (bit_vector);
        }
        let mut map_area = MapArea::new(
            VirAddr::from(range.get_start()),
            VirAddr::from(range.get_end()),
            other_area.map_type,
            other_area.map_per,
        );
        let ghost fresh = map_area;
        proof {
            assert(map_area.vpn_range == other_area.vpn_range);
            assert forall|v: u64| #[trigger] map_area.has_page(v) implies mapping(mem@, root, v) is None by {
                assert(other_area.has_page(v));
            }
        }
        map_area.reflect_self_to_page_table(&mut self.page_table, alloc, mem);
        let ghost a1 = *alloc;
        let ghost m1 = mem@;
        let ghost mem1 = *mem;
        proof {
            mem.lemma_view();
            mem0.lemma_view();
            assert forall|v: u64| #[trigger] map_area.has_page(v) implies mapping(m1, root, v) == Some(map_area.pte_of(v))
                && (map_area.map_type == MapType::Framed ==> map_area.data_frames@.contains_key(v)) by {
                assert(fresh.has_page(v));
            }
            assert forall|v: u64| #[trigger] map_area.data_frames@.contains_key(v) implies {
                let f = map_area.data_frames@[v].ppn.0;
                mem.has(f) && !self.page_table.tables().contains(f) && f < PPN_LIMIT
            } by {
                assert(frame_owned(*alloc, *mem, self.page_table.tables(), map_area.data_frames@[v].ppn.0));
            }
            if map_area.map_type == MapType::Framed {
                assert forall|v: u64| #[trigger] other_area.data_frames@.contains_key(v) implies mem.has(other_area.data_frames@[v].ppn.0) by {
                    assert(frame_foreign(a0, mem0, ts0, other_area.data_frames@[v].ppn.0));
                }
                assert forall|v1: u64, v2: u64|
                    map_area.has_page(v1) && map_area.has_page(v2) implies #[trigger] other_area.data_frames@[v1].ppn.0 != #[trigger] map_area.target(v2) by {
                    assert(other_area.has_page(v1));
                    assert(frame_foreign(a0, mem0, ts0, other_area.data_frames@[v1].ppn.0));
                    assert(fresh.has_page(v2));
                }
            }
        }
        map_area.clone_data(&self.page_table, other_area, mem);
        let ghost m2 = mem@;
        self.areas.push(map_area);
        proof {
            let n = old(self).areas@.len();
            let ts = self.page_table.tables();
            mem.lemma_view();
            assert(self.areas@[n as int] == map_area);
            assert forall|v: u64| #[trigger] map_area.data_frames@.contains_key(v) implies a0.is_free(map_area.data_frames@[v].ppn.0) by {
                if map_area.map_type == MapType::Framed {
                    assert(fresh.has_page(v));
                }
            }
            assert forall|p: u64| #[trigger] kept_frame(a0, m0, mem@, ts0, p) by {
                if m0.dom().contains(p) && !ts0.contains(p) && !a0.is_free(p) {
                    lemma_kept_at(a0, *alloc, m0, m1, ts0, ts, p);
                    if map_area.map_type == MapType::Framed {
                        assert(kept_unless(m1, m2, map_area.backs_before(map_area.vpn_range.end.0 as int, p), p));
                        if map_area.backs_before(map_area.vpn_range.end.0 as int, p) {
                            let w = choose|w: u64| map_area.vpn_range.start.0 <= w < map_area.vpn_range.end.0 as int && #[trigger] map_area.target(w) == p;
                            assert(map_area.has_page(w));
                            assert(fresh.has_page(w));
                        }
                    }
                }
            }
            assert forall|i: int| 0 <= i < self.areas@.len() implies #[trigger] self.area_ok(i, *alloc, *mem) by {
                if i < n {
                    let ar = self.areas@[i];
                    assert(ar == old(self).areas@[i]);
                    assert(old(self).area_ok(i, a0, mem0));
                    assert forall|v: u64| #[trigger] ar.data_frames@.contains_key(v) implies frame_owned(*alloc, *mem, ts, ar.data_frames@[v].ppn.0) by {
                        let f = ar.data_frames@[v].ppn.0;
                        assert(frame_owned(a0, mem0, ts0, f));
                        lemma_kept_at(a0, *alloc, m0, m1, ts0, ts, f);
                    }
                    assert forall|v: u64| #[trigger] ar.has_page(v) implies mapping(mem@, root, v) == Some(ar.pte_of(v))
                        && (ar.map_type == MapType::Framed ==> ar.data_frames@.contains_key(v)) by {
                        assert(mapping(m0, root, v) == Some(ar.pte_of(v)));
                        if map_area.has_page(v) {
                            assert(other_area.has_page(v));
                            assert(mapping(m0, root, v) is None);
                        }
                        assert(v < VPN_LIMIT);
                        assert(mapping(m2, root, v) == mapping(m1, root, v));
                    }
                } else {
                    assert forall|v: u64| #[trigger] map_area.has_page(v) implies mapping(mem@, root, v) == Some(map_area.pte_of(v))
                        && (map_area.map_type == MapType::Framed ==> map_area.data_frames@.contains_key(v)) by {
                        assert(mapping(m2, root, v) == mapping(m1, root, v));
                    }
                    assert forall|v: u64| #[trigger] map_area.data_frames@.contains_key(v) implies frame_owned(*alloc, *mem, ts, map_area.data_frames@[v].ppn.0) by {
                    }
                }
            }
            assert forall|i: int, j: int, v: u64|
                0 <= i < self.areas@.len() && 0 <= j < self.areas@.len() && i != j && #[trigger] self.areas@[i].has_page(v)
                    implies !#[trigger] self.areas@[j].has_page(v) by {
                if i == n {
                    assert(other_area.has_page(v));
                    assert(old(self).area_ok(j, a0, mem0));
                    if self.areas@[j].has_page(v) {
                        assert(mapping(m0, root, v) is Some);
                    }
                } else if j == n {
                    assert(old(self).area_ok(i, a0, mem0));
                    if map_area.has_page(v) {
                        assert(other_area.has_page(v));
                        assert(mapping(m0, root, v) is Some);
                    }
                } else {
                    assert(old(self).areas_disjoint());
                }
            }
            assert forall|i: int, j: int, v1: u64, v2: u64|
                0 <= i < self.areas@.len() && 0 <= j < self.areas@.len() && i != j
                    && #[trigger] self.areas@[i].data_frames@.contains_key(v1) && #[trigger] self.areas@[j].data_frames@.contains_key(v2)
                    implies self.areas@[i].data_frames@[v1].ppn.0 != self.areas@[j].data_frames@[v2].ppn.0 by {
                if i == n {
                    assert(old(self).area_ok(j, a0, mem0));
                    assert(frame_owned(a0, mem0, ts0, self.areas@[j].data_frames@[v2].ppn.0));
                } else if j == n {
                    assert(old(self).area_ok(i, a0, mem0));
                    assert(frame_owned(a0, mem0, ts0, self.areas@[i].data_frames@[v1].ppn.0));
                } else {
                    assert(old(self).frames_apart());
                }
            }
            if map_area.map_type == MapType::Framed {
                assert forall|v: u64| #[trigger] other_area.has_page(v) implies mem@[self.areas@.last().target(v)] == old(mem)@[other_area.data_frames@[v].ppn.0] by {
                    assert(map_area.has_page(v));
                    let g = other_area.data_frames@[v].ppn.0;
                    assert(frame_foreign(a0, mem0, ts0, g));
                    lemma_kept_at(a0, a1, m0, m1, ts0, ts, g);
                }
            }
        }
    }

    /// Adds a copy of every area of `other`, in order (`fork_area`).
    pub fn fork_from(&mut self, other: &MemorySet, alloc: &mut StackFrameAllocator, mem: &mut PhysMem)
        requires
            old(self).wf(*old(alloc), *old(mem)),
            other.areas_disjoint(),
            old(alloc).free_count() >= area_frames_from(other.areas@, 0),
            forall|i: int| 0 <= i < other.areas@.len() ==> {
                let ar = #[trigger] other.areas@[i];
                &&& ar.vpn_range.start.0 <= ar.vpn_range.end.0 <= VPN_LIMIT
                &&& ar.map_type == MapType::Framed ==> forall|v: u64| #[trigger] ar.has_page(v) ==> ar.data_frames@.contains_key(v)
                &&& forall|v: u64| #[trigger] ar.data_frames@.contains_key(v) ==> frame_foreign(*old(alloc), *old(mem), old(self).page_table.tables(), ar.data_frames@[v].ppn.0)
                &&& forall|v: u64| #[trigger] ar.has_page(v) ==> mapping(old(mem)@, old(self).root(), v) is None
            },
        ensures
            final(self).wf(*final(alloc), *final(mem)),
            final(self).root() == old(self).root(),
            final(self).areas@.len() == old(self).areas@.len() + other.areas@.len(),
            forall|i: int| 0 <= i < old(self).areas@.len() ==> #[trigger] final(self).areas@[i] == old(self).areas@[i],
            forall|i: int| 0 <= i < other.areas@.len() ==> {
                let ar = #[trigger] other.areas@[i];
                let nw = final(self).areas@[old(self).areas@.len() + i];
                &&& nw.vpn_range == ar.vpn_range
                &&& nw.map_type == ar.map_type
                &&& nw.map_per == ar.map_per
                &&& ar.map_type == MapType::Framed ==> forall|v: u64| #[trigger] ar.has_page(v) ==> final(mem)@[nw.target(v)] == old(mem)@[ar.data_frames@[v].ppn.0]
            },
            forall|x: u64| x < VPN_LIMIT && (forall|i: int| 0 <= i < other.areas@.len() ==> !#[trigger] other.areas@[i].has_page(x))
                ==> #[trigger] mapping(final(mem)@, final(self).root(), x) == mapping(old(mem)@, old(self).root(), x),
            frames_kept(*old(alloc), *final(alloc), old(mem)@, final(mem)@, old(self).page_table.tables(), final(self).page_table.tables()),
            final(mem).base() == old(mem).base(),
            final(mem).count() == old(mem).count(),
            final(alloc).free_count() >= old(alloc).free_count() - area_frames_from(other.areas@, 0),
    {
        let ghost a0 = *alloc;
        let ghost m0 = mem@;
        let ghost mem0 = *mem;
        let ghost ts0 = self.page_table.tables();
        let ghost root = self.root();
        let ghost n0 = self.areas@.len();
        let mut i: usize = 0;
        while i < other.areas.len()
            invariant
                0 <= i <= other.areas@.len(),
                other.areas_disjoint(),
                self.wf(*alloc, *mem),
                self.root() == root,
                self.areas@.len() == n0 + i,
                forall|j: int| 0 <= j < n0 ==> #[trigger] self.areas@[j] == old(self).areas@[j],
                alloc.free_count() >= area_frames_from(other.areas@, i as int),
                alloc.free_count() - area_frames_from(other.areas@, i as int) >= a0.free_count() - area_frames_from(other.areas@, 0),
                frames_kept(a0, *alloc, m0, mem@, ts0, self.page_table.tables()),
                mem.base() == old(mem).base(),
                mem.count() == old(mem).count(),
                mem0 == *old(mem),
                mem0.wf(),
                m0 == mem0@,
                forall|j: int| 0 <= j < other.areas@.len() ==> {
                    let ar = #[trigger] other.areas@[j];
                    &&& ar.vpn_range.start.0 <= ar.vpn_range.end.0 <= VPN_LIMIT
                    &&& ar.map_type == MapType::Framed ==> forall|v: u64| #[trigger] ar.has_page(v) ==> ar.data_frames@.contains_key(v)
                    &&& forall|v: u64| #[trigger] ar.data_frames@.contains_key(v) ==> frame_foreign(a0, mem0, ts0, ar.data_frames@[v].ppn.0)
                    &&& forall|v: u64| #[trigger] ar.has_page(v) ==> mapping(m0, root, v) is None
                },
                forall|j: int| 0 <= j < i ==> {
                    let ar = #[trigger] other.areas@[j];
                    let nw = self.areas@[n0 + j];
                    &&& nw.vpn_range == ar.vpn_range
                    &&& nw.map_type == ar.map_type
                    &&& nw.map_per == ar.map_per
                    &&& ar.map_type == MapType::Framed ==> forall|v: u64| #[trigger] ar.has_page(v) ==> mem@[nw.target(v)] == m0[ar.data_frames@[v].ppn.0]
                },
                forall|x: u64| x < VPN_LIMIT && (forall|j: int| 0 <= j < i ==> !#[trigger] other.areas@[j].has_page(x))
                    ==> #[trigger] mapping(mem@, root, x) == mapping(m0, root, x),
            decreases other.areas@.len() - i,
        {
            let area = &other.areas[i];
            let ghost a1 = *alloc;
            let ghost m1 = mem@;
            let ghost mem1 = *mem;
            let ghost ts1 = self.page_table.tables();
            let ghost ms1 = *self;
            proof {
                mem0.lemma_view();
                mem.lemma_view();
                assert(area_frames_from(other.areas@, i as int) == area.frames_for() + area_frames_from(other.areas@, i + 1));
                lemma_area_frames_nonneg(other.areas@, i + 1);
                assert forall|v: u64| #[trigger] area.has_page(v) implies mapping(mem@, root, v) is None by {
                    assert forall|j: int| 0 <= j < i implies !#[trigger] other.areas@[j].has_page(v) by {
                        assert(other.areas_disjoint());
                    }
                    assert(v < VPN_LIMIT);
                }
                assert forall|v: u64| #[trigger] area.data_frames@.contains_key(v) implies frame_foreign(*alloc, *mem, self.page_table.tables(), area.data_frames@[v].ppn.0) by {
                    let g = area.data_frames@[v].ppn.0;
                    assert(frame_foreign(a0, mem0, ts0, g));
                    lemma_kept_at(a0, *alloc, m0, mem@, ts0, self.page_table.tables(), g);
                }
            }
            self.fork_area(area, alloc, mem);
            proof {
                lemma_frames_kept_trans(a0, a1, *alloc, m0, m1, mem@, ts0, ts1, self.page_table.tables());
                assert forall|j: int| 0 <= j < i + 1 implies {
                    let ar = #[trigger] other.areas@[j];
                    let nw = self.areas@[n0 + j];
                    &&& nw.vpn_range == ar.vpn_range
                    &&& nw.map_type == ar.map_type
                    &&& nw.map_per == ar.map_per
                    &&& ar.map_type == MapType::Framed ==> forall|v: u64| #[trigger] ar.has_page(v) ==> mem@[nw.target(v)] == m0[ar.data_frames@[v].ppn.0]
                } by {
                    let ar = other.areas@[j];
                    let nw = self.areas@[n0 + j];
                    if j < i {
                        assert(nw == ms1.areas@[n0 + j]);
                        if ar.map_type == MapType::Framed {
                            assert forall|v: u64| #[trigger] ar.has_page(v) implies mem@[nw.target(v)] == m0[ar.data_frames@[v].ppn.0] by {
                                assert(ms1.area_ok(n0 + j, a1, mem1));
                                assert(nw.has_page(v));
                                assert(nw.data_frames@.contains_key(v));
                                assert(frame_owned(a1, mem1, ts1, nw.target(v)));
                                lemma_kept_at(a1, *alloc, m1, mem@, ts1, self.page_table.tables(), nw.target(v));
                            }
                        }
                    } else {
                        if ar.map_type == MapType::Framed {
                            assert forall|v: u64| #[trigger] ar.has_page(v) implies mem@[nw.target(v)] == m0[ar.data_frames@[v].ppn.0] by {
                                let g = ar.data_frames@[v].ppn.0;
                                assert(frame_foreign(a0, mem0, ts0, g));
                                mem0.lemma_view();
                                lemma_kept_at(a0, a1, m0, m1, ts0, ts1, g);
                            }
                        }
                    }
                }
                assert forall|x: u64| x < VPN_LIMIT && (forall|j: int| 0 <= j < i + 1 ==> !#[trigger] other.areas@[j].has_page(x))
                    implies #[trigger] mapping(mem@, root, x) == mapping(m0, root, x) by {
                    assert(!other.areas@[i as int].has_page(x));
                }
            }
            i = i + 1;
        }
    }

    /// An address space with an empty page table and no area.
    pub fn empty(alloc: &mut StackFrameAllocator, mem: &mut PhysMem) -> (r: Self)
        requires
            old(mem).wf(),
            alloc_ok(*old(alloc), *old(mem), Set::empty()),
            old(alloc).free_count() >= 1,
        ensures
            r.wf(*final(alloc), *final(mem)),
            r.areas@.len() == 0,
            forall|x: u64| #[trigger] mapping(final(mem)@, r.root(), x) is None,
            final(alloc).free_count() == old(alloc).free_count() - 1,
            final(mem).base() == old(mem).base(),
            final(mem).count() == old(mem).count(),
            frames_kept(*old(alloc), *final(alloc), old(mem)@, final(mem)@, Set::empty(), r.page_table.tables()),
    {
        let ghost a0 = *alloc;
        let page_table = PageTable::new(alloc, mem);
        let r = Self { page_table, areas: Vec::new() };
        r
    }
}

/// An address space stays well formed across a change that leaves its
/// frames alone (`frames_kept` from no tables, as building another address
/// space does): its tables and frames stay handed out and keep their bytes.
pub proof fn lemma_wf_kept(
    ms: MemorySet,
    a0: StackFrameAllocator,
    mem0: PhysMem,
    a1: StackFrameAllocator,
    mem1: PhysMem,
    t1: Set<u64>,
)
    requires
        ms.wf(a0, mem0),
        mem1.wf(),
        mem1.base() == mem0.base(),
        mem1.count() == mem0.count(),
        alloc_ok(a1, mem1, t1),
        frames_kept(a0, a1, mem0@, mem1@, Set::empty(), t1),
    ensures
        ms.wf(a1, mem1),
{
    let ts = ms.page_table.tables();
    let root = ms.root();
    mem0.lemma_view();
    mem1.lemma_view();
    assert forall|t: u64| #[trigger] ts.contains(t) implies mem1@.dom().contains(t) && mem1@[t] == mem0@[t] by {
        assert(table_ok(mem0@, t));
        assert(kept_frame(a0, mem0@, mem1@, Set::empty(), t));
    }
    lemma_same_tables(mem0@, mem1@, root, ts);
    assert forall|i: int| 0 <= i < ms.areas@.len() implies #[trigger] ms.area_ok(i, a1, mem1) by {
        let ar = ms.areas@[i];
        assert(ms.area_ok(i, a0, mem0));
        assert forall|v: u64| #[trigger] ar.data_frames@.contains_key(v) implies frame_owned(a1, mem1, ts, ar.data_frames@[v].ppn.0) by {
            let f = ar.data_frames@[v].ppn.0;
            assert(frame_owned(a0, mem0, ts, f));
            if a1.is_free(f) {
                assert(a0.is_free(f));
            }
        }
        assert forall|v: u64| #[trigger] ar.has_page(v) implies mapping(mem1@, root, v) == Some(ar.pte_of(v))
            && (ar.map_type == MapType::Framed ==> ar.data_frames@.contains_key(v)) by {
            assert(mapping(mem1@, root, v) == mapping(mem0@, root, v));
        }
    }
    assert forall|t: u64| #[trigger] ts.contains(t) implies !a1.is_free(t) by {
        if a1.is_free(t) {
            assert(a0.is_free(t));
        }
    }
}

/// An address space built from a program stays well formed and built
/// across a change that keeps its tables and frames handed out and their
/// bytes as they were.
pub proof fn lemma_built_kept(
    ms: MemorySet,
    a1: StackFrameAllocator,
    mem1: PhysMem,
    a2: StackFrameAllocator,
    mem2: PhysMem,
    segs: Seq<ElfSegment>,
    data: Seq<u8>,
    trampoline_pa: u64,
)
    requires
        ms.wf(a1, mem1),
        elf_built(ms, mem1@, segs, data, trampoline_pa),
        mem2.wf(),
        mem2.base() == mem1.base(),
        mem2.count() == mem1.count(),
        a2.wf(),
        a2.current == a1.current,
        forall|f: u64| #[trigger] a2.is_free(f) ==> mem2.has(f) && f < PPN_LIMIT,
        forall|t: u64| #[trigger] ms.page_table.tables().contains(t) ==> !a2.is_free(t) && mem2@[t] == mem1@[t],
        forall|i: int, v: u64|
            0 <= i < ms.areas@.len() && #[trigger] ms.areas@[i].data_frames@.contains_key(v) ==> {
                let f = ms.areas@[i].data_frames@[v].ppn.0;
                !a2.is_free(f) && mem2@[f] == mem1@[f]
            },
    ensures
        ms.wf(a2, mem2),
        elf_built(ms, mem2@, segs, data, trampoline_pa),
{
    let ts = ms.page_table.tables();
    let root = ms.root();
    mem1.lemma_view();
    mem2.lemma_view();
    assert forall|t: u64| #[trigger] ts.contains(t) implies mem2@.dom().contains(t) && mem2@[t] == mem1@[t] by {
        assert(table_ok(mem1@, t));
    }
    lemma_same_tables(mem1@, mem2@, root, ts);
    assert forall|i: int| 0 <= i < ms.areas@.len() implies #[trigger] ms.area_ok(i, a2, mem2) by {
        let ar = ms.areas@[i];
        assert(ms.area_ok(i, a1, mem1));
        assert forall|v: u64| #[trigger] ar.data_frames@.contains_key(v) implies frame_owned(a2, mem2, ts, ar.data_frames@[v].ppn.0) by {
            assert(frame_owned(a1, mem1, ts, ar.data_frames@[v].ppn.0));
        }
        assert forall|v: u64| #[trigger] ar.has_page(v) implies mapping(mem2@, root, v) == Some(ar.pte_of(v))
            && (ar.map_type == MapType::Framed ==> ar.data_frames@.contains_key(v)) by {
            assert(mapping(mem2@, root, v) == mapping(mem1@, root, v));
        }
    }
    assert forall|a: int| 0 <= a < elf_spans(segs).len() implies #[trigger] area_built(ms, mem2@, segs, data, a) by {
        let ar = ms.areas@[a];
        assert(area_built(ms, mem1@, segs, data, a));
        assert(ms.area_ok(a, a1, mem1));
        assert forall|v: u64| #[trigger] ar.has_page(v) implies mem2@[ar.target(v)] == initial_page(
            area_data(segs, data, a),
            v - elf_spans(segs)[a].0,
        ) by {
            assert(ar.data_frames@.contains_key(v));
        }
    }
    assert forall|x: u64|
        x < VPN_LIMIT && x != trampoline_vpn() && (forall|a: int| 0 <= a < ms.areas@.len() ==> !#[trigger] ms.areas@[a].has_page(x))
            implies #[trigger] mapping(mem2@, root, x) is None by {
        assert(mapping(mem2@, root, x) == mapping(mem1@, root, x));
    }
}

} // verus!
