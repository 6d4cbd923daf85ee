use vstd::prelude::*;
use crate::config::PAGE_SIZE;
use crate::mem::address::{lemma_low_bits, lemma_shl12, VirAddr};
use crate::fs::cache::set_bytes;
use crate::mem::address::VirPageNum;
use crate::mem::page_table::{lemma_same_tables, leaf_entry, mapping, pte_ppn, table_ok, PageTable};
use crate::mem::physmem::PhysMem;

verus! {

/// A piece of a user buffer inside one frame: bytes `[start, end)` of frame
/// `ppn`.
#[derive(Clone, Copy, PartialEq, Eq, Structural, Debug)]
pub struct UserSlice {
    pub ppn: u64,
    pub start: u64,
    pub end: u64,
}

/// The pieces of the user bytes `[start, end)` in the address space with
/// root `root`, one per page, in order: each from its address's offset in
/// the page to the end of the page or of the buffer.
pub open spec fn user_pieces(m: Map<u64, Seq<u8>>, root: u64, start: int, end: int) -> Seq<UserSlice>
    decreases end - start,
{
    if start >= end || start < 0 {
        seq![]
    } else {
        let vpn = start / (PAGE_SIZE as int);
        let next = if (vpn + 1) * PAGE_SIZE < end {
            (vpn + 1) * PAGE_SIZE
        } else {
            end
        };
        let hi = if next % (PAGE_SIZE as int) == 0 {
            PAGE_SIZE as int
        } else {
            next % (PAGE_SIZE as int)
        };
        seq![UserSlice { ppn: pte_ppn(leaf_entry(m, root, vpn as u64)->0), start: (start % (PAGE_SIZE as int)) as u64, end: hi as u64 }]
            + user_pieces(m, root, next, end)
    }
}

/// The pieces of the user bytes `[start, end)`, one per page from the
/// page of `start` to that of `end - 1`: piece `i` lies in the frame of page
/// `start / PAGE_SIZE + i` and covers exactly the bytes of the buffer in
/// that page, from `start`'s offset for the first piece (else from 0) to
/// `end`'s for the last (else to the end of the page).
pub proof fn lemma_user_pieces_cover(m: Map<u64, Seq<u8>>, root: u64, start: int, end: int)
    requires
        0 <= start,
    ensures
        start >= end ==> user_pieces(m, root, start, end).len() == 0,
        start < end ==> user_pieces(m, root, start, end).len() == (end - 1) / (PAGE_SIZE as int) - start / (PAGE_SIZE as int) + 1,
        forall|i: int|
            0 <= i < user_pieces(m, root, start, end).len() ==> {
                let pc = #[trigger] user_pieces(m, root, start, end)[i];
                let page = start / (PAGE_SIZE as int) + i;
                &&& pc.start == if i == 0 { start % (PAGE_SIZE as int) } else { 0 }
                &&& pc.end == if i == user_pieces(m, root, start, end).len() - 1 { end - page * PAGE_SIZE } else { PAGE_SIZE as int }
                &&& pc.ppn == pte_ppn(leaf_entry(m, root, page as u64)->0)
            },
    decreases end - start,
{
    let ps = PAGE_SIZE as int;
    if start < end {
        let f = start / ps;
        let next = if (f + 1) * PAGE_SIZE < end { (f + 1) * PAGE_SIZE } else { end };
        let s = user_pieces(m, root, start, end);
        let rest = user_pieces(m, root, next, end);
        assert(f * ps <= start < (f + 1) * ps);
        if next == end {
            assert((end - 1) / ps == f);
            assert(rest.len() == 0);
            assert(s.len() == 1);
            if end == (f + 1) * ps {
                assert(end % ps == 0);
            } else {
                assert(end % ps == end - f * ps);
            }
        } else {
            lemma_user_pieces_cover(m, root, next, end);
            assert(next / ps == f + 1);
            assert(next % ps == 0);
            assert(s =~= seq![s[0]] + rest);
            assert forall|i: int| 1 <= i < s.len() implies #[trigger] s[i] == rest[i - 1] by {}
        }
    }
}

/// The pieces, frame by frame, of the `len` user bytes at address `ptr` in
/// the address space of `page_table` (`user_pieces`). The bytes must lie in
/// the lower half of the address space and every page of them must have a
/// last-level entry.
pub fn get_user_buf(page_table: &PageTable, mem: &PhysMem, ptr: u64, len: u64) -> (r: Vec<UserSlice>)
    requires
        page_table.wf(mem@),
        mem.wf(),
        ptr + len < 0x40_0000_0000,
        forall|v: u64| ptr / (PAGE_SIZE as u64) <= v && v * PAGE_SIZE < ptr + len ==> #[trigger] leaf_entry(mem@, page_table.root_ppn.0, v) is Some,
    ensures
        r@ == user_pieces(mem@, page_table.root_ppn.0, ptr as int, ptr + len),
        len == 0 ==> r@.len() == 0,
        len > 0 ==> r@.len() == (ptr + len - 1) / (PAGE_SIZE as int) - (ptr as int) / (PAGE_SIZE as int) + 1,
        forall|i: int|
            0 <= i < r@.len() ==> {
                let pc = #[trigger] r@[i];
                let page = (ptr as int) / (PAGE_SIZE as int) + i;
                &&& pc.start == if i == 0 { (ptr as int) % (PAGE_SIZE as int) } else { 0 }
                &&& pc.end == if i == r@.len() - 1 { ptr + len - page * PAGE_SIZE } else { PAGE_SIZE as int }
                &&& pc.ppn == pte_ppn(leaf_entry(mem@, page_table.root_ppn.0, page as u64)->0)
            },
{
    proof {
        lemma_user_pieces_cover(mem@, page_table.root_ppn.0, ptr as int, ptr + len);
    }
    let root = page_table.root_ppn.0;
    let mut start = ptr;
    let end = ptr + len;
    let mut v: Vec<UserSlice> = Vec::new();
    while start < end
        invariant
            ptr <= start,
            end == ptr + len,
            end < 0x40_0000_0000,
            start <= end || start == ptr,
            page_table.wf(mem@),
            mem.wf(),
            root == page_table.root_ppn.0,
            forall|w: u64| ptr / (PAGE_SIZE as u64) <= w && w * PAGE_SIZE < ptr + len ==> #[trigger] leaf_entry(mem@, root, w) is Some,
            v@ + user_pieces(mem@, root, start as int, end as int) == user_pieces(mem@, root, ptr as int, end as int),
        decreases end - start,
    {
        let ghost before = v@;
        let start_va = VirAddr::from(start);
        let mut vpn = start_va.floor_to_vpn();
        proof {
            assert(start & 0x7f_ffff_ffff == start) by {
                lemma_low_bits(start);
            }
            assert(vpn.0 * PAGE_SIZE <= start) by (nonlinear_arith)
                requires
                    vpn.0 == start / 4096,
            ;
            page_table.lemma_walk_ok(mem@, vpn.0);
            assert(leaf_entry(mem@, root, vpn.0) is Some);
        }
        let ppn = page_table.vpn_to_pte(vpn, mem).unwrap().ppn();
        vpn.step();
        let end_va0 = VirAddr::from(vpn);
        let end_va = if end_va0.0 < (VirAddr::from(end)).0 {
            end_va0
        } else {
            VirAddr::from(end)
        };
        proof {
            assert(end & 0x7f_ffff_ffff == end) by {
                lemma_low_bits(end);
            }
            let k = vpn.0;
            assert(k <= 0x400_0000) by (nonlinear_arith)
                requires
                    k == start / 4096 + 1,
                    start < 0x40_0000_0000,
            ;
            lemma_shl12(k);
        }
        let lo = start_va.page_offset();
        let hi = if end_va.page_offset() == 0 {
            PAGE_SIZE as u64
        } else {
            end_va.page_offset()
        };
        v.push(UserSlice { ppn: ppn.0, start: lo, end: hi });
        proof {
            assert(end_va.0 <= end);
        }
        start = u64::from(end_va);
        proof {
            assert(start == end_va.0);
            assert(v@ =~= before.push(UserSlice { ppn: ppn.0, start: lo, end: hi }));
        }
    }
    proof {
        assert(v@ + user_pieces(mem@, root, start as int, end as int) =~= v@);
    }
    v
}

/// The frame that holds user address `a` in the address space with root
/// `root`: the one its page is mapped to.
pub open spec fn user_frame(m: Map<u64, Seq<u8>>, root: u64, a: int) -> u64 {
    pte_ppn(mapping(m, root, (a / (PAGE_SIZE as int)) as u64)->0)
}

/// The byte at user address `a`: the one at its offset in the frame that
/// holds it.
pub open spec fn user_byte(m: Map<u64, Seq<u8>>, root: u64, a: int) -> u8 {
    m[user_frame(m, root, a)][a % (PAGE_SIZE as int)]
}

/// The pages of the `len` user bytes at address `ptr` are mapped to frames
/// of their own: two different pages are never mapped to one frame.
pub open spec fn user_frames_apart(m: Map<u64, Seq<u8>>, root: u64, ptr: int, len: int) -> bool {
    forall|a: int, b: int|
        ptr <= a < ptr + len && ptr <= b < ptr + len && a / (PAGE_SIZE as int) != b / (PAGE_SIZE as int)
            ==> #[trigger] user_frame(m, root, a) != #[trigger] user_frame(m, root, b)
}

/// Memory `m` after storing `data` at user address `a`, byte after byte in
/// order, each in the frame that holds its address at its offset in the
/// page.
pub open spec fn user_write(m: Map<u64, Seq<u8>>, root: u64, a: int, data: Seq<u8>) -> Map<u64, Seq<u8>>
    decreases data.len(),
{
    if data.len() == 0 {
        m
    } else {
        let f = user_frame(m, root, a);
        user_write(m.insert(f, set_bytes(m[f], a % (PAGE_SIZE as int), seq![data[0]])), root, a + 1, data.drop_first())
    }
}

/// The `len` user bytes at address `ptr` can be stored: they lie in the
/// lower half of the address space, every page of them is mapped, and each
/// is mapped to a held frame that is no page table.
pub open spec fn user_writable(page_table: PageTable, mem: PhysMem, ptr: int, len: int) -> bool {
    &&& 0 <= ptr
    &&& ptr + len < 0x40_0000_0000
    &&& forall|a: int| ptr <= a < ptr + len ==> {
        &&& #[trigger] mapping(mem@, page_table.root_ppn.0, (a / (PAGE_SIZE as int)) as u64) is Some
        &&& mem.has(user_frame(mem@, page_table.root_ppn.0, a))
        &&& !page_table.tables().contains(user_frame(mem@, page_table.root_ppn.0, a))
    }
}

/// Stores `data` at user address `ptr` of the address space of
/// `page_table`, each byte in the frame its page is mapped to
/// (`user_write`). The page table and every mapping stay as they were, and
/// when the pages of the bytes lie in frames of their own, reading the user
/// bytes back gives `data`.
pub fn write_user_bytes(page_table: &PageTable, mem: &mut PhysMem, ptr: u64, data: &[u8])
    requires
        page_table.wf(old(mem)@),
        old(mem).wf(),
        user_writable(*page_table, *old(mem), ptr as int, data@.len() as int),
    ensures
        final(mem).wf(),
        final(mem).base() == old(mem).base(),
        final(mem).count() == old(mem).count(),
        page_table.wf(final(mem)@),
        forall|x: u64| #[trigger] mapping(final(mem)@, page_table.root_ppn.0, x) == mapping(old(mem)@, page_table.root_ppn.0, x),
        final(mem)@ == user_write(old(mem)@, page_table.root_ppn.0, ptr as int, data@),
        user_frames_apart(old(mem)@, page_table.root_ppn.0, ptr as int, data@.len() as int) ==> forall|i: int|
            0 <= i < data@.len() ==> #[trigger] user_byte(final(mem)@, page_table.root_ppn.0, ptr + i) == data@[i],
{
    let root = page_table.root_ppn.0;
    let ghost apart = user_frames_apart(mem@, root, ptr as int, data@.len() as int);
    let ghost m0 = mem@;
    let ghost ts = page_table.tables();
    let n = data.len();
    let mut i: usize = 0;
    assert(data@.skip(0) =~= data@);
    while i < n
        invariant
            n == data@.len(),
            0 <= i <= n,
            root == page_table.root_ppn.0,
            ts == page_table.tables(),
            ptr + n < 0x40_0000_0000,
            page_table.wf(mem@),
            mem.wf(),
            mem.base() == old(mem).base(),
            mem.count() == old(mem).count(),
            forall|x: u64| #[trigger] mapping(mem@, root, x) == mapping(m0, root, x),
            forall|a: int| ptr <= a < ptr + n ==> {
                &&& #[trigger] mapping(mem@, root, (a / (PAGE_SIZE as int)) as u64) is Some
                &&& mem.has(user_frame(mem@, root, a))
                &&& !ts.contains(user_frame(mem@, root, a))
            },
            user_write(mem@, root, ptr + i, data@.skip(i as int)) == user_write(m0, root, ptr as int, data@),
            apart == user_frames_apart(m0, root, ptr as int, n as int),
            apart ==> forall|j: int| 0 <= j < i ==> #[trigger] user_byte(mem@, root, ptr + j) == data@[j],
        decreases n - i,
    {
        let a = ptr + i as u64;
        let vpn = VirPageNum(a / (PAGE_SIZE as u64));
        proof {
            page_table.lemma_walk_ok(mem@, vpn.0);
            assert(mapping(mem@, root, (a as int / (PAGE_SIZE as int)) as u64) is Some);
        }
        let pte = page_table.vpn_to_pte(vpn, mem).unwrap();
        let f = pte.ppn().0;
        let off = (a % (PAGE_SIZE as u64)) as usize;
        let one = vec![data[i]];
        let ghost m1 = mem@;
        proof {
            mem.lemma_view();
            assert(f == user_frame(m1, root, a as int));
            assert(one@ =~= seq![data@[i as int]]);
        }
        mem.write_bytes(f, off, one.as_slice());
        proof {
            assert forall|t: u64| #[trigger] ts.contains(t) implies mem@.dom().contains(t) && mem@[t] == m1[t] by {
                assert(table_ok(m1, t));
            }
            lemma_same_tables(m1, mem@, root, ts);
            let d = data@.skip(i as int);
            assert(d.drop_first() =~= data@.skip(i + 1));
            assert(d[0] == data@[i as int]);
            assert forall|b: int| ptr <= b < ptr + n implies #[trigger] user_frame(mem@, root, b) == user_frame(m1, root, b) by {
                assert(mapping(mem@, root, (b / (PAGE_SIZE as int)) as u64) == mapping(m1, root, (b / (PAGE_SIZE as int)) as u64));
            }
            assert forall|b: int| ptr <= b < ptr + n implies {
                &&& #[trigger] mapping(mem@, root, (b / (PAGE_SIZE as int)) as u64) is Some
                &&& mem.has(user_frame(mem@, root, b))
                &&& !ts.contains(user_frame(mem@, root, b))
            } by {
                assert(user_frame(mem@, root, b) == user_frame(m1, root, b));
            }
            if apart {
                assert forall|j: int| 0 <= j < i + 1 implies #[trigger] user_byte(mem@, root, ptr + j) == data@[j] by {
                    let b = ptr + j;
                    assert(user_frame(mem@, root, b) == user_frame(m1, root, b));
                    assert(user_frame(m1, root, b) == user_frame(m0, root, b));
                    assert(user_frame(m1, root, a as int) == user_frame(m0, root, a as int));
                    mem.lemma_view();
                    if j < i {
                        assert(user_byte(m1, root, b) == data@[j]);
                        if user_frame(m0, root, b) == user_frame(m0, root, a as int) {
                            assert(b / 4096 == (a as int) / 4096);
                            assert(b % 4096 != (a as int) % 4096);
                        }
                    }
                }
            }
        }
        i = i + 1;
    }
    proof {
        assert(data@.skip(n as int) =~= Seq::<u8>::empty());
    }
}

} // verus!
