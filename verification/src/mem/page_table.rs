use vstd::prelude::*;
use crate::config::PAGE_SIZE;
use crate::fs::cache::{lemma_u64_other, lemma_u64_read_write, set_u64, u64_at};
use crate::mem::address::{lemma_index_bounds, lemma_vpn_indices, vpn_indices, PhyPageNum, VirPageNum, PPN_MASK};
use crate::mem::frame::{FrameTracker, StackFrameAllocator};
use crate::mem::physmem::{lemma_zero_page_u64, zero_page, PhysMem};

verus! {

/// Entry is valid.
pub const FLAG_V: u8 = 1;
/// Page is readable.
pub const FLAG_R: u8 = 2;
/// Page is writable.
pub const FLAG_W: u8 = 4;
/// Page is executable.
pub const FLAG_X: u8 = 8;
/// Page is accessible from user mode.
pub const FLAG_U: u8 = 16;
/// Mapping is global.
pub const FLAG_G: u8 = 32;
/// Page was accessed.
pub const FLAG_A: u8 = 64;
/// Page was written.
pub const FLAG_D: u8 = 128;

/// Page numbers below this bound fit the 44-bit field of an entry.
pub const PPN_LIMIT: u64 = 0x1000_0000_0000;

/// Page numbers below this bound fit a 39-bit virtual address.
pub const VPN_LIMIT: u64 = 0x800_0000;

/// The eight flag bits of a page-table entry.
#[derive(Clone, Copy, PartialEq, Eq, Structural, Debug)]
pub struct PTEFlags {
    pub bits: u8,
}

impl PTEFlags {
    /// The flags whose bits are `bits`; every bit names a flag.
    pub fn from_bits(bits: u8) -> (r: Option<Self>)
        ensures
            r == Some(PTEFlags { bits }),
    {
        Some(PTEFlags { bits })
    }

    /// The flags whose bits are `bits`.
    pub fn from_bits_truncate(bits: u8) -> (r: Self)
        ensures
            r.bits == bits,
    {
        PTEFlags { bits }
    }

    /// No flag set.
    pub fn empty() -> (r: Self)
        ensures
            r.bits == 0,
    {
        PTEFlags { bits: 0 }
    }

    /// The bits of the flags.
    pub fn bits(&self) -> (r: u8)
        ensures
            r == self.bits,
    {
        self.bits
    }

    /// The flags set in either.
    pub fn union(self, other: Self) -> (r: Self)
        ensures
            r.bits == self.bits | other.bits,
    {
        PTEFlags { bits: self.bits | other.bits }
    }

    /// The flags set in both.
    pub fn intersection(self, other: Self) -> (r: Self)
        ensures
            r.bits == self.bits & other.bits,
    {
        PTEFlags { bits: self.bits & other.bits }
    }

    /// Whether every flag of `other` is set.
    pub fn contains(&self, other: Self) -> (r: bool)
        ensures
            r == (self.bits & other.bits == other.bits),
    {
        self.bits & other.bits == other.bits
    }
}

/// The entry is valid.
pub open spec fn pte_valid(e: u64) -> bool {
    e & 1 == 1
}

/// The valid flag sets bit 0, and the zero entry is not valid.
proof fn lemma_flag_v()
    ensures
        FLAG_V & 1 == 1,
        !pte_valid(0u64),
{
    assert(FLAG_V & 1 == 1 && !pte_valid(0u64)) by (bit_vector);
}

/// The page number an entry points to.
pub open spec fn pte_ppn(e: u64) -> u64 {
    (e >> 10) & PPN_MASK
}

/// The entry made of page number `ppn` and flag bits `flags`.
pub open spec fn pte_make(ppn: u64, flags: u8) -> u64 {
    (ppn << 10) | (flags as u64)
}

/// An entry made of a page number that fits and some flags holds that page
/// number and those flags, and is valid exactly when the flags hold `V`.
pub proof fn lemma_pte_make(ppn: u64, flags: u8)
    requires
        ppn < PPN_LIMIT,
    ensures
        pte_ppn(pte_make(ppn, flags)) == ppn,
        (pte_make(ppn, flags) & 0xff) as u8 == flags,
        pte_valid(pte_make(ppn, flags)) <==> flags & 1 == 1,
{
    let f = flags as u64;
    assert(f < 256);
    assert(ppn < 0x1000_0000_0000 && f < 256 ==> (((ppn << 10) | f) >> 10) & 0x0fff_ffff_ffff == ppn
        && ((ppn << 10) | f) & 0xff == f
        && ((((ppn << 10) | f) & 1 == 1) <==> (f & 1 == 1))
        && ((flags & 1 == 1) <==> ((flags as u64) & 1 == 1))) by (bit_vector)
        requires f == flags as u64;
}

/// A page-table entry: a physical page number above ten flag bits.
#[derive(Clone, Copy, PartialEq, Eq, Structural, Debug)]
pub struct PageTableEntry {
    pub bits: u64,
}

impl PageTableEntry {
    /// The entry pointing to `ppn` with `flags`.
    pub fn new(ppn: PhyPageNum, flags: PTEFlags) -> (r: Self)
        ensures
            r.bits == pte_make(ppn.0, flags.bits),
    {
        Self { bits: ppn.0 << 10 | flags.bits() as u64 }
    }

    /// The zero entry: invalid, no flags.
    pub fn empty() -> (r: Self)
        ensures
            r.bits == 0,
    {
        Self { bits: 0 }
    }

    /// The page number the entry points to.
    pub fn ppn(&self) -> (r: PhyPageNum)
        ensures
            r.0 == pte_ppn(self.bits),
    {
        proof {
            let b = self.bits;
            assert(((b >> 10) & 0x0fff_ffff_ffff) & 0x0fff_ffff_ffff == (b >> 10) & 0x0fff_ffff_ffff) by (bit_vector);
        }
        PhyPageNum::from((self.bits >> 10) & PPN_MASK)
    }

    /// The flag bits of the entry.
    pub fn flags(&self) -> (r: PTEFlags)
        ensures
            r.bits == (self.bits & 0xff) as u8,
    {
        PTEFlags::from_bits_truncate((self.bits & 0xff) as u8)
    }

    /// Whether the entry is valid.
    pub fn is_valid(&self) -> (r: bool)
        ensures
            r == pte_valid(self.bits),
    {
        self.bits & 1 == 1
    }

    /// Clears the valid bit, keeping the rest.
    pub fn clear_valid(&mut self)
        ensures
            final(self).bits == old(self).bits & !1u64,
    {
        self.bits = self.bits & !1u64;
    }

    /// Whether the page may be read.
    pub fn readable(&self) -> (r: bool)
        ensures
            r == ((self.bits & 0xff) as u8 & FLAG_R != 0),
    {
        let f = self.flags().intersection(PTEFlags::from_bits_truncate(FLAG_R));
        f != PTEFlags::empty()
    }

    /// Whether the page may be written.
    pub fn writable(&self) -> (r: bool)
        ensures
            r == ((self.bits & 0xff) as u8 & FLAG_W != 0),
    {
        let f = self.flags().intersection(PTEFlags::from_bits_truncate(FLAG_W));
        f != PTEFlags::empty()
    }

    /// Whether the page may be executed.
    pub fn executable(&self) -> (r: bool)
        ensures
            r == ((self.bits & 0xff) as u8 & FLAG_X != 0),
    {
        let f = self.flags().intersection(PTEFlags::from_bits_truncate(FLAG_X));
        f != PTEFlags::empty()
    }
}

/// Entry `i` of the page table held in frame `t`.
pub open spec fn pte_at(m: Map<u64, Seq<u8>>, t: u64, i: u64) -> u64 {
    u64_at(m[t], i as int * 8)
}

/// Entry `i0` of the root table is valid.
pub open spec fn l1_valid(m: Map<u64, Seq<u8>>, root: u64, i0: u64) -> bool {
    pte_valid(pte_at(m, root, i0))
}

/// The second-level table entry `i0` of the root points to.
pub open spec fn l1_table(m: Map<u64, Seq<u8>>, root: u64, i0: u64) -> u64 {
    pte_ppn(pte_at(m, root, i0))
}

/// Entries `i0` of the root and `i1` below it are valid.
pub open spec fn l2_valid(m: Map<u64, Seq<u8>>, root: u64, i0: u64, i1: u64) -> bool {
    l1_valid(m, root, i0) && pte_valid(pte_at(m, l1_table(m, root, i0), i1))
}

/// The last-level table reached through entries `i0` and `i1`.
pub open spec fn l2_table(m: Map<u64, Seq<u8>>, root: u64, i0: u64, i1: u64) -> u64 {
    pte_ppn(pte_at(m, l1_table(m, root, i0), i1))
}

/// Where the last-level entry for `vpn` is: its table and index, when the
/// walk from `root` reaches the last level.
pub open spec fn leaf_slot(m: Map<u64, Seq<u8>>, root: u64, vpn: u64) -> Option<(u64, u64)> {
    let ix = vpn_indices(vpn);
    if l2_valid(m, root, ix[0], ix[1]) {
        Some((l2_table(m, root, ix[0], ix[1]), ix[2]))
    } else {
        None
    }
}

/// The last-level entry for `vpn`, valid or not, when the walk reaches it.
pub open spec fn leaf_entry(m: Map<u64, Seq<u8>>, root: u64, vpn: u64) -> Option<u64> {
    match leaf_slot(m, root, vpn) {
        Some(slot) => Some(pte_at(m, slot.0, slot.1)),
        None => None,
    }
}

/// The valid last-level entry that maps `vpn`, if any.
pub open spec fn mapping(m: Map<u64, Seq<u8>>, root: u64, vpn: u64) -> Option<u64> {
    match leaf_entry(m, root, vpn) {
        Some(e) => if pte_valid(e) {
            Some(e)
        } else {
            None
        },
        None => None,
    }
}

/// Frame `t` is held and is a full page.
pub open spec fn table_ok(m: Map<u64, Seq<u8>>, t: u64) -> bool {
    m.dom().contains(t) && m[t].len() == PAGE_SIZE
}

/// The tables reachable from `root` form a tree of held frames from
/// `tables`: every valid entry above the last level points to its own table,
/// different from the root, from every other table of the same level, and
/// from every table of the other level.
pub open spec fn tree_wf(m: Map<u64, Seq<u8>>, root: u64, tables: Set<u64>) -> bool {
    &&& tables.contains(root)
    &&& forall|t: u64| tables.contains(t) ==> #[trigger] table_ok(m, t)
    &&& forall|i0: u64|
        i0 < 512 && l1_valid(m, root, i0) ==> tables.contains(#[trigger] l1_table(m, root, i0)) && l1_table(m, root, i0)
            != root
    &&& forall|i0: u64, i1: u64|
        i0 < 512 && i1 < 512 && l2_valid(m, root, i0, i1) ==> tables.contains(#[trigger] l2_table(m, root, i0, i1))
            && l2_table(m, root, i0, i1) != root
    &&& forall|i0: u64, i1: u64, j0: u64|
        i0 < 512 && i1 < 512 && j0 < 512 && l2_valid(m, root, i0, i1) && l1_valid(m, root, j0) ==> #[trigger] l2_table(m, root, i0, i1)
            != #[trigger] l1_table(m, root, j0)
    &&& forall|i0: u64, j0: u64|
        i0 < 512 && j0 < 512 && i0 != j0 && l1_valid(m, root, i0) && l1_valid(m, root, j0) ==> #[trigger] l1_table(m, root, i0)
            != #[trigger] l1_table(m, root, j0)
    &&& forall|i0: u64, i1: u64, j0: u64, j1: u64|
        i0 < 512 && i1 < 512 && j0 < 512 && j1 < 512 && (i0 != j0 || i1 != j1) && l2_valid(m, root, i0, i1) && l2_valid(
            m,
            root,
            j0,
            j1,
        ) ==> #[trigger] l2_table(m, root, i0, i1) != #[trigger] l2_table(m, root, j0, j1)
}

/// When every table frame keeps its content, the tree, the walks and the
/// mappings stay as they were.
pub proof fn lemma_same_tables(m: Map<u64, Seq<u8>>, m2: Map<u64, Seq<u8>>, root: u64, tables: Set<u64>)
    requires
        tree_wf(m, root, tables),
        forall|t: u64| #[trigger] tables.contains(t) ==> m2.dom().contains(t) && m2[t] == m[t],
    ensures
        tree_wf(m2, root, tables),
        forall|vpn: u64| #[trigger] leaf_slot(m2, root, vpn) == leaf_slot(m, root, vpn),
        forall|vpn: u64| #[trigger] leaf_entry(m2, root, vpn) == leaf_entry(m, root, vpn),
        forall|vpn: u64| #[trigger] mapping(m2, root, vpn) == mapping(m, root, vpn),
        forall|vpn: u64| #[trigger] frames_needed(m2, root, vpn) == frames_needed(m, root, vpn),
{
    assert(m2[root] == m[root]);
    assert forall|i0: u64| i0 < 512 implies #[trigger] l1_valid(m2, root, i0) == l1_valid(m, root, i0)
        && l1_table(m2, root, i0) == l1_table(m, root, i0) by {
    }
    assert forall|i0: u64, i1: u64| i0 < 512 && i1 < 512 && l1_valid(m, root, i0) implies #[trigger] l2_valid(m2, root, i0, i1)
        == l2_valid(m, root, i0, i1) && l2_table(m2, root, i0, i1) == l2_table(m, root, i0, i1) by {
        assert(l1_valid(m2, root, i0) == l1_valid(m, root, i0) && l1_table(m2, root, i0) == l1_table(m, root, i0));
        assert(m2[l1_table(m, root, i0)] == m[l1_table(m, root, i0)]);
    }
    assert forall|t: u64| tables.contains(t) implies #[trigger] table_ok(m2, t) by {
        assert(m2[t] == m[t]);
        assert(table_ok(m, t));
    }
    assert forall|vpn: u64| #[trigger] leaf_slot(m2, root, vpn) == leaf_slot(m, root, vpn) by {
        let ix = vpn_indices(vpn);
        assert(ix[0] < 512 && ix[1] < 512) by {
            lemma_index_bounds(vpn);
        }
        assert(l1_valid(m2, root, ix[0]) == l1_valid(m, root, ix[0]));
        if l1_valid(m, root, ix[0]) {
            assert(l2_valid(m2, root, ix[0], ix[1]) == l2_valid(m, root, ix[0], ix[1]));
        }
    }
    assert forall|vpn: u64| #[trigger] leaf_entry(m2, root, vpn) == leaf_entry(m, root, vpn) by {
        assert(leaf_slot(m2, root, vpn) == leaf_slot(m, root, vpn));
        let ix = vpn_indices(vpn);
        assert(ix[0] < 512 && ix[1] < 512) by {
            lemma_index_bounds(vpn);
        }
        if leaf_slot(m, root, vpn) is Some {
            let t = l2_table(m, root, ix[0], ix[1]);
            assert(tables.contains(t));
            assert(m2[t] == m[t]);
        }
    }
    assert forall|vpn: u64| #[trigger] mapping(m2, root, vpn) == mapping(m, root, vpn) by {
        assert(leaf_entry(m2, root, vpn) == leaf_entry(m, root, vpn));
    }
    assert forall|vpn: u64| #[trigger] frames_needed(m2, root, vpn) == frames_needed(m, root, vpn) by {
        let ix = vpn_indices(vpn);
        assert(ix[0] < 512 && ix[1] < 512) by {
            lemma_index_bounds(vpn);
        }
        assert(l1_valid(m2, root, ix[0]) == l1_valid(m, root, ix[0]));
        if l1_valid(m, root, ix[0]) {
            assert(l2_valid(m2, root, ix[0], ix[1]) == l2_valid(m, root, ix[0], ix[1]));
        }
    }
}


proof fn lemma_indices_small(vpn: u64)
    ensures
        vpn_indices(vpn)[0] < 512,
        vpn_indices(vpn)[1] < 512,
        vpn_indices(vpn)[2] < 512,
{
    lemma_index_bounds(vpn);
}

proof fn lemma_same_indices(a: u64, b: u64)
    requires
        a < VPN_LIMIT,
        b < VPN_LIMIT,
        vpn_indices(a) == vpn_indices(b),
    ensures
        a == b,
{
    lemma_vpn_indices(a);
    lemma_vpn_indices(b);
    assert(vpn_indices(a)[0] == vpn_indices(b)[0]);
    assert(vpn_indices(a)[1] == vpn_indices(b)[1]);
    assert(vpn_indices(a)[2] == vpn_indices(b)[2]);
}

/// Writing the last-level entry for `vpn` changes the entry for `vpn` and
/// no other entry reached by a walk; the walks stay as they were.
pub proof fn lemma_leaf_write(m: Map<u64, Seq<u8>>, root: u64, tables: Set<u64>, vpn: u64, v: u64)
    requires
        tree_wf(m, root, tables),
        vpn < VPN_LIMIT,
        leaf_slot(m, root, vpn) is Some,
    ensures
        ({
            let slot = leaf_slot(m, root, vpn).unwrap();
            let m2 = m.insert(slot.0, set_u64(m[slot.0], slot.1 as int * 8, v));
            &&& tree_wf(m2, root, tables)
            &&& forall|x: u64| #[trigger] leaf_slot(m2, root, x) == leaf_slot(m, root, x)
            &&& leaf_entry(m2, root, vpn) == Some(v)
            &&& forall|x: u64| x < VPN_LIMIT && x != vpn ==> #[trigger] leaf_entry(m2, root, x) == leaf_entry(m, root, x)
        }),
{
    let ix = vpn_indices(vpn);
    lemma_indices_small(vpn);
    let slot = leaf_slot(m, root, vpn).unwrap();
    let t2 = slot.0;
    let i2 = slot.1;
    assert(t2 == l2_table(m, root, ix[0], ix[1]));
    assert(tables.contains(t2));
    assert(table_ok(m, t2));
    let m2 = m.insert(t2, set_u64(m[t2], i2 as int * 8, v));
    lemma_u64_read_write(m[t2], i2 as int * 8, v);
    assert(t2 != root);
    assert(m2[root] == m[root]);
    assert forall|j0: u64| j0 < 512 && l1_valid(m, root, j0) implies m2[#[trigger] l1_table(m, root, j0)] == m[l1_table(m, root, j0)] by {
        assert(l2_table(m, root, ix[0], ix[1]) != l1_table(m, root, j0));
    }
    assert forall|j0: u64| j0 < 512 implies #[trigger] l1_valid(m2, root, j0) == l1_valid(m, root, j0)
        && l1_table(m2, root, j0) == l1_table(m, root, j0) by {
    }
    assert forall|j0: u64, j1: u64| j0 < 512 && j1 < 512 && l1_valid(m, root, j0) implies #[trigger] l2_valid(m2, root, j0, j1)
        == l2_valid(m, root, j0, j1) && l2_table(m2, root, j0, j1) == l2_table(m, root, j0, j1) by {
        assert(m2[l1_table(m, root, j0)] == m[l1_table(m, root, j0)]);
    }
    assert forall|t: u64| tables.contains(t) implies #[trigger] table_ok(m2, t) by {
        assert(table_ok(m, t));
    }
    assert forall|x: u64| #[trigger] leaf_slot(m2, root, x) == leaf_slot(m, root, x) by {
        lemma_indices_small(x);
        let jx = vpn_indices(x);
        assert(l1_valid(m2, root, jx[0]) == l1_valid(m, root, jx[0]));
        if l1_valid(m, root, jx[0]) {
            assert(l2_valid(m2, root, jx[0], jx[1]) == l2_valid(m, root, jx[0], jx[1]));
        }
    }
    assert(leaf_slot(m2, root, vpn) == leaf_slot(m, root, vpn));
    assert(leaf_entry(m2, root, vpn) == Some(v));
    assert forall|x: u64| x < VPN_LIMIT && x != vpn implies #[trigger] leaf_entry(m2, root, x) == leaf_entry(m, root, x) by {
        assert(leaf_slot(m2, root, x) == leaf_slot(m, root, x));
        lemma_indices_small(x);
        let jx = vpn_indices(x);
        if leaf_slot(m, root, x) is Some {
            let t = l2_table(m, root, jx[0], jx[1]);
            if t == t2 {
                if jx[0] != ix[0] || jx[1] != ix[1] {
                    assert(l2_table(m, root, jx[0], jx[1]) != l2_table(m, root, ix[0], ix[1]));
                }
                assert(jx[0] == ix[0] && jx[1] == ix[1]);
                if jx[2] == ix[2] {
                    assert(jx =~= ix);
                    lemma_same_indices(x, vpn);
                }
                lemma_u64_other(m[t2], i2 as int * 8, jx[2] as int * 8, v);
            }
        }
    }
}

/// Linking a fresh zeroed table under entry `i0` of the root, where no
/// table was, adds it to the tree and changes no mapping.
pub proof fn lemma_link_l1(m: Map<u64, Seq<u8>>, root: u64, tables: Set<u64>, i0: u64, f: u64)
    requires
        tree_wf(m, root, tables),
        i0 < 512,
        !l1_valid(m, root, i0),
        !tables.contains(f),
        f < PPN_LIMIT,
        table_ok(m, f),
        m[f] == zero_page(),
    ensures
        ({
            let m2 = m.insert(root, set_u64(m[root], i0 as int * 8, pte_make(f, FLAG_V)));
            &&& tree_wf(m2, root, tables.insert(f))
            &&& l1_valid(m2, root, i0)
            &&& l1_table(m2, root, i0) == f
            &&& forall|j: u64| j < 512 ==> !#[trigger] l2_valid(m2, root, i0, j)
            &&& forall|x: u64| #[trigger] mapping(m2, root, x) == mapping(m, root, x)
        }),
{
    let m2 = m.insert(root, set_u64(m[root], i0 as int * 8, pte_make(f, FLAG_V)));
    let t2 = tables.insert(f);
    assert(table_ok(m, root));
    lemma_u64_read_write(m[root], i0 as int * 8, pte_make(f, FLAG_V));
    lemma_pte_make(f, FLAG_V);
    lemma_flag_v();
    assert(pte_at(m2, root, i0) == pte_make(f, FLAG_V));
    assert(f != root);
    assert forall|j0: u64| j0 < 512 && j0 != i0 implies #[trigger] pte_at(m2, root, j0) == pte_at(m, root, j0) by {
        lemma_u64_other(m[root], i0 as int * 8, j0 as int * 8, pte_make(f, FLAG_V));
    }
    assert forall|j: u64| j < 512 implies #[trigger] pte_at(m2, f, j) == 0 by {
        assert(m2[f] == m[f]);
        lemma_zero_page_u64(j as int * 8);
    }
    lemma_flag_v();
    assert forall|j0: u64| j0 < 512 && j0 != i0 && l1_valid(m, root, j0) implies m2[#[trigger] l1_table(m, root, j0)] == m[l1_table(m, root, j0)] by {
    }
    assert forall|t: u64| t2.contains(t) implies #[trigger] table_ok(m2, t) by {
        if t != f {
            assert(table_ok(m, t));
        }
    }
    assert forall|j0: u64| j0 < 512 && l1_valid(m2, root, j0) implies t2.contains(#[trigger] l1_table(m2, root, j0)) && l1_table(m2, root, j0) != root by {
        if j0 != i0 {
            assert(pte_at(m2, root, j0) == pte_at(m, root, j0));
            assert(l1_valid(m, root, j0));
            assert(tables.contains(l1_table(m, root, j0)));
        } else {
            assert(l1_table(m2, root, j0) == f);
        }
    }
    assert forall|j0: u64, j1: u64| j0 < 512 && j1 < 512 && l2_valid(m2, root, j0, j1) implies
        l2_valid(m, root, j0, j1) && #[trigger] l2_table(m2, root, j0, j1) == l2_table(m, root, j0, j1) && j0 != i0 by {
        if j0 == i0 {
            assert(l1_table(m2, root, j0) == f);
            assert(pte_at(m2, f, j1) == 0);
        } else {
            assert(pte_at(m2, root, j0) == pte_at(m, root, j0));
            assert(m2[l1_table(m, root, j0)] == m[l1_table(m, root, j0)]);
        }
    }
    assert forall|j0: u64| j0 < 512 && l1_valid(m, root, j0) implies #[trigger] l1_valid(m2, root, j0) && l1_table(m2, root, j0) == l1_table(m, root, j0) by {
        assert(pte_at(m2, root, j0) == pte_at(m, root, j0));
    }
    assert(tree_wf(m2, root, t2)) by {
        assert forall|a0: u64, a1: u64, b0: u64|
            a0 < 512 && a1 < 512 && b0 < 512 && l2_valid(m2, root, a0, a1) && l1_valid(m2, root, b0) implies #[trigger] l2_table(m2, root, a0, a1)
                != #[trigger] l1_table(m2, root, b0) by {
            assert(l2_valid(m, root, a0, a1));
            if b0 != i0 {
                assert(pte_at(m2, root, b0) == pte_at(m, root, b0));
            } else {
                assert(tables.contains(l2_table(m, root, a0, a1)));
            }
        }
        assert forall|a0: u64, b0: u64|
            a0 < 512 && b0 < 512 && a0 != b0 && l1_valid(m2, root, a0) && l1_valid(m2, root, b0) implies #[trigger] l1_table(m2, root, a0)
                != #[trigger] l1_table(m2, root, b0) by {
            if a0 != i0 {
                assert(pte_at(m2, root, a0) == pte_at(m, root, a0));
            }
            if b0 != i0 {
                assert(pte_at(m2, root, b0) == pte_at(m, root, b0));
            }
        }
        assert forall|a0: u64, a1: u64, b0: u64, b1: u64|
            a0 < 512 && a1 < 512 && b0 < 512 && b1 < 512 && (a0 != b0 || a1 != b1) && l2_valid(m2, root, a0, a1) && l2_valid(m2, root, b0, b1) implies
            #[trigger] l2_table(m2, root, a0, a1) != #[trigger] l2_table(m2, root, b0, b1) by {
            assert(l2_valid(m, root, a0, a1));
            assert(l2_valid(m, root, b0, b1));
        }
    }
    assert forall|x: u64| #[trigger] mapping(m2, root, x) == mapping(m, root, x) by {
        lemma_indices_small(x);
        let jx = vpn_indices(x);
        if jx[0] == i0 {
            assert(!l2_valid(m2, root, jx[0], jx[1]));
            assert(leaf_slot(m, root, x) is None);
        } else {
            assert(pte_at(m2, root, jx[0]) == pte_at(m, root, jx[0]));
            if l1_valid(m, root, jx[0]) {
                assert(m2[l1_table(m, root, jx[0])] == m[l1_table(m, root, jx[0])]);
                if l2_valid(m, root, jx[0], jx[1]) {
                    let t = l2_table(m, root, jx[0], jx[1]);
                    assert(tables.contains(t));
                    assert(m2[t] == m[t]);
                }
            }
        }
    }
}

/// Linking a fresh zeroed table under entry `i1` of the second-level table
/// reached through root entry `i0`, where no table was, adds it to the tree
/// and changes no mapping.
pub proof fn lemma_link_l2(m: Map<u64, Seq<u8>>, root: u64, tables: Set<u64>, i0: u64, i1: u64, f: u64)
    requires
        tree_wf(m, root, tables),
        i0 < 512,
        i1 < 512,
        l1_valid(m, root, i0),
        !l2_valid(m, root, i0, i1),
        !tables.contains(f),
        f < PPN_LIMIT,
        table_ok(m, f),
        m[f] == zero_page(),
    ensures
        ({
            let t1 = l1_table(m, root, i0);
            let m2 = m.insert(t1, set_u64(m[t1], i1 as int * 8, pte_make(f, FLAG_V)));
            &&& tree_wf(m2, root, tables.insert(f))
            &&& l1_valid(m2, root, i0)
            &&& l1_table(m2, root, i0) == t1
            &&& l2_valid(m2, root, i0, i1)
            &&& l2_table(m2, root, i0, i1) == f
            &&& forall|x: u64| #[trigger] mapping(m2, root, x) == mapping(m, root, x)
        }),
{
    let t1 = l1_table(m, root, i0);
    let m2 = m.insert(t1, set_u64(m[t1], i1 as int * 8, pte_make(f, FLAG_V)));
    let ts = tables.insert(f);
    assert(tables.contains(t1));
    assert(table_ok(m, t1));
    assert(t1 != root);
    lemma_u64_read_write(m[t1], i1 as int * 8, pte_make(f, FLAG_V));
    lemma_pte_make(f, FLAG_V);
    lemma_flag_v();
    assert(m2[root] == m[root]);
    assert(f != t1);
    assert forall|j: u64| j < 512 implies #[trigger] pte_at(m2, f, j) == 0 by {
        assert(m2[f] == m[f]);
        lemma_zero_page_u64(j as int * 8);
    }
    assert forall|j0: u64| j0 < 512 implies #[trigger] l1_valid(m2, root, j0) == l1_valid(m, root, j0)
        && l1_table(m2, root, j0) == l1_table(m, root, j0) by {
    }
    assert forall|j0: u64| j0 < 512 && j0 != i0 && l1_valid(m, root, j0) implies m2[#[trigger] l1_table(m, root, j0)] == m[l1_table(m, root, j0)] by {
        assert(l1_table(m, root, j0) != l1_table(m, root, i0));
    }
    assert forall|j1: u64| j1 < 512 && j1 != i1 implies #[trigger] pte_at(m2, t1, j1) == pte_at(m, t1, j1) by {
        lemma_u64_other(m[t1], i1 as int * 8, j1 as int * 8, pte_make(f, FLAG_V));
    }
    assert(pte_at(m2, t1, i1) == pte_make(f, FLAG_V));
    assert forall|j0: u64, j1: u64| j0 < 512 && j1 < 512 && l2_valid(m2, root, j0, j1) && (j0 != i0 || j1 != i1) implies
        l2_valid(m, root, j0, j1) && #[trigger] l2_table(m2, root, j0, j1) == l2_table(m, root, j0, j1) by {
        if j0 != i0 {
            assert(m2[l1_table(m, root, j0)] == m[l1_table(m, root, j0)]);
        } else {
            assert(pte_at(m2, t1, j1) == pte_at(m, t1, j1));
        }
    }
    assert forall|j0: u64, j1: u64| j0 < 512 && j1 < 512 && l2_valid(m, root, j0, j1) implies
        m2[#[trigger] l2_table(m, root, j0, j1)] == m[l2_table(m, root, j0, j1)] by {
        assert(l2_table(m, root, j0, j1) != l1_table(m, root, i0));
    }
    assert(tree_wf(m2, root, ts)) by {
        assert forall|t: u64| ts.contains(t) implies #[trigger] table_ok(m2, t) by {
            if t != f && t != t1 {
                assert(table_ok(m, t));
            }
        }
        assert forall|a0: u64| a0 < 512 && l1_valid(m2, root, a0) implies ts.contains(#[trigger] l1_table(m2, root, a0)) && l1_table(m2, root, a0) != root by {
            assert(l1_valid(m, root, a0));
        }
        assert forall|a0: u64, a1: u64| a0 < 512 && a1 < 512 && l2_valid(m2, root, a0, a1) implies ts.contains(#[trigger] l2_table(m2, root, a0, a1)) && l2_table(m2, root, a0, a1) != root by {
            if a0 != i0 || a1 != i1 {
                assert(l2_valid(m, root, a0, a1));
            }
        }
        assert forall|a0: u64, a1: u64, b0: u64|
            a0 < 512 && a1 < 512 && b0 < 512 && l2_valid(m2, root, a0, a1) && l1_valid(m2, root, b0) implies #[trigger] l2_table(m2, root, a0, a1)
                != #[trigger] l1_table(m2, root, b0) by {
            assert(l1_valid(m, root, b0));
            assert(tables.contains(l1_table(m, root, b0)));
            if a0 != i0 || a1 != i1 {
                assert(l2_valid(m, root, a0, a1));
            }
        }
        assert forall|a0: u64, b0: u64|
            a0 < 512 && b0 < 512 && a0 != b0 && l1_valid(m2, root, a0) && l1_valid(m2, root, b0) implies #[trigger] l1_table(m2, root, a0)
                != #[trigger] l1_table(m2, root, b0) by {
            assert(l1_valid(m, root, a0));
            assert(l1_valid(m, root, b0));
        }
        assert forall|a0: u64, a1: u64, b0: u64, b1: u64|
            a0 < 512 && a1 < 512 && b0 < 512 && b1 < 512 && (a0 != b0 || a1 != b1) && l2_valid(m2, root, a0, a1) && l2_valid(m2, root, b0, b1) implies
            #[trigger] l2_table(m2, root, a0, a1) != #[trigger] l2_table(m2, root, b0, b1) by {
            if a0 != i0 || a1 != i1 {
                assert(l2_valid(m, root, a0, a1));
                assert(tables.contains(l2_table(m, root, a0, a1)));
            }
            if b0 != i0 || b1 != i1 {
                assert(l2_valid(m, root, b0, b1));
                assert(tables.contains(l2_table(m, root, b0, b1)));
            }
        }
    }
    assert forall|x: u64| #[trigger] mapping(m2, root, x) == mapping(m, root, x) by {
        lemma_indices_small(x);
        let jx = vpn_indices(x);
        if jx[0] == i0 && jx[1] == i1 {
            assert(leaf_slot(m, root, x) is None);
            assert(l2_table(m2, root, jx[0], jx[1]) == f);
            assert(pte_at(m2, f, jx[2]) == 0);
        } else if l2_valid(m2, root, jx[0], jx[1]) {
            assert(l2_valid(m, root, jx[0], jx[1]));
            let t = l2_table(m, root, jx[0], jx[1]);
            assert(m2[t] == m[t]);
        } else {
            if jx[0] == i0 {
                assert(pte_at(m2, t1, jx[1]) == pte_at(m, t1, jx[1]));
            } else if l1_valid(m, root, jx[0]) {
                assert(m2[l1_table(m, root, jx[0])] == m[l1_table(m, root, jx[0])]);
            }
        }
    }
}


/// The walk for `vpn` from `root` only reads frames that are held.
pub open spec fn walk_ok(m: Map<u64, Seq<u8>>, root: u64, vpn: u64) -> bool {
    let ix = vpn_indices(vpn);
    &&& table_ok(m, root)
    &&& l1_valid(m, root, ix[0]) ==> table_ok(m, l1_table(m, root, ix[0]))
    &&& l2_valid(m, root, ix[0], ix[1]) ==> table_ok(m, l2_table(m, root, ix[0], ix[1]))
}

/// Number of tables that must be made to reach the last level for `vpn`.
pub open spec fn frames_needed(m: Map<u64, Seq<u8>>, root: u64, vpn: u64) -> int {
    let ix = vpn_indices(vpn);
    if !l1_valid(m, root, ix[0]) {
        2
    } else if !l2_valid(m, root, ix[0], ix[1]) {
        1
    } else {
        0
    }
}

/// Pages of one 2 MiB region share their last-level table, and pages of
/// one 1 GiB region their second-level table: once page `p` is mapped, page
/// `v` of the same 2 MiB region needs no new table, and one of the same
/// 1 GiB region at most one.
pub proof fn lemma_needed_near(m: Map<u64, Seq<u8>>, root: u64, p: u64, v: u64)
    requires
        p < VPN_LIMIT,
        v < VPN_LIMIT,
        mapping(m, root, p) is Some,
    ensures
        0 <= frames_needed(m, root, v) <= 2,
        p / 512 == v / 512 ==> frames_needed(m, root, v) == 0,
        p / 262144 == v / 262144 ==> frames_needed(m, root, v) <= 1,
{
    assert(p < 0x800_0000 && v < 0x800_0000 && p / 512 == v / 512 ==> (p >> 18) & 511 == (v >> 18) & 511
        && (p >> 9) & 511 == (v >> 9) & 511) by (bit_vector);
    assert(p < 0x800_0000 && v < 0x800_0000 && p / 262144 == v / 262144 ==> (p >> 18) & 511 == (v >> 18) & 511) by (bit_vector);
    let ip = vpn_indices(p);
    let iv = vpn_indices(v);
    assert(leaf_slot(m, root, p) is Some);
    assert(l2_valid(m, root, ip[0], ip[1]));
}

/// Frames handed out by `a` are held in `mem` and fit an entry, and none
/// of `tables`, which fit an entry too, can be handed out.
pub open spec fn alloc_ok(a: StackFrameAllocator, mem: PhysMem, tables: Set<u64>) -> bool {
    &&& a.wf()
    &&& forall|f: u64| #[trigger] a.is_free(f) ==> mem.has(f) && f < PPN_LIMIT
    &&& forall|t: u64| #[trigger] tables.contains(t) ==> !a.is_free(t) && t < PPN_LIMIT
}

/// What a change of the page table leaves alone: no frame becomes free,
/// every new table frame was free, and every frame that was neither a table
/// nor free keeps its bytes.
pub open spec fn frames_kept(
    a0: StackFrameAllocator,
    a1: StackFrameAllocator,
    m0: Map<u64, Seq<u8>>,
    m1: Map<u64, Seq<u8>>,
    t0: Set<u64>,
    t1: Set<u64>,
) -> bool {
    &&& a1.current >= a0.current
    &&& forall|g: u64| #[trigger] a1.is_free(g) ==> a0.is_free(g)
    &&& forall|t: u64| #[trigger] t1.contains(t) ==> t0.contains(t) || a0.is_free(t)
    &&& forall|p: u64| #[trigger] kept_frame(a0, m0, m1, t0, p)
}

/// Frame `p`, when it was held and neither a table in `t0` nor free in
/// `a0`, is held in `m1` with the bytes it had in `m0`.
pub open spec fn kept_frame(a0: StackFrameAllocator, m0: Map<u64, Seq<u8>>, m1: Map<u64, Seq<u8>>, t0: Set<u64>, p: u64) -> bool {
    m0.dom().contains(p) && !t0.contains(p) && !a0.is_free(p) ==> m1.dom().contains(p) && m1[p] == m0[p]
}

/// A frame that was neither a table nor free keeps its bytes.
pub proof fn lemma_kept_at(
    a0: StackFrameAllocator,
    a1: StackFrameAllocator,
    m0: Map<u64, Seq<u8>>,
    m1: Map<u64, Seq<u8>>,
    t0: Set<u64>,
    t1: Set<u64>,
    p: u64,
)
    requires
        frames_kept(a0, a1, m0, m1, t0, t1),
        m0.dom().contains(p),
        !t0.contains(p),
        !a0.is_free(p),
    ensures
        m1.dom().contains(p),
        m1[p] == m0[p],
        !a1.is_free(p),
        !t1.contains(p),
{
    assert(kept_frame(a0, m0, m1, t0, p));
    if a1.is_free(p) {
        assert(a0.is_free(p));
    }
    if t1.contains(p) {
        assert(t0.contains(p) || a0.is_free(p));
    }
}

/// Frame `p`, when it was held and no table of `t`, is held in `m1` with the
/// bytes it had in `m0`.
pub open spec fn same_outside(m0: Map<u64, Seq<u8>>, m1: Map<u64, Seq<u8>>, t: Set<u64>, p: u64) -> bool {
    m0.dom().contains(p) && !t.contains(p) ==> m1.dom().contains(p) && m1[p] == m0[p]
}

/// Two changes that each leave those frames alone, one after the other,
/// leave them alone.
pub proof fn lemma_frames_kept_trans(
    a0: StackFrameAllocator,
    a1: StackFrameAllocator,
    a2: StackFrameAllocator,
    m0: Map<u64, Seq<u8>>,
    m1: Map<u64, Seq<u8>>,
    m2: Map<u64, Seq<u8>>,
    t0: Set<u64>,
    t1: Set<u64>,
    t2: Set<u64>,
)
    requires
        frames_kept(a0, a1, m0, m1, t0, t1),
        frames_kept(a1, a2, m1, m2, t1, t2),
    ensures
        frames_kept(a0, a2, m0, m2, t0, t2),
{
    assert forall|p: u64| #[trigger] kept_frame(a0, m0, m2, t0, p) by {
        if m0.dom().contains(p) && !t0.contains(p) && !a0.is_free(p) {
            lemma_kept_at(a0, a1, m0, m1, t0, t1, p);
            lemma_kept_at(a1, a2, m1, m2, t1, t2, p);
        }
    }
    assert forall|g: u64| #[trigger] a2.is_free(g) implies a0.is_free(g) by {
        assert(a1.is_free(g));
    }
    assert forall|t: u64| #[trigger] t2.contains(t) implies t0.contains(t) || a0.is_free(t) by {
        if !t1.contains(t) {
            assert(a1.is_free(t));
        }
    }
}

/// Where a page-table entry lives: the frame of its table and its index.
#[derive(Clone, Copy, PartialEq, Eq, Structural, Debug)]
pub struct PteSlot {
    pub table: PhyPageNum,
    pub index: u64,
}

/// A three-level page table: its root frame and the table frames it owns.
pub struct PageTable {
    pub root_ppn: PhyPageNum,
    pub frames: Vec<FrameTracker>,
}

/// Unmapping a page right after mapping it gives back every mapping as it
/// was.
pub proof fn lemma_map_then_unmap(m0: Map<u64, Seq<u8>>, m1: Map<u64, Seq<u8>>, m2: Map<u64, Seq<u8>>, root: u64, vpn: u64)
    requires
        mapping(m0, root, vpn) is None,
        forall|x: u64| x < VPN_LIMIT && x != vpn ==> #[trigger] mapping(m1, root, x) == mapping(m0, root, x),
        mapping(m2, root, vpn) is None,
        forall|x: u64| x < VPN_LIMIT && x != vpn ==> #[trigger] mapping(m2, root, x) == mapping(m1, root, x),
    ensures
        forall|x: u64| x < VPN_LIMIT ==> #[trigger] mapping(m2, root, x) == mapping(m0, root, x),
{
    assert forall|x: u64| x < VPN_LIMIT implies #[trigger] mapping(m2, root, x) == mapping(m0, root, x) by {
        if x != vpn {
            assert(mapping(m1, root, x) == mapping(m0, root, x));
        }
    }
}

impl PageTable {
    /// The root and the owned table frames.
    pub open spec fn tables(&self) -> Set<u64> {
        Set::new(
            |t: u64|
                t == self.root_ppn.0 || exists|i: int| 0 <= i < self.frames@.len() && #[trigger] self.frames@[i].ppn.0 == t,
        )
    }

    /// The tables reachable from the root form a tree of owned frames.
    pub open spec fn wf(&self, m: Map<u64, Seq<u8>>) -> bool {
        tree_wf(m, self.root_ppn.0, self.tables())
    }

    /// A well-formed table's walks only read held frames.
    pub proof fn lemma_walk_ok(&self, m: Map<u64, Seq<u8>>, vpn: u64)
        requires
            self.wf(m),
        ensures
            walk_ok(m, self.root_ppn.0, vpn),
    {
        lemma_indices_small(vpn);
        let ix = vpn_indices(vpn);
        let root = self.root_ppn.0;
        if l1_valid(m, root, ix[0]) {
            assert(self.tables().contains(l1_table(m, root, ix[0])));
        }
        if l2_valid(m, root, ix[0], ix[1]) {
            assert(self.tables().contains(l2_table(m, root, ix[0], ix[1])));
        }
    }

    /// A table with a fresh zeroed root frame and no mapping.
    pub fn new(alloc: &mut StackFrameAllocator, mem: &mut PhysMem) -> (r: Self)
        requires
            old(mem).wf(),
            alloc_ok(*old(alloc), *old(mem), Set::empty()),
            old(alloc).free_count() >= 1,
        ensures
            final(mem).wf(),
            final(mem).base() == old(mem).base(),
            final(mem).count() == old(mem).count(),
            final(mem)@ == old(mem)@.insert(r.root_ppn.0, zero_page()),
            old(alloc).is_free(r.root_ppn.0),
            r.wf(final(mem)@),
            alloc_ok(*final(alloc), *final(mem), r.tables()),
            final(alloc).free_count() == old(alloc).free_count() - 1,
            forall|x: u64| #[trigger] mapping(final(mem)@, r.root_ppn.0, x) is None,
            r.tables() == Set::<u64>::empty().insert(r.root_ppn.0),
            frames_kept(*old(alloc), *final(alloc), old(mem)@, final(mem)@, Set::empty(), r.tables()),
    {
        let ghost a0 = *alloc;
        let f = alloc.alloc_frame();
        proof {
            crate::mem::frame::lemma_alloc_takes_free(a0, *alloc, f);
        }
        let frame = f.unwrap();
        let ft = FrameTracker::new(frame, mem);
        let root_ppn = ft.ppn;
        let mut frames: Vec<FrameTracker> = Vec::new();
        frames.push(ft);
        let r = Self { root_ppn, frames };
        proof {
            mem.lemma_view();
            assert(r.tables() =~= Set::empty().insert(root_ppn.0));
            lemma_flag_v();
            assert forall|i: u64| i < 512 implies #[trigger] pte_at(mem@, root_ppn.0, i) == 0 by {
                lemma_zero_page_u64(i as int * 8);
            }
            assert forall|x: u64| #[trigger] mapping(mem@, root_ppn.0, x) is None by {
                lemma_indices_small(x);
                assert(pte_at(mem@, root_ppn.0, vpn_indices(x)[0]) == 0);
            }
            assert(forall|i0: u64| i0 < 512 ==> !#[trigger] l1_valid(mem@, root_ppn.0, i0));
            assert forall|t: u64| r.tables().contains(t) implies !alloc.is_free(t) by {
                assert(t == root_ppn.0);
            }
            assert forall|t: u64| r.tables().contains(t) implies #[trigger] table_ok(mem@, t) by {
                assert(t == root_ppn.0);
            }
            assert forall|p: u64| #[trigger] kept_frame(a0, old(mem)@, mem@, Set::empty(), p) by {
            }
        }
        r
    }

    /// The table whose root is the page number held in `satp`; it owns no
    /// frame.
    pub fn from_satp(satp: u64) -> (r: Self)
        ensures
            r.root_ppn.0 == satp & PPN_MASK,
            r.frames@.len() == 0,
    {
        proof {
            assert((satp & 0x0fff_ffff_ffff) & 0x0fff_ffff_ffff == satp & 0x0fff_ffff_ffff) by (bit_vector);
        }
        Self { root_ppn: PhyPageNum::from(satp & PPN_MASK), frames: Vec::new() }
    }

    /// The page number of the root table.
    pub fn address(&self) -> (r: u64)
        ensures
            r == self.root_ppn.0,
    {
        self.root_ppn.0
    }

    /// Where the last-level entry for `vpn` is, when the walk reaches it.
    pub fn find_pte(&self, vpn: VirPageNum, mem: &PhysMem) -> (r: Option<PteSlot>)
        requires
            mem.wf(),
            walk_ok(mem@, self.root_ppn.0, vpn.0),
        ensures
            r matches Some(s) ==> leaf_slot(mem@, self.root_ppn.0, vpn.0) == Some((s.table.0, s.index)),
            r is None ==> leaf_slot(mem@, self.root_ppn.0, vpn.0) is None,
    {
        let idx = vpn.get_index();
        let root = self.root_ppn.0;
        proof {
            lemma_indices_small(vpn.0);
            mem.lemma_view();
        }
        let e0 = PageTableEntry { bits: mem.read_u64(root, (idx[0] * 8) as usize) };
        if !e0.is_valid() {
            return None;
        }
        let t1 = e0.ppn().0;
        let e1 = PageTableEntry { bits: mem.read_u64(t1, (idx[1] * 8) as usize) };
        if !e1.is_valid() {
            return None;
        }
        let t2 = e1.ppn();
        Some(PteSlot { table: t2, index: idx[2] })
    }

    /// A copy of the last-level entry for `vpn`, when the walk reaches it.
    pub fn vpn_to_pte(&self, vpn: VirPageNum, mem: &PhysMem) -> (r: Option<PageTableEntry>)
        requires
            mem.wf(),
            walk_ok(mem@, self.root_ppn.0, vpn.0),
        ensures
            r matches Some(e) ==> leaf_entry(mem@, self.root_ppn.0, vpn.0) == Some(e.bits),
            r is None ==> leaf_entry(mem@, self.root_ppn.0, vpn.0) is None,
    {
        match self.find_pte(vpn, mem) {
            Some(slot) => {
                proof {
                    mem.lemma_view();
                    lemma_indices_small(vpn.0);
                }
                Some(PageTableEntry { bits: mem.read_u64(slot.table.0, (slot.index * 8) as usize) })
            },
            None => None,
        }
    }

    /// Makes sure a table hangs under root entry `i0`, making a zeroed one
    /// when none does; returns its frame.
    fn ensure_l1(&mut self, i0: u64, alloc: &mut StackFrameAllocator, mem: &mut PhysMem) -> (t1: u64)
        requires
            i0 < 512,
            old(self).wf(old(mem)@),
            old(mem).wf(),
            alloc_ok(*old(alloc), *old(mem), old(self).tables()),
            old(alloc).free_count() >= if l1_valid(old(mem)@, old(self).root_ppn.0, i0) { 0int } else { 1int },
        ensures
            final(self).root_ppn == old(self).root_ppn,
            final(self).wf(final(mem)@),
            final(mem).wf(),
            final(mem).base() == old(mem).base(),
            final(mem).count() == old(mem).count(),
            alloc_ok(*final(alloc), *final(mem), final(self).tables()),
            frames_kept(*old(alloc), *final(alloc), old(mem)@, final(mem)@, old(self).tables(), final(self).tables()),
            final(alloc).free_count() == old(alloc).free_count() - if l1_valid(old(mem)@, old(self).root_ppn.0, i0) { 0int } else { 1int },
            l1_valid(final(mem)@, final(self).root_ppn.0, i0),
            t1 == l1_table(final(mem)@, final(self).root_ppn.0, i0),
            !l1_valid(old(mem)@, old(self).root_ppn.0, i0) ==> forall|j: u64| j < 512 ==> !#[trigger] l2_valid(final(mem)@, final(self).root_ppn.0, i0, j),
            l1_valid(old(mem)@, old(self).root_ppn.0, i0) ==> final(mem)@ == old(mem)@ && final(self).tables() == old(self).tables(),
            forall|x: u64| #[trigger] mapping(final(mem)@, final(self).root_ppn.0, x) == mapping(old(mem)@, old(self).root_ppn.0, x),
    {
        let root = self.root_ppn.0;
        proof {
            mem.lemma_view();
            assert(table_ok(mem@, root));
        }
        let e0 = PageTableEntry { bits: mem.read_u64(root, (i0 * 8) as usize) };
        if e0.is_valid() {
            return e0.ppn().0;
        }
        let ghost a0 = *alloc;
        let ghost m0 = mem@;
        let ghost ts0 = self.tables();
        let f = alloc.alloc_frame();
        proof {
            crate::mem::frame::lemma_alloc_takes_free(a0, *alloc, f);
        }
        let frame = f.unwrap();
        assert(!ts0.contains(frame.0));
        let ft = FrameTracker::new(frame, mem);
        let ghost mz = mem@;
        proof {
            assert(mz == m0.insert(frame.0, zero_page()));
            assert forall|t: u64| #[trigger] ts0.contains(t) implies mz.dom().contains(t) && mz[t] == m0[t] by {
                assert(table_ok(m0, t));
                assert(t != frame.0);
            }
            lemma_same_tables(m0, mz, root, ts0);
            mem.lemma_view();
        }
        let ghost m1 = mem@;
        let pte = PageTableEntry::new(ft.ppn, PTEFlags::from_bits_truncate(FLAG_V));
        mem.write_u64(root, (i0 * 8) as usize, pte.bits);
        proof {
            lemma_link_l1(m1, root, ts0, i0, frame.0);
            lemma_pte_make(frame.0, FLAG_V);
        }
        self.frames.push(ft);
        proof {
            assert(self.tables() =~= ts0.insert(frame.0)) by {
                assert forall|t: u64| self.tables().contains(t) implies ts0.insert(frame.0).contains(t) by {
                    if t != root {
                        let i = choose|i: int| 0 <= i < self.frames@.len() && #[trigger] self.frames@[i].ppn.0 == t;
                        if i < self.frames@.len() - 1 {
                            assert(old(self).frames@[i] == self.frames@[i]);
                        }
                    }
                }
                assert forall|t: u64| ts0.insert(frame.0).contains(t) implies self.tables().contains(t) by {
                    if t == frame.0 {
                        assert(self.frames@[self.frames@.len() - 1].ppn.0 == t);
                    } else if t != root {
                        let i = choose|i: int| 0 <= i < old(self).frames@.len() && #[trigger] old(self).frames@[i].ppn.0 == t;
                        assert(self.frames@[i] == old(self).frames@[i]);
                    }
                }
            }
            assert forall|t: u64| #[trigger] self.tables().contains(t) implies !alloc.is_free(t) by {
                if t != frame.0 {
                    assert(ts0.contains(t));
                }
            }
            assert forall|p: u64| #[trigger] kept_frame(a0, m0, mem@, ts0, p) by {
                assert(!a0.is_free(p) ==> p != frame.0);
                assert(ts0.contains(root));
            }
        }
        pte.ppn().0
    }

    /// Makes sure a last-level table hangs under entry `i1` of table `t1`,
    /// reached through root entry `i0`, making a zeroed one when none does;
    /// returns its frame.
    fn ensure_l2(&mut self, i0: u64, i1: u64, t1: u64, alloc: &mut StackFrameAllocator, mem: &mut PhysMem) -> (t2: u64)
        requires
            i0 < 512,
            i1 < 512,
            old(self).wf(old(mem)@),
            old(mem).wf(),
            l1_valid(old(mem)@, old(self).root_ppn.0, i0),
            t1 == l1_table(old(mem)@, old(self).root_ppn.0, i0),
            alloc_ok(*old(alloc), *old(mem), old(self).tables()),
            old(alloc).free_count() >= if l2_valid(old(mem)@, old(self).root_ppn.0, i0, i1) { 0int } else { 1int },
        ensures
            final(self).root_ppn == old(self).root_ppn,
            final(self).wf(final(mem)@),
            final(mem).wf(),
            final(mem).base() == old(mem).base(),
            final(mem).count() == old(mem).count(),
            alloc_ok(*final(alloc), *final(mem), final(self).tables()),
            frames_kept(*old(alloc), *final(alloc), old(mem)@, final(mem)@, old(self).tables(), final(self).tables()),
            final(alloc).free_count() == old(alloc).free_count() - if l2_valid(old(mem)@, old(self).root_ppn.0, i0, i1) { 0int } else { 1int },
            l2_valid(final(mem)@, final(self).root_ppn.0, i0, i1),
            t2 == l2_table(final(mem)@, final(self).root_ppn.0, i0, i1),
            forall|x: u64| #[trigger] mapping(final(mem)@, final(self).root_ppn.0, x) == mapping(old(mem)@, old(self).root_ppn.0, x),
    {
        let root = self.root_ppn.0;
        proof {
            mem.lemma_view();
            assert(self.tables().contains(t1));
            assert(table_ok(mem@, t1));
        }
        let e1 = PageTableEntry { bits: mem.read_u64(t1, (i1 * 8) as usize) };
        if e1.is_valid() {
            return e1.ppn().0;
        }
        let ghost a0 = *alloc;
        let ghost m0 = mem@;
        let ghost ts0 = self.tables();
        let f = alloc.alloc_frame();
        proof {
            crate::mem::frame::lemma_alloc_takes_free(a0, *alloc, f);
        }
        let frame = f.unwrap();
        assert(!ts0.contains(frame.0));
        let ft = FrameTracker::new(frame, mem);
        let ghost mz = mem@;
        proof {
            assert(mz == m0.insert(frame.0, zero_page()));
            assert forall|t: u64| #[trigger] ts0.contains(t) implies mz.dom().contains(t) && mz[t] == m0[t] by {
                assert(table_ok(m0, t));
                assert(t != frame.0);
            }
            lemma_same_tables(m0, mz, root, ts0);
            mem.lemma_view();
        }
        let ghost m1 = mem@;
        let pte = PageTableEntry::new(ft.ppn, PTEFlags::from_bits_truncate(FLAG_V));
        mem.write_u64(t1, (i1 * 8) as usize, pte.bits);
        proof {
            lemma_link_l2(m1, root, ts0, i0, i1, frame.0);
            lemma_pte_make(frame.0, FLAG_V);
        }
        self.frames.push(ft);
        proof {
            assert(self.tables() =~= ts0.insert(frame.0)) by {
                assert forall|t: u64| self.tables().contains(t) implies ts0.insert(frame.0).contains(t) by {
                    if t != root {
                        let i = choose|i: int| 0 <= i < self.frames@.len() && #[trigger] self.frames@[i].ppn.0 == t;
                        if i < self.frames@.len() - 1 {
                            assert(old(self).frames@[i] == self.frames@[i]);
                        }
                    }
                }
                assert forall|t: u64| ts0.insert(frame.0).contains(t) implies self.tables().contains(t) by {
                    if t == frame.0 {
                        assert(self.frames@[self.frames@.len() - 1].ppn.0 == t);
                    } else if t != root {
                        let i = choose|i: int| 0 <= i < old(self).frames@.len() && #[trigger] old(self).frames@[i].ppn.0 == t;
                        assert(self.frames@[i] == old(self).frames@[i]);
                    }
                }
            }
            assert forall|t: u64| #[trigger] self.tables().contains(t) implies !alloc.is_free(t) by {
                if t != frame.0 {
                    assert(ts0.contains(t));
                }
            }
            assert forall|p: u64| #[trigger] kept_frame(a0, m0, mem@, ts0, p) by {
                assert(!a0.is_free(p) ==> p != frame.0);
                assert(ts0.contains(t1));
            }
        }
        pte.ppn().0
    }

    /// Where the last-level entry for `vpn` is, making the missing tables
    /// on the way; no mapping changes.
    pub fn find_pte_create(&mut self, vpn: VirPageNum, alloc: &mut StackFrameAllocator, mem: &mut PhysMem) -> (r: Option<PteSlot>)
        requires
            old(self).wf(old(mem)@),
            old(mem).wf(),
            alloc_ok(*old(alloc), *old(mem), old(self).tables()),
            old(alloc).free_count() >= frames_needed(old(mem)@, old(self).root_ppn.0, vpn.0),
        ensures
            final(self).root_ppn == old(self).root_ppn,
            final(self).wf(final(mem)@),
            final(mem).wf(),
            final(mem).base() == old(mem).base(),
            final(mem).count() == old(mem).count(),
            alloc_ok(*final(alloc), *final(mem), final(self).tables()),
            frames_kept(*old(alloc), *final(alloc), old(mem)@, final(mem)@, old(self).tables(), final(self).tables()),
            final(alloc).free_count() == old(alloc).free_count() - frames_needed(old(mem)@, old(self).root_ppn.0, vpn.0),
            r matches Some(s) && leaf_slot(final(mem)@, final(self).root_ppn.0, vpn.0) == Some((s.table.0, s.index)),
            forall|x: u64| #[trigger] mapping(final(mem)@, final(self).root_ppn.0, x) == mapping(old(mem)@, old(self).root_ppn.0, x),
    {
        let idx = vpn.get_index();
        proof {
            lemma_indices_small(vpn.0);
        }
        let ghost a0 = *alloc;
        let ghost m0 = mem@;
        let ghost ts0 = self.tables();
        let t1 = self.ensure_l1(idx[0], alloc, mem);
        let ghost a1 = *alloc;
        let ghost m1 = mem@;
        let ghost ts1 = self.tables();
        let t2 = self.ensure_l2(idx[0], idx[1], t1, alloc, mem);
        proof {
            lemma_frames_kept_trans(a0, a1, *alloc, m0, m1, mem@, ts0, ts1, self.tables());
        }
        Some(PteSlot { table: PhyPageNum(t2), index: idx[2] })
    }

    /// Maps page `vpn` to frame `ppn` with `flags` and the valid flag; `vpn`
    /// must not be mapped yet. No other mapping changes.
    pub fn build_reflect(
        &mut self,
        vpn: VirPageNum,
        ppn: PhyPageNum,
        flags: PTEFlags,
        alloc: &mut StackFrameAllocator,
        mem: &mut PhysMem,
    )
        requires
            old(self).wf(old(mem)@),
            old(mem).wf(),
            vpn.0 < VPN_LIMIT,
            alloc_ok(*old(alloc), *old(mem), old(self).tables()),
            old(alloc).free_count() >= frames_needed(old(mem)@, old(self).root_ppn.0, vpn.0),
            mapping(old(mem)@, old(self).root_ppn.0, vpn.0) is None,
        ensures
            final(self).root_ppn == old(self).root_ppn,
            final(self).wf(final(mem)@),
            final(mem).wf(),
            final(mem).base() == old(mem).base(),
            final(mem).count() == old(mem).count(),
            alloc_ok(*final(alloc), *final(mem), final(self).tables()),
            frames_kept(*old(alloc), *final(alloc), old(mem)@, final(mem)@, old(self).tables(), final(self).tables()),
            final(alloc).free_count() == old(alloc).free_count() - frames_needed(old(mem)@, old(self).root_ppn.0, vpn.0),
            mapping(final(mem)@, final(self).root_ppn.0, vpn.0) == Some(pte_make(ppn.0, flags.bits | FLAG_V)),
            forall|x: u64| x < VPN_LIMIT && x != vpn.0 ==> #[trigger] mapping(final(mem)@, final(self).root_ppn.0, x) == mapping(old(mem)@, old(self).root_ppn.0, x),
    {
        let slot = self.find_pte_create(vpn, alloc, mem).unwrap();
        let ghost m1 = mem@;
        let root = self.root_ppn.0;
        proof {
            mem.lemma_view();
            lemma_indices_small(vpn.0);
            assert(self.tables().contains(slot.table.0));
            assert(table_ok(mem@, slot.table.0));
        }
        let pte = PageTableEntry::new(ppn, flags.union(PTEFlags::from_bits_truncate(FLAG_V)));
        mem.write_u64(slot.table.0, (slot.index * 8) as usize, pte.bits);
        proof {
            lemma_leaf_write(m1, root, self.tables(), vpn.0, pte.bits);
            let fb = flags.bits;
            let b = (fb | FLAG_V) as u64;
            assert((fb | 1u8) & 1 == 1) by (bit_vector);
            let pp = ppn.0;
            assert(b & 1 == 1 && b < 256 ==> ((pp << 10) | b) & 1 == 1) by (bit_vector);
            assert(pte_valid(pte.bits));
            assert forall|x: u64| x < VPN_LIMIT && x != vpn.0 implies #[trigger] mapping(mem@, root, x) == mapping(old(mem)@, root, x) by {
                assert(leaf_entry(mem@, root, x) == leaf_entry(m1, root, x));
                assert(mapping(m1, root, x) == mapping(old(mem)@, root, x));
            }
            assert forall|p: u64| #[trigger] kept_frame(*old(alloc), old(mem)@, mem@, old(self).tables(), p) by {
              if old(mem)@.dom().contains(p) && !old(self).tables().contains(p) && !old(alloc).is_free(p) {
                lemma_kept_at(*old(alloc), *alloc, old(mem)@, m1, old(self).tables(), self.tables(), p);
                assert(p != slot.table.0) by {
                    if p == slot.table.0 {
                        assert(self.tables().contains(p));
                        assert(old(self).tables().contains(p) || old(alloc).is_free(p));
                    }
                }
                assert(mem@ == m1.insert(slot.table.0, set_u64(m1[slot.table.0], (slot.index * 8) as int, pte.bits)));
              }
            }
        }
    }

    /// Unmaps page `vpn`, which must be mapped, by clearing the valid flag of
    /// its entry. No other mapping changes.
    pub fn remove_reflect(&self, vpn: VirPageNum, mem: &mut PhysMem)
        requires
            old(mem).wf(),
            self.wf(old(mem)@),
            vpn.0 < VPN_LIMIT,
            mapping(old(mem)@, self.root_ppn.0, vpn.0) is Some,
        ensures
            final(mem).wf(),
            final(mem).base() == old(mem).base(),
            final(mem).count() == old(mem).count(),
            self.wf(final(mem)@),
            mapping(final(mem)@, self.root_ppn.0, vpn.0) is None,
            leaf_entry(final(mem)@, self.root_ppn.0, vpn.0) == Some(leaf_entry(old(mem)@, self.root_ppn.0, vpn.0).unwrap() & !1u64),
            forall|p: u64| #[trigger] same_outside(old(mem)@, final(mem)@, self.tables(), p),
            forall|x: u64| x < VPN_LIMIT && x != vpn.0 ==> #[trigger] mapping(final(mem)@, self.root_ppn.0, x) == mapping(old(mem)@, self.root_ppn.0, x),
    {
        proof {
            self.lemma_walk_ok(mem@, vpn.0);
            mem.lemma_view();
            lemma_indices_small(vpn.0);
        }
        let slot = self.find_pte(vpn, mem).unwrap();
        proof {
            assert(self.tables().contains(slot.table.0));
            assert(table_ok(mem@, slot.table.0));
        }
        let ghost m1 = mem@;
        let mut pte = PageTableEntry { bits: mem.read_u64(slot.table.0, (slot.index * 8) as usize) };
        pte.clear_valid();
        mem.write_u64(slot.table.0, (slot.index * 8) as usize, pte.bits);
        proof {
            lemma_leaf_write(m1, self.root_ppn.0, self.tables(), vpn.0, pte.bits);
            let e = leaf_entry(m1, self.root_ppn.0, vpn.0).unwrap();
            assert((e & !1u64) & 1 != 1) by (bit_vector);
            assert forall|p: u64| #[trigger] same_outside(old(mem)@, mem@, self.tables(), p) by {
            }
        }
    }
}

} // verus!
