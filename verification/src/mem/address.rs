use vstd::prelude::*;
use vstd::std_specs::convert::FromSpecImpl;
use crate::config::PAGE_SIZE;

verus! {

/// Width of a physical address under Sv39.
pub const PHYSICAL_ADDRESS_WIDTH_SV39: u64 = 56;

/// Width of a virtual address under Sv39.
pub const VIRTUAL_ADDRESS_WIDTH_SV39: u64 = 39;

/// Width of a physical page number under Sv39.
pub const PPN_WIDTH_SV39: u64 = 44;

/// Mask of the bits of a physical address.
pub const PA_MASK: u64 = 0x00ff_ffff_ffff_ffff;

/// Mask of the bits of a virtual address.
pub const VA_MASK: u64 = 0x7f_ffff_ffff;

/// Mask of the bits of a physical page number.
pub const PPN_MASK: u64 = 0x0fff_ffff_ffff;

/// A physical address.
#[derive(Clone, Copy, PartialEq, Eq, Structural, Debug)]
pub struct PhyAddr(pub u64);

/// A virtual address (the low 39 bits).
#[derive(Clone, Copy, PartialEq, Eq, Structural, Debug)]
pub struct VirAddr(pub u64);

/// A physical page number.
#[derive(Clone, Copy, PartialEq, Eq, Structural, Debug)]
pub struct PhyPageNum(pub u64);

/// A virtual page number.
#[derive(Clone, Copy, PartialEq, Eq, Structural, Debug)]
pub struct VirPageNum(pub u64);

pub proof fn lemma_low_bits(x: u64)
    ensures
        x & 0xfff == x % 4096,
        x & PA_MASK == x % 0x0100_0000_0000_0000,
        x & VA_MASK == x % 0x80_0000_0000,
        x & PPN_MASK == x % 0x1000_0000_0000,
{
    assert(x & 0xfff == x % 4096) by (bit_vector);
    assert(x & 0x00ff_ffff_ffff_ffff == x % 0x0100_0000_0000_0000) by (bit_vector);
    assert(x & 0x7f_ffff_ffff == x % 0x80_0000_0000) by (bit_vector);
    assert(x & 0x0fff_ffff_ffff == x % 0x1000_0000_0000) by (bit_vector);
}

/// Shifting a number of at most 52 bits left by 12 multiplies it by 4096.
pub proof fn lemma_shl12(x: u64)
    requires
        x < 0x10_0000_0000_0000,
    ensures
        x << 12 == x * 4096,
{
    assert(x < 0x10_0000_0000_0000 ==> x << 12 == x * 4096) by (bit_vector);
}

impl From<u64> for PhyAddr {
    /// Keeps the low 56 bits.
    fn from(value: u64) -> (r: Self) {
        Self(value & PA_MASK)
    }
}

impl FromSpecImpl<u64> for PhyAddr {
    open spec fn obeys_from_spec() -> bool {
        true
    }

    open spec fn from_spec(v: u64) -> Self {
        PhyAddr(v & PA_MASK)
    }
}

impl From<PhyPageNum> for PhyAddr {
    /// The address of the first byte of the page (the page number shifted
    /// left by 12, high bits dropped).
    fn from(value: PhyPageNum) -> (r: Self) {
        Self(value.0 << 12)
    }
}

impl FromSpecImpl<PhyPageNum> for PhyAddr {
    open spec fn obeys_from_spec() -> bool {
        true
    }

    open spec fn from_spec(v: PhyPageNum) -> Self {
        PhyAddr(v.0 << 12)
    }
}

impl From<PhyAddr> for u64 {
    fn from(value: PhyAddr) -> (r: Self) {
        value.0
    }
}

impl FromSpecImpl<PhyAddr> for u64 {
    open spec fn obeys_from_spec() -> bool {
        true
    }

    open spec fn from_spec(v: PhyAddr) -> Self {
        v.0
    }
}

impl PhyAddr {
    /// The offset of the address inside its page.
    pub fn page_offset(&self) -> (r: u64)
        ensures
            r == self.0 % (PAGE_SIZE as u64),
    {
        proof {
            lemma_low_bits(self.0);
        }
        self.0 & (PAGE_SIZE as u64 - 1)
    }

    /// The page that holds the address.
    pub fn floor_to_ppn(&self) -> (r: PhyPageNum)
        ensures
            r.0 == self.0 / (PAGE_SIZE as u64),
    {
        PhyPageNum(self.0 / PAGE_SIZE as u64)
    }

    /// The first page that starts at or after the address.
    pub fn ceil_to_ppn(&self) -> (r: PhyPageNum)
        requires
            self.0 + PAGE_SIZE <= u64::MAX,
        ensures
            r.0 == (self.0 + PAGE_SIZE - 1) / (PAGE_SIZE as int),
    {
        PhyPageNum((self.0 + PAGE_SIZE as u64 - 1) / PAGE_SIZE as u64)
    }
}

impl VirAddr {
    /// The page that holds the address.
    pub fn floor_to_vpn(&self) -> (r: VirPageNum)
        ensures
            r.0 == self.0 / (PAGE_SIZE as u64),
    {
        VirPageNum(self.0 / PAGE_SIZE as u64)
    }

    /// The first page that starts at or after the address.
    pub fn ceil_to_vpn(&self) -> (r: VirPageNum)
        requires
            self.0 + PAGE_SIZE <= u64::MAX,
        ensures
            r.0 == (self.0 + PAGE_SIZE - 1) / (PAGE_SIZE as int),
    {
        if self.0 == 0 {
            VirPageNum(0)
        } else {
            VirPageNum((self.0 + PAGE_SIZE as u64 - 1) / PAGE_SIZE as u64)
        }
    }

    /// The offset of the address inside its page.
    pub fn page_offset(&self) -> (r: u64)
        ensures
            r == self.0 % (PAGE_SIZE as u64),
    {
        proof {
            lemma_low_bits(self.0);
        }
        self.0 & (PAGE_SIZE as u64 - 1)
    }
}

impl From<u64> for VirAddr {
    /// Keeps the low 39 bits.
    fn from(value: u64) -> (r: Self) {
        Self(value & VA_MASK)
    }
}

impl FromSpecImpl<u64> for VirAddr {
    open spec fn obeys_from_spec() -> bool {
        true
    }

    open spec fn from_spec(v: u64) -> Self {
        VirAddr(v & VA_MASK)
    }
}

impl From<VirPageNum> for VirAddr {
    /// The address of the first byte of the page.
    fn from(value: VirPageNum) -> (r: Self) {
        Self(value.0 << 12)
    }
}

impl FromSpecImpl<VirPageNum> for VirAddr {
    open spec fn obeys_from_spec() -> bool {
        true
    }

    open spec fn from_spec(v: VirPageNum) -> Self {
        VirAddr(v.0 << 12)
    }
}

/// The 64-bit form of a 39-bit virtual address: bit 38 copied into the bits
/// above it.
pub open spec fn sign_extend(v: u64) -> u64 {
    if v >= 0x40_0000_0000 {
        v | !VA_MASK
    } else {
        v
    }
}

impl From<VirAddr> for u64 {
    /// Sign-extends the address from bit 38 (the upper half of the address
    /// space maps to the top of the 64-bit range).
    fn from(value: VirAddr) -> (r: Self) {
        if value.0 >= 0x40_0000_0000 {
            value.0 | (!VA_MASK)
        } else {
            value.0
        }
    }
}

impl FromSpecImpl<VirAddr> for u64 {
    open spec fn obeys_from_spec() -> bool {
        true
    }

    open spec fn from_spec(v: VirAddr) -> Self {
        sign_extend(v.0)
    }
}

impl PhyPageNum {
    /// Page number 0.
    pub fn empty() -> (r: Self)
        ensures
            r.0 == 0,
    {
        Self(0)
    }
}

impl From<u64> for PhyPageNum {
    /// Keeps the low 44 bits.
    fn from(value: u64) -> (r: Self) {
        Self(value & PPN_MASK)
    }
}

impl FromSpecImpl<u64> for PhyPageNum {
    open spec fn obeys_from_spec() -> bool {
        true
    }

    open spec fn from_spec(v: u64) -> Self {
        PhyPageNum(v & PPN_MASK)
    }
}

impl From<PhyPageNum> for u64 {
    fn from(value: PhyPageNum) -> (r: Self) {
        value.0
    }
}

impl FromSpecImpl<PhyPageNum> for u64 {
    open spec fn obeys_from_spec() -> bool {
        true
    }

    open spec fn from_spec(v: PhyPageNum) -> Self {
        v.0
    }
}

impl PhyPageNum {
    /// The page that starts at `value`, which must be page aligned.
    pub fn from_aligned(value: PhyAddr) -> (r: Self)
        requires
            value.0 % (PAGE_SIZE as u64) == 0,
        ensures
            r.0 == value.0 / (PAGE_SIZE as u64),
    {
        value.floor_to_ppn()
    }

    /// The next page number.
    pub fn step(&mut self)
        requires
            old(self).0 < u64::MAX,
        ensures
            final(self).0 == old(self).0 + 1,
    {
        self.0 = self.0 + 1;
    }
}

/// The three 9-bit table indices of virtual page number `vpn`, root level
/// first.
pub open spec fn vpn_indices(vpn: u64) -> Seq<u64> {
    seq![(vpn >> 18) & 511, (vpn >> 9) & 511, vpn & 511]
}

impl VirPageNum {
    /// The indices into the three page-table levels, root level first: bits
    /// 18..27, 9..18 and 0..9 of the page number.
    pub fn get_index(&self) -> (r: [u64; 3])
        ensures
            r@ == vpn_indices(self.0),
    {
        let mut idx = [0u64; 3];
        let vpn = self.0;
        idx[2] = vpn & 511;
        idx[1] = (vpn >> 9) & 511;
        idx[0] = (vpn >> 18) & 511;
        assert(idx@ =~= vpn_indices(self.0));
        idx
    }

    /// The next page number.
    pub fn step(&mut self)
        requires
            old(self).0 < u64::MAX,
        ensures
            final(self).0 == old(self).0 + 1,
    {
        self.0 = self.0 + 1;
    }
}

impl From<VirAddr> for VirPageNum {
    /// The page that holds the address.
    fn from(value: VirAddr) -> (r: Self) {
        value.floor_to_vpn()
    }
}

impl FromSpecImpl<VirAddr> for VirPageNum {
    open spec fn obeys_from_spec() -> bool {
        true
    }

    open spec fn from_spec(v: VirAddr) -> Self {
        VirPageNum(v.0 / 4096)
    }
}

/// A page number split into its three table indices and put back together
/// again is the page number itself, for page numbers of at most 27 bits;
/// each index is below 512.
pub proof fn lemma_vpn_indices(vpn: u64)
    requires
        vpn < 0x800_0000,
    ensures
        vpn_indices(vpn)[0] < 512,
        vpn_indices(vpn)[1] < 512,
        vpn_indices(vpn)[2] < 512,
        vpn_indices(vpn)[0] * 262144 + vpn_indices(vpn)[1] * 512 + vpn_indices(vpn)[2] == vpn,
{
    assert(vpn < 0x800_0000 ==> ((vpn >> 18) & 511) * 262144 + ((vpn >> 9) & 511) * 512 + (vpn & 511) == vpn) by (bit_vector);
    lemma_index_bounds(vpn);
}

/// Each of the three nine-bit indices of any page number is below 512.
pub proof fn lemma_index_bounds(vpn: u64)
    ensures
        (vpn >> 18) & 511 < 512,
        (vpn >> 9) & 511 < 512,
        vpn & 511 < 512,
{
    assert((vpn >> 18) & 511 < 512 && (vpn >> 9) & 511 < 512 && vpn & 511 < 512) by (bit_vector);
}

/// Turning a page number into the address of its first byte and taking the
/// page of that address gives the page number back (for numbers of at most
/// 44 bits, which fit an address); the address lies at offset 0.
pub proof fn lemma_ppn_addr_round_trip(ppn: PhyPageNum)
    requires
        ppn.0 < 0x1000_0000_0000,
    ensures
        (ppn.0 << 12) / 4096 == ppn.0,
        (ppn.0 << 12) % 4096 == 0,
{
    lemma_shl12(ppn.0);
}

/// The same round trip for virtual pages.
pub proof fn lemma_vpn_addr_round_trip(vpn: VirPageNum)
    requires
        vpn.0 < 0x1000_0000_0000,
    ensures
        (vpn.0 << 12) / 4096 == vpn.0,
        (vpn.0 << 12) % 4096 == 0,
{
    lemma_shl12(vpn.0);
}

/// Rounding an address down and up to pages: the two page numbers are equal
/// exactly when the address is page aligned, and differ by one otherwise.
pub proof fn lemma_floor_ceil(a: u64)
    requires
        a + PAGE_SIZE <= u64::MAX,
    ensures
        (a + PAGE_SIZE - 1) / (PAGE_SIZE as int) == (a as int) / (PAGE_SIZE as int) <==> (a as int) % (PAGE_SIZE as int) == 0,
        (a + PAGE_SIZE - 1) / (PAGE_SIZE as int) <= (a as int) / (PAGE_SIZE as int) + 1,
{
}

/// A half-open range of virtual pages.
#[derive(Clone, Copy)]
pub struct SimpleRange {
    pub start: VirPageNum,
    pub end: VirPageNum,
}

/// The range type used for the pages of a memory area.
pub type VPNRange = SimpleRange;

impl SimpleRange {
    /// The pages from `start` up to, not including, `end`; `start` must not
    /// come after `end`.
    pub fn new(start: VirPageNum, end: VirPageNum) -> (r: Self)
        requires
            start.0 <= end.0,
        ensures
            r.start == start,
            r.end == end,
    {
        Self { start, end }
    }

    /// The first page of the range.
    pub fn get_start(&self) -> (r: VirPageNum)
        ensures
            r == self.start,
    {
        self.start
    }

    /// The page just past the range.
    pub fn get_end(&self) -> (r: VirPageNum)
        ensures
            r == self.end,
    {
        self.end
    }

    /// A walk over the pages of the range, in order.
    pub fn into_iter(self) -> (r: SimpleRangeIterator)
        ensures
            r.current == self.start,
            r.end == self.end,
    {
        SimpleRangeIterator::new(self.start, self.end)
    }
}

/// A walk over a range of pages.
pub struct SimpleRangeIterator {
    pub current: VirPageNum,
    pub end: VirPageNum,
}

impl SimpleRangeIterator {
    /// A walk from `current` up to, not including, `end`.
    pub fn new(current: VirPageNum, end: VirPageNum) -> (r: Self)
        ensures
            r.current == current,
            r.end == end,
    {
        Self { current, end }
    }

    /// The next page, or `None` once the end is reached.
    pub fn next(&mut self) -> (r: Option<VirPageNum>)
        ensures
            old(self).current.0 < old(self).end.0 ==> r == Some(old(self).current) && final(self).current.0 == old(self).current.0 + 1,
            old(self).current.0 >= old(self).end.0 ==> r is None && *final(self) == *old(self),
            final(self).end == old(self).end,
    {
        if self.current.0 < self.end.0 {
            let res = self.current;
            self.current.step();
            Some(res)
        } else {
            None
        }
    }
}

} // verus!
