use vstd::prelude::*;
use vstd::bytes::{u64_from_le_bytes, u64_to_le_bytes};
use crate::config::PAGE_SIZE;
use crate::fs::cache::{set_bytes, set_u64, u64_at};

verus! {

/// A page of zero bytes.
pub open spec fn zero_page() -> Seq<u8> {
    Seq::new(PAGE_SIZE as nat, |i: int| 0u8)
}

/// A run of physical page frames, `count` frames from page number `base`
/// on, each `PAGE_SIZE` bytes; the memory that page tables and mapped data
/// live in.
pub struct PhysMem {
    base: u64,
    frames: Vec<Vec<u8>>,
}

impl PhysMem {
    /// First page number held.
    pub closed spec fn base(&self) -> u64 {
        self.base
    }

    /// Number of frames held.
    pub closed spec fn count(&self) -> nat {
        self.frames@.len()
    }

    /// Whether frame `ppn` is held.
    pub open spec fn has(&self, ppn: u64) -> bool {
        self.base() <= ppn < self.base() + self.count()
    }

    /// The frames, by page number.
    pub closed spec fn view(&self) -> Map<u64, Seq<u8>> {
        Map::new(
            |ppn: u64| self.base <= ppn < self.base + self.frames@.len(),
            |ppn: u64| self.frames@[ppn - self.base]@,
        )
    }

    /// Every frame is a full page.
    pub closed spec fn wf(&self) -> bool {
        &&& self.base + self.frames@.len() <= u64::MAX
        &&& forall|i: int| 0 <= i < self.frames@.len() ==> #[trigger] self.frames@[i]@.len() == PAGE_SIZE
    }

    /// The frames of a well-formed memory are full pages, and the view holds
    /// exactly the frames `has` names.
    pub proof fn lemma_view(&self)
        requires
            self.wf(),
        ensures
            forall|ppn: u64| #[trigger] self@.dom().contains(ppn) <==> self.has(ppn),
            forall|ppn: u64| self.has(ppn) ==> #[trigger] self@[ppn].len() == PAGE_SIZE,
            self.base() + self.count() <= u64::MAX,
    {
        assert forall|ppn: u64| self.has(ppn) implies #[trigger] self@[ppn].len() == PAGE_SIZE by {
            assert(self.frames@[ppn - self.base]@.len() == PAGE_SIZE);
        }
    }

    /// `count` zeroed frames from page number `base` on.
    pub fn new(base: u64, count: u64) -> (r: Self)
        requires
            base + count <= u64::MAX,
        ensures
            r.wf(),
            r.base() == base,
            r.count() == count,
            forall|ppn: u64| r.has(ppn) ==> #[trigger] r@[ppn] == zero_page(),
    {
        let mut frames: Vec<Vec<u8>> = Vec::new();
        let mut i: u64 = 0;
        while i < count
            invariant
                0 <= i <= count,
                frames@.len() == i,
                forall|j: int| 0 <= j < i ==> #[trigger] frames@[j]@ == zero_page(),
            decreases count - i,
        {
            let mut page: Vec<u8> = Vec::new();
            let mut k: usize = 0;
            while k < PAGE_SIZE
                invariant
                    0 <= k <= PAGE_SIZE,
                    page@.len() == k,
                    forall|j: int| 0 <= j < k ==> page@[j] == 0u8,
                decreases PAGE_SIZE - k,
            {
                page.push(0u8);
                k = k + 1;
            }
            assert(page@ =~= zero_page());
            frames.push(page);
            i = i + 1;
        }
        let r = PhysMem { base, frames };
        assert forall|ppn: u64| r.has(ppn) implies #[trigger] r@[ppn] == zero_page() by {
            assert(r.frames@[ppn - base]@ == zero_page());
        }
        r
    }

    /// The little-endian `u64` at byte `off` of frame `ppn`.
    pub fn read_u64(&self, ppn: u64, off: usize) -> (r: u64)
        requires
            self.wf(),
            self.has(ppn),
            off + 8 <= PAGE_SIZE,
        ensures
            r == u64_at(self@[ppn], off as int),
    {
        assert(ppn - self.base < self.frames.len());
        let idx = (ppn - self.base) as usize;
        assert(self@[ppn] == self.frames@[idx as int]@);
        let f = &self.frames[idx];
        let s = vstd::slice::slice_subrange(f.as_slice(), off, off + 8);
        u64_from_le_bytes(s)
    }

    /// Stores `v` little-endian at byte `off` of frame `ppn`.
    pub fn write_u64(&mut self, ppn: u64, off: usize, v: u64)
        requires
            old(self).wf(),
            old(self).has(ppn),
            off + 8 <= PAGE_SIZE,
        ensures
            final(self).wf(),
            final(self).base() == old(self).base(),
            final(self).count() == old(self).count(),
            final(self)@ == old(self)@.insert(ppn, set_u64(old(self)@[ppn], off as int, v)),
    {
        let bytes = u64_to_le_bytes(v);
        self.write_bytes(ppn, off, bytes.as_slice());
    }

    /// The `len` bytes of frame `ppn` from byte `off` on.
    pub fn read_bytes(&self, ppn: u64, off: usize, len: usize) -> (r: Vec<u8>)
        requires
            self.wf(),
            self.has(ppn),
            off + len <= PAGE_SIZE,
        ensures
            r@ == self@[ppn].subrange(off as int, off + len),
    {
        assert(ppn - self.base < self.frames.len());
        let idx = (ppn - self.base) as usize;
        assert(self@[ppn] == self.frames@[idx as int]@);
        let f = &self.frames[idx];
        let mut r: Vec<u8> = Vec::new();
        let mut k: usize = 0;
        while k < len
            invariant
                0 <= k <= len,
                off + len <= f.len(),
                r@ == f@.subrange(off as int, off + k),
            decreases len - k,
        {
            r.push(f[off + k]);
            k = k + 1;
            assert(r@ =~= f@.subrange(off as int, off + k));
        }
        r
    }

    /// Stores `data` in frame `ppn` from byte `off` on.
    pub fn write_bytes(&mut self, ppn: u64, off: usize, data: &[u8])
        requires
            old(self).wf(),
            old(self).has(ppn),
            off + data@.len() <= PAGE_SIZE,
        ensures
            final(self).wf(),
            final(self).base() == old(self).base(),
            final(self).count() == old(self).count(),
            final(self)@ == old(self)@.insert(ppn, set_bytes(old(self)@[ppn], off as int, data@)),
    {
        assert(ppn - self.base < self.frames.len());
        let idx = (ppn - self.base) as usize;
        assert(old(self)@[ppn] == self.frames@[idx as int]@);
        let mut f: Vec<u8> = Vec::new();
        std::mem::swap(&mut f, &mut self.frames[idx]);
        let ghost old_f = f@;
        let n = data.len();
        let mut k: usize = 0;
        while k < n
            invariant
                0 <= k <= n,
                n == data@.len(),
                off + n <= PAGE_SIZE,
                f@.len() == PAGE_SIZE,
                old_f.len() == PAGE_SIZE,
                forall|j: int|
                    0 <= j < PAGE_SIZE ==> #[trigger] f@[j] == if off <= j < off + k {
                        data@[j - off]
                    } else {
                        old_f[j]
                    },
            decreases n - k,
        {
            f.set(off + k, data[k]);
            k = k + 1;
        }
        assert(f@ =~= set_bytes(old_f, off as int, data@));
        self.frames.set(idx, f);
        assert forall|q: u64| #[trigger] self@.dom().contains(q) implies self@[q] == old(self)@.insert(ppn, set_bytes(old(self)@[ppn], off as int, data@))[q] by {
            if q != ppn {
                assert(q - self.base != idx);
            }
        }
        assert(self@ =~= old(self)@.insert(ppn, set_bytes(old(self)@[ppn], off as int, data@)));
    }

    /// Fills frame `ppn` with zero bytes.
    pub fn zero_frame(&mut self, ppn: u64)
        requires
            old(self).wf(),
            old(self).has(ppn),
        ensures
            final(self).wf(),
            final(self).base() == old(self).base(),
            final(self).count() == old(self).count(),
            final(self)@ == old(self)@.insert(ppn, zero_page()),
    {
        let mut page: Vec<u8> = Vec::new();
        let mut k: usize = 0;
        while k < PAGE_SIZE
            invariant
                0 <= k <= PAGE_SIZE,
                page@.len() == k,
                forall|j: int| 0 <= j < k ==> page@[j] == 0u8,
            decreases PAGE_SIZE - k,
        {
            page.push(0u8);
            k = k + 1;
        }
        assert(page@ =~= zero_page());
        proof {
            self.lemma_view();
        }
        self.write_bytes(ppn, 0, page.as_slice());
        assert(set_bytes(old(self)@[ppn], 0, zero_page()) =~= zero_page());
    }
}

/// A `u64` read anywhere in a zero page is zero.
pub proof fn lemma_zero_page_u64(off: int)
    requires
        0 <= off,
        off + 8 <= PAGE_SIZE,
    ensures
        u64_at(zero_page(), off) == 0,
{
    vstd::bytes::lemma_auto_spec_u64_to_from_le_bytes();
    vstd::bytes::spec_u64_to_le_bytes_to_open(0);
    let z = Seq::new(8, |i: int| 0u8);
    assert(vstd::bytes::spec_u64_to_le_bytes_open(0) =~= z) by {
        assert((0u64 & 0xff) as u8 == 0 && ((0u64 >> 8) & 0xff) as u8 == 0
            && ((0u64 >> 16) & 0xff) as u8 == 0 && ((0u64 >> 24) & 0xff) as u8 == 0
            && ((0u64 >> 32) & 0xff) as u8 == 0 && ((0u64 >> 40) & 0xff) as u8 == 0
            && ((0u64 >> 48) & 0xff) as u8 == 0 && ((0u64 >> 56) & 0xff) as u8 == 0) by (bit_vector);
    }
    assert(zero_page().subrange(off, off + 8) =~= z);
}

} // verus!
