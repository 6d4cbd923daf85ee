use vstd::prelude::*;
use crate::mem::address::PhyPageNum;
use crate::mem::physmem::{zero_page, PhysMem};

verus! {

/// Hands out physical frames: first those given back, last returned first,
/// then fresh ones from `current` up to `end`.
pub struct StackFrameAllocator {
    pub current: u64,
    pub end: u64,
    pub recycled: Vec<u64>,
}

impl StackFrameAllocator {
    /// Whether frame `f` can be handed out.
    pub open spec fn is_free(&self, f: u64) -> bool {
        (self.current <= f < self.end) || self.recycled@.contains(f)
    }

    /// Number of frames that can still be handed out.
    pub open spec fn free_count(&self) -> int {
        self.recycled@.len() + if self.current < self.end {
            self.end - self.current
        } else {
            0
        }
    }

    /// Frames given back were handed out before, and each is held once.
    pub open spec fn wf(&self) -> bool {
        &&& forall|i: int| 0 <= i < self.recycled@.len() ==> #[trigger] self.recycled@[i] < self.current
        &&& self.recycled@.no_duplicates()
    }

    /// Number of frames that can still be handed out.
    pub fn free_frames(&self) -> (r: u128)
        ensures
            r == self.free_count(),
    {
        let fresh: u128 = if self.current < self.end {
            (self.end - self.current) as u128
        } else {
            0
        };
        self.recycled.len() as u128 + fresh
    }

    /// An allocator with no frame to hand out.
    pub fn const_new() -> (r: Self)
        ensures
            r.wf(),
            forall|f: u64| !#[trigger] r.is_free(f),
    {
        Self { current: 0, end: 0, recycled: Vec::new() }
    }

    /// Hands out fresh frames from `start` up to, not including, `end`.
    pub fn init(&mut self, start: PhyPageNum, end: PhyPageNum)
        ensures
            final(self).current == start.0,
            final(self).end == end.0,
            final(self).recycled == old(self).recycled,
    {
        self.current = start.0;
        self.end = end.0;
    }

    /// The next fresh frame, or `None` when none is left.
    pub fn alloc_fresh(&mut self) -> (r: Option<PhyPageNum>)
        ensures
            final(self).end == old(self).end,
            final(self).recycled == old(self).recycled,
            old(self).current < old(self).end ==> r == Some(PhyPageNum(old(self).current))
                && final(self).current == old(self).current + 1,
            old(self).current >= old(self).end ==> r is None && final(self).current == old(self).current,
    {
        if self.current < self.end {
            let res = self.current;
            self.current = self.current + 1;
            Some(PhyPageNum(res))
        } else {
            None
        }
    }

    /// The frame given back last, if any, else a fresh frame.
    pub fn alloc_frame(&mut self) -> (r: Option<PhyPageNum>)
        ensures
            old(self).recycled@.len() > 0 ==> r == Some(PhyPageNum(old(self).recycled@.last()))
                && final(self).recycled@ == old(self).recycled@.drop_last()
                && final(self).current == old(self).current && final(self).end == old(self).end,
            old(self).recycled@.len() == 0 && old(self).current < old(self).end ==> r == Some(PhyPageNum(old(self).current))
                && final(self).current == old(self).current + 1
                && final(self).recycled@ == old(self).recycled@ && final(self).end == old(self).end,
            old(self).recycled@.len() == 0 && old(self).current >= old(self).end ==> r is None
                && final(self).recycled@ == old(self).recycled@ && final(self).current == old(self).current
                && final(self).end == old(self).end,
    {
        match self.recycled.pop() {
            Some(frame) => Some(PhyPageNum(frame)),
            None => self.alloc_fresh(),
        }
    }

    /// Gives frame `ppn` back; it must have been handed out and not given
    /// back since.
    pub fn dealloc(&mut self, ppn: PhyPageNum)
        requires
            ppn.0 < old(self).current,
            !old(self).recycled@.contains(ppn.0),
        ensures
            final(self).recycled@ == old(self).recycled@.push(ppn.0),
            final(self).current == old(self).current,
            final(self).end == old(self).end,
    {
        self.recycled.push(ppn.0);
    }

    /// Whether `ppn` may be given back: handed out and not given back since.
    pub fn can_dealloc(&self, ppn: PhyPageNum) -> (r: bool)
        ensures
            r == (ppn.0 < self.current && !self.recycled@.contains(ppn.0)),
    {
        if ppn.0 >= self.current {
            return false;
        }
        let mut i: usize = 0;
        while i < self.recycled.len()
            invariant
                0 <= i <= self.recycled@.len(),
                forall|j: int| 0 <= j < i ==> self.recycled@[j] != ppn.0,
            decreases self.recycled@.len() - i,
        {
            if self.recycled[i] == ppn.0 {
                return false;
            }
            i = i + 1;
        }
        true
    }
}

/// Handing out a frame takes it out of the free frames and touches no other
/// frame; the frame handed out was free.
pub proof fn lemma_alloc_takes_free(a: StackFrameAllocator, b: StackFrameAllocator, r: Option<PhyPageNum>)
    requires
        a.wf(),
        a.recycled@.len() > 0 ==> r == Some(PhyPageNum(a.recycled@.last())) && b.recycled@ == a.recycled@.drop_last()
            && b.current == a.current && b.end == a.end,
        a.recycled@.len() == 0 && a.current < a.end ==> r == Some(PhyPageNum(a.current)) && b.current == a.current + 1
            && b.recycled@ == a.recycled@ && b.end == a.end,
        a.recycled@.len() == 0 && a.current >= a.end ==> r is None && b.recycled@ == a.recycled@
            && b.current == a.current && b.end == a.end,
    ensures
        b.wf(),
        a.free_count() >= 1 ==> r is Some,
        r is Some ==> b.free_count() == a.free_count() - 1,
        r matches Some(f) ==> a.is_free(f.0) && !b.is_free(f.0),
        r matches Some(f) ==> forall|g: u64| g != f.0 ==> (#[trigger] b.is_free(g) == a.is_free(g)),
        r is None ==> forall|g: u64| !#[trigger] a.is_free(g),
{
    if a.recycled@.len() > 0 {
        let f = a.recycled@.last();
        assert(a.recycled@ == b.recycled@.push(f));
        assert(a.recycled@[a.recycled@.len() - 1] == f);
        assert forall|g: u64| g != f implies (#[trigger] b.is_free(g) == a.is_free(g)) by {
            if a.recycled@.contains(g) {
                let k = choose|k: int| 0 <= k < a.recycled@.len() && a.recycled@[k] == g;
                assert(k != a.recycled@.len() - 1);
                assert(b.recycled@[k] == g);
            }
            if b.recycled@.contains(g) {
                let k = choose|k: int| 0 <= k < b.recycled@.len() && b.recycled@[k] == g;
                assert(a.recycled@[k] == g);
            }
        }
        assert(!b.recycled@.contains(f)) by {
            if b.recycled@.contains(f) {
                let k = choose|k: int| 0 <= k < b.recycled@.len() && b.recycled@[k] == f;
                assert(a.recycled@[k] == a.recycled@[a.recycled@.len() - 1]);
            }
        }
        assert(a.recycled@[a.recycled@.len() - 1] < a.current);
        assert(forall|i: int| 0 <= i < b.recycled@.len() ==> b.recycled@[i] == a.recycled@[i]);
    } else if a.current < a.end {
        assert forall|g: u64| g != a.current implies (#[trigger] b.is_free(g) == a.is_free(g)) by {
            assert(!a.recycled@.contains(g));
        }
    }
}

/// The frame an allocation handed out.
pub open spec fn got_frame(r: Option<PhyPageNum>) -> u64 {
    r.unwrap().0
}

/// `b` and `r` are the allocator and the result after `alloc_frame` on `a`.
pub open spec fn alloc_step(a: StackFrameAllocator, b: StackFrameAllocator, r: Option<PhyPageNum>) -> bool {
    &&& a.recycled@.len() > 0 ==> r == Some(PhyPageNum(a.recycled@.last())) && b.recycled@ == a.recycled@.drop_last()
        && b.current == a.current && b.end == a.end
    &&& a.recycled@.len() == 0 && a.current < a.end ==> r == Some(PhyPageNum(a.current)) && b.current == a.current + 1
        && b.recycled@ == a.recycled@ && b.end == a.end
    &&& a.recycled@.len() == 0 && a.current >= a.end ==> r is None && b.recycled@ == a.recycled@
        && b.current == a.current && b.end == a.end
}

/// A run of allocations with no frame given back in between hands out
/// distinct frames, each free before the run and none free after it:
/// `states[i + 1]` and `got[i]` come from `alloc_frame` on `states[i]`.
pub proof fn lemma_alloc_run_distinct(states: Seq<StackFrameAllocator>, got: Seq<Option<PhyPageNum>>)
    requires
        states.len() == got.len() + 1,
        states[0].wf(),
        forall|i: int| 0 <= i < got.len() ==> #[trigger] alloc_step(states[i], states[i + 1], got[i]),
    ensures
        forall|i: int| 0 <= i < states.len() ==> #[trigger] states[i].wf(),
        forall|i: int, j: int| 0 <= i < j < got.len() && got[i] is Some && got[j] is Some ==> #[trigger] got_frame(got[i])
            != #[trigger] got_frame(got[j]),
        forall|i: int| 0 <= i < got.len() && got[i] is Some ==> states[0].is_free(#[trigger] got_frame(got[i]))
            && !states[states.len() - 1].is_free(got_frame(got[i])),
    decreases got.len(),
{
    if got.len() > 0 {
        let n = got.len() - 1;
        let s0 = states.drop_last();
        let g0 = got.drop_last();
        assert forall|i: int| 0 <= i < g0.len() implies #[trigger] alloc_step(s0[i], s0[i + 1], g0[i]) by {
            assert(s0[i] == states[i] && s0[i + 1] == states[i + 1] && g0[i] == got[i]);
        }
        lemma_alloc_run_distinct(s0, g0);
        let a = states[n];
        let b = states[n + 1];
        assert(s0[n] == a);
        assert(alloc_step(a, b, got[n]));
        lemma_alloc_takes_free(a, b, got[n]);
        assert forall|i: int| 0 <= i < states.len() implies #[trigger] states[i].wf() by {
            if i <= n {
                assert(s0[i] == states[i]);
            }
        }
        assert forall|i: int| 0 <= i < got.len() && got[i] is Some implies states[0].is_free(#[trigger] got_frame(got[i]))
            && !states[states.len() - 1].is_free(got_frame(got[i])) by {
            if i < n {
                assert(g0[i] == got[i]);
                assert(s0[0] == states[0]);
                assert(!a.is_free(got_frame(got[i])));
                if got[n] is Some {
                    assert(got_frame(got[i]) != got_frame(got[n]));
                }
            } else {
                lemma_free_before(states, got, n);
            }
        }
        assert forall|i: int, j: int| 0 <= i < j < got.len() && got[i] is Some && got[j] is Some implies #[trigger] got_frame(got[i])
            != #[trigger] got_frame(got[j]) by {
            if j < n {
                assert(g0[i] == got[i] && g0[j] == got[j]);
            } else {
                assert(g0[i] == got[i]);
                assert(!a.is_free(got_frame(got[i])));
                assert(a.is_free(got_frame(got[n])));
            }
        }
    }
}

/// A frame free before the last step of a run of allocations was free
/// before the whole run.
proof fn lemma_free_before(states: Seq<StackFrameAllocator>, got: Seq<Option<PhyPageNum>>, n: int)
    requires
        0 <= n < got.len(),
        states.len() == got.len() + 1,
        states[0].wf(),
        forall|i: int| 0 <= i < got.len() ==> #[trigger] alloc_step(states[i], states[i + 1], got[i]),
        forall|i: int| 0 <= i < states.len() ==> #[trigger] states[i].wf(),
    ensures
        forall|f: u64| #[trigger] states[n].is_free(f) ==> states[0].is_free(f),
    decreases n,
{
    if n > 0 {
        lemma_free_before(states, got, n - 1);
        let m = n - 1;
        assert(alloc_step(states[m], states[m + 1], got[m]));
        assert(m + 1 == n);
        lemma_alloc_takes_free(states[n - 1], states[n], got[n - 1]);
        assert forall|f: u64| #[trigger] states[n].is_free(f) implies states[0].is_free(f) by {
            if got[n - 1] is Some && f == got_frame(got[n - 1]) {
                assert(!states[n].is_free(f));
            }
            assert(states[n - 1].is_free(f));
        }
    }
}

/// Giving a frame back makes it free and leaves the other frames as they
/// were; handing a frame out right after gives that same frame back.
pub proof fn lemma_dealloc_then_alloc(a: StackFrameAllocator, b: StackFrameAllocator, f: u64)
    requires
        a.wf(),
        f < a.current,
        !a.recycled@.contains(f),
        b.recycled@ == a.recycled@.push(f),
        b.current == a.current,
        b.end == a.end,
    ensures
        b.wf(),
        b.is_free(f),
        forall|g: u64| g != f ==> (#[trigger] b.is_free(g) == a.is_free(g)),
        b.recycled@.last() == f,
        b.recycled@.drop_last() == a.recycled@,
{
    assert(b.recycled@[b.recycled@.len() - 1] == f);
    assert forall|g: u64| g != f implies (#[trigger] b.is_free(g) == a.is_free(g)) by {
        if b.recycled@.contains(g) {
            let k = choose|k: int| 0 <= k < b.recycled@.len() && b.recycled@[k] == g;
            assert(k < a.recycled@.len());
            assert(a.recycled@[k] == g);
        }
        if a.recycled@.contains(g) {
            let k = choose|k: int| 0 <= k < a.recycled@.len() && a.recycled@[k] == g;
            assert(b.recycled@[k] == g);
        }
    }
    assert(b.recycled@.drop_last() =~= a.recycled@);
    assert(b.recycled@.no_duplicates()) by {
        assert forall|i: int, j: int| 0 <= i < b.recycled@.len() && 0 <= j < b.recycled@.len() && i != j implies b.recycled@[i] != b.recycled@[j] by {
            if i < a.recycled@.len() && j < a.recycled@.len() {
                assert(a.recycled@[i] == b.recycled@[i]);
                assert(a.recycled@[j] == b.recycled@[j]);
            } else if i == a.recycled@.len() {
                assert(a.recycled@[j] == b.recycled@[j]);
                if a.recycled@[j] == f {
                    assert(a.recycled@.contains(f));
                }
            } else {
                assert(a.recycled@[i] == b.recycled@[i]);
                if a.recycled@[i] == f {
                    assert(a.recycled@.contains(f));
                }
            }
        }
    }
}

/// Frames given back one after another come out again in the reverse
/// order, before any fresh frame: when `a` has had `fs[0]`, ..., `fs[n - 1]`
/// given back in that order on top of `base`, `n` allocations in a row hand
/// out `fs[n - 1]`, ..., `fs[0]` and leave `base` given back, with no fresh
/// frame taken. `states[i + 1]` and `got[i]` come from `alloc_frame` on
/// `states[i]`, and `states[0]` is `a`.
pub proof fn lemma_dealloc_run_then_alloc_run(
    base: Seq<u64>,
    fs: Seq<u64>,
    states: Seq<StackFrameAllocator>,
    got: Seq<Option<PhyPageNum>>,
)
    requires
        states.len() == fs.len() + 1,
        got.len() == fs.len(),
        states[0].recycled@ == base + fs,
        forall|i: int| 0 <= i < got.len() ==> #[trigger] alloc_step(states[i], states[i + 1], got[i]),
    ensures
        forall|i: int| 0 <= i < fs.len() ==> #[trigger] got[i] == Some(PhyPageNum(fs[fs.len() - 1 - i])),
        states[fs.len() as int].recycled@ == base,
        states[fs.len() as int].current == states[0].current,
        states[fs.len() as int].end == states[0].end,
{
    lemma_pop_run(base, fs, states, got, fs.len() as int);
    assert(fs.subrange(0, 0) =~= Seq::<u64>::empty());
    assert(base + Seq::<u64>::empty() =~= base);
}

/// The reuse of frames: from an allocator with no frame given back and `n`
/// fresh frames left, `n` allocations hand out the fresh frames in order;
/// once these are given back in the order they came, `n` more allocations
/// hand out the same frames in the reverse order. `first[i + 1]` and
/// `got1[i]` come from `alloc_frame` on `first[i]`; `second[0]` is
/// `first[n]` with the frames of `got1` given back in order, and
/// `second[i + 1]` and `got2[i]` come from `alloc_frame` on `second[i]`.
pub proof fn lemma_frames_reused_in_reverse(
    first: Seq<StackFrameAllocator>,
    got1: Seq<Option<PhyPageNum>>,
    second: Seq<StackFrameAllocator>,
    got2: Seq<Option<PhyPageNum>>,
)
    requires
        first.len() == got1.len() + 1,
        first[0].recycled@.len() == 0,
        first[0].current + got1.len() <= first[0].end,
        forall|i: int| 0 <= i < got1.len() ==> #[trigger] alloc_step(first[i], first[i + 1], got1[i]),
        second.len() == got2.len() + 1,
        got2.len() == got1.len(),
        second[0].recycled@ == first[got1.len() as int].recycled@ + Seq::new(got1.len(), |i: int| got_frame(got1[i])),
        forall|i: int| 0 <= i < got2.len() ==> #[trigger] alloc_step(second[i], second[i + 1], got2[i]),
    ensures
        forall|i: int| 0 <= i < got1.len() ==> #[trigger] got1[i] == Some(PhyPageNum((first[0].current + i) as u64)),
        forall|i: int| 0 <= i < got2.len() ==> #[trigger] got2[i] == got1[got1.len() - 1 - i],
{
    lemma_fresh_run(first, got1, got1.len() as int);
    let fs = Seq::new(got1.len(), |i: int| got_frame(got1[i]));
    assert(first[got1.len() as int].recycled@ == Seq::<u64>::empty());
    lemma_dealloc_run_then_alloc_run(Seq::empty(), fs, second, got2);
    assert forall|i: int| 0 <= i < got2.len() implies #[trigger] got2[i] == got1[got1.len() - 1 - i] by {
        let j = got1.len() - 1 - i;
        assert(got2[i] == Some(PhyPageNum(fs[j])));
        assert(got1[j] == Some(PhyPageNum((first[0].current + j) as u64)));
    }
}

/// The first `i` allocations from an allocator with no frame given back
/// hand out fresh frames in order.
proof fn lemma_fresh_run(first: Seq<StackFrameAllocator>, got1: Seq<Option<PhyPageNum>>, i: int)
    requires
        0 <= i <= got1.len(),
        first.len() == got1.len() + 1,
        first[0].recycled@.len() == 0,
        first[0].current + got1.len() <= first[0].end,
        forall|j: int| 0 <= j < got1.len() ==> #[trigger] alloc_step(first[j], first[j + 1], got1[j]),
    ensures
        first[i].recycled@.len() == 0,
        first[i].current == first[0].current + i,
        first[i].end == first[0].end,
        forall|j: int| 0 <= j < i ==> #[trigger] got1[j] == Some(PhyPageNum((first[0].current + j) as u64)),
    decreases i,
{
    if i > 0 {
        lemma_fresh_run(first, got1, i - 1);
        let k = i - 1;
        assert(alloc_step(first[k], first[k + 1], got1[k]));
        assert(k + 1 == i);
    }
}

/// After `i` allocations of such a run, the last `i` frames given back have
/// come out, last first.
proof fn lemma_pop_run(base: Seq<u64>, fs: Seq<u64>, states: Seq<StackFrameAllocator>, got: Seq<Option<PhyPageNum>>, i: int)
    requires
        0 <= i <= fs.len(),
        states.len() == fs.len() + 1,
        got.len() == fs.len(),
        states[0].recycled@ == base + fs,
        forall|j: int| 0 <= j < got.len() ==> #[trigger] alloc_step(states[j], states[j + 1], got[j]),
    ensures
        states[i].recycled@ == base + fs.subrange(0, fs.len() - i),
        states[i].current == states[0].current,
        states[i].end == states[0].end,
        forall|j: int| 0 <= j < i ==> #[trigger] got[j] == Some(PhyPageNum(fs[fs.len() - 1 - j])),
    decreases i,
{
    if i == 0 {
        assert(fs.subrange(0, fs.len() as int) =~= fs);
    } else {
        lemma_pop_run(base, fs, states, got, i - 1);
        let k = i - 1;
        let s = states[k];
        let n = fs.len();
        assert(alloc_step(states[k], states[k + 1], got[k]));
        assert(k + 1 == i);
        assert(s.recycled@.len() > 0);
        assert(s.recycled@.last() == fs[n - i]);
        assert(s.recycled@.drop_last() =~= base + fs.subrange(0, n - i));
    }
}

/// Owns one physical frame; made with its bytes zeroed.
#[derive(Clone, Debug, PartialEq, Eq, Structural)]
pub struct FrameTracker {
    pub ppn: PhyPageNum,
}

impl FrameTracker {
    /// Takes frame `ppn` and fills it with zero bytes.
    pub fn new(ppn: PhyPageNum, mem: &mut PhysMem) -> (r: Self)
        requires
            old(mem).wf(),
            old(mem).has(ppn.0),
        ensures
            r.ppn == ppn,
            final(mem).wf(),
            final(mem).base() == old(mem).base(),
            final(mem).count() == old(mem).count(),
            final(mem)@ == old(mem)@.insert(ppn.0, zero_page()),
    {
        mem.zero_frame(ppn.0);
        Self { ppn }
    }
}

} // verus!
