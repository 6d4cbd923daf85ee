use vstd::prelude::*;
use vstd::arithmetic::power2::{pow2, lemma_pow2_unfold, lemma_pow2_pos, lemma_pow2_strictly_increases};

verus! {

/// Number of free lists: blocks of `2^i` bytes for `i < 32`.
pub const LINK_LIST_NUM: usize = 32;

/// Size of a machine word on the kernel's 64-bit target; the heap keeps its
/// ends aligned to it.
pub const WORD_SIZE: usize = 8;

/// `2^i`.
pub fn pow2_usize(i: usize) -> (r: usize)
    requires
        i < 32,
    ensures
        r == pow2(i as nat),
{
    proof {
        vstd::bits::lemma_usize_pow2_no_overflow(i as nat);
        vstd::arithmetic::power2::lemma_pow2(0);
        vstd::arithmetic::power2::lemma2_to64();
        vstd::bits::lemma_usize_shl_is_mul(1, i);
    }
    1usize << i
}

/// A stack of free block addresses; its head is the last item.
pub struct UsizeLinkedList {
    items: Vec<usize>,
}

impl UsizeLinkedList {
    /// The addresses, the head last.
    pub closed spec fn view(&self) -> Seq<usize> {
        self.items@
    }

    /// An empty list.
    pub fn new() -> (r: Self)
        ensures
            r@ == Seq::<usize>::empty(),
    {
        Self { items: Vec::new() }
    }

    /// Puts `item` at the head.
    pub fn push(&mut self, item: usize)
        ensures
            final(self)@ == old(self)@.push(item),
    {
        self.items.push(item);
    }

    /// Takes the head, if any.
    pub fn pop(&mut self) -> (r: Option<usize>)
        ensures
            old(self)@.len() == 0 ==> r is None && final(self)@ == old(self)@,
            old(self)@.len() > 0 ==> r == Some(old(self)@.last()) && final(self)@ == old(self)@.drop_last(),
    {
        self.items.pop()
    }

    /// Number of addresses held.
    pub fn len(&self) -> (r: usize)
        ensures
            r == self@.len(),
    {
        self.items.len()
    }

    /// Whether no address is held.
    pub fn is_empty(&self) -> (r: bool)
        ensures
            r == (self@.len() == 0),
    {
        self.items.len() == 0
    }

    /// Takes `buddy` out of the list if it is there, searching from the
    /// head; returns whether it was.
    pub fn find_and_pop_buddy(&mut self, buddy: usize) -> (r: bool)
        ensures
            r == old(self)@.contains(buddy),
            r ==> exists|k: int| 0 <= k < old(self)@.len() && old(self)@[k] == buddy
                && final(self)@ == old(self)@.remove(k)
                && forall|j: int| k < j < old(self)@.len() ==> old(self)@[j] != buddy,
            !r ==> final(self)@ == old(self)@,
    {
        let mut i = self.items.len();
        while i > 0
            invariant
                0 <= i <= self.items@.len(),
                self.items@ == old(self).items@,
                forall|j: int| i <= j < self.items@.len() ==> self.items@[j] != buddy,
            decreases i,
        {
            i = i - 1;
            if self.items[i] == buddy {
                let ghost before = self.items@;
                self.items.remove(i);
                assert(before[i as int] == buddy);
                return true;
            }
        }
        assert(!self.items@.contains(buddy));
        false
    }
}

/// Total bytes held by the first `n` free lists: `len(lists[i]) * 2^i`
/// summed over `i < n`.
pub open spec fn free_bytes(lists: Seq<Seq<usize>>, n: int) -> int
    decreases n,
{
    if n <= 0 {
        0
    } else {
        free_bytes(lists, n - 1) + lists[n - 1].len() * pow2((n - 1) as nat)
    }
}

/// Exponent of the smallest power of two at least `size` (0 for size 0).
pub open spec fn size_class(size: int) -> int
    decreases size,
{
    if size <= 1 {
        0
    } else {
        1 + size_class((size + 1) / 2)
    }
}

/// The first list from `idx` on that holds a block, or `LINK_LIST_NUM` when
/// none does.
pub open spec fn first_nonempty(lists: Seq<Seq<usize>>, idx: int) -> int
    decreases LINK_LIST_NUM - idx,
{
    if idx >= LINK_LIST_NUM {
        LINK_LIST_NUM as int
    } else if lists[idx].len() > 0 {
        idx
    } else {
        first_nonempty(lists, idx + 1)
    }
}

/// The lists after taking block `h`, the head of list `top`, and splitting
/// it down to size class `idx`: list `top` loses its head and each list `k`
/// with `idx <= k < top` gains the upper half `h + 2^k` split off at that
/// size.
pub open spec fn split_lists(lists: Seq<Seq<usize>>, idx: int, top: int, h: usize) -> Seq<Seq<usize>> {
    Seq::new(
        lists.len(),
        |k: int|
            if k == top {
                lists[k].drop_last()
            } else if idx <= k < top {
                lists[k].push((h + pow2(k as nat)) as usize)
            } else {
                lists[k]
            },
    )
}

/// Freeing block `p` of size `2^i` from list `i` on: as long as list `i`
/// holds just the block's buddy (the neighbour it was split from, found by
/// the parity of the block number counted from `start`), the buddy is taken
/// out and the merged block moves up a list; otherwise the block joins list
/// `i`. Returns the lists and whether a block was put in a list, or `None`
/// when an address would leave the machine range.
pub open spec fn dealloc_run(lists: Seq<Seq<usize>>, start: int, p: int, i: int) -> Option<(Seq<Seq<usize>>, bool)>
    decreases LINK_LIST_NUM - i,
{
    if i >= LINK_LIST_NUM || i < 0 {
        Some((lists, false))
    } else {
        let bs = pow2(i as nat) as int;
        let flag = ((p - start) / bs) % 2 == 0;
        let buddy = if flag { p + bs } else { p - bs };
        if p < start || buddy > usize::MAX || buddy < 0 {
            None
        } else if lists[i] == seq![buddy as usize] {
            dealloc_run(lists.update(i, Seq::empty()), start, if flag { p } else { buddy }, i + 1)
        } else {
            Some((lists.update(i, lists[i].push(p as usize)), true))
        }
    }
}

/// The greedy split of `[cur, end)` into blocks, largest first, over lists
/// `i` down to 0: the lists after the blocks of size `2^i` and below are
/// pushed.
pub open spec fn init_lists(lists: Seq<Seq<usize>>, cur: int, end: int, i: int) -> Seq<Seq<usize>>
    decreases i + 1, end - cur,
{
    if i < 0 || cur >= end {
        lists
    } else {
        let b = pow2(i as nat) as int;
        if (end - cur) / b > 0 {
            proof {
                lemma_pow2_pos(i as nat);
                assert(end - cur >= b) by (nonlinear_arith)
                    requires
                        (end - cur) / b > 0,
                        b > 0,
                ;
            }
            init_lists(lists.update(i, lists[i].push(cur as usize)), cur + b, end, i)
        } else {
            init_lists(lists, cur, end, i - 1)
        }
    }
}

/// Every free block `[b, b + 2^i)` of list `i` lies inside the address range.
pub open spec fn blocks_fit(lists: Seq<Seq<usize>>) -> bool {
    forall|i: int, j: int|
        0 <= i < lists.len() && 0 <= j < lists[i].len() ==> #[trigger] lists[i][j] + pow2(i as nat)
            <= usize::MAX + 1
}

/// `2^size_class(size)` is the least power of two that is at least `size`.
pub proof fn lemma_size_class(size: int)
    requires
        size >= 0,
    ensures
        size_class(size) >= 0,
        size > 1 ==> size_class(size) >= 1,
        pow2(size_class(size) as nat) >= size,
        size_class(size) > 0 ==> pow2((size_class(size) - 1) as nat) < size,
    decreases size,
{
    if size > 1 {
        let h = (size + 1) / 2;
        lemma_size_class(h);
        let c = size_class(h);
        lemma_pow2_unfold((c + 1) as nat);
        if c > 0 {
            lemma_pow2_unfold(c as nat);
        } else {
            vstd::arithmetic::power2::lemma2_to64();
        }
    } else {
        vstd::arithmetic::power2::lemma2_to64();
    }
}

/// A `k` whose power is at least `size` while the one below is not is the
/// size class of `size`.
pub proof fn lemma_size_class_unique(size: int, k: int)
    requires
        size >= 0,
        k >= 0,
        pow2(k as nat) >= size,
        k == 0 || pow2((k - 1) as nat) < size,
    ensures
        k == size_class(size),
{
    lemma_size_class(size);
    let c = size_class(size);
    if k < c {
        if k < c - 1 {
            lemma_pow2_strictly_increases(k as nat, (c - 1) as nat);
        }
    } else if k > c {
        if k - 1 > c {
            lemma_pow2_strictly_increases(c as nat, (k - 1) as nat);
        }
    }
}

/// The size class of `size`, or `LINK_LIST_NUM` when it is that or more.
fn class_of(size: usize) -> (r: usize)
    ensures
        r <= LINK_LIST_NUM,
        r < LINK_LIST_NUM ==> r == size_class(size as int),
        r == LINK_LIST_NUM ==> size_class(size as int) >= LINK_LIST_NUM,
{
    let mut idx: usize = 0;
    let mut p: u64 = 1;
    proof {
        vstd::arithmetic::power2::lemma2_to64();
    }
    while idx < LINK_LIST_NUM && p < size as u64
        invariant
            idx <= LINK_LIST_NUM,
            p == pow2(idx as nat),
            idx > 0 ==> pow2((idx - 1) as nat) < size,
        decreases LINK_LIST_NUM - idx,
    {
        proof {
            vstd::arithmetic::power2::lemma2_to64();
            if idx > 0 {
                lemma_pow2_strictly_increases(idx as nat, 32);
            }
            lemma_pow2_unfold((idx + 1) as nat);
        }
        p = p * 2;
        idx = idx + 1;
    }
    proof {
        lemma_size_class(size as int);
        if idx < LINK_LIST_NUM {
            lemma_size_class_unique(size as int, idx as int);
        } else {
            let c = size_class(size as int);
            if c < 32 {
                if c < 31 {
                    lemma_pow2_strictly_increases(c as nat, 31);
                }
            }
        }
    }
    idx
}

/// Two sequences of lists whose first `n` lists have the same lengths hold
/// the same bytes there.
proof fn lemma_free_bytes_same_lens(a: Seq<Seq<usize>>, b: Seq<Seq<usize>>, n: int)
    requires
        0 <= n <= a.len(),
        n <= b.len(),
        forall|k: int| 0 <= k < n ==> #[trigger] a[k].len() == b[k].len(),
    ensures
        free_bytes(a, n) == free_bytes(b, n),
    decreases n,
{
    if n > 0 {
        lemma_free_bytes_same_lens(a, b, n - 1);
    }
}

/// Replacing list `k` changes the bytes by its change in length times `2^k`.
pub proof fn lemma_free_bytes_update(lists: Seq<Seq<usize>>, n: int, k: int, s: Seq<usize>)
    requires
        0 <= k < n <= lists.len(),
    ensures
        free_bytes(lists.update(k, s), n) == free_bytes(lists, n) + (s.len() - lists[k].len())
            * pow2(k as nat),
    decreases n,
{
    let l2 = lists.update(k, s);
    if n - 1 == k {
        lemma_free_bytes_same_lens(l2, lists, n - 1);
        assert(free_bytes(l2, n) == free_bytes(l2, n - 1) + s.len() * pow2(k as nat));
        assert(free_bytes(lists, n) == free_bytes(lists, n - 1) + lists[k].len() * pow2(
            k as nat,
        ));
        assert(s.len() * pow2(k as nat) - lists[k].len() * pow2(k as nat) == (s.len()
            - lists[k].len()) * pow2(k as nat)) by (nonlinear_arith);
    } else {
        lemma_free_bytes_update(lists, n - 1, k, s);
    }
}

/// What a split does to the bytes of the first `n` lists.
spec fn split_delta(idx: int, top: int, n: int) -> int {
    if n <= idx {
        0
    } else if n <= top {
        pow2(n as nat) - pow2(idx as nat)
    } else {
        -pow2(idx as nat)
    }
}

proof fn lemma_split_bytes_prefix(lists: Seq<Seq<usize>>, idx: int, top: int, h: usize, n: int)
    requires
        0 <= idx <= top < lists.len(),
        lists[top].len() > 0,
        0 <= n <= lists.len(),
    ensures
        free_bytes(split_lists(lists, idx, top, h), n) == free_bytes(lists, n) + split_delta(
            idx,
            top,
            n,
        ),
    decreases n,
{
    if n > 0 {
        let s = split_lists(lists, idx, top, h);
        let k = n - 1;
        lemma_split_bytes_prefix(lists, idx, top, h, k);
        let pk = pow2(k as nat);
        let a = lists[k].len() as int;
        assert(free_bytes(s, n) == free_bytes(s, k) + s[k].len() * pk);
        assert(free_bytes(lists, n) == free_bytes(lists, k) + a * pk);
        if idx <= k && k < top {
            assert(s[k].len() == a + 1);
            assert((a + 1) * pk == a * pk + pk) by (nonlinear_arith);
            lemma_pow2_unfold(n as nat);
        } else if k == top {
            assert(s[k].len() == a - 1);
            assert((a - 1) * pk == a * pk - pk) by (nonlinear_arith);
        } else {
            assert(s[k].len() == a);
        }
    }
}

/// One step of the split loop: the head `h` of list `j` is taken and its
/// two halves go to list `j - 1`, the lower one on top.
proof fn lemma_split_step(lists: Seq<Seq<usize>>, j: int, top: int, h: usize)
    requires
        0 < j <= top < lists.len(),
        lists[top].len() > 0,
        h == lists[top].last(),
    ensures
        split_state(lists, j, top, h)[j].len() > 0,
        split_state(lists, j, top, h)[j].last() == h,
        ({
            let b = split_state(lists, j, top, h);
            let b1 = b.update(j, b[j].drop_last());
            let b2 = b1.update(j - 1, b1[j - 1].push((h + pow2((j - 1) as nat)) as usize));
            split_state(lists, j - 1, top, h) =~= b2.update(j - 1, b2[j - 1].push(h))
        }),
{
    let b = split_state(lists, j, top, h);
    let b1 = b.update(j, b[j].drop_last());
    let b2 = b1.update(j - 1, b1[j - 1].push((h + pow2((j - 1) as nat)) as usize));
    let t = split_state(lists, j - 1, top, h);
    let s2 = split_lists(lists, j - 1, top, h);
    if j < top {
        let s = split_lists(lists, j, top, h);
        assert(b[j] == s[j].push(h));
        assert(b[j].drop_last() =~= s[j]);
        assert(b[j - 1] == lists[j - 1]);
    }
    assert forall|k: int| 0 <= k < t.len() implies #[trigger] t[k] == b2.update(j - 1, b2[j - 1].push(h))[k] by {
        if k == j - 1 {
        } else if k == j {
        } else {
        }
    }
}

/// The last step of a split: the block is taken from list `idx`.
proof fn lemma_split_last(lists: Seq<Seq<usize>>, idx: int, top: int, h: usize)
    requires
        0 <= idx <= top < lists.len(),
        lists[top].len() > 0,
        h == lists[top].last(),
    ensures
        split_state(lists, idx, top, h)[idx].len() > 0,
        split_state(lists, idx, top, h)[idx].last() == h,
        ({
            let b = split_state(lists, idx, top, h);
            split_lists(lists, idx, top, h) =~= b.update(idx, b[idx].drop_last())
        }),
{
    let b = split_state(lists, idx, top, h);
    let s = split_lists(lists, idx, top, h);
    if idx < top {
        assert(b[idx] == s[idx].push(h));
        assert(b[idx].drop_last() =~= s[idx]);
    }
    assert forall|k: int| 0 <= k < s.len() implies #[trigger] s[k] == b.update(idx, b[idx].drop_last())[k] by {
    }
}

/// Blocks `[a, a + 2^k)` and `[b, b + 2^m)` do not overlap.
pub open spec fn apart(a: int, k: int, b: int, m: int) -> bool {
    a + pow2(k as nat) <= b || b + pow2(m as nat) <= a
}

/// No two free blocks of `lists` overlap (block `j` of list `k` has `2^k`
/// bytes).
pub open spec fn free_apart(lists: Seq<Seq<usize>>) -> bool {
    forall|k1: int, j1: int, k2: int, j2: int|
        0 <= k1 < lists.len() && 0 <= j1 < lists[k1].len() && 0 <= k2 < lists.len() && 0 <= j2 < lists[k2].len() && (k1
            != k2 || j1 != j2) ==> apart(#[trigger] lists[k1][j1] as int, k1, #[trigger] lists[k2][j2] as int, k2)
}

/// The block `[a, a + 2^m)` overlaps no free block of `lists`.
pub open spec fn apart_from_free(lists: Seq<Seq<usize>>, a: int, m: int) -> bool {
    forall|k: int, j: int| 0 <= k < lists.len() && 0 <= j < lists[k].len() ==> apart(#[trigger] lists[k][j] as int, k, a, m)
}

/// Every free block of `lists` lies below `lo` or from `hi` on.
pub open spec fn free_outside(lists: Seq<Seq<usize>>, lo: int, hi: int) -> bool {
    forall|k: int, j: int|
        0 <= k < lists.len() && 0 <= j < lists[k].len() ==> #[trigger] lists[k][j] + pow2(k as nat) <= lo || hi <= lists[k][j]
}

/// The free blocks of `lists` (block `j` of list `k` has `2^k` bytes) and
/// the blocks `live` handed out (each an address and a size class) lie
/// apart from one another.
pub open spec fn heap_apart(lists: Seq<Seq<usize>>, live: Seq<(usize, nat)>) -> bool {
    &&& free_apart(lists)
    &&& forall|k: int, j: int, l: int|
        0 <= k < lists.len() && 0 <= j < lists[k].len() && 0 <= l < live.len() ==> apart(
            #[trigger] lists[k][j] as int,
            k,
            #[trigger] live[l].0 as int,
            live[l].1 as int,
        )
    &&& forall|l1: int, l2: int|
        0 <= l1 < live.len() && 0 <= l2 < live.len() && l1 != l2 ==> apart(
            #[trigger] live[l1].0 as int,
            live[l1].1 as int,
            #[trigger] live[l2].0 as int,
            live[l2].1 as int,
        )
}

proof fn lemma_pow2_le(a: nat, b: nat)
    requires
        a <= b,
    ensures
        pow2(a) <= pow2(b),
{
    if a < b {
        lemma_pow2_strictly_increases(a, b);
    }
}

/// A block apart from `[h, h + 2^t)` is apart from every block inside it.
proof fn lemma_sub_apart(a: int, k: int, h: int, t: int, b: int, m: int)
    requires
        apart(a, k, h, t),
        h <= b,
        b + pow2(m as nat) <= h + pow2(t as nat),
        pow2(m as nat) > 0,
    ensures
        apart(a, k, b, m),
        apart(b, m, a, k),
{
}

/// Handing out a block (`allocate`, through `split_lists`) keeps every
/// free block and every block handed out apart from one another: the block
/// handed out overlaps no block that is free or still handed out.
pub proof fn lemma_allocate_apart(lists: Seq<Seq<usize>>, idx: int, top: int, live: Seq<(usize, nat)>)
    requires
        lists.len() == LINK_LIST_NUM,
        0 <= idx <= top < LINK_LIST_NUM,
        lists[top].len() > 0,
        blocks_fit(lists),
        heap_apart(lists, live),
    ensures
        heap_apart(split_lists(lists, idx, top, lists[top].last()), live.push((lists[top].last(), idx as nat))),
{
    let h = lists[top].last();
    let lt = lists[top].len() - 1;
    assert(lists[top][lt] == h);
    let s = split_lists(lists, idx, top, h);
    let live2 = live.push((h, idx as nat));
    lemma_pow2_pos(idx as nat);
    lemma_pow2_le(idx as nat, top as nat);
    assert(h + pow2(top as nat) <= usize::MAX + 1);
    // every block of `s` is an old block other than `h`'s, or a new one inside `[h, h + 2^top)`
    assert forall|k: int, j: int| 0 <= k < s.len() && 0 <= j < s[k].len() implies {
        ||| (j < lists[k].len() && !(k == top && j == lt) && #[trigger] s[k][j] == lists[k][j])
        ||| (idx <= k < top && j == lists[k].len() && s[k][j] == h + pow2(k as nat) && h <= s[k][j]
            && s[k][j] + pow2(k as nat) <= h + pow2(top as nat) && h + pow2(idx as nat) <= s[k][j])
    } by {
        if idx <= k < top && j == lists[k].len() {
            lemma_pow2_pos(k as nat);
            lemma_pow2_unfold((k + 1) as nat);
            lemma_pow2_le((k + 1) as nat, top as nat);
            lemma_pow2_le(idx as nat, k as nat);
        }
    }
    assert forall|k1: int, j1: int, k2: int, j2: int|
        0 <= k1 < s.len() && 0 <= j1 < s[k1].len() && 0 <= k2 < s.len() && 0 <= j2 < s[k2].len() && (k1 != k2 || j1
            != j2) implies apart(#[trigger] s[k1][j1] as int, k1, #[trigger] s[k2][j2] as int, k2) by {
        lemma_pow2_pos(k1 as nat);
        lemma_pow2_pos(k2 as nat);
        let new1 = idx <= k1 < top && j1 == lists[k1].len();
        let new2 = idx <= k2 < top && j2 == lists[k2].len();
        if !new1 && !new2 {
            assert(lists[k1][j1] == s[k1][j1]);
            assert(lists[k2][j2] == s[k2][j2]);
        } else if new1 && !new2 {
            assert(apart(lists[k2][j2] as int, k2, lists[top][lt] as int, top));
            lemma_sub_apart(lists[k2][j2] as int, k2, h as int, top, s[k1][j1] as int, k1);
        } else if !new1 && new2 {
            assert(apart(lists[k1][j1] as int, k1, lists[top][lt] as int, top));
            lemma_sub_apart(lists[k1][j1] as int, k1, h as int, top, s[k2][j2] as int, k2);
        } else {
            lemma_pow2_unfold((k1 + 1) as nat);
            lemma_pow2_unfold((k2 + 1) as nat);
            if k1 < k2 {
                lemma_pow2_le((k1 + 1) as nat, k2 as nat);
            } else {
                lemma_pow2_le((k2 + 1) as nat, k1 as nat);
            }
        }
    }
    assert forall|k: int, j: int, l: int|
        0 <= k < s.len() && 0 <= j < s[k].len() && 0 <= l < live2.len() implies apart(
            #[trigger] s[k][j] as int,
            k,
            #[trigger] live2[l].0 as int,
            live2[l].1 as int,
        ) by {
        lemma_pow2_pos(k as nat);
        let is_new = idx <= k < top && j == lists[k].len();
        if l < live.len() {
            assert(live2[l] == live[l]);
            lemma_pow2_pos(live[l].1);
            assert(apart(lists[top][lt] as int, top, live[l].0 as int, live[l].1 as int));
            if is_new {
                lemma_sub_apart(live[l].0 as int, live[l].1 as int, h as int, top, s[k][j] as int, k);
            } else {
                assert(lists[k][j] == s[k][j]);
            }
        } else {
            assert(live2[l] == (h, idx as nat));
            if !is_new {
                assert(lists[k][j] == s[k][j]);
                assert(apart(lists[k][j] as int, k, lists[top][lt] as int, top));
                lemma_sub_apart(lists[k][j] as int, k, h as int, top, h as int, idx);
            }
        }
    }
    assert forall|l1: int, l2: int|
        0 <= l1 < live2.len() && 0 <= l2 < live2.len() && l1 != l2 implies apart(
            #[trigger] live2[l1].0 as int,
            live2[l1].1 as int,
            #[trigger] live2[l2].0 as int,
            live2[l2].1 as int,
        ) by {
        if l1 < live.len() && l2 < live.len() {
            assert(live2[l1] == live[l1]);
            assert(live2[l2] == live[l2]);
        } else if l1 < live.len() {
            assert(live2[l1] == live[l1]);
            lemma_pow2_pos(live[l1].1);
            assert(apart(lists[top][lt] as int, top, live[l1].0 as int, live[l1].1 as int));
            lemma_sub_apart(live[l1].0 as int, live[l1].1 as int, h as int, top, h as int, idx);
        } else {
            assert(live2[l2] == live[l2]);
            lemma_pow2_pos(live[l2].1);
            assert(apart(lists[top][lt] as int, top, live[l2].0 as int, live[l2].1 as int));
            lemma_sub_apart(live[l2].0 as int, live[l2].1 as int, h as int, top, h as int, idx);
        }
    }
}

/// Cutting `[cur, end)` into free blocks by `init_lists`, where no free
/// block lies, keeps the free blocks apart.
proof fn lemma_init_apart(lists: Seq<Seq<usize>>, cur: int, end: int, i: int)
    requires
        lists.len() == LINK_LIST_NUM,
        i < LINK_LIST_NUM,
        0 <= cur <= end <= usize::MAX,
        free_apart(lists),
        free_outside(lists, cur, end),
    ensures
        free_apart(init_lists(lists, cur, end, i)),
    decreases i + 1, end - cur,
{
    if i >= 0 && cur < end {
        let b = pow2(i as nat) as int;
        lemma_pow2_pos(i as nat);
        if (end - cur) / b > 0 {
            assert(end - cur >= b) by (nonlinear_arith)
                requires
                    (end - cur) / b > 0,
                    b > 0,
            ;
            let l2 = lists.update(i, lists[i].push(cur as usize));
            let n = lists[i].len() as int;
            assert forall|k: int, j: int| 0 <= k < l2.len() && 0 <= j < l2[k].len() && !(k == i && j == n)
                implies #[trigger] l2[k][j] == lists[k][j] by {
            }
            assert(l2[i][n] as int == cur);
            assert forall|k1: int, j1: int, k2: int, j2: int|
                0 <= k1 < l2.len() && 0 <= j1 < l2[k1].len() && 0 <= k2 < l2.len() && 0 <= j2 < l2[k2].len() && (k1
                    != k2 || j1 != j2) implies apart(#[trigger] l2[k1][j1] as int, k1, #[trigger] l2[k2][j2] as int, k2) by {
                lemma_pow2_pos(k1 as nat);
                lemma_pow2_pos(k2 as nat);
                if !(k1 == i && j1 == n) && !(k2 == i && j2 == n) {
                    assert(l2[k1][j1] == lists[k1][j1] && l2[k2][j2] == lists[k2][j2]);
                } else if k1 == i && j1 == n {
                    assert(l2[k2][j2] == lists[k2][j2]);
                    assert(lists[k2][j2] + pow2(k2 as nat) <= cur || end <= lists[k2][j2]);
                } else {
                    assert(l2[k1][j1] == lists[k1][j1]);
                    assert(lists[k1][j1] + pow2(k1 as nat) <= cur || end <= lists[k1][j1]);
                }
            }
            assert forall|k: int, j: int| 0 <= k < l2.len() && 0 <= j < l2[k].len() implies #[trigger] l2[k][j]
                + pow2(k as nat) <= cur + b || end <= l2[k][j] by {
                if !(k == i && j == n) {
                    assert(l2[k][j] == lists[k][j]);
                    assert(lists[k][j] + pow2(k as nat) <= cur || end <= lists[k][j]);
                }
            }
            lemma_init_apart(l2, cur + b, end, i);
        } else {
            lemma_init_apart(lists, cur, end, i - 1);
        }
    }
}

/// Some free block of `lists` holds the whole block `[a, a + 2^m)`.
pub open spec fn covered(lists: Seq<Seq<usize>>, a: int, m: int) -> bool {
    exists|k: int, j: int|
        0 <= k < lists.len() && 0 <= j < lists[k].len() && #[trigger] lists[k][j] <= a && a + pow2(m as nat) <= lists[k][j]
            + pow2(k as nat)
}

/// When freeing block `p` of size `2^i` puts a block in a list, that block
/// holds `p`'s bytes, so every part `[a, a + 2^m)` of `p` lies in a free
/// block afterwards.
proof fn lemma_dealloc_covers(lists: Seq<Seq<usize>>, start: int, p: int, i: int, a: int, m: int)
    requires
        lists.len() == LINK_LIST_NUM,
        0 <= i,
        0 <= p <= usize::MAX,
        i < LINK_LIST_NUM ==> p <= a && a + pow2(m as nat) <= p + pow2(i as nat),
        dealloc_run(lists, start, p, i) matches Some((_, true)),
    ensures
        covered(dealloc_run(lists, start, p, i).unwrap().0, a, m),
    decreases LINK_LIST_NUM - i,
{
    let bs = pow2(i as nat) as int;
    lemma_pow2_pos(i as nat);
    let flag = ((p - start) / bs) % 2 == 0;
    let buddy = if flag { p + bs } else { p - bs };
    if lists[i] == seq![buddy as usize] {
        let q = if flag { p } else { buddy };
        if i + 1 < LINK_LIST_NUM {
            lemma_pow2_unfold((i + 1) as nat);
        }
        lemma_dealloc_covers(lists.update(i, Seq::empty()), start, q, i + 1, a, m);
    } else {
        let l2 = lists.update(i, lists[i].push(p as usize));
        let n = lists[i].len() as int;
        assert(l2[i][n] as int == p);
        assert(l2[i][n] <= a && a + pow2(m as nat) <= l2[i][n] + pow2(i as nat));
    }
}

/// Freeing a block that overlaps no free block keeps the free blocks
/// apart: a merge takes the buddy out and carries up the block made of the
/// two halves, which overlaps nothing either half does not.
proof fn lemma_dealloc_apart(lists: Seq<Seq<usize>>, start: int, p: int, i: int)
    requires
        lists.len() == LINK_LIST_NUM,
        0 <= i,
        0 <= p <= usize::MAX,
        free_apart(lists),
        i < LINK_LIST_NUM ==> apart_from_free(lists, p, i),
        dealloc_run(lists, start, p, i) is Some,
    ensures
        free_apart(dealloc_run(lists, start, p, i).unwrap().0),
    decreases LINK_LIST_NUM - i,
{
    if i < LINK_LIST_NUM {
        let bs = pow2(i as nat) as int;
        lemma_pow2_pos(i as nat);
        let flag = ((p - start) / bs) % 2 == 0;
        let buddy = if flag { p + bs } else { p - bs };
        if lists[i] == seq![buddy as usize] {
            let l2 = lists.update(i, Seq::empty());
            let q = if flag { p } else { buddy };
            assert(0 <= buddy <= usize::MAX);
            assert(lists[i][0] as int == buddy);
            assert forall|k: int, j: int| 0 <= k < l2.len() && 0 <= j < l2[k].len() implies #[trigger] l2[k][j] == lists[k][j]
                && k != i by {
            }
            assert(free_apart(l2)) by {
                assert forall|k1: int, j1: int, k2: int, j2: int|
                    0 <= k1 < l2.len() && 0 <= j1 < l2[k1].len() && 0 <= k2 < l2.len() && 0 <= j2 < l2[k2].len() && (k1
                        != k2 || j1 != j2) implies apart(#[trigger] l2[k1][j1] as int, k1, #[trigger] l2[k2][j2] as int, k2) by {
                    assert(l2[k1][j1] == lists[k1][j1] && l2[k2][j2] == lists[k2][j2]);
                }
            }
            if i + 1 < LINK_LIST_NUM {
                lemma_pow2_unfold((i + 1) as nat);
                assert(pow2((i + 1) as nat) == 2 * bs);
                assert forall|k: int, j: int| 0 <= k < l2.len() && 0 <= j < l2[k].len() implies apart(#[trigger] l2[k][j] as int, k, q, i + 1) by {
                    assert(l2[k][j] == lists[k][j] && k != i);
                    assert(apart(lists[k][j] as int, k, p, i));
                    assert(apart(lists[k][j] as int, k, lists[i][0] as int, i));
                    assert(apart(lists[k][j] as int, k, buddy, i));
                    lemma_pow2_pos(k as nat);
                }
            }
            lemma_dealloc_apart(l2, start, q, i + 1);
        } else {
            let l2 = lists.update(i, lists[i].push(p as usize));
            let n = lists[i].len() as int;
            assert(l2[i][n] as int == p);
            assert forall|k: int| 0 <= k < lists.len() implies (#[trigger] l2[k]).len() == lists[k].len() + if k == i { 1int } else { 0int } by {
            }
            assert forall|k1: int, j1: int, k2: int, j2: int|
                0 <= k1 < l2.len() && 0 <= j1 < l2[k1].len() && 0 <= k2 < l2.len() && 0 <= j2 < l2[k2].len() && (k1
                    != k2 || j1 != j2) implies apart(#[trigger] l2[k1][j1] as int, k1, #[trigger] l2[k2][j2] as int, k2) by {
                if !(k1 == i && j1 == n) && !(k2 == i && j2 == n) {
                    assert(l2[k1][j1] == lists[k1][j1] && l2[k2][j2] == lists[k2][j2]);
                } else if k1 == i && j1 == n {
                    assert(l2[k2][j2] == lists[k2][j2]);
                    assert(apart(lists[k2][j2] as int, k2, p, i));
                } else {
                    assert(l2[k1][j1] == lists[k1][j1]);
                    assert(apart(lists[k1][j1] as int, k1, p, i));
                }
            }
        }
    }
}

/// Taking a block of `2^idx` bytes out of the free lists by `split_lists`
/// lowers the free bytes by exactly `2^idx`.
pub proof fn lemma_split_bytes(lists: Seq<Seq<usize>>, idx: int, top: int, h: usize)
    requires
        lists.len() == LINK_LIST_NUM,
        0 <= idx <= top < LINK_LIST_NUM,
        lists[top].len() > 0,
    ensures
        free_bytes(split_lists(lists, idx, top, h), LINK_LIST_NUM as int) == free_bytes(
            lists,
            LINK_LIST_NUM as int,
        ) - pow2(idx as nat),
{
    lemma_split_bytes_prefix(lists, idx, top, h, LINK_LIST_NUM as int);
}

/// Splitting the head block of list `top` keeps every block inside the
/// address range.
proof fn lemma_split_fit(lists: Seq<Seq<usize>>, idx: int, top: int)
    requires
        lists.len() == LINK_LIST_NUM,
        blocks_fit(lists),
        0 <= idx <= top < LINK_LIST_NUM,
        lists[top].len() > 0,
    ensures
        blocks_fit(split_lists(lists, idx, top, lists[top].last())),
{
    let h = lists[top].last();
    let s = split_lists(lists, idx, top, h);
    assert(h + pow2(top as nat) <= usize::MAX + 1) by {
        assert(lists[top][lists[top].len() - 1] == h);
    }
    assert forall|i: int, j: int| 0 <= i < s.len() && 0 <= j < s[i].len() implies #[trigger] s[i][j]
        + pow2(i as nat) <= usize::MAX + 1 by {
        if idx <= i < top {
            if j == lists[i].len() {
                lemma_pow2_unfold((i + 1) as nat);
                if i + 1 < top {
                    lemma_pow2_strictly_increases((i + 1) as nat, top as nat);
                }
            } else {
                assert(s[i][j] == lists[i][j]);
            }
        } else if i == top {
            assert(s[i][j] == lists[i][j]);
        } else {
            assert(s[i][j] == lists[i][j]);
        }
    }
}

/// The lists while a block taken from list `top` is being split down to
/// list `j`: as `split_lists` down to `j`, with the block itself on top of
/// list `j`.
spec fn split_state(lists: Seq<Seq<usize>>, j: int, top: int, h: usize) -> Seq<Seq<usize>> {
    if j == top {
        lists
    } else {
        let s = split_lists(lists, j, top, h);
        s.update(j, s[j].push(h))
    }
}

/// Freeing keeps every block inside the address range, when the freed
/// block itself is.
proof fn lemma_dealloc_fit(lists: Seq<Seq<usize>>, start: int, p: int, i: int)
    requires
        lists.len() == LINK_LIST_NUM,
        blocks_fit(lists),
        0 <= i,
        0 <= p <= usize::MAX,
        i < LINK_LIST_NUM ==> p + pow2(i as nat) <= usize::MAX + 1,
        dealloc_run(lists, start, p, i) is Some,
    ensures
        dealloc_run(lists, start, p, i).unwrap().0.len() == LINK_LIST_NUM,
        blocks_fit(dealloc_run(lists, start, p, i).unwrap().0),
    decreases LINK_LIST_NUM - i,
{
    if i < LINK_LIST_NUM {
        let bs = pow2(i as nat) as int;
        let flag = ((p - start) / bs) % 2 == 0;
        let buddy = if flag { p + bs } else { p - bs };
        if lists[i] == seq![buddy as usize] {
            let l2 = lists.update(i, Seq::empty());
            assert(lists[i][0] == buddy);
            assert(buddy + bs <= usize::MAX + 1);
            let q = if flag { p } else { buddy };
            if i + 1 < LINK_LIST_NUM {
                lemma_pow2_unfold((i + 1) as nat);
            }
            assert forall|a: int, b: int| 0 <= a < l2.len() && 0 <= b < l2[a].len() implies #[trigger] l2[a][b]
                + pow2(a as nat) <= usize::MAX + 1 by {
                assert(l2[a][b] == lists[a][b]);
            }
            lemma_dealloc_fit(l2, start, q, i + 1);
        } else {
            let l2 = lists.update(i, lists[i].push(p as usize));
            assert forall|a: int, b: int| 0 <= a < l2.len() && 0 <= b < l2[a].len() implies #[trigger] l2[a][b]
                + pow2(a as nat) <= usize::MAX + 1 by {
                if a != i || b < lists[i].len() {
                    assert(l2[a][b] == lists[a][b]);
                }
            }
        }
    }
}

/// Freeing a block of `2^i` bytes that ends up in a list raises the free
/// bytes by exactly `2^i`: each merge takes the buddy out of its list and
/// carries a block twice the size up.
pub proof fn lemma_dealloc_bytes(lists: Seq<Seq<usize>>, start: int, p: int, i: int)
    requires
        lists.len() == LINK_LIST_NUM,
        0 <= i,
        dealloc_run(lists, start, p, i) matches Some((_, true)),
    ensures
        free_bytes(dealloc_run(lists, start, p, i).unwrap().0, LINK_LIST_NUM as int) == free_bytes(
            lists,
            LINK_LIST_NUM as int,
        ) + pow2(i as nat),
    decreases LINK_LIST_NUM - i,
{
    let bs = pow2(i as nat) as int;
    let flag = ((p - start) / bs) % 2 == 0;
    let buddy = if flag { p + bs } else { p - bs };
    assert(i < LINK_LIST_NUM);
    if lists[i] == seq![buddy as usize] {
        let l2 = lists.update(i, Seq::empty());
        assert(lists[i].len() == 1);
        lemma_free_bytes_update(lists, LINK_LIST_NUM as int, i, Seq::empty());
        assert(free_bytes(l2, LINK_LIST_NUM as int) == free_bytes(lists, LINK_LIST_NUM as int) - bs);
        lemma_dealloc_bytes(l2, start, if flag { p } else { buddy }, i + 1);
        lemma_pow2_unfold((i + 1) as nat);
    } else {
        let s2 = lists[i].push(p as usize);
        lemma_free_bytes_update(lists, LINK_LIST_NUM as int, i, s2);
        assert(s2.len() - lists[i].len() == 1);
        let d = s2.len() - lists[i].len();
        let q = pow2(i as nat) as int;
        assert(d * q == q) by (nonlinear_arith)
            requires
                d == 1,
        ;
    }
}

/// Filling `[cur, end)` by `init_lists` adds exactly `end - cur` free bytes.
pub proof fn lemma_init_bytes(lists: Seq<Seq<usize>>, cur: int, end: int, i: int)
    requires
        lists.len() == LINK_LIST_NUM,
        0 <= i < LINK_LIST_NUM,
        cur <= end,
    ensures
        free_bytes(init_lists(lists, cur, end, i), LINK_LIST_NUM as int) == free_bytes(
            lists,
            LINK_LIST_NUM as int,
        ) + (end - cur),
    decreases i + 1, end - cur,
{
    if cur < end {
        let b = pow2(i as nat) as int;
        lemma_pow2_pos(i as nat);
        if (end - cur) / b > 0 {
            assert(end - cur >= b) by (nonlinear_arith)
                requires
                    (end - cur) / b > 0,
                    b > 0,
            ;
            lemma_free_bytes_update(lists, LINK_LIST_NUM as int, i, lists[i].push(cur as usize));
            lemma_init_bytes(lists.update(i, lists[i].push(cur as usize)), cur + b, end, i);
        } else {
            if i == 0 {
                vstd::arithmetic::power2::lemma2_to64();
                assert((end - cur) / 1 == end - cur);
            }
            lemma_init_bytes(lists, cur, end, i - 1);
        }
    }
}

/// `x` rounded up to a multiple of the word size.
pub open spec fn align_up(x: int) -> int {
    (x + WORD_SIZE - 1) / (WORD_SIZE as int) * (WORD_SIZE as int)
}

/// `x` rounded down to a multiple of the word size.
pub open spec fn align_down(x: int) -> int {
    x / (WORD_SIZE as int) * (WORD_SIZE as int)
}

/// A buddy allocator: free blocks of `2^i` bytes in list `i`, and a count of
/// the blocks handed out and not yet given back.
pub struct Heap {
    pub usize_list: Vec<UsizeLinkedList>,
    pub start: usize,
    pub alloc_cnt: usize,
}

impl Heap {
    /// The free lists.
    pub open spec fn lists(&self) -> Seq<Seq<usize>> {
        Seq::new(self.usize_list@.len(), |i: int| self.usize_list@[i]@)
    }

    /// There are `LINK_LIST_NUM` lists, every free block lies inside the
    /// address range, and no two free blocks overlap.
    pub open spec fn wf(&self) -> bool {
        &&& self.lists().len() == LINK_LIST_NUM
        &&& blocks_fit(self.lists())
        &&& free_apart(self.lists())
    }

    fn push_at(&mut self, i: usize, x: usize)
        requires
            i < old(self).usize_list@.len(),
        ensures
            final(self).lists() == old(self).lists().update(i as int, old(self).lists()[i as int].push(x)),
            final(self).usize_list@.len() == old(self).usize_list@.len(),
            final(self).start == old(self).start,
            final(self).alloc_cnt == old(self).alloc_cnt,
    {
        self.usize_list[i].push(x);
        proof {
            assert(self.lists() =~= old(self).lists().update(i as int, old(self).lists()[i as int].push(x)));
        }
    }

    fn pop_at(&mut self, i: usize) -> (r: Option<usize>)
        requires
            i < old(self).usize_list@.len(),
        ensures
            final(self).usize_list@.len() == old(self).usize_list@.len(),
            old(self).lists()[i as int].len() == 0 ==> r is None && final(self).lists() == old(self).lists(),
            old(self).lists()[i as int].len() > 0 ==> r == Some(old(self).lists()[i as int].last())
                && final(self).lists() == old(self).lists().update(i as int, old(self).lists()[i as int].drop_last()),
            final(self).start == old(self).start,
            final(self).alloc_cnt == old(self).alloc_cnt,
    {
        let r = self.usize_list[i].pop();
        proof {
            if old(self).lists()[i as int].len() == 0 {
                assert(self.lists() =~= old(self).lists());
            } else {
                assert(self.lists() =~= old(self).lists().update(i as int, old(self).lists()[i as int].drop_last()));
            }
        }
        r
    }

    fn take_if_only(&mut self, i: usize, buddy: usize) -> (r: bool)
        requires
            i < old(self).usize_list@.len(),
        ensures
            r == (old(self).lists()[i as int] == seq![buddy]),
            final(self).usize_list@.len() == old(self).usize_list@.len(),
            r ==> final(self).lists() == old(self).lists().update(i as int, Seq::empty()),
            !r ==> final(self).lists() == old(self).lists(),
            final(self).start == old(self).start,
            final(self).alloc_cnt == old(self).alloc_cnt,
    {
        let ghost l = old(self).lists()[i as int];
        assert(self.usize_list@[i as int]@ == l);
        let len = self.usize_list[i].len();
        let mut found = false;
        if len <= 1 {
            found = self.usize_list[i].find_and_pop_buddy(buddy);
        }
        proof {
            if found {
                let k = choose|k: int|
                    0 <= k < l.len() && l[k] == buddy && self.usize_list@[i as int]@ == l.remove(k)
                        && forall|j: int| k < j < l.len() ==> l[j] != buddy;
                assert(k == 0);
                assert(l =~= seq![buddy]);
                assert(self.usize_list@[i as int]@ =~= Seq::<usize>::empty());
                assert(self.lists() =~= old(self).lists().update(i as int, Seq::empty()));
            } else {
                if l == seq![buddy] {
                    assert(l[0] == buddy);
                    assert(l.contains(buddy));
                }
                assert(self.lists() =~= old(self).lists());
            }
        }
        found
    }

    /// A heap with empty lists.
    pub fn empty() -> (r: Self)
        ensures
            r.wf(),
            forall|i: int| 0 <= i < LINK_LIST_NUM ==> #[trigger] r.lists()[i].len() == 0,
            r.start == 0,
            r.alloc_cnt == 0,
    {
        let mut usize_list: Vec<UsizeLinkedList> = Vec::new();
        let mut i: usize = 0;
        while i < LINK_LIST_NUM
            invariant
                0 <= i <= LINK_LIST_NUM,
                usize_list@.len() == i,
                forall|j: int| 0 <= j < i ==> #[trigger] usize_list@[j]@.len() == 0,
            decreases LINK_LIST_NUM - i,
        {
            usize_list.push(UsizeLinkedList::new());
            i = i + 1;
        }
        Self { usize_list, start: 0, alloc_cnt: 0 }
    }

    /// Hands out a block of `2^idx` bytes, `2^idx` the least power of two
    /// that is at least `size`: the head of the first non-empty list from
    /// `idx` on, split in halves down to list `idx`, each upper half going to
    /// the list of its size. When every such list is empty, returns 0 and
    /// changes nothing.
    pub fn allocate(&mut self, size: usize) -> (r: usize)
        requires
            old(self).wf(),
            size_class(size as int) < LINK_LIST_NUM,
            old(self).alloc_cnt < usize::MAX,
        ensures
            final(self).wf(),
            final(self).start == old(self).start,
            first_nonempty(old(self).lists(), size_class(size as int)) == LINK_LIST_NUM ==> {
                &&& r == 0
                &&& final(self).lists() == old(self).lists()
                &&& final(self).alloc_cnt == old(self).alloc_cnt
            },
            first_nonempty(old(self).lists(), size_class(size as int)) < LINK_LIST_NUM ==> {
                let top = first_nonempty(old(self).lists(), size_class(size as int));
                &&& r == old(self).lists()[top].last()
                &&& final(self).lists() == split_lists(old(self).lists(), size_class(size as int), top, r)
                &&& final(self).alloc_cnt == old(self).alloc_cnt + 1
                &&& apart_from_free(final(self).lists(), r as int, size_class(size as int))
            },
    {
        let idx = class_of(size);
        let ghost lists0 = self.lists();
        let mut i = idx;
        let mut found = false;
        while i < LINK_LIST_NUM
            invariant_except_break
                idx <= i <= LINK_LIST_NUM,
                !found,
                first_nonempty(lists0, idx as int) == first_nonempty(lists0, i as int),
            invariant
                self.lists() == lists0,
                lists0.len() == LINK_LIST_NUM,
                self.usize_list@.len() == LINK_LIST_NUM,
            ensures
                idx <= i <= LINK_LIST_NUM,
                found ==> i < LINK_LIST_NUM && lists0[i as int].len() > 0 && first_nonempty(lists0, idx as int) == i,
                !found ==> first_nonempty(lists0, idx as int) == LINK_LIST_NUM,
            decreases LINK_LIST_NUM - i,
        {
            if !self.usize_list[i].is_empty() {
                assert(self.usize_list@[i as int]@ == lists0[i as int]);
                assert(lists0[i as int].len() > 0);
                assert(first_nonempty(lists0, i as int) == i as int);
                found = true;
                break;
            }
            assert(self.usize_list@[i as int]@ == lists0[i as int]);
            i = i + 1;
        }
        if !found {
            return 0;
        }
        let top = i;
        let ghost h = lists0[top as int].last();
        proof {
            assert(lists0[top as int][lists0[top as int].len() - 1] == h);
        }
        let mut j = top;
        while j > idx
            invariant
                idx <= j <= top < LINK_LIST_NUM,
                lists0.len() == LINK_LIST_NUM,
                blocks_fit(lists0),
                lists0[top as int].len() > 0,
                h == lists0[top as int].last(),
                h + pow2(top as nat) <= usize::MAX + 1,
                self.usize_list@.len() == LINK_LIST_NUM,
                self.lists() == split_state(lists0, j as int, top as int, h),
                self.start == old(self).start,
                self.alloc_cnt == old(self).alloc_cnt,
            decreases j,
        {
            let ghost before = self.lists();
            let popped = self.pop_at(j);
            match popped {
                Some(head) => {
                    proof {
                        lemma_split_step(lists0, j as int, top as int, h);
                        assert(head == h);
                        lemma_pow2_strictly_increases((j - 1) as nat, top as nat);
                    }
                    let upper = head + pow2_usize(j - 1);
                    self.push_at(j - 1, upper);
                    self.push_at(j - 1, head);
                    proof {
                        assert(self.lists() =~= split_state(lists0, (j - 1) as int, top as int, h));
                    }
                },
                None => {},
            }
            j = j - 1;
        }
        proof {
            lemma_split_last(lists0, idx as int, top as int, h);
            lemma_split_fit(lists0, idx as int, top as int);
            lemma_allocate_apart(lists0, idx as int, top as int, Seq::empty());
            let s2 = split_lists(lists0, idx as int, top as int, h);
            let live2 = Seq::<(usize, nat)>::empty().push((h, idx as nat));
            assert(live2[0] == (h, idx as nat));
            assert forall|k: int, j: int| 0 <= k < s2.len() && 0 <= j < s2[k].len() implies apart(#[trigger] s2[k][j] as int, k, h as int, idx as int) by {
                assert(apart(s2[k][j] as int, k, live2[0].0 as int, live2[0].1 as int));
            }
        }
        let popped = self.pop_at(idx);
        match popped {
            Some(res) => {
                proof {
                    assert(self.lists() =~= split_lists(lists0, idx as int, top as int, h));
                }
                self.alloc_cnt = self.alloc_cnt + 1;
                res
            },
            None => 0,
        }
    }

    /// Hands the range `[start, end)`, its ends aligned to the word size, to
    /// the free lists, cut greedily into the largest blocks that fit
    /// (`init_lists`); blocks already free stay.
    pub fn init(&mut self, start: usize, end: usize)
        requires
            old(self).wf(),
            start + WORD_SIZE <= usize::MAX,
            align_up(start as int) <= align_down(end as int),
            free_outside(old(self).lists(), align_up(start as int), align_down(end as int)),
        ensures
            final(self).wf(),
            final(self).start == align_up(start as int),
            final(self).alloc_cnt == old(self).alloc_cnt,
            final(self).lists() == init_lists(
                old(self).lists(),
                align_up(start as int),
                align_down(end as int),
                (LINK_LIST_NUM - 1) as int,
            ),
    {
        assert(!8usize < !0usize) by (bit_vector);
        let mask = !WORD_SIZE + 1;
        let aligned_start = (start + WORD_SIZE - 1) & mask;
        let aligned_end = end & mask;
        proof {
            let s1 = (start + 7) as usize;
            assert(mask == !8usize + 1usize);
            assert(s1 & mask == s1 / 8 * 8) by (bit_vector)
                requires
                    mask == !8usize + 1usize,
            ;
            assert(end & mask == end / 8 * 8) by (bit_vector)
                requires
                    mask == !8usize + 1usize,
            ;
        }
        self.start = aligned_start;
        let ghost target = init_lists(
            self.lists(),
            aligned_start as int,
            aligned_end as int,
            (LINK_LIST_NUM - 1) as int,
        );
        let mut current_start = aligned_start;
        let mut k: usize = LINK_LIST_NUM;
        while k > 0
            invariant
                k <= LINK_LIST_NUM,
                aligned_start <= current_start <= aligned_end,
                self.usize_list@.len() == LINK_LIST_NUM,
                blocks_fit(self.lists()),
                self.start == aligned_start,
                self.alloc_cnt == old(self).alloc_cnt,
                init_lists(self.lists(), current_start as int, aligned_end as int, k - 1) == target,
            decreases k,
        {
            let i = k - 1;
            let judge = pow2_usize(i);
            proof {
                lemma_pow2_pos(i as nat);
            }
            while (aligned_end - current_start) / judge > 0
                invariant
                    i < LINK_LIST_NUM,
                    judge == pow2(i as nat),
                    judge > 0,
                    aligned_start <= current_start <= aligned_end,
                    self.usize_list@.len() == LINK_LIST_NUM,
                    blocks_fit(self.lists()),
                    self.start == aligned_start,
                    self.alloc_cnt == old(self).alloc_cnt,
                    init_lists(self.lists(), current_start as int, aligned_end as int, i as int) == target,
                decreases aligned_end - current_start,
            {
                let ghost before = self.lists();
                proof {
                    let x = aligned_end - current_start;
                    assert(x >= judge) by (nonlinear_arith)
                        requires
                            x / (judge as int) > 0,
                            judge > 0,
                    ;
                }
                self.push_at(i, current_start);
                proof {
                    let l = self.lists();
                    assert forall|a: int, b: int| 0 <= a < l.len() && 0 <= b < l[a].len() implies #[trigger] l[a][b]
                        + pow2(a as nat) <= usize::MAX + 1 by {
                        if a != i || b < before[a].len() {
                            assert(l[a][b] == before[a][b]);
                        }
                    }
                }
                current_start = current_start + judge;
            }
            proof {
                let cur = current_start as int;
                let e = aligned_end as int;
                if cur < e {
                    assert((e - cur) / (judge as int) == 0);
                }
            }
            k = i;
        }
        proof {
            assert(init_lists(self.lists(), current_start as int, aligned_end as int, -1) == self.lists());
            lemma_init_apart(old(self).lists(), aligned_start as int, aligned_end as int, (LINK_LIST_NUM - 1) as int);
        }
    }

    /// Gives back the block at `ptr` of the size class of `size`: while the
    /// list of its size holds just its buddy, the two merge and move up a
    /// list; then the block joins the list of its size and one block less is
    /// counted as handed out (`dealloc_run`). The block must be one handed
    /// out and not given back since, so it overlaps no free block.
    pub fn dealloc(&mut self, ptr: usize, size: usize)
        requires
            old(self).wf(),
            size_class(size as int) < LINK_LIST_NUM ==> apart_from_free(old(self).lists(), ptr as int, size_class(size as int)),
            size_class(size as int) < LINK_LIST_NUM ==> ptr + pow2(size_class(size as int) as nat)
                <= usize::MAX + 1,
            dealloc_run(old(self).lists(), old(self).start as int, ptr as int, size_class(size as int)) is Some,
            dealloc_run(old(self).lists(), old(self).start as int, ptr as int, size_class(size as int)).unwrap().1
                ==> old(self).alloc_cnt > 0,
        ensures
            final(self).wf(),
            final(self).start == old(self).start,
            ({
                let res = dealloc_run(old(self).lists(), old(self).start as int, ptr as int, size_class(size as int))->0;
                &&& final(self).lists() == res.0
                &&& final(self).alloc_cnt == if res.1 { old(self).alloc_cnt - 1 } else { old(self).alloc_cnt as int }
                &&& res.1 ==> covered(final(self).lists(), ptr as int, size_class(size as int))
            }),
    {
        let ghost lists0 = self.lists();
        let ghost target = dealloc_run(lists0, self.start as int, ptr as int, size_class(size as int))->0;
        proof {
            lemma_size_class(size as int);
            lemma_dealloc_fit(lists0, self.start as int, ptr as int, size_class(size as int));
            lemma_dealloc_apart(lists0, self.start as int, ptr as int, size_class(size as int));
            if target.1 {
                lemma_dealloc_covers(lists0, self.start as int, ptr as int, size_class(size as int), ptr as int, size_class(size as int));
            }
        }
        let idx = class_of(size);
        let mut final_ptr = ptr;
        let mut i = idx;
        let mut pushed = false;
        while i < LINK_LIST_NUM
            invariant_except_break
                !pushed,
                idx <= i <= LINK_LIST_NUM,
                dealloc_run(self.lists(), self.start as int, final_ptr as int, i as int) == Some(target),
                self.alloc_cnt == old(self).alloc_cnt,
            invariant
                self.usize_list@.len() == LINK_LIST_NUM,
                self.start == old(self).start,
                target.1 ==> old(self).alloc_cnt > 0,
            ensures
                pushed ==> target.1 && self.lists() == target.0 && self.alloc_cnt == old(self).alloc_cnt - 1,
                !pushed ==> !target.1 && self.lists() == target.0 && self.alloc_cnt == old(self).alloc_cnt,
            decreases LINK_LIST_NUM - i,
        {
            let block_size = pow2_usize(i);
            proof {
                lemma_pow2_pos(i as nat);
            }
            let flag = ((final_ptr - self.start) / block_size) % 2 == 0;
            let buddy = if flag {
                final_ptr + block_size
            } else {
                final_ptr - block_size
            };
            if self.take_if_only(i, buddy) {
                if !flag {
                    final_ptr = buddy;
                }
            } else {
                self.push_at(i, final_ptr);
                self.alloc_cnt = self.alloc_cnt - 1;
                pushed = true;
                break;
            }
            i = i + 1;
        }
    }

    /// Whether every block handed out was given back.
    pub fn check_leak(&self) -> (r: bool)
        ensures
            r == (self.alloc_cnt == 0),
    {
        self.alloc_cnt == 0
    }
}

/// The search for a block starts at list `idx` and stops at the first list
/// that holds one: every list from `idx` up to `first_nonempty(lists, idx)`
/// is empty, and the one there, if any, is not.
pub proof fn lemma_first_nonempty_is_first(lists: Seq<Seq<usize>>, idx: int)
    requires
        0 <= idx <= LINK_LIST_NUM,
        lists.len() == LINK_LIST_NUM,
    ensures
        idx <= first_nonempty(lists, idx) <= LINK_LIST_NUM,
        forall|j: int| idx <= j < first_nonempty(lists, idx) ==> #[trigger] lists[j].len() == 0,
        first_nonempty(lists, idx) < LINK_LIST_NUM ==> lists[first_nonempty(lists, idx)].len() > 0,
    decreases LINK_LIST_NUM - idx,
{
    if idx < LINK_LIST_NUM && lists[idx].len() == 0 {
        lemma_first_nonempty_is_first(lists, idx + 1);
    }
}

/// The size class of `size` is that of the smallest power of two that holds
/// `size` bytes: `2^size_class(size)` is at least `size`, and half of it is
/// less than `size` when `size` exceeds 1.
pub proof fn lemma_size_class_fits(size: int)
    requires
        0 <= size,
    ensures
        size_class(size) >= 0,
        size > 1 ==> size_class(size) >= 1,
        pow2(size_class(size) as nat) >= size,
        size > 1 ==> pow2((size_class(size) - 1) as nat) < size,
    decreases size,
{
    if size > 1 {
        let h = (size + 1) / 2;
        lemma_size_class_fits(h);
        let c = size_class(h);
        assert(size_class(size) == c + 1);
        assert(2 * h >= size && 2 * h <= size + 1);
        lemma_pow2_unfold((c + 1) as nat);
        assert(pow2((c + 1) as nat) == 2 * pow2(c as nat));
        assert(pow2(c as nat) >= h);
        assert(pow2(size_class(size) as nat) >= size);
        if h > 1 {
            assert(c >= 1);
            lemma_pow2_unfold(c as nat);
            assert(pow2(c as nat) == 2 * pow2((c - 1) as nat));
        } else {
            assert(c == 0);
            vstd::arithmetic::power2::lemma2_to64();
        }
    } else {
        vstd::arithmetic::power2::lemma2_to64();
    }
}

} // verus!
