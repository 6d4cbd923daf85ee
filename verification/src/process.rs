use vstd::prelude::*;
use vstd::multiset::Multiset;
use crate::io::{user_byte, user_frames_apart, user_writable, user_write, write_user_bytes};
use crate::mem::page_table::{mapping, PageTable};
use crate::mem::physmem::PhysMem;

verus! {

/// Hands out process ids: those given back first, last given back first,
/// then fresh ones from `start` up to `end`.
pub struct PidAllocator {
    pub start: usize,
    pub end: usize,
    pub recycled: Vec<usize>,
}

impl PidAllocator {
    /// Ids given back were handed out before, each once.
    pub open spec fn wf(&self) -> bool {
        &&& forall|i: int| 0 <= i < self.recycled@.len() ==> #[trigger] self.recycled@[i] < self.start
        &&& self.recycled@.no_duplicates()
    }

    /// Whether id `p` can be handed out.
    pub open spec fn is_free(&self, p: usize) -> bool {
        (self.start <= p < self.end) || self.recycled@.contains(p)
    }

    /// An allocator of every id below `usize::MAX - 1`; the id
    /// `usize::MAX` stays free for "any child" in a wait.
    pub fn new() -> (r: Self)
        ensures
            r.wf(),
            r.start == 0,
            r.end == usize::MAX - 1,
            r.recycled@.len() == 0,
    {
        Self { start: 0, end: usize::MAX - 1, recycled: Vec::new() }
    }

    /// The id given back last, if any, else a fresh id, else `None`.
    pub fn allocate(&mut self) -> (r: Option<usize>)
        requires
            old(self).wf(),
        ensures
            final(self).wf(),
            final(self).end == old(self).end,
            old(self).recycled@.len() > 0 ==> r == Some(old(self).recycled@.last()) && final(self).recycled@
                == old(self).recycled@.drop_last() && final(self).start == old(self).start,
            old(self).recycled@.len() == 0 && old(self).start < old(self).end ==> r == Some(old(self).start)
                && final(self).start == old(self).start + 1 && final(self).recycled@ == old(self).recycled@,
            old(self).recycled@.len() == 0 && old(self).start >= old(self).end ==> r is None && *final(self) == *old(self),
            r matches Some(p) ==> old(self).is_free(p) && !final(self).is_free(p),
    {
        if self.recycled.len() > 0 {
            let id = self.recycled.pop().unwrap();
            proof {
                let s0 = old(self).recycled@;
                assert(s0 == self.recycled@.push(id));
                assert(s0[s0.len() - 1] == id);
                assert(s0.contains(id));
                assert forall|i: int| 0 <= i < self.recycled@.len() implies #[trigger] self.recycled@[i] < self.start by {
                    assert(self.recycled@[i] == s0[i]);
                }
                assert(!self.recycled@.contains(id)) by {
                    if self.recycled@.contains(id) {
                        let k = choose|k: int| 0 <= k < self.recycled@.len() && self.recycled@[k] == id;
                        assert(s0[k] == s0[s0.len() - 1]);
                    }
                }
                assert(self.recycled@.no_duplicates()) by {
                    assert forall|i: int, j: int| 0 <= i < self.recycled@.len() && 0 <= j < self.recycled@.len() && i != j implies self.recycled@[i] != self.recycled@[j] by {
                        assert(self.recycled@[i] == s0[i]);
                        assert(self.recycled@[j] == s0[j]);
                    }
                }
            }
            Some(id)
        } else {
            if self.start < self.end {
                let res = self.start;
                self.start = self.start + 1;
                proof {
                    assert(!self.recycled@.contains(res));
                }
                Some(res)
            } else {
                None
            }
        }
    }

    /// Gives id `pid` back; it must have been handed out.
    pub fn dealloc(&mut self, pid: usize)
        requires
            pid < old(self).start,
        ensures
            final(self).recycled@ == old(self).recycled@.push(pid),
            final(self).start == old(self).start,
            final(self).end == old(self).end,
    {
        self.recycled.push(pid);
    }
}

/// Giving back an id that is in use makes it free and keeps the allocator
/// well formed; the next id handed out is that same id, after which the
/// allocator holds the ids it held before the id was given back.
pub proof fn lemma_pid_dealloc_then_alloc(a: PidAllocator, b: PidAllocator, c: PidAllocator, pid: usize, r: Option<usize>)
    requires
        a.wf(),
        pid < a.start,
        !a.recycled@.contains(pid),
        b.recycled@ == a.recycled@.push(pid),
        b.start == a.start,
        b.end == a.end,
        b.recycled@.len() > 0 ==> r == Some(b.recycled@.last()) && c.recycled@ == b.recycled@.drop_last()
            && c.start == b.start,
    ensures
        b.wf(),
        b.is_free(pid),
        !a.is_free(pid),
        r == Some(pid),
        c.recycled@ == a.recycled@,
        c.start == a.start,
{
    assert(b.recycled@[b.recycled@.len() - 1] == pid);
    assert(b.recycled@.drop_last() =~= a.recycled@);
    assert forall|i: int| 0 <= i < b.recycled@.len() implies #[trigger] b.recycled@[i] < b.start by {
        if i < a.recycled@.len() {
            assert(b.recycled@[i] == a.recycled@[i]);
        }
    }
    assert(b.recycled@.no_duplicates()) by {
        assert forall|i: int, j: int| 0 <= i < b.recycled@.len() && 0 <= j < b.recycled@.len() && i != j implies b.recycled@[i] != b.recycled@[j] by {
            if i < a.recycled@.len() {
                assert(a.recycled@[i] == b.recycled@[i]);
            }
            if j < a.recycled@.len() {
                assert(a.recycled@[j] == b.recycled@[j]);
            }
            if i == a.recycled@.len() && a.recycled@[j] == pid {
                assert(a.recycled@.contains(pid));
            }
            if j == a.recycled@.len() && a.recycled@[i] == pid {
                assert(a.recycled@.contains(pid));
            }
        }
    }
    assert(b.recycled@.contains(pid));
}

/// Whether a process can run or has ended.
#[derive(Clone, Copy, PartialEq, Eq, Structural, Debug)]
pub enum State {
    Ready,
    Exited,
}

/// What the scheduler keeps of a process: its id, state, exit code once it
/// has ended, and the ids of its children.
#[derive(Clone, Debug)]
pub struct ProcInfo {
    pub pid: usize,
    pub status: State,
    pub exit_code: Option<i32>,
    pub children: Vec<usize>,
}

/// Where the processor goes next: the current process, or the kernel when
/// no process can run.
#[derive(Clone, Copy, PartialEq, Eq, Structural, Debug)]
pub enum NextContext {
    Current,
    Kernel,
}

/// Index of the first process in `q` from `k` on whose state is `Ready`,
/// or `q.len()` when there is none.
pub open spec fn first_ready(q: Seq<ProcInfo>, k: int) -> int
    decreases q.len() - k,
{
    if k >= q.len() {
        q.len() as int
    } else if q[k].status == State::Ready {
        k
    } else {
        first_ready(q, k + 1)
    }
}

/// The scheduler's choice is the first ready process: every process of
/// `q` from `k` up to `first_ready(q, k)` is not ready, and the one there,
/// if any, is.
pub proof fn lemma_first_ready_is_first(q: Seq<ProcInfo>, k: int)
    requires
        0 <= k <= q.len(),
    ensures
        k <= first_ready(q, k) <= q.len(),
        forall|j: int| k <= j < first_ready(q, k) ==> #[trigger] q[j].status != State::Ready,
        first_ready(q, k) < q.len() ==> q[first_ready(q, k)].status == State::Ready,
    decreases q.len() - k,
{
    if k < q.len() && q[k].status != State::Ready {
        lemma_first_ready_is_first(q, k + 1);
    }
}

/// The ready process the scheduler picks from `q` is the first ready one:
/// a ready process with no ready one before it sits at `first_ready(q, 0)`,
/// and with no ready process at all `first_ready(q, 0)` is past the end.
proof fn lemma_first_ready_only(q: Seq<ProcInfo>)
    ensures
        forall|k: int|
            0 <= k < q.len() && #[trigger] q[k].status == State::Ready && (forall|j: int| 0 <= j < k ==> q[j].status != State::Ready)
                ==> first_ready(q, 0) == k,
        (forall|k: int| 0 <= k < q.len() ==> #[trigger] q[k].status != State::Ready) ==> first_ready(q, 0) == q.len(),
{
    lemma_first_ready_is_first(q, 0);
    assert forall|k: int|
        0 <= k < q.len() && #[trigger] q[k].status == State::Ready && (forall|j: int| 0 <= j < k ==> q[j].status != State::Ready)
            implies first_ready(q, 0) == k by {
        let f = first_ready(q, 0);
        if f < k {
            assert(q[f].status == State::Ready);
        }
    }
    if forall|k: int| 0 <= k < q.len() ==> #[trigger] q[k].status != State::Ready {
        let f = first_ready(q, 0);
        if f < q.len() {
            assert(q[f].status == State::Ready);
        }
    }
}

/// Index of the first process in `q` from `k` on with id `pid`, or
/// `q.len()` when there is none.
pub open spec fn find_pid(q: Seq<ProcInfo>, pid: usize, k: int) -> int
    decreases q.len() - k,
{
    if k >= q.len() {
        q.len() as int
    } else if q[k].pid == pid {
        k
    } else {
        find_pid(q, pid, k + 1)
    }
}

/// The search by id finds the first process with that id: every process
/// of `q` from `k` up to `find_pid(q, pid, k)` has another id, and the one
/// there, if any, has id `pid`.
pub proof fn lemma_find_pid_is_first(q: Seq<ProcInfo>, pid: usize, k: int)
    requires
        0 <= k <= q.len(),
    ensures
        k <= find_pid(q, pid, k) <= q.len(),
        forall|j: int| k <= j < find_pid(q, pid, k) ==> #[trigger] q[j].pid != pid,
        find_pid(q, pid, k) < q.len() ==> q[find_pid(q, pid, k)].pid == pid,
    decreases q.len() - k,
{
    if k < q.len() && q[k].pid != pid {
        lemma_find_pid_is_first(q, pid, k + 1);
    }
}

/// Every process a manager holds: the current one, if any, and the queued
/// ones.
pub open spec fn held(cur: Option<ProcInfo>, q: Seq<ProcInfo>) -> Multiset<ProcInfo> {
    match cur {
        Some(c) => q.to_multiset().insert(c),
        None => q.to_multiset(),
    }
}

/// Taking process `k` out of `q` and turning the rest leaves the processes
/// of `q` but that one.
proof fn lemma_take_out(q: Seq<ProcInfo>, k: int)
    requires
        0 <= k < q.len(),
    ensures
        (q.subrange(k + 1, q.len() as int) + q.subrange(0, k)).to_multiset().insert(q[k]) == q.to_multiset(),
{
    broadcast use vstd::seq_lib::lemma_multiset_commutative;
    broadcast use vstd::multiset::group_multiset_axioms;
    let a = q.subrange(0, k);
    let b = q.subrange(k + 1, q.len() as int);
    assert(q =~= a + b.insert(0, q[k]));
    vstd::seq_lib::to_multiset_insert(b, 0, q[k]);
    assert((b + a).to_multiset() =~= b.to_multiset().add(a.to_multiset()));
    assert((a + b.insert(0, q[k])).to_multiset() =~= a.to_multiset().add(b.insert(0, q[k]).to_multiset()));
    assert((b + a).to_multiset().insert(q[k]) =~= q.to_multiset());
}

/// `q` turned `k` places: its first `k` processes moved to the back.
pub open spec fn rotate(q: Seq<ProcInfo>, k: int) -> Seq<ProcInfo> {
    q.subrange(k, q.len() as int) + q.subrange(0, k)
}

/// The current process and the queue of the others, first to run first.
pub struct ProcessManager {
    pub current_program: Option<ProcInfo>,
    pub process: Vec<ProcInfo>,
}

impl ProcessManager {
    /// A manager with no process.
    pub fn new() -> (r: Self)
        ensures
            r.current_program is None,
            r.process@.len() == 0,
    {
        Self { current_program: None, process: Vec::new() }
    }

    /// Takes `p` as a new process: the current one when there is none, else
    /// at the back of the queue.
    pub fn add_task(&mut self, p: ProcInfo)
        ensures
            held(final(self).current_program, final(self).process@) == held(old(self).current_program, old(self).process@).insert(p),
            old(self).current_program is None ==> final(self).current_program == Some(p) && final(self).process@
                == old(self).process@,
            old(self).current_program is Some ==> final(self).current_program == old(self).current_program
                && final(self).process@ == old(self).process@.push(p),
    {
        match self.current_program {
            Some(_) => {
                self.process.push(p);
                proof {
                    broadcast use vstd::seq_lib::to_multiset_build;
                    broadcast use vstd::multiset::group_multiset_axioms;
                    let c = self.current_program->0;
                    assert(self.process@.to_multiset() =~= old(self).process@.to_multiset().insert(p));
                    assert(self.process@.to_multiset().insert(c) =~= old(self).process@.to_multiset().insert(c).insert(p));
                }
            },
            None => {
                self.current_program = Some(p);
            },
        }
    }

    /// Moves to the next process: the queue turns until its first ready
    /// process, which becomes current, the current one going to the back.
    /// With no ready process in the queue the queue is left as it was, and
    /// the current process runs on if it is ready, else the kernel does.
    pub fn nxt_program(&mut self) -> (r: NextContext)
        ensures
            held(final(self).current_program, final(self).process@) == held(old(self).current_program, old(self).process@),
            ({
                let q = old(self).process@;
                let k = first_ready(q, 0);
                if k < q.len() {
                    &&& r == NextContext::Current
                    &&& final(self).current_program == Some(q[k])
                    &&& final(self).process@ == match old(self).current_program {
                        Some(c) => q.subrange(k + 1, q.len() as int) + q.subrange(0, k) + seq![c],
                        None => q.subrange(k + 1, q.len() as int) + q.subrange(0, k),
                    }
                } else {
                    &&& final(self).current_program == old(self).current_program
                    &&& final(self).process@ == q
                    &&& r == if old(self).current_program matches Some(c) && c.status == State::Ready {
                        NextContext::Current
                    } else {
                        NextContext::Kernel
                    }
                }
            }),
            forall|k: int|
                0 <= k < old(self).process@.len() && #[trigger] old(self).process@[k].status == State::Ready && (forall|j: int|
                    0 <= j < k ==> old(self).process@[j].status != State::Ready) ==> r == NextContext::Current
                    && final(self).current_program == Some(old(self).process@[k]),
            (forall|k: int| 0 <= k < old(self).process@.len() ==> #[trigger] old(self).process@[k].status != State::Ready) ==> {
                &&& final(self).current_program == old(self).current_program
                &&& final(self).process@ == old(self).process@
            },
    {
        let ghost q = self.process@;
        proof {
            lemma_first_ready_only(q);
        }
        let n = self.process.len();
        let mut i: usize = 0;
        while i < n
            invariant
                q == old(self).process@,
                n == q.len(),
                0 <= i <= n,
                self.process@ == rotate(q, i as int),
                self.current_program == old(self).current_program,
                first_ready(q, 0) == first_ready(q, i as int),
            decreases n - i,
        {
            proof {
                assert(self.process@.len() == n);
                assert(self.process@[0] == q[i as int]);
            }
            let p = self.process.remove(0);
            if p.status != State::Ready {
                self.process.push(p);
                proof {
                    assert(self.process@ =~= rotate(q, i + 1));
                }
                i = i + 1;
                continue;
            }
            proof {
                assert(first_ready(q, i as int) == i);
                assert(p == q[i as int]);
                assert(self.process@ =~= q.subrange(i + 1, q.len() as int) + q.subrange(0, i as int));
            }
            let ghost before = self.process@;
            match self.current_program.take() {
                Some(process) => {
                    self.process.push(process);
                },
                None => {},
            }
            self.current_program = Some(p);
            proof {
                let k = i as int;
                lemma_take_out(q, k);
                assert(self.current_program == Some(q[k]));
                broadcast use vstd::seq_lib::to_multiset_build;
                broadcast use vstd::multiset::group_multiset_axioms;
                match old(self).current_program {
                    Some(c) => {
                        assert(self.process@ == before.push(c));
                        assert(self.process@ =~= q.subrange(k + 1, q.len() as int) + q.subrange(0, k) + seq![c]);
                        assert(self.process@.to_multiset() =~= before.to_multiset().insert(c));
                        assert(self.process@.to_multiset().insert(q[k]) =~= q.to_multiset().insert(c));
                    },
                    None => {
                        assert(self.process@ =~= q.subrange(k + 1, q.len() as int) + q.subrange(0, k));
                    },
                }
                lemma_first_ready_only(q);
            }
            return NextContext::Current;
        }
        proof {
            assert(self.process@ =~= q);
        }
        let ready = match &self.current_program {
            Some(c) => c.status == State::Ready,
            None => false,
        };
        if ready {
            NextContext::Current
        } else {
            NextContext::Kernel
        }
    }

    /// Takes the process with id `tar_pid` out of the queue and gives its
    /// exit code: the queue turns until that process is at its front, and
    /// the process leaves. With no such process the queue turns all the way
    /// round, which leaves it as it was, and the answer is `None`.
    pub fn drop_process(&mut self, tar_pid: usize) -> (r: Option<i32>)
        ensures
            final(self).current_program == old(self).current_program,
            ({
                let q = old(self).process@;
                let k = find_pid(q, tar_pid, 0);
                if k < q.len() {
                    &&& r == q[k].exit_code
                    &&& final(self).process@.to_multiset() == q.to_multiset().remove(q[k])
                    &&& final(self).process@ == q.subrange(k + 1, q.len() as int) + q.subrange(0, k)
                } else {
                    &&& r is None
                    &&& final(self).process@ == q
                }
            }),
    {
        let ghost q = self.process@;
        let n = self.process.len();
        let mut i: usize = 0;
        while i < n
            invariant
                q == old(self).process@,
                n == q.len(),
                0 <= i <= n,
                self.process@ == rotate(q, i as int),
                self.current_program == old(self).current_program,
                find_pid(q, tar_pid, 0) == find_pid(q, tar_pid, i as int),
            decreases n - i,
        {
            proof {
                assert(self.process@[0] == q[i as int]);
            }
            let process = self.process.remove(0);
            if process.pid == tar_pid {
                proof {
                    assert(find_pid(q, tar_pid, i as int) == i);
                    assert(self.process@ =~= q.subrange(i + 1, q.len() as int) + q.subrange(0, i as int));
                    lemma_take_out(q, i as int);
                    broadcast use vstd::multiset::group_multiset_axioms;
                    assert(self.process@.to_multiset() =~= q.to_multiset().remove(q[i as int]));
                }
                return process.exit_code;
            } else {
                self.process.push(process);
                proof {
                    assert(self.process@ =~= rotate(q, i + 1));
                }
            }
            i = i + 1;
        }
        proof {
            assert(self.process@ =~= q);
        }
        None
    }

    /// Ends the current process with `exit_code`; unless it is the first
    /// process (id 0), its children go to the first queued process with id
    /// 0.
    pub fn exit_current(&mut self, exit_code: i32)
        requires
            old(self).current_program is Some,
            old(self).current_program->0.pid != 0 ==> find_pid(old(self).process@, 0, 0) < old(self).process@.len(),
        ensures
            ({
                let c = old(self).current_program->0;
                let q = old(self).process@;
                let k = find_pid(q, 0, 0);
                &&& final(self).current_program matches Some(e) && e.pid == c.pid && e.status == State::Exited
                    && e.exit_code == Some(exit_code) && e.children@ == if c.pid != 0 {
                    Seq::<usize>::empty()
                } else {
                    c.children@
                }
                &&& c.pid != 0 ==> final(self).process@.len() == q.len() && (forall|j: int| 0 <= j < q.len() && j != k ==> #[trigger] final(self).process@[j] == q[j])
                    && final(self).process@[k].pid == q[k].pid && final(self).process@[k].status == q[k].status
                    && final(self).process@[k].exit_code == q[k].exit_code
                    && final(self).process@[k].children@ == q[k].children@ + c.children@
                &&& c.pid == 0 ==> final(self).process@ == q
            }),
    {
        let mut exited = self.current_program.take().unwrap();
        exited.status = State::Exited;
        if exited.pid != 0 {
            let ghost q = self.process@;
            let mut k: usize = 0;
            while k < self.process.len() && self.process[k].pid != 0
                invariant
                    q == self.process@,
                    q == old(self).process@,
                    0 <= k <= q.len(),
                    find_pid(q, 0, 0) == find_pid(q, 0, k as int),
                    find_pid(q, 0, 0) < q.len(),
                decreases q.len() - k,
            {
                k = k + 1;
            }
            proof {
                assert(find_pid(q, 0, k as int) == k);
            }
            let ghost moved = exited.children@;
            let ghost before = self.process@[k as int].children@;
            self.process[k].children.append(&mut exited.children);
            proof {
                assert(self.process@[k as int].children@ == before + moved);
                assert forall|j: int| 0 <= j < q.len() && j != k implies #[trigger] self.process@[j] == q[j] by {
                }
            }
        }
        exited.exit_code = Some(exit_code);
        self.current_program = Some(exited);
    }
}

/// What a waiting process learns of a child: its id and whether it has
/// ended.
#[derive(Clone, Copy, PartialEq, Eq, Structural, Debug)]
pub struct ChildInfo {
    pub pid: usize,
    pub exited: bool,
}

/// What a wait does: answer at once, or reap child `index` (id `pid`) and
/// answer its id.
#[derive(Clone, Copy, PartialEq, Eq, Structural, Debug)]
pub enum WaitDecision {
    Return(usize),
    Reap { index: usize, pid: usize },
}

/// Index of the first ended child from `k` on, or `c.len()`.
pub open spec fn first_exited(c: Seq<ChildInfo>, k: int) -> int
    decreases c.len() - k,
{
    if k >= c.len() {
        c.len() as int
    } else if c[k].exited {
        k
    } else {
        first_exited(c, k + 1)
    }
}

/// Index of the first child with id `pid` from `k` on, or `c.len()`.
pub open spec fn first_child(c: Seq<ChildInfo>, pid: usize, k: int) -> int
    decreases c.len() - k,
{
    if k >= c.len() {
        c.len() as int
    } else if c[k].pid == pid {
        k
    } else {
        first_child(c, pid, k + 1)
    }
}

/// The answer of a wait for child `pid` (-1: any child) of a process whose
/// children are `c`: -1 (all bits set) when there is no child, or no child
/// with that id; else the first awaited child that has ended, or -2 when
/// none has.
pub open spec fn wait_spec(c: Seq<ChildInfo>, pid: isize) -> WaitDecision {
    if c.len() == 0 {
        WaitDecision::Return(usize::MAX)
    } else if pid == -1 {
        let k = first_exited(c, 0);
        if k < c.len() {
            WaitDecision::Reap { index: k as usize, pid: c[k].pid }
        } else {
            WaitDecision::Return((usize::MAX - 1) as usize)
        }
    } else {
        let k = first_child(c, pid as usize, 0);
        if k < c.len() {
            if c[k].exited {
                WaitDecision::Reap { index: k as usize, pid: c[k].pid }
            } else {
                WaitDecision::Return((usize::MAX - 1) as usize)
            }
        } else {
            WaitDecision::Return(usize::MAX)
        }
    }
}

/// What a wait answers, in terms of the children alone: -1 with no child;
/// for any child (-1), the first child that has ended is reaped, and -2 comes
/// only when none has; for child `pid`, the first child with that id is
/// reaped if it has ended, -2 comes if it has not, and -1 if no child has
/// that id.
pub proof fn lemma_wait_answers(c: Seq<ChildInfo>, pid: isize)
    requires
        c.len() <= usize::MAX,
    ensures
        c.len() == 0 ==> wait_spec(c, pid) == WaitDecision::Return(usize::MAX),
        wait_spec(c, pid) matches WaitDecision::Reap { index, pid: p } ==> {
            &&& index < c.len()
            &&& c[index as int].exited
            &&& c[index as int].pid == p
            &&& pid == -1 ==> forall|j: int| 0 <= j < index ==> !#[trigger] c[j].exited
            &&& pid != -1 ==> p == pid as usize && forall|j: int| 0 <= j < index ==> #[trigger] c[j].pid != pid as usize
        },
        pid == -1 && (exists|i: int| 0 <= i < c.len() && #[trigger] c[i].exited) ==> wait_spec(c, pid) is Reap,
        pid == -1 && c.len() > 0 && (forall|i: int| 0 <= i < c.len() ==> !#[trigger] c[i].exited) ==> wait_spec(c, pid)
            == WaitDecision::Return((usize::MAX - 1) as usize),
        forall|i: int|
            pid != -1 && 0 <= i < c.len() && #[trigger] c[i].pid == pid as usize && (forall|j: int| 0 <= j < i ==> c[j].pid != pid as usize)
                ==> wait_spec(c, pid) == if c[i].exited {
                WaitDecision::Reap { index: i as usize, pid: c[i].pid }
            } else {
                WaitDecision::Return((usize::MAX - 1) as usize)
            },
        pid != -1 && (forall|i: int| 0 <= i < c.len() ==> #[trigger] c[i].pid != pid as usize) ==> wait_spec(c, pid)
            == WaitDecision::Return(usize::MAX),
{
    lemma_first_exited_is_first(c, 0);
    lemma_first_child_is_first(c, pid as usize, 0);
    if pid == -1 {
        if exists|i: int| 0 <= i < c.len() && #[trigger] c[i].exited {
            let i = choose|i: int| 0 <= i < c.len() && #[trigger] c[i].exited;
            assert(first_exited(c, 0) <= i);
        }
    }
    assert forall|i: int|
        pid != -1 && 0 <= i < c.len() && #[trigger] c[i].pid == pid as usize && (forall|j: int| 0 <= j < i ==> c[j].pid != pid as usize)
            implies first_child(c, pid as usize, 0) == i by {
        let k = first_child(c, pid as usize, 0);
        if k < i {
            assert(c[k].pid == pid as usize);
        }
    }
}

/// Every child from `k` up to `first_exited(c, k)` runs on, and the one
/// there, if any, has ended.
proof fn lemma_first_exited_is_first(c: Seq<ChildInfo>, k: int)
    requires
        0 <= k <= c.len(),
    ensures
        k <= first_exited(c, k) <= c.len(),
        forall|j: int| k <= j < first_exited(c, k) ==> !#[trigger] c[j].exited,
        first_exited(c, k) < c.len() ==> c[first_exited(c, k)].exited,
    decreases c.len() - k,
{
    if k < c.len() && !c[k].exited {
        lemma_first_exited_is_first(c, k + 1);
    }
}

/// Every child from `k` up to `first_child(c, pid, k)` has another id, and
/// the one there, if any, has id `pid`.
proof fn lemma_first_child_is_first(c: Seq<ChildInfo>, pid: usize, k: int)
    requires
        0 <= k <= c.len(),
    ensures
        k <= first_child(c, pid, k) <= c.len(),
        forall|j: int| k <= j < first_child(c, pid, k) ==> #[trigger] c[j].pid != pid,
        first_child(c, pid, k) < c.len() ==> c[first_child(c, pid, k)].pid == pid,
    decreases c.len() - k,
{
    if k < c.len() && c[k].pid != pid {
        lemma_first_child_is_first(c, pid, k + 1);
    }
}

/// Decides a wait for child `pid` (-1: any child) given the children `c`
/// of the waiting process (`wait_spec`, whose meaning
/// `lemma_wait_answers` states).
pub fn sys_waitpid(children: &Vec<ChildInfo>, pid: isize) -> (r: WaitDecision)
    ensures
        r == wait_spec(children@, pid),
        children@.len() == 0 ==> r == WaitDecision::Return(usize::MAX),
        r matches WaitDecision::Reap { index, pid: p } ==> {
            &&& index < children@.len()
            &&& children@[index as int].exited
            &&& children@[index as int].pid == p
            &&& pid == -1 ==> forall|j: int| 0 <= j < index ==> !#[trigger] children@[j].exited
            &&& pid != -1 ==> p == pid as usize && forall|j: int| 0 <= j < index ==> #[trigger] children@[j].pid != pid as usize
        },
        pid == -1 && (exists|i: int| 0 <= i < children@.len() && #[trigger] children@[i].exited) ==> r is Reap,
        pid == -1 && children@.len() > 0 && (forall|i: int| 0 <= i < children@.len() ==> !#[trigger] children@[i].exited) ==> r
            == WaitDecision::Return((usize::MAX - 1) as usize),
        forall|i: int|
            pid != -1 && 0 <= i < children@.len() && #[trigger] children@[i].pid == pid as usize && (forall|j: int|
                0 <= j < i ==> children@[j].pid != pid as usize) ==> r == if children@[i].exited {
                WaitDecision::Reap { index: i as usize, pid: children@[i].pid }
            } else {
                WaitDecision::Return((usize::MAX - 1) as usize)
            },
        pid != -1 && (forall|i: int| 0 <= i < children@.len() ==> #[trigger] children@[i].pid != pid as usize) ==> r
            == WaitDecision::Return(usize::MAX),
{
    let r = decide_wait(children, pid);
    proof {
        lemma_wait_answers(children@, pid);
    }
    r
}

/// The wait that `wait_spec` describes, found by a walk over the children.
fn decide_wait(children: &Vec<ChildInfo>, pid: isize) -> (r: WaitDecision)
    ensures
        r == wait_spec(children@, pid),
        children@.len() <= usize::MAX,
{
    if children.len() == 0 {
        return WaitDecision::Return(usize::MAX);
    }
    if pid == -1 {
        let mut i: usize = 0;
        while i < children.len()
            invariant
                0 <= i <= children@.len(),
                children@.len() > 0,
                pid == -1,
                first_exited(children@, 0) == first_exited(children@, i as int),
            decreases children@.len() - i,
        {
            if children[i].exited {
                return WaitDecision::Reap { index: i, pid: children[i].pid };
            }
            i = i + 1;
        }
        WaitDecision::Return(usize::MAX - 1)
    } else {
        let target = pid as usize;
        let mut i: usize = 0;
        while i < children.len()
            invariant
                0 <= i <= children@.len(),
                children@.len() > 0,
                pid != -1,
                target == pid as usize,
                first_child(children@, target, 0) == first_child(children@, target, i as int),
            decreases children@.len() - i,
        {
            if children[i].pid == target {
                if children[i].exited {
                    return WaitDecision::Reap { index: i, pid: children[i].pid };
                } else {
                    return WaitDecision::Return(usize::MAX - 1);
                }
            }
            i = i + 1;
        }
        WaitDecision::Return(usize::MAX)
    }
}

proof fn lemma_first_exited(c: Seq<ChildInfo>, k: int)
    requires
        0 <= k <= c.len(),
    ensures
        first_exited(c, k) >= k,
        first_exited(c, k) < c.len() ==> c[first_exited(c, k)].exited,
    decreases c.len() - k,
{
    if k < c.len() && !c[k].exited {
        lemma_first_exited(c, k + 1);
    }
}

proof fn lemma_first_child(c: Seq<ChildInfo>, pid: usize, k: int)
    requires
        0 <= k <= c.len(),
    ensures
        first_child(c, pid, k) >= k,
        first_child(c, pid, k) < c.len() ==> c[first_child(c, pid, k)].pid == pid,
    decreases c.len() - k,
{
    if k < c.len() && c[k].pid != pid {
        lemma_first_child(c, pid, k + 1);
    }
}

/// A reap that a wait decides names a child that has ended, by its place
/// and its id.
proof fn lemma_reap_names_child(c: Seq<ChildInfo>, pid: isize)
    requires
        c.len() <= usize::MAX,
    ensures
        wait_spec(c, pid) matches WaitDecision::Reap { index, pid: p } ==> index < c.len() && c[index as int].pid == p
            && c[index as int].exited,
{
    lemma_first_exited(c, 0);
    lemma_first_child(c, pid as usize, 0);
}

/// What a waiting process learns of its children `kids`, the other
/// processes being `q`: each child's id, and whether the process with that
/// id has ended.
pub open spec fn child_infos(q: Seq<ProcInfo>, kids: Seq<usize>) -> Seq<ChildInfo> {
    Seq::new(kids.len(), |i: int| ChildInfo { pid: kids[i], exited: q[find_pid(q, kids[i], 0)].status == State::Exited })
}

/// Every child in `kids` is queued in `q`, and each that has ended holds
/// an exit code.
pub open spec fn children_queued(q: Seq<ProcInfo>, kids: Seq<usize>) -> bool {
    forall|i: int| 0 <= i < kids.len() ==> {
        let k = find_pid(q, #[trigger] kids[i], 0);
        &&& k < q.len()
        &&& q[k].status == State::Exited ==> q[k].exit_code is Some
    }
}

impl ProcessManager {
    /// Position of the process with id `pid` in the queue (`find_pid`).
    fn position(&self, pid: usize) -> (r: usize)
        ensures
            r == find_pid(self.process@, pid, 0),
    {
        let mut i: usize = 0;
        while i < self.process.len()
            invariant
                0 <= i <= self.process@.len(),
                find_pid(self.process@, pid, 0) == find_pid(self.process@, pid, i as int),
            decreases self.process@.len() - i,
        {
            if self.process[i].pid == pid {
                return i;
            }
            i = i + 1;
        }
        i
    }

    /// What a task-info request stores for the current process: its id (for
    /// the id address), the name bytes and the count that `write_task`
    /// gives for a name buffer of `len` bytes.
    pub fn task_info(&self, len: usize) -> (r: (usize, Vec<u8>, usize))
        requires
            self.current_program is Some,
        ensures
            r.0 == self.current_program->0.pid,
            r.1@ == write_task_spec(len).0,
            r.2 == write_task_spec(len).1,
    {
        let pid = match &self.current_program {
            Some(c) => c.pid,
            None => 0,
        };
        let (name, n) = write_task(len);
        (pid, name, n)
    }

    /// Serves a task-info request of the current process in its address
    /// space, whose page table is `page_table`: stores the name bytes of
    /// `task_info(len)` at user address `name`, then the process id, as
    /// eight bytes, at user address `id`; returns the count.
    pub fn store_task_info(&self, page_table: &PageTable, mem: &mut PhysMem, id: u64, name: u64, len: usize) -> (r: usize)
        requires
            self.current_program is Some,
            page_table.wf(old(mem)@),
            old(mem).wf(),
            user_writable(*page_table, *old(mem), name as int, write_task_spec(len).0.len() as int),
            user_writable(*page_table, *old(mem), id as int, 8),
        ensures
            r == write_task_spec(len).1,
            final(mem).wf(),
            final(mem).base() == old(mem).base(),
            final(mem).count() == old(mem).count(),
            page_table.wf(final(mem)@),
            final(mem)@ == user_write(
                user_write(old(mem)@, page_table.root_ppn.0, name as int, write_task_spec(len).0),
                page_table.root_ppn.0,
                id as int,
                u64_le_bytes(self.current_program->0.pid as u64),
            ),
    {
        let (pid, bytes, n) = self.task_info(len);
        let ghost m0 = mem@;
        write_user_bytes(page_table, mem, name, bytes.as_slice());
        proof {
            assert forall|a: int| id <= a < id + 8 implies {
                &&& #[trigger] mapping(mem@, page_table.root_ppn.0, (a / 4096) as u64) is Some
                &&& mem.has(crate::io::user_frame(mem@, page_table.root_ppn.0, a))
                &&& !page_table.tables().contains(crate::io::user_frame(mem@, page_table.root_ppn.0, a))
            } by {
                assert(mapping(mem@, page_table.root_ppn.0, (a / 4096) as u64) == mapping(m0, page_table.root_ppn.0, (a / 4096) as u64));
            }
        }
        let idb = u64_to_le(pid as u64);
        write_user_bytes(page_table, mem, id, idb.as_slice());
        n
    }

    /// Records a copy of the current process, as a fork does: the copy takes
    /// the next id `pids` hands out, the state of the current process, no
    /// exit code and no children; it becomes a child of the current process
    /// and goes to the front of the queue. Returns its id.
    pub fn fork_current(&mut self, pids: &mut PidAllocator) -> (r: usize)
        requires
            old(self).current_program is Some,
            old(pids).wf(),
            old(pids).recycled@.len() > 0 || old(pids).start < old(pids).end,
        ensures
            final(pids).wf(),
            old(pids).recycled@.len() > 0 ==> r == old(pids).recycled@.last() && final(pids).recycled@
                == old(pids).recycled@.drop_last() && final(pids).start == old(pids).start,
            old(pids).recycled@.len() == 0 ==> r == old(pids).start && final(pids).start == old(pids).start + 1
                && final(pids).recycled@ == old(pids).recycled@,
            final(pids).end == old(pids).end,
            old(pids).is_free(r) && !final(pids).is_free(r),
            ({
                let c = old(self).current_program->0;
                &&& final(self).current_program matches Some(c2) && c2.pid == c.pid && c2.status == c.status
                    && c2.exit_code == c.exit_code && c2.children@ == c.children@.push(r)
                &&& final(self).process@.len() == old(self).process@.len() + 1
                &&& final(self).process@[0].pid == r
                &&& final(self).process@[0].status == c.status
                &&& final(self).process@[0].exit_code is None
                &&& final(self).process@[0].children@.len() == 0
                &&& final(self).process@.subrange(1, final(self).process@.len() as int) == old(self).process@
            }),
    {
        let pid = pids.allocate().unwrap();
        let mut cur = self.current_program.take().unwrap();
        let child = ProcInfo { pid, status: cur.status, exit_code: None, children: Vec::new() };
        cur.children.push(pid);
        self.current_program = Some(cur);
        self.process.insert(0, child);
        proof {
            assert(self.process@.subrange(1, self.process@.len() as int) =~= old(self).process@);
        }
        pid
    }

    /// The current process waits for child `pid` (-1: any child): decides
    /// as `sys_waitpid` does from what the queue says of its children, and,
    /// when it reaps a child, takes that child out of the queue
    /// (`drop_process`) and out of its children (`swap_remove`), giving the
    /// child's exit code. Otherwise nothing changes.
    pub fn waitpid(&mut self, pid: isize) -> (r: (WaitDecision, Option<i32>))
        requires
            old(self).current_program is Some,
            children_queued(old(self).process@, old(self).current_program->0.children@),
        ensures
            ({
                let q = old(self).process@;
                let c = old(self).current_program->0;
                let d = wait_spec(child_infos(q, c.children@), pid);
                &&& r.0 == d
                &&& match d {
                    WaitDecision::Reap { index, pid: p } => {
                        let k = find_pid(q, p, 0);
                        &&& k < q.len()
                        &&& r.1 == q[k].exit_code
                        &&& r.1 is Some
                        &&& final(self).process@ == q.subrange(k + 1, q.len() as int) + q.subrange(0, k)
                        &&& final(self).current_program matches Some(c2) && c2.pid == c.pid && c2.status == c.status
                            && c2.exit_code == c.exit_code
                            && c2.children@ == c.children@.update(index as int, c.children@.last()).drop_last()
                    },
                    _ => {
                        &&& r.1 is None
                        &&& final(self).process@ == q
                        &&& final(self).current_program == old(self).current_program
                    },
                }
            }),
    {
        let ghost q = self.process@;
        let ghost kids = self.current_program->0.children@;
        let mut infos: Vec<ChildInfo> = Vec::new();
        let n = match &self.current_program {
            Some(c) => c.children.len(),
            None => 0,
        };
        let mut i: usize = 0;
        while i < n
            invariant
                self.current_program is Some,
                kids == self.current_program->0.children@,
                q == self.process@,
                n == kids.len(),
                children_queued(q, kids),
                0 <= i <= n,
                infos@ == child_infos(q, kids).subrange(0, i as int),
            decreases n - i,
        {
            let child = match &self.current_program {
                Some(c) => c.children[i],
                None => 0,
            };
            let k = self.position(child);
            proof {
                assert(kids[i as int] == child);
                assert(k < q.len());
            }
            let exited = match self.process[k].status {
                State::Exited => true,
                State::Ready => false,
            };
            infos.push(ChildInfo { pid: child, exited });
            i = i + 1;
            proof {
                assert(infos@ =~= child_infos(q, kids).subrange(0, i as int));
            }
        }
        proof {
            assert(infos@ =~= child_infos(q, kids));
        }
        let d = sys_waitpid(&infos, pid);
        match d {
            WaitDecision::Reap { index, pid: p } => {
                proof {
                    let ci = child_infos(q, kids);
                    lemma_reap_names_child(ci, pid);
                    assert(index < ci.len() && ci[index as int].pid == p && ci[index as int].exited);
                    assert(kids[index as int] == p);
                }
                let code = self.drop_process(p);
                let mut cur = self.current_program.take().unwrap();
                cur.children.swap_remove(index);
                self.current_program = Some(cur);
                (d, code)
            },
            _ => (d, None),
        }
    }
}

/// The four bytes of `v` as memory holds them, least significant first.
pub open spec fn i32_le_bytes(v: i32) -> Seq<u8> {
    let u = v as u32;
    seq![(u & 0xff) as u8, ((u >> 8) & 0xff) as u8, ((u >> 16) & 0xff) as u8, ((u >> 24) & 0xff) as u8]
}

/// The eight bytes of `v` as memory holds them, least significant first.
pub open spec fn u64_le_bytes(v: u64) -> Seq<u8> {
    seq![
        (v & 0xff) as u8,
        ((v >> 8) & 0xff) as u8,
        ((v >> 16) & 0xff) as u8,
        ((v >> 24) & 0xff) as u8,
        ((v >> 32) & 0xff) as u8,
        ((v >> 40) & 0xff) as u8,
        ((v >> 48) & 0xff) as u8,
        ((v >> 56) & 0xff) as u8,
    ]
}

/// The bytes of `v`, least significant first.
pub fn i32_to_le(v: i32) -> (r: Vec<u8>)
    ensures
        r@ == i32_le_bytes(v),
{
    let u = v as u32;
    let r = vec![(u & 0xff) as u8, ((u >> 8) & 0xff) as u8, ((u >> 16) & 0xff) as u8, ((u >> 24) & 0xff) as u8];
    assert(r@ =~= i32_le_bytes(v));
    r
}

/// The bytes of `v`, least significant first.
pub fn u64_to_le(v: u64) -> (r: Vec<u8>)
    ensures
        r@ == u64_le_bytes(v),
{
    let r = vec![
        (v & 0xff) as u8,
        ((v >> 8) & 0xff) as u8,
        ((v >> 16) & 0xff) as u8,
        ((v >> 24) & 0xff) as u8,
        ((v >> 32) & 0xff) as u8,
        ((v >> 40) & 0xff) as u8,
        ((v >> 48) & 0xff) as u8,
        ((v >> 56) & 0xff) as u8,
    ];
    assert(r@ =~= u64_le_bytes(v));
    r
}

/// Stores the exit code `code` of a reaped child where the waiting process
/// asked for it: at user address `ptr` of its address space, whose page
/// table is `page_table`; a null `ptr` asks for nothing.
pub fn store_exit_code(page_table: &PageTable, mem: &mut PhysMem, ptr: u64, code: i32)
    requires
        page_table.wf(old(mem)@),
        old(mem).wf(),
        ptr != 0 ==> user_writable(*page_table, *old(mem), ptr as int, 4),
    ensures
        final(mem).wf(),
        final(mem).base() == old(mem).base(),
        final(mem).count() == old(mem).count(),
        page_table.wf(final(mem)@),
        forall|x: u64| #[trigger] mapping(final(mem)@, page_table.root_ppn.0, x) == mapping(old(mem)@, page_table.root_ppn.0, x),
        ptr == 0 ==> final(mem)@ == old(mem)@,
        ptr != 0 ==> final(mem)@ == user_write(old(mem)@, page_table.root_ppn.0, ptr as int, i32_le_bytes(code)),
        ptr != 0 && user_frames_apart(old(mem)@, page_table.root_ppn.0, ptr as int, 4) ==> forall|i: int|
            0 <= i < 4 ==> #[trigger] user_byte(final(mem)@, page_table.root_ppn.0, ptr + i) == i32_le_bytes(code)[i],
{
    if ptr != 0 {
        let bytes = i32_to_le(code);
        write_user_bytes(page_table, mem, ptr, bytes.as_slice());
    }
}

impl ProcessManager {
    /// The current process waits for child `pid` (-1: any child), as
    /// `waitpid` decides and changes the processes, and when it reaps a
    /// child, stores the child's exit code at user address `ptr` of its
    /// address space, whose page table is `page_table` (`store_exit_code`;
    /// a null `ptr` asks for nothing). Returns the decision.
    pub fn waitpid_store(&mut self, pid: isize, ptr: u64, page_table: &PageTable, mem: &mut PhysMem) -> (r: WaitDecision)
        requires
            old(self).current_program is Some,
            children_queued(old(self).process@, old(self).current_program->0.children@),
            page_table.wf(old(mem)@),
            old(mem).wf(),
            ptr != 0 && wait_spec(child_infos(old(self).process@, old(self).current_program->0.children@), pid) is Reap
                ==> user_writable(*page_table, *old(mem), ptr as int, 4),
        ensures
            pids_distinct(old(self).process@) && old(self).current_program->0.children@.no_duplicates() ==> match r {
                WaitDecision::Reap { index, pid: p } => {
                    &&& forall|i: int| 0 <= i < final(self).process@.len() ==> (#[trigger] final(self).process@[i]).pid != p
                    &&& !final(self).current_program->0.children@.contains(p)
                    &&& forall|c: usize| #[trigger] old(self).current_program->0.children@.contains(c) && c != p
                        ==> final(self).current_program->0.children@.contains(c)
                },
                _ => true,
            },
            final(mem).wf(),
            final(mem).base() == old(mem).base(),
            final(mem).count() == old(mem).count(),
            page_table.wf(final(mem)@),
            ({
                let q = old(self).process@;
                let c = old(self).current_program->0;
                let d = wait_spec(child_infos(q, c.children@), pid);
                &&& r == d
                &&& match d {
                    WaitDecision::Reap { index, pid: p } => {
                        let k = find_pid(q, p, 0);
                        &&& k < q.len()
                        &&& q[k].exit_code is Some
                        &&& final(self).process@ == q.subrange(k + 1, q.len() as int) + q.subrange(0, k)
                        &&& final(self).current_program matches Some(c2) && c2.pid == c.pid && c2.status == c.status
                            && c2.exit_code == c.exit_code
                            && c2.children@ == c.children@.update(index as int, c.children@.last()).drop_last()
                        &&& ptr != 0 ==> final(mem)@ == user_write(old(mem)@, page_table.root_ppn.0, ptr as int, i32_le_bytes(q[k].exit_code->0))
                        &&& ptr != 0 && user_frames_apart(old(mem)@, page_table.root_ppn.0, ptr as int, 4) ==> forall|i: int|
                            0 <= i < 4 ==> #[trigger] user_byte(final(mem)@, page_table.root_ppn.0, ptr + i) == i32_le_bytes(q[k].exit_code->0)[i]
                        &&& ptr == 0 ==> final(mem)@ == old(mem)@
                    },
                    _ => {
                        &&& final(self).process@ == q
                        &&& final(self).current_program == old(self).current_program
                        &&& final(mem)@ == old(mem)@
                    },
                }
            }),
    {
        let ghost q = self.process@;
        let ghost kids = self.current_program->0.children@;
        let nkids: usize = match &self.current_program {
            Some(c) => c.children.len(),
            None => 0,
        };
        let (d, code) = self.waitpid(pid);
        match code {
            Some(c) => {
                store_exit_code(page_table, mem, ptr, c);
            },
            None => {},
        }
        proof {
            if pids_distinct(q) && kids.no_duplicates() {
                if let WaitDecision::Reap { index, pid: p } = d {
                    lemma_reap_names_child(child_infos(q, kids), pid);
                    let k = find_pid(q, p, 0);
                    lemma_find_pid_found(q, p);
                    let f = self.process@;
                    assert(k < q.len());
                    let a = q.subrange(k + 1, q.len() as int);
                    let b = q.subrange(0, k);
                    assert(f == a + b);
                    assert(q[k].pid == p);
                    assert forall|i: int| 0 <= i < f.len() implies (#[trigger] f[i]).pid != p by {
                        if i < a.len() {
                            assert(f[i] == a[i]);
                            assert(a[i] == q[k + 1 + i]);
                        } else {
                            assert(f[i] == b[i - a.len()]);
                            assert(b[i - a.len()] == q[i - a.len()]);
                        }
                    }
                    let nk = self.current_program->0.children@;
                    assert(kids[index as int] == p);
                    assert(!nk.contains(p)) by {
                        if nk.contains(p) {
                            let j = choose|j: int| 0 <= j < nk.len() && nk[j] == p;
                            if j == index {
                                assert(nk[j] == kids[kids.len() - 1]);
                            } else {
                                assert(nk[j] == kids[j]);
                            }
                        }
                    }
                    assert forall|c: usize| #[trigger] kids.contains(c) && c != p implies nk.contains(c) by {
                        let j = choose|j: int| 0 <= j < kids.len() && kids[j] == c;
                        if j == kids.len() - 1 {
                            if index < kids.len() - 1 {
                                assert(nk[index as int] == c);
                            }
                        } else {
                            assert(j != index);
                            assert(nk[j] == c);
                        }
                    }
                }
            }
        }
        d
    }
}

/// No two processes of `q` have the same id.
pub open spec fn pids_distinct(q: Seq<ProcInfo>) -> bool {
    forall|i: int, j: int| 0 <= i < j < q.len() ==> (#[trigger] q[i]).pid != (#[trigger] q[j]).pid
}

/// The process found by `find_pid`, when found, has the id looked for.
proof fn lemma_find_pid_found(q: Seq<ProcInfo>, pid: usize)
    ensures
        find_pid(q, pid, 0) >= 0,
        find_pid(q, pid, 0) < q.len() ==> q[find_pid(q, pid, 0)].pid == pid,
{
    lemma_find_pid_from(q, pid, 0);
}

/// From `k` on, `find_pid` gives `q.len()` or a process with the id.
proof fn lemma_find_pid_from(q: Seq<ProcInfo>, pid: usize, k: int)
    requires
        0 <= k,
    ensures
        find_pid(q, pid, k) >= 0,
        find_pid(q, pid, k) < q.len() ==> q[find_pid(q, pid, k)].pid == pid,
    decreases q.len() - k,
{
    if k < q.len() && q[k].pid != pid {
        lemma_find_pid_from(q, pid, k + 1);
    }
}

/// The name every process reports.
pub open spec fn task_name() -> Seq<u8> {
    seq![104u8, 97u8, 104u8, 97u8, 104u8, 97u8]
}

/// The name bytes and count of a task-info request with room for `len`
/// bytes (`write_task`).
pub open spec fn write_task_spec(len: usize) -> (Seq<u8>, usize) {
    let n: usize = if len < 6 { len } else { 6 };
    (if n < len { task_name().subrange(0, n as int).push(0u8) } else { task_name().subrange(0, n as int) }, n)
}

/// The bytes a task-info request with room for `len` bytes writes to the
/// name buffer, and its result: the first `min(6, len)` bytes of the name,
/// then a zero byte when there is room left.
pub fn write_task(len: usize) -> (r: (Vec<u8>, usize))
    ensures
        r.1 == if len < 6 { len } else { 6 },
        r.0@ == if r.1 < len {
            task_name().subrange(0, r.1 as int).push(0u8)
        } else {
            task_name().subrange(0, r.1 as int)
        },
{
    let str_name: [u8; 6] = [104u8, 97u8, 104u8, 97u8, 104u8, 97u8];
    let min_len = if 6 < len {
        6
    } else {
        len
    };
    let mut out: Vec<u8> = Vec::new();
    let mut i: usize = 0;
    while i < min_len
        invariant
            min_len <= 6,
            0 <= i <= min_len,
            str_name@ == task_name(),
            out@ == task_name().subrange(0, i as int),
        decreases min_len - i,
    {
        out.push(str_name[i]);
        i = i + 1;
        proof {
            assert(out@ =~= task_name().subrange(0, i as int));
        }
    }
    if min_len < len {
        out.push(0u8);
    }
    (out, min_len)
}

/// The open files of a process, by descriptor.
pub struct FdTable<F> {
    pub fd_table: Vec<Option<F>>,
}

impl<F: Clone> FdTable<F> {
    /// The table a forked process starts with: the same length, a free slot
    /// where this one is free, and elsewhere a clone of this one's file
    /// (for shared files, the same file).
    pub fn fork(&self) -> (r: FdTable<F>)
        ensures
            r.fd_table@.len() == self.fd_table@.len(),
            forall|i: int| 0 <= i < self.fd_table@.len() ==> (#[trigger] r.fd_table@[i] is Some) == (self.fd_table@[i] is Some),
            forall|i: int| 0 <= i < self.fd_table@.len() && self.fd_table@[i] is Some ==> cloned(
                self.fd_table@[i]->0,
                #[trigger] r.fd_table@[i]->0,
            ),
    {
        let mut t: Vec<Option<F>> = Vec::new();
        let mut i: usize = 0;
        while i < self.fd_table.len()
            invariant
                0 <= i <= self.fd_table@.len(),
                t@.len() == i,
                forall|j: int| 0 <= j < i ==> (#[trigger] t@[j] is Some) == (self.fd_table@[j] is Some),
                forall|j: int| 0 <= j < i && self.fd_table@[j] is Some ==> cloned(self.fd_table@[j]->0, #[trigger] t@[j]->0),
            decreases self.fd_table@.len() - i,
        {
            let slot = match &self.fd_table[i] {
                Some(f) => Some(f.clone()),
                None => None,
            };
            t.push(slot);
            i = i + 1;
        }
        FdTable { fd_table: t }
    }
}

/// Index of the first free descriptor from `k` on, or `t.len()`.
pub open spec fn first_free_fd<F>(t: Seq<Option<F>>, k: int) -> int
    decreases t.len() - k,
{
    if k >= t.len() {
        t.len() as int
    } else if t[k] is None {
        k
    } else {
        first_free_fd(t, k + 1)
    }
}

/// The descriptor handed out is the first free one: every slot from `k`
/// up to `first_free_fd(t, k)` holds a file, and the one there, if any, is
/// free.
pub proof fn lemma_first_free_fd_is_first<F>(t: Seq<Option<F>>, k: int)
    requires
        0 <= k <= t.len(),
    ensures
        k <= first_free_fd(t, k) <= t.len(),
        forall|j: int| k <= j < first_free_fd(t, k) ==> #[trigger] t[j] is Some,
        first_free_fd(t, k) < t.len() ==> t[first_free_fd(t, k)] is None,
    decreases t.len() - k,
{
    if k < t.len() && t[k] is Some {
        lemma_first_free_fd_is_first(t, k + 1);
    }
}

impl<F> FdTable<F> {
    /// A free descriptor: the first free one, else a new one. The table
    /// grows by one free slot in either case, also when it hands out a slot
    /// it already had.
    pub fn alloc_fd(&mut self) -> (r: usize)
        requires
            old(self).fd_table@.len() < usize::MAX,
        ensures
            final(self).fd_table@ == old(self).fd_table@.push(None),
            r == first_free_fd(old(self).fd_table@, 0),
            r <= old(self).fd_table@.len(),
            r < old(self).fd_table@.len() ==> old(self).fd_table@[r as int] is None,
            forall|j: int| 0 <= j < r ==> #[trigger] old(self).fd_table@[j] is Some,
    {
        proof {
            lemma_first_free_fd_is_first(old(self).fd_table@, 0);
        }
        let n = self.fd_table.len();
        let mut found: Option<usize> = None;
        let mut i: usize = 0;
        while i < n
            invariant_except_break
                found is None,
                first_free_fd(self.fd_table@, 0) == first_free_fd(self.fd_table@, i as int),
            invariant
                n == self.fd_table@.len(),
                0 <= i <= n,
                self.fd_table@ == old(self).fd_table@,
            ensures
                found matches Some(k) ==> k == first_free_fd(self.fd_table@, 0),
                found is None ==> first_free_fd(self.fd_table@, 0) == n,
            decreases n - i,
        {
            if self.fd_table[i].is_none() {
                found = Some(i);
                break;
            }
            i = i + 1;
        }
        self.fd_table.push(None);
        match found {
            Some(idx) => idx,
            None => self.fd_table.len() - 1,
        }
    }

    /// Puts `file` at descriptor `fd`.
    pub fn set_fd(&mut self, fd: usize, file: F)
        requires
            fd < old(self).fd_table@.len(),
        ensures
            final(self).fd_table@ == old(self).fd_table@.update(fd as int, Some(file)),
    {
        self.fd_table.set(fd, Some(file));
    }

    /// Whether `fd` names a slot that holds no file; such a slot is emptied
    /// again, so the table stays as it was either way. A slot that holds a
    /// file is not freed: it keeps its file and the answer is false.
    pub fn dealloc_fd(&mut self, fd: usize) -> (r: bool)
        ensures
            r == (fd < old(self).fd_table@.len() && old(self).fd_table@[fd as int] is None),
            final(self).fd_table@ == old(self).fd_table@,
    {
        if fd >= self.fd_table.len() || self.fd_table[fd].is_some() {
            false
        } else {
            self.fd_table.set(fd, None);
            proof {
                assert(self.fd_table@ =~= old(self).fd_table@);
            }
            true
        }
    }

    /// The file at descriptor `fd`, if any.
    pub fn get_fd(&self, fd: usize) -> (r: Option<&F>)
        ensures
            fd < self.fd_table@.len() && self.fd_table@[fd as int] is Some ==> r == Some(&self.fd_table@[fd as int]->0),
            !(fd < self.fd_table@.len() && self.fd_table@[fd as int] is Some) ==> r is None,
    {
        if fd < self.fd_table.len() {
            self.fd_table[fd].as_ref()
        } else {
            None
        }
    }
}

} // verus!
