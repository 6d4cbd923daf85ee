use los::process::{
    sys_waitpid, write_task, ChildInfo, FdTable, NextContext, PidAllocator, ProcInfo, ProcessManager, State,
    WaitDecision,
};

fn proc(pid: usize, status: State) -> ProcInfo {
    ProcInfo { pid, status, exit_code: None, children: Vec::new() }
}

fn pids(q: &Vec<ProcInfo>) -> Vec<usize> {
    q.iter().map(|p| p.pid).collect()
}

#[test]
fn pid_allocator_reuses_last_freed() {
    let mut a = PidAllocator::new();
    assert_eq!(a.allocate(), Some(0));
    assert_eq!(a.allocate(), Some(1));
    assert_eq!(a.allocate(), Some(2));
    a.dealloc(1);
    a.dealloc(0);
    assert_eq!(a.allocate(), Some(0));
    assert_eq!(a.allocate(), Some(1));
    assert_eq!(a.allocate(), Some(3));
    assert_eq!(a.end, usize::MAX - 1);
}

#[test]
fn pid_allocator_runs_out() {
    let mut a = PidAllocator { start: 5, end: 6, recycled: Vec::new() };
    assert_eq!(a.allocate(), Some(5));
    assert_eq!(a.allocate(), None);
}

#[test]
fn add_task_fills_current_first() {
    let mut m = ProcessManager::new();
    m.add_task(proc(0, State::Ready));
    m.add_task(proc(1, State::Ready));
    assert_eq!(m.current_program.as_ref().unwrap().pid, 0);
    assert_eq!(pids(&m.process), vec![1]);
}

#[test]
fn nxt_program_skips_exited_and_rotates() {
    let mut m = ProcessManager::new();
    m.add_task(proc(0, State::Ready));
    m.add_task(proc(1, State::Exited));
    m.add_task(proc(2, State::Ready));
    m.add_task(proc(3, State::Ready));
    assert_eq!(m.nxt_program(), NextContext::Current);
    assert_eq!(m.current_program.as_ref().unwrap().pid, 2);
    assert_eq!(pids(&m.process), vec![3, 1, 0]);
}

#[test]
fn nxt_program_with_nothing_ready() {
    let mut m = ProcessManager::new();
    m.add_task(proc(0, State::Exited));
    m.add_task(proc(1, State::Exited));
    assert_eq!(m.nxt_program(), NextContext::Kernel);
    assert_eq!(pids(&m.process), vec![1]);
    let mut m2 = ProcessManager::new();
    m2.add_task(proc(7, State::Ready));
    assert_eq!(m2.nxt_program(), NextContext::Current);
    assert_eq!(m2.current_program.as_ref().unwrap().pid, 7);
}

#[test]
fn drop_process_removes_and_rotates() {
    let mut m = ProcessManager::new();
    m.add_task(proc(9, State::Ready));
    let mut p = proc(2, State::Exited);
    p.exit_code = Some(42);
    m.add_task(proc(1, State::Ready));
    m.add_task(p);
    m.add_task(proc(3, State::Ready));
    assert_eq!(m.drop_process(2), Some(42));
    assert_eq!(pids(&m.process), vec![3, 1]);
    assert_eq!(m.drop_process(8), None);
    assert_eq!(pids(&m.process), vec![3, 1]);
}

#[test]
fn exit_current_hands_children_to_initproc() {
    let mut m = ProcessManager::new();
    let mut cur = proc(4, State::Ready);
    cur.children = vec![5, 6];
    m.add_task(cur);
    let mut init = proc(0, State::Ready);
    init.children = vec![4];
    m.add_task(proc(2, State::Ready));
    m.add_task(init);
    m.exit_current(7);
    let c = m.current_program.as_ref().unwrap();
    assert!(c.status == State::Exited);
    assert_eq!(c.exit_code, Some(7));
    assert!(c.children.is_empty());
    assert_eq!(m.process[1].children, vec![4, 5, 6]);
    assert!(m.process[0].children.is_empty());
}

#[test]
fn waitpid_decisions() {
    let none: Vec<ChildInfo> = Vec::new();
    assert_eq!(sys_waitpid(&none, -1), WaitDecision::Return(usize::MAX));
    let kids = vec![ChildInfo { pid: 3, exited: false }, ChildInfo { pid: 5, exited: true }];
    assert_eq!(sys_waitpid(&kids, -1), WaitDecision::Reap { index: 1, pid: 5 });
    assert_eq!(sys_waitpid(&kids, 3), WaitDecision::Return(usize::MAX - 1));
    assert_eq!(sys_waitpid(&kids, 5), WaitDecision::Reap { index: 1, pid: 5 });
    assert_eq!(sys_waitpid(&kids, 8), WaitDecision::Return(usize::MAX));
    let running = vec![ChildInfo { pid: 3, exited: false }];
    assert_eq!(sys_waitpid(&running, -1), WaitDecision::Return(usize::MAX - 1));
}

#[test]
fn write_task_copies_name() {
    assert_eq!(write_task(3), (b"hah".to_vec(), 3));
    assert_eq!(write_task(6), (b"hahaha".to_vec(), 6));
    assert_eq!(write_task(10), (b"hahaha\0".to_vec(), 6));
    assert_eq!(write_task(0), (Vec::new(), 0));
}

#[test]
fn fd_table_alloc_set_get() {
    let mut t: FdTable<&'static str> = FdTable { fd_table: vec![Some("stdin"), Some("stdout")] };
    let fd = t.alloc_fd();
    assert_eq!(fd, 2);
    assert_eq!(t.fd_table.len(), 3);
    t.set_fd(fd, "file");
    assert_eq!(t.get_fd(2), Some(&"file"));
    assert_eq!(t.get_fd(9), None);
    t.fd_table[0] = None;
    assert_eq!(t.alloc_fd(), 0);
    assert_eq!(t.fd_table.len(), 4);
}

#[test]
fn fd_table_dealloc_only_reports_free_slots() {
    let mut t: FdTable<u8> = FdTable { fd_table: vec![Some(1), None] };
    assert!(!t.dealloc_fd(0));
    assert!(t.dealloc_fd(1));
    assert!(!t.dealloc_fd(2));
    assert_eq!(t.fd_table, vec![Some(1), None]);
}

#[test]
fn manager_waitpid_reaps_ended_child() {
    let mut m = ProcessManager::new();
    let mut parent = proc(1, State::Ready);
    parent.children = vec![2, 3, 4];
    m.add_task(parent);
    m.add_task(proc(2, State::Ready));
    let mut ended = proc(3, State::Exited);
    ended.exit_code = Some(7);
    m.add_task(ended);
    m.add_task(proc(4, State::Ready));
    assert_eq!(m.waitpid(2), (WaitDecision::Return(usize::MAX - 1), None));
    assert_eq!(m.waitpid(9), (WaitDecision::Return(usize::MAX), None));
    assert_eq!(pids(&m.process), vec![2, 3, 4]);
    assert_eq!(m.waitpid(-1), (WaitDecision::Reap { index: 1, pid: 3 }, Some(7)));
    assert_eq!(m.current_program.as_ref().unwrap().children, vec![2, 4]);
    assert_eq!(pids(&m.process), vec![4, 2]);
    assert_eq!(m.waitpid(-1), (WaitDecision::Return(usize::MAX - 1), None));
}

#[test]
fn fork_current_records_child_in_front() {
    let mut m = ProcessManager::new();
    let mut ids = PidAllocator::new();
    let first = ids.allocate().unwrap();
    m.add_task(proc(first, State::Ready));
    m.add_task(proc(9, State::Ready));
    let child = m.fork_current(&mut ids);
    assert_eq!(child, 1);
    assert_eq!(m.current_program.as_ref().unwrap().children, vec![1]);
    assert_eq!(pids(&m.process), vec![1, 9]);
    assert_eq!(m.process[0].status, State::Ready);
    assert_eq!(m.process[0].exit_code, None);
    ids.dealloc(child);
    assert_eq!(m.fork_current(&mut ids), 1);
}

#[test]
fn task_info_gives_current_pid_and_name() {
    let mut m = ProcessManager::new();
    m.add_task(proc(7, State::Ready));
    assert_eq!(m.task_info(10), (7, b"hahaha\0".to_vec(), 6));
    assert_eq!(m.task_info(2), (7, b"ha".to_vec(), 2));
}

#[test]
fn forked_fd_table_shares_files() {
    let file = std::rc::Rc::new(5u8);
    let t = FdTable { fd_table: vec![Some(file.clone()), None, Some(file.clone())] };
    let c = t.fork();
    assert_eq!(c.fd_table.len(), 3);
    assert!(c.fd_table[1].is_none());
    assert!(std::rc::Rc::ptr_eq(c.fd_table[0].as_ref().unwrap(), &file));
    assert!(std::rc::Rc::ptr_eq(c.fd_table[2].as_ref().unwrap(), &file));
}
