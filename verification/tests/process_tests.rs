use my_os::fs::FdEntry;
use my_os::process::scheduler::schedule;
use my_os::process::{
    is_guard_page, standard_fd_table, wake_blocked, Process, ProcessState, ProcessTable,
    StackRegion, WaitReason, SLOT_BYTES, STACK_REGION_BASE,
};

fn idle() -> Process<u32> {
    Process {
        pid: 0,
        state: ProcessState::Running,
        stack_pointer: 0,
        entry_fn: None,
        stack_region: None,
        fd_table: standard_fd_table(),
    }
}

fn table_with_idle() -> ProcessTable<u32> {
    ProcessTable::with_idle_process()
}

#[test]
fn the_kernel_starts_with_the_idle_process_alone() {
    let t: ProcessTable<u32> = ProcessTable::with_idle_process();
    assert_eq!(t.processes.len(), 1);
    let p = &t.processes[0];
    let expected = idle();
    assert_eq!(p.pid, expected.pid);
    assert_eq!(p.state, expected.state);
    assert_eq!(p.stack_pointer, expected.stack_pointer);
    assert_eq!(p.entry_fn, expected.entry_fn);
    assert_eq!(p.stack_region, expected.stack_region);
    assert_eq!(p.fd_table, expected.fd_table);
    assert_eq!(t.current, 0);
    assert_eq!(t.next_pid, 1);
}

#[test]
fn an_invalid_current_index_with_nothing_ready_reaps_and_stays() {
    let mut t = table_with_idle();
    t.spawn(1);
    t.spawn(2);
    t.processes[1].state = ProcessState::Terminated;
    t.processes[2].state = ProcessState::Blocked(WaitReason::Stdin);
    t.processes[0].state = ProcessState::Terminated;
    t.current = 7;
    let out = schedule(&mut t);
    assert_eq!(out.reaped, vec![0, 1]);
    assert_eq!(out.switch, None);
    assert_eq!(t.current, 7);
    assert_eq!(t.processes[0].state, ProcessState::Empty);
    assert_eq!(t.processes[1].state, ProcessState::Empty);
    assert_eq!(t.processes[2].state, ProcessState::Blocked(WaitReason::Stdin));
}

#[test]
fn spawn_gives_a_stack_above_a_guard_page() {
    let mut t = table_with_idle();
    let l = t.spawn(7);
    let base = STACK_REGION_BASE + SLOT_BYTES;
    assert_eq!(l.slot, 1);
    assert_eq!(l.old_stack, None);
    assert_eq!(
        l.stack,
        StackRegion { guard_page_addr: base, stack_bottom: base + 4096, stack_top: base + 5 * 4096 }
    );
    assert_eq!(l.frame_start, base + 5 * 4096 - 64);
    assert_eq!(l.frame_start % 16, 0);
    let p = &t.processes[1];
    assert_eq!(p.pid, 1);
    assert_eq!(p.state, ProcessState::Ready);
    assert_eq!(p.stack_pointer, l.frame_start);
    assert_eq!(p.entry_fn, Some(7));
    assert_eq!(
        p.fd_table,
        vec![Some(FdEntry::Stdin), Some(FdEntry::Stdout), Some(FdEntry::Stderr)]
    );
    assert_eq!(t.next_pid, 2);
    assert!(is_guard_page(l.stack.guard_page_addr));
    assert!(!is_guard_page(l.stack.stack_bottom));
    assert!(!is_guard_page(l.stack.stack_top - 1));
}

#[test]
fn guard_pages() {
    assert!(!is_guard_page(0));
    assert!(!is_guard_page(STACK_REGION_BASE - 1));
    assert!(is_guard_page(STACK_REGION_BASE));
    assert!(is_guard_page(STACK_REGION_BASE + 4095));
    assert!(!is_guard_page(STACK_REGION_BASE + 4096));
    assert!(is_guard_page(STACK_REGION_BASE + 3 * SLOT_BYTES + 10));
}

#[test]
fn round_robin_alternates_ready_processes() {
    let mut t = table_with_idle();
    t.spawn(1);
    let out = schedule(&mut t);
    assert_eq!(out.switch, Some((0, 1)));
    assert_eq!(t.current, 1);
    assert_eq!(t.processes[0].state, ProcessState::Ready);
    assert_eq!(t.processes[1].state, ProcessState::Running);
    let out = schedule(&mut t);
    assert_eq!(out.switch, Some((1, 0)));
    assert_eq!(t.current, 0);
}

#[test]
fn round_robin_takes_the_next_ready_after_the_current() {
    let mut t = table_with_idle();
    t.spawn(1);
    t.spawn(2);
    t.spawn(3);
    t.current = 2;
    t.processes[0].state = ProcessState::Ready;
    t.processes[2].state = ProcessState::Running;
    t.processes[3].state = ProcessState::Blocked(WaitReason::Stdin);
    let out = schedule(&mut t);
    // 3 is blocked, so the scan wraps to 0
    assert_eq!(out.switch, Some((2, 0)));
}

#[test]
fn a_blocked_process_is_skipped_until_woken() {
    let mut t = table_with_idle();
    t.spawn(1);
    assert_eq!(schedule(&mut t).switch, Some((0, 1)));
    t.block_current(WaitReason::Stdin);
    assert!(t.current_is_blocked());
    assert_eq!(schedule(&mut t).switch, Some((1, 0)));
    assert_eq!(t.processes[1].state, ProcessState::Blocked(WaitReason::Stdin));
    assert_eq!(schedule(&mut t).switch, None);
    assert_eq!(t.current, 0);
    wake_blocked(&mut t, WaitReason::Stdin);
    assert_eq!(t.processes[1].state, ProcessState::Ready);
    assert_eq!(schedule(&mut t).switch, Some((0, 1)));
    assert!(!t.current_is_blocked());
}

#[test]
fn terminated_processes_are_reaped_and_their_slot_reused() {
    let mut t = table_with_idle();
    t.spawn(1);
    t.spawn(2);
    t.processes[2].state = ProcessState::Terminated;
    let out = schedule(&mut t);
    assert_eq!(out.reaped, vec![2]);
    assert_eq!(t.processes[2].state, ProcessState::Empty);
    assert_eq!(t.processes[2].entry_fn, None);
    assert!(t.processes[2].fd_table.is_empty());
    let l = t.spawn(9);
    assert_eq!(l.slot, 2);
    assert_eq!(l.old_stack, Some(l.stack));
    assert_eq!(t.processes[2].pid, 3);
    assert_eq!(t.processes.len(), 3);
}

#[test]
fn the_running_process_is_not_reaped() {
    let mut t = table_with_idle();
    t.spawn(1);
    t.terminate_current();
    assert_eq!(t.processes[0].state, ProcessState::Terminated);
    let out = schedule(&mut t);
    assert!(out.reaped.is_empty());
    assert_eq!(out.switch, Some((0, 1)));
    assert_eq!(t.processes[0].state, ProcessState::Terminated);
}

#[test]
fn a_lone_process_is_left_alone() {
    let mut t = table_with_idle();
    let out = schedule(&mut t);
    assert!(out.reaped.is_empty());
    assert_eq!(out.switch, None);
    assert_eq!(t.processes[0].state, ProcessState::Running);
}

#[test]
fn terminate_with_no_current_process_changes_nothing() {
    let mut t: ProcessTable<u32> = ProcessTable::new();
    t.current = 5;
    t.terminate_current();
    assert!(t.processes.is_empty());
}
