//! Process management. Kernel threads sharing one address space; each owns a
//! stack with an unmapped guard page below it.
pub mod scheduler;

use vstd::prelude::*;

use crate::fs::FdEntry;

verus! {

pub const PAGE_SIZE: u64 = 4096;

/// Pages of stack per process.
pub const STACK_PAGES: u64 = 4;

/// Unmapped pages below each stack.
pub const GUARD_PAGES: u64 = 1;

pub const PAGES_PER_SLOT: u64 = 5;

/// Bytes of address space per process slot: guard page and stack.
pub const SLOT_BYTES: u64 = 20480;

/// Where the stack slots begin.
pub const STACK_REGION_BASE: u64 = 0x5555_0000_0000;

/// Bytes of the initial frame placed below the top of a new stack: six
/// callee-saved registers, the return address and one slot of padding.
pub const INITIAL_FRAME_BYTES: u64 = 64;

/// The stack region of a process: `[guard page][stack]`.
#[derive(Clone, Copy, Debug, PartialEq, Eq, Structural)]
pub struct StackRegion {
    pub guard_page_addr: u64,
    pub stack_bottom: u64,
    pub stack_top: u64,
}

#[derive(Clone, Copy, Debug, PartialEq, Eq, Structural)]
pub enum WaitReason {
    Stdin,
}

#[derive(Clone, Copy, Debug, PartialEq, Eq, Structural)]
pub enum ProcessState {
    Ready,
    Running,
    Blocked(WaitReason),
    Terminated,
    Empty,
}

/// A process control block. `E` is whatever the kernel uses as an entry
/// point.
pub struct Process<E> {
    pub pid: u64,
    pub state: ProcessState,
    pub stack_pointer: u64,
    pub entry_fn: Option<E>,
    /// `None` for the idle process, which runs on the boot stack.
    pub stack_region: Option<StackRegion>,
    pub fd_table: Vec<Option<FdEntry>>,
}

pub struct ProcessTable<E> {
    pub processes: Vec<Process<E>>,
    pub current: usize,
    pub next_pid: u64,
}

/// The descriptor table every process starts with: stdin, stdout, stderr.
pub open spec fn standard_fds() -> Seq<Option<FdEntry>> {
    seq![Some(FdEntry::Stdin), Some(FdEntry::Stdout), Some(FdEntry::Stderr)]
}

/// The descriptor table every process starts with: stdin, stdout, stderr.
pub fn standard_fd_table() -> (r: Vec<Option<FdEntry>>)
    ensures
        r@ == standard_fds(),
{
    let mut v: Vec<Option<FdEntry>> = Vec::new();
    v.push(Some(FdEntry::Stdin));
    v.push(Some(FdEntry::Stdout));
    v.push(Some(FdEntry::Stderr));
    assert(v@ =~= standard_fds());
    v
}

/// Address `addr` lies in the guard page of some stack slot.
pub open spec fn guard_page_spec(addr: int) -> bool {
    addr >= STACK_REGION_BASE && (addr - STACK_REGION_BASE) % (SLOT_BYTES as int) < PAGE_SIZE
}

/// Check if `addr` falls in a stack guard page region.
pub fn is_guard_page(addr: u64) -> (r: bool)
    ensures
        r == guard_page_spec(addr as int),
{
    if addr < STACK_REGION_BASE {
        return false;
    }
    let offset = addr - STACK_REGION_BASE;
    let slot_size = PAGES_PER_SLOT * PAGE_SIZE;
    let within_slot = offset % slot_size;
    within_slot < 4096
}

/// The stack region of slot `slot`.
pub open spec fn slot_region(slot: int) -> StackRegion {
    let base = STACK_REGION_BASE + slot * SLOT_BYTES;
    StackRegion {
        guard_page_addr: base as u64,
        stack_bottom: (base + GUARD_PAGES * PAGE_SIZE) as u64,
        stack_top: (base + PAGES_PER_SLOT * PAGE_SIZE) as u64,
    }
}

/// The stack region of slot `slot` lies inside the address space.
pub open spec fn slot_fits(slot: int) -> bool {
    STACK_REGION_BASE + (slot + 1) * SLOT_BYTES <= u64::MAX
}

/// The index of the first `Empty` slot from `i` on, or the table's length.
pub open spec fn first_empty<E>(ps: Seq<Process<E>>, i: int) -> int
    decreases ps.len() - i,
{
    if i < 0 || i >= ps.len() {
        ps.len() as int
    } else if ps[i].state == ProcessState::Empty {
        i
    } else {
        first_empty(ps, i + 1)
    }
}

/// Only the current process may be `Running`.
pub open spec fn running_is_current<E>(t: ProcessTable<E>) -> bool {
    forall|j: int|
        0 <= j < t.processes@.len() && #[trigger] t.processes@[j].state == ProcessState::Running
            ==> j == t.current
}

/// Every process id in the table is below `bound`.
pub open spec fn pids_below<E>(ps: Seq<Process<E>>, bound: u64) -> bool {
    forall|j: int| 0 <= j < ps.len() ==> #[trigger] ps[j].pid < bound
}

/// What the caller of `spawn` must still do with memory: unmap the old stack
/// of a reused slot, map and zero the new stack, and write the initial frame.
#[derive(Clone, Copy, Debug, PartialEq, Eq, Structural)]
pub struct SpawnLayout {
    pub slot: usize,
    /// The stack of the slot's previous process, to unmap.
    pub old_stack: Option<StackRegion>,
    pub stack: StackRegion,
    /// Where the initial frame `[r15 r14 r13 r12 rbx rbp ret_addr padding]`
    /// goes; also the new process's saved stack pointer.
    pub frame_start: u64,
}

impl<E> ProcessTable<E> {
    pub fn new() -> (r: ProcessTable<E>)
        ensures
            r.processes@.len() == 0,
            r.current == 0,
            r.next_pid == 0,
    {
        ProcessTable { processes: Vec::new(), current: 0, next_pid: 0 }
    }

    /// The table the kernel starts with: the idle process alone, process id 0,
    /// `Running` on the boot stack (no stack region, no entry point) with the
    /// standard descriptors; it is current, and the next process id is 1.
    pub fn with_idle_process() -> (r: ProcessTable<E>)
        ensures
            r.processes@.len() == 1,
            r.processes@[0].pid == 0,
            r.processes@[0].state == ProcessState::Running,
            r.processes@[0].stack_pointer == 0,
            r.processes@[0].entry_fn.is_none(),
            r.processes@[0].stack_region.is_none(),
            r.processes@[0].fd_table@ == standard_fds(),
            r.current == 0,
            r.next_pid == 1,
            running_is_current(r),
            pids_below(r.processes@, r.next_pid),
    {
        let idle = Process {
            pid: 0,
            state: ProcessState::Running,
            stack_pointer: 0,
            entry_fn: None,
            stack_region: None,
            fd_table: standard_fd_table(),
        };
        let mut processes: Vec<Process<E>> = Vec::new();
        processes.push(idle);
        ProcessTable { processes, current: 0, next_pid: 1 }
    }

    /// Spawn a new process: take the next process id and the first `Empty`
    /// slot (or a new one), and give it the stack of that slot.
    ///
    /// Stack alignment: x86_64 SysV ABI requires RSP = 8 mod 16 at function
    /// entry. Initial frame: [r15 r14 r13 r12 rbx rbp ret_addr padding];
    /// frame_start = stack_top - 64, after 6 pops + ret: RSP = stack_top - 8.
    pub fn spawn(&mut self, entry_point: E) -> (r: SpawnLayout)
        requires
            old(self).next_pid < u64::MAX,
            slot_fits(old(self).processes@.len() as int),
        ensures
            ({
                let ps = old(self).processes@;
                let slot = first_empty(ps, 0);
                let p = final(self).processes@[slot];
                &&& r.slot == slot
                &&& r.stack == slot_region(slot)
                &&& r.frame_start == slot_region(slot).stack_top - INITIAL_FRAME_BYTES
                &&& r.old_stack == if slot < ps.len() {
                    ps[slot].stack_region
                } else {
                    None
                }
                &&& final(self).processes@.len() == if slot < ps.len() {
                    ps.len()
                } else {
                    ps.len() + 1
                }
                &&& forall|j: int|
                    0 <= j < ps.len() && j != slot ==> #[trigger] final(self).processes@[j]
                        == ps[j]
                &&& p.pid == old(self).next_pid
                &&& p.state == ProcessState::Ready
                &&& p.stack_pointer == r.frame_start
                &&& p.entry_fn == Some(entry_point)
                &&& p.stack_region == Some(slot_region(slot))
                &&& p.fd_table@ == standard_fds()
                &&& final(self).next_pid == old(self).next_pid + 1
                &&& final(self).current == old(self).current
                &&& running_is_current(*old(self)) ==> running_is_current(*final(self))
                &&& pids_below(ps, old(self).next_pid) ==> {
                    &&& pids_below(final(self).processes@, final(self).next_pid)
                    &&& forall|j: int|
                        0 <= j < final(self).processes@.len() && j != slot
                            ==> #[trigger] final(self).processes@[j].pid != p.pid
                }
            }),
    {
        let ghost ps = self.processes@;
        let pid = self.next_pid;
        self.next_pid = self.next_pid + 1;

        let n = self.processes.len();
        let mut slot_idx: usize = 0;
        while slot_idx < n
            invariant
                n == ps.len(),
                self.processes@ == ps,
                slot_idx <= n,
                first_empty(ps, 0) == first_empty(ps, slot_idx as int),
            ensures
                slot_idx <= n,
                first_empty(ps, 0) == first_empty(ps, slot_idx as int),
                slot_idx < n ==> ps[slot_idx as int].state == ProcessState::Empty,
            decreases n - slot_idx,
        {
            if self.processes[slot_idx].state == ProcessState::Empty {
                break;
            }
            slot_idx = slot_idx + 1;
        }
        proof {
            lemma_first_empty_bound(ps, slot_idx as int);
        }

        let old_stack = if slot_idx < n {
            self.processes[slot_idx].stack_region
        } else {
            None
        };

        proof {
            lemma_slot_arith(slot_idx as int, n as int);
        }
        let region_base = STACK_REGION_BASE + (slot_idx as u64) * (PAGES_PER_SLOT * PAGE_SIZE);
        let guard_page_addr = region_base;
        let stack_bottom = region_base + GUARD_PAGES * PAGE_SIZE;
        let stack_top = stack_bottom + STACK_PAGES * PAGE_SIZE;
        let aligned_stack_top = stack_top & !0xFu64;
        proof {
            lemma_stack_top_aligned(stack_top, slot_idx as int);
        }
        let frame_start = aligned_stack_top - INITIAL_FRAME_BYTES;

        let stack = StackRegion { guard_page_addr, stack_bottom, stack_top };
        let process = Process {
            pid,
            state: ProcessState::Ready,
            stack_pointer: frame_start,
            entry_fn: Some(entry_point),
            stack_region: Some(stack),
            fd_table: standard_fd_table(),
        };

        if slot_idx < n {
            self.processes.set(slot_idx, process);
        } else {
            self.processes.push(process);
        }
        SpawnLayout { slot: slot_idx, old_stack, stack, frame_start }
    }

    /// Mark the current process `Terminated`, if the current index names one.
    pub fn terminate_current(&mut self)
        ensures
            final(self).current == old(self).current,
            final(self).next_pid == old(self).next_pid,
            old(self).current < old(self).processes@.len() ==> final(self).processes@
                == old(self).processes@.update(
                old(self).current as int,
                Process {
                    state: ProcessState::Terminated,
                    ..old(self).processes@[old(self).current as int]
                },
            ),
            old(self).current >= old(self).processes@.len() ==> final(self).processes@ == old(self).processes@,
            running_is_current(*old(self)) ==> running_is_current(*final(self)),
    {
        let current = self.current;
        if current < self.processes.len() {
            self.processes[current].state = ProcessState::Terminated;
        }
    }

    /// Mark the current process as blocked on `reason`.
    pub fn block_current(&mut self, reason: WaitReason)
        requires
            old(self).current < old(self).processes@.len(),
        ensures
            final(self).current == old(self).current,
            final(self).next_pid == old(self).next_pid,
            final(self).processes@ == old(self).processes@.update(
                old(self).current as int,
                Process {
                    state: ProcessState::Blocked(reason),
                    ..old(self).processes@[old(self).current as int]
                },
            ),
            running_is_current(*old(self)) ==> running_is_current(*final(self)),
    {
        let current = self.current;
        self.processes[current].state = ProcessState::Blocked(reason);
    }

    /// Whether the current process is still blocked.
    pub fn current_is_blocked(&self) -> (r: bool)
        requires
            self.current < self.processes@.len(),
        ensures
            r == (self.processes@[self.current as int].state is Blocked),
    {
        match self.processes[self.current].state {
            ProcessState::Blocked(_) => true,
            _ => false,
        }
    }
}

/// Wake all processes blocked on the given reason.
pub fn wake_blocked<E>(table: &mut ProcessTable<E>, reason: WaitReason)
    ensures
        final(table).current == old(table).current,
        final(table).next_pid == old(table).next_pid,
        final(table).processes@.len() == old(table).processes@.len(),
        forall|j: int|
            0 <= j < old(table).processes@.len() ==> #[trigger] final(table).processes@[j] == if old(table).processes@[j].state == ProcessState::Blocked(reason) {
                Process { state: ProcessState::Ready, ..old(table).processes@[j] }
            } else {
                old(table).processes@[j]
            },
        running_is_current(*old(table)) ==> running_is_current(*final(table)),
{
    let n = table.processes.len();
    let mut i: usize = 0;
    while i < n
        invariant
            n == old(table).processes@.len(),
            n == table.processes@.len(),
            table.current == old(table).current,
            table.next_pid == old(table).next_pid,
            i <= n,
            forall|j: int|
                0 <= j < n ==> #[trigger] table.processes@[j] == if j < i && old(table).processes@[j].state == ProcessState::Blocked(reason) {
                    Process { state: ProcessState::Ready, ..old(table).processes@[j] }
                } else {
                    old(table).processes@[j]
                },
        decreases n - i,
    {
        if table.processes[i].state == ProcessState::Blocked(reason) {
            table.processes[i].state = ProcessState::Ready;
        }
        i = i + 1;
    }
}

/// Stack layout of a slot: its first page is a guard page, none of its 16KB
/// of stack is, the stack sits directly above the guard page, and the initial
/// frame leaves the stack pointer at 8 mod 16 after six pops and a return, as
/// the SysV ABI wants at function entry.
pub proof fn law_stack_slot_layout(slot: int)
    requires
        0 <= slot,
        slot_fits(slot),
    ensures
        ({
            let r = slot_region(slot);
            let frame_start = r.stack_top - INITIAL_FRAME_BYTES;
            &&& guard_page_spec(r.guard_page_addr as int)
            &&& r.stack_bottom == r.guard_page_addr + GUARD_PAGES * PAGE_SIZE
            &&& r.stack_top == r.stack_bottom + STACK_PAGES * PAGE_SIZE
            &&& forall|a: int| r.stack_bottom <= a < r.stack_top ==> !#[trigger] guard_page_spec(a)
            &&& frame_start % 16 == 0
            &&& (frame_start + 56) % 16 == 8
        }),
{
    let base = STACK_REGION_BASE + slot * SLOT_BYTES;
    assert(slot * SLOT_BYTES >= 0) by (nonlinear_arith)
        requires
            slot >= 0,
    ;
    vstd::arithmetic::div_mod::lemma_mod_multiples_basic(slot, SLOT_BYTES as int);
    assert((base - STACK_REGION_BASE) % (SLOT_BYTES as int) == 0);
    assert forall|a: int| base + PAGE_SIZE <= a < base + SLOT_BYTES implies !#[trigger] guard_page_spec(a) by {
        vstd::arithmetic::div_mod::lemma_mod_multiples_vanish(slot, a - base, SLOT_BYTES as int);
        vstd::arithmetic::div_mod::lemma_small_mod((a - base) as nat, SLOT_BYTES as nat);
        assert(a - STACK_REGION_BASE == SLOT_BYTES * slot + (a - base)) by (nonlinear_arith)
            requires
                base == STACK_REGION_BASE + slot * SLOT_BYTES,
        ;
    }
    lemma_stack_top_aligned((base + SLOT_BYTES) as u64, slot);
    vstd::arithmetic::div_mod::lemma_mod_multiples_basic(slot + 1, SLOT_BYTES as int);
    assert(base + SLOT_BYTES == STACK_REGION_BASE + (slot + 1) * SLOT_BYTES) by (nonlinear_arith)
        requires
            base == STACK_REGION_BASE + slot * SLOT_BYTES,
    ;
}

/// Stacks of different slots do not overlap.
pub proof fn law_stack_slots_disjoint(s1: int, s2: int)
    requires
        0 <= s1 < s2,
        slot_fits(s2),
    ensures
        slot_region(s1).stack_top <= slot_region(s2).guard_page_addr,
{
    assert(s1 * SLOT_BYTES + SLOT_BYTES <= s2 * SLOT_BYTES) by (nonlinear_arith)
        requires
            s1 < s2,
    ;
    assert(s2 * SLOT_BYTES >= 0) by (nonlinear_arith)
        requires
            s2 >= 0,
    ;
    assert(s1 * SLOT_BYTES >= 0) by (nonlinear_arith)
        requires
            s1 >= 0,
    ;
}

proof fn lemma_first_empty_bound<E>(ps: Seq<Process<E>>, i: int)
    requires
        0 <= i <= ps.len(),
        first_empty(ps, 0) == first_empty(ps, i),
        i < ps.len() ==> ps[i].state == ProcessState::Empty,
    ensures
        first_empty(ps, 0) == i,
{
}

/// `spawn` takes the lowest `Empty` slot: every slot below it is in use, and
/// it is `Empty` itself, or one past the end of the table when none is.
pub proof fn law_spawn_takes_the_lowest_empty_slot<E>(ps: Seq<Process<E>>)
    ensures
        0 <= first_empty(ps, 0) <= ps.len(),
        forall|j: int|
            0 <= j < first_empty(ps, 0) ==> (#[trigger] ps[j]).state != ProcessState::Empty,
        first_empty(ps, 0) < ps.len() ==> ps[first_empty(ps, 0)].state == ProcessState::Empty,
{
    lemma_first_empty_from(ps, 0);
}

/// The search for an `Empty` slot from `i` on.
proof fn lemma_first_empty_from<E>(ps: Seq<Process<E>>, i: int)
    requires
        0 <= i <= ps.len(),
    ensures
        i <= first_empty(ps, i) <= ps.len(),
        forall|j: int|
            i <= j < first_empty(ps, i) ==> (#[trigger] ps[j]).state != ProcessState::Empty,
        first_empty(ps, i) < ps.len() ==> ps[first_empty(ps, i)].state == ProcessState::Empty,
    decreases ps.len() - i,
{
    if i < ps.len() && ps[i].state != ProcessState::Empty {
        lemma_first_empty_from(ps, i + 1);
    }
}

/// The slot arithmetic stays in range.
proof fn lemma_slot_arith(slot: int, n: int)
    requires
        0 <= slot <= n,
        slot_fits(n),
    ensures
        STACK_REGION_BASE + slot * SLOT_BYTES + SLOT_BYTES <= u64::MAX,
        slot * SLOT_BYTES <= u64::MAX,
{
    vstd::arithmetic::mul::lemma_mul_inequality(slot, n, SLOT_BYTES as int);
    vstd::arithmetic::mul::lemma_mul_is_distributive_add_other_way(SLOT_BYTES as int, n, 1);
}

/// A stack top is a multiple of 16, so rounding it down to 16 changes
/// nothing.
proof fn lemma_stack_top_aligned(stack_top: u64, slot: int)
    requires
        0 <= slot,
        stack_top == STACK_REGION_BASE + slot * SLOT_BYTES + SLOT_BYTES,
    ensures
        stack_top & !0xFu64 == stack_top,
        stack_top >= INITIAL_FRAME_BYTES,
{
    vstd::arithmetic::div_mod::lemma_mod_multiples_basic(slot + 1, SLOT_BYTES as int);
    assert(stack_top == STACK_REGION_BASE + (slot + 1) * SLOT_BYTES) by (nonlinear_arith)
        requires
            stack_top == STACK_REGION_BASE + slot * SLOT_BYTES + SLOT_BYTES,
    ;
    assert(stack_top % 16 == 0);
    assert(stack_top & !0xFu64 == stack_top) by (bit_vector)
        requires
            stack_top % 16 == 0,
    ;
}

} // verus!
