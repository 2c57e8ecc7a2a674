//! Round-robin scheduler decision, taken on every timer tick.
use vstd::prelude::*;

use super::{running_is_current, Process, ProcessState, ProcessTable};

verus! {

/// What a scheduler tick did and what the caller must still do.
pub struct ScheduleOutcome {
    /// Process ids of the processes reaped on this tick, in table order.
    pub reaped: Vec<u64>,
    /// `Some((from, to))`: save the stack pointer of process `from` and switch
    /// to process `to`.
    pub switch: Option<(usize, usize)>,
}

/// A terminated process other than the current one is reaped.
pub open spec fn reapable<E>(ps: Seq<Process<E>>, current: int, i: int) -> bool {
    i != current && ps[i].state == ProcessState::Terminated
}

/// The process ids of the reapable processes among the first `n`.
pub open spec fn reaped_pids<E>(ps: Seq<Process<E>>, current: int, n: int) -> Seq<u64>
    decreases n,
{
    if n <= 0 {
        Seq::empty()
    } else {
        let rest = reaped_pids(ps, current, n - 1);
        if reapable(ps, current, n - 1) {
            rest.push(ps[n - 1].pid)
        } else {
            rest
        }
    }
}

/// The process at index `i` after reaping.
pub open spec fn after_reap<E>(ps: Seq<Process<E>>, current: int, i: int) -> Process<E> {
    if reapable(ps, current, i) {
        Process { state: ProcessState::Empty, entry_fn: None, ..ps[i] }
    } else {
        ps[i]
    }
}

/// The first offset `k` from `start` on, below `n`, such that the process
/// `k` places after `current` (cyclically) is `Ready`; `n` if there is none.
pub open spec fn ready_offset<E>(ps: Seq<Process<E>>, current: int, start: int) -> int
    decreases ps.len() - start,
{
    if start < 1 || start >= ps.len() {
        ps.len() as int
    } else if ps[(current + start) % (ps.len() as int)].state == ProcessState::Ready {
        start
    } else {
        ready_offset(ps, current, start + 1)
    }
}

/// Round-robin: reap terminated processes (except the running one), then
/// switch to the first `Ready` process after the current one, if any. With a
/// current index past the table, every terminated process is reaped and no
/// switch is made; a `Ready` process could not be switched to from there.
pub fn schedule<E>(table: &mut ProcessTable<E>) -> (r: ScheduleOutcome)
    requires
        old(table).processes@.len() > 1 && old(table).current >= old(table).processes@.len()
            ==> old(table).current < usize::MAX && forall|i: int|
            0 <= i < old(table).processes@.len() ==> #[trigger] old(table).processes@[i].state
                != ProcessState::Ready,
    ensures
        final(table).next_pid == old(table).next_pid,
        final(table).processes@.len() == old(table).processes@.len(),
        running_is_current(*old(table)) ==> running_is_current(*final(table)),
        ({
            let ps = old(table).processes@;
            let n = ps.len() as int;
            let cur = old(table).current as int;
            if n <= 1 {
                &&& r.reaped@ == Seq::<u64>::empty()
                &&& r.switch is None
                &&& final(table).processes@ == ps
                &&& final(table).current == old(table).current
            } else {
                let k = ready_offset(ps, cur, 1);
                let next = (cur + k) % n;
                &&& r.reaped@ == reaped_pids(ps, cur, n)
                &&& r.switch matches Some((from, to)) ==> {
                    &&& from == cur
                    &&& to != cur
                    &&& ps[to as int].state == ProcessState::Ready
                    &&& forall|j: int|
                        1 <= j < (to - cur + n) % n ==> #[trigger] ps[(cur + j) % n].state
                            != ProcessState::Ready
                }
                &&& forall|i: int|
                    0 <= i < n && reapable(ps, cur, i) ==> (#[trigger] final(table).processes@[i]).fd_table@.len() == 0
                &&& if k < n {
                    &&& r.switch == Some((cur as usize, next as usize))
                    &&& final(table).current == next
                    &&& forall|i: int|
                        0 <= i < n ==> #[trigger] final(table).processes@[i].state == if i == next {
                            ProcessState::Running
                        } else if i == cur && ps[i].state == ProcessState::Running {
                            ProcessState::Ready
                        } else {
                            after_reap(ps, cur, i).state
                        }
                } else {
                    &&& r.switch is None
                    &&& final(table).current == old(table).current
                    &&& forall|i: int|
                        0 <= i < n ==> #[trigger] final(table).processes@[i].state == after_reap(
                            ps,
                            cur,
                            i,
                        ).state
                }
                &&& forall|i: int|
                    0 <= i < n ==> {
                        &&& (#[trigger] final(table).processes@[i]).pid == ps[i].pid
                        &&& final(table).processes@[i].stack_pointer == ps[i].stack_pointer
                        &&& final(table).processes@[i].stack_region == ps[i].stack_region
                        &&& final(table).processes@[i].entry_fn == after_reap(ps, cur, i).entry_fn
                        &&& !reapable(ps, cur, i) ==> final(table).processes@[i].fd_table
                            == ps[i].fd_table
                    }
            }
        }),
{
    let ghost ps = table.processes@;
    let num_processes = table.processes.len();
    let mut reaped: Vec<u64> = Vec::new();
    if num_processes <= 1 {
        return ScheduleOutcome { reaped, switch: None };
    }
    let current_idx = table.current;
    let ghost cur = current_idx as int;

    // Reap terminated processes (except the currently running one). Stack
    // pages stay mapped until spawn() reuses the slot.
    let mut i: usize = 0;
    while i < num_processes
        invariant
            num_processes == ps.len(),
            num_processes > 1,
            table.processes@.len() == num_processes,
            table.current == current_idx,
            current_idx < usize::MAX,
            table.next_pid == old(table).next_pid,
            ps == old(table).processes@,
            cur == current_idx,
            i <= num_processes,
            reaped@ == reaped_pids(ps, cur, i as int),
            forall|j: int|
                0 <= j < num_processes ==> {
                    &&& (#[trigger] table.processes@[j]).pid == ps[j].pid
                    &&& table.processes@[j].stack_pointer == ps[j].stack_pointer
                    &&& table.processes@[j].stack_region == ps[j].stack_region
                    &&& table.processes@[j].state == if j < i {
                        after_reap(ps, cur, j).state
                    } else {
                        ps[j].state
                    }
                    &&& table.processes@[j].entry_fn == if j < i {
                        after_reap(ps, cur, j).entry_fn
                    } else {
                        ps[j].entry_fn
                    }
                    &&& (j < i && reapable(ps, cur, j)) ==> table.processes@[j].fd_table@.len()
                        == 0
                    &&& !(j < i && reapable(ps, cur, j)) ==> table.processes@[j].fd_table
                        == ps[j].fd_table
                },
        decreases num_processes - i,
    {
        if i != current_idx && table.processes[i].state == ProcessState::Terminated {
            table.processes[i].fd_table = Vec::new();
            table.processes[i].entry_fn = None;
            table.processes[i].state = ProcessState::Empty;
            reaped.push(table.processes[i].pid);
        }
        i = i + 1;
    }

    // Find the next Ready process.
    let mut next_idx = (current_idx + 1) % num_processes;
    let mut found = false;
    let mut steps: usize = 0;
    while steps < num_processes
        invariant_except_break
            !found,
        invariant
            num_processes == ps.len(),
            num_processes > 1,
            table.processes@.len() == num_processes,
            current_idx >= num_processes ==> forall|j: int|
                0 <= j < num_processes ==> #[trigger] ps[j].state != ProcessState::Ready,
            cur == current_idx,
            forall|j: int|
                0 <= j < num_processes ==> #[trigger] table.processes@[j].state == after_reap(
                    ps,
                    cur,
                    j,
                ).state,
            steps <= num_processes,
            next_idx == (current_idx + 1 + steps) % (num_processes as int),
            ready_offset(ps, cur, 1) == ready_offset(ps, cur, steps + 1),
        ensures
            found ==> steps < num_processes && table.processes@[next_idx as int].state
                == ProcessState::Ready,
            found ==> next_idx == (current_idx + 1 + steps) % (num_processes as int),
            found ==> ready_offset(ps, cur, 1) == ready_offset(ps, cur, steps + 1),
            !found ==> ready_offset(ps, cur, 1) == num_processes,
        decreases num_processes - steps,
    {
        if table.processes[next_idx].state == ProcessState::Ready {
            found = true;
            break;
        }
        proof {
            lemma_mod_step(current_idx as int, steps as int, num_processes as int);
        }
        next_idx = (next_idx + 1) % num_processes;
        steps = steps + 1;
    }

    proof {
        if found {
            lemma_wrap_to_current(cur, steps as int, num_processes as int);
        }
    }
    if !found || next_idx == current_idx {
        assert(ready_offset(ps, cur, 1) == num_processes);
        return ScheduleOutcome { reaped, switch: None };
    }
    assert(ready_offset(ps, cur, 1) == steps + 1);
    proof {
        lemma_ready_offset(ps, cur, 1);
        lemma_offset_back(cur, steps as int + 1, num_processes as int);
    }

    if table.processes[current_idx].state == ProcessState::Running {
        table.processes[current_idx].state = ProcessState::Ready;
    }
    table.processes[next_idx].state = ProcessState::Running;
    table.current = next_idx;
    ScheduleOutcome { reaped, switch: Some((current_idx, next_idx)) }
}

/// The offset the scan stops at: every offset before it holds a process that
/// is not `Ready`, and the process at it is `Ready`.
pub proof fn lemma_ready_offset<E>(ps: Seq<Process<E>>, cur: int, start: int)
    requires
        1 <= start,
    ensures
        ({
            let k = ready_offset(ps, cur, start);
            &&& start <= k || k == ps.len()
            &&& k <= ps.len()
            &&& k < ps.len() ==> ps[(cur + k) % (ps.len() as int)].state == ProcessState::Ready
            &&& forall|j: int|
                start <= j < k ==> #[trigger] ps[(cur + j) % (ps.len() as int)].state
                    != ProcessState::Ready
        }),
    decreases ps.len() - start,
{
    if start < ps.len() && ps[(cur + start) % (ps.len() as int)].state != ProcessState::Ready {
        lemma_ready_offset(ps, cur, start + 1);
    }
}

/// Recovering the offset from the index it names.
proof fn lemma_offset_back(c: int, k: int, n: int)
    requires
        n > 1,
        0 <= c < n,
        1 <= k < n,
    ensures
        ((c + k) % n - c + n) % n == k,
{
    if c + k < n {
        vstd::arithmetic::div_mod::lemma_small_mod((c + k) as nat, n as nat);
        vstd::arithmetic::div_mod::lemma_mod_add_multiples_vanish(k, n);
        vstd::arithmetic::div_mod::lemma_small_mod(k as nat, n as nat);
    } else {
        vstd::arithmetic::div_mod::lemma_small_mod((c + k - n) as nat, n as nat);
        vstd::arithmetic::div_mod::lemma_mod_add_multiples_vanish(c + k - n, n);
        vstd::arithmetic::div_mod::lemma_small_mod(k as nat, n as nat);
    }
}

/// The scan comes back to the current process only at its last step.
proof fn lemma_wrap_to_current(c: int, s: int, n: int)
    requires
        n > 1,
        0 <= c < n,
        0 <= s < n,
    ensures
        ((c + 1 + s) % n == c) <==> (s == n - 1),
{
    if c + 1 + s < n {
        vstd::arithmetic::div_mod::lemma_small_mod((c + 1 + s) as nat, n as nat);
    } else {
        vstd::arithmetic::div_mod::lemma_small_mod((c + 1 + s - n) as nat, n as nat);
        vstd::arithmetic::div_mod::lemma_mod_add_multiples_vanish(c + 1 + s - n, n);
    }
}

/// Stepping the scan index by one place, cyclically.
proof fn lemma_mod_step(c: int, s: int, n: int)
    requires
        n > 1,
        0 <= c,
        0 <= s,
    ensures
        ((c + 1 + s) % n + 1) % n == (c + 1 + (s + 1)) % n,
{
    vstd::arithmetic::div_mod::lemma_add_mod_noop(c + 1 + s, 1, n);
    vstd::arithmetic::div_mod::lemma_small_mod(1, n as nat);
}

} // verus!
