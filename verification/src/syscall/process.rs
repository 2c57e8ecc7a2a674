//! Process syscalls.
use vstd::prelude::*;

use super::EINVAL;
use crate::process::ProcessTable;

verus! {

/// The id of the current process, or `EINVAL` if the current index names
/// none.
pub fn sys_getpid<E>(table: &ProcessTable<E>) -> (r: i64)
    ensures
        table.current < table.processes@.len() ==> r == table.processes@[table.current as int].pid as i64,
        table.current >= table.processes@.len() ==> r == EINVAL,
{
    let current = table.current;
    if current < table.processes.len() {
        table.processes[current].pid as i64
    } else {
        EINVAL
    }
}

} // verus!
