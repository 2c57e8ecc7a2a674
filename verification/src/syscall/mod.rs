//! Syscall interface: numbers, error codes, pointer validation and dispatch.
pub mod fs;
pub mod process;

use vstd::prelude::*;

verus! {

pub const SYS_WRITE: u64 = 0;

pub const SYS_READ: u64 = 1;

pub const SYS_OPEN: u64 = 2;

pub const SYS_CLOSE: u64 = 3;

pub const SYS_EXIT: u64 = 4;

pub const SYS_GETPID: u64 = 5;

pub const ENOENT: i64 = -1;

pub const EBADF: i64 = -2;

pub const EINVAL: i64 = -3;

pub const EFAULT: i64 = -4;

pub const EPERM: i64 = -5;

pub const ENOSYS: i64 = -6;

pub const EROFS: i64 = -7;

/// Largest buffer a syscall accepts.
pub const MAX_SYSCALL_BUFFER_LEN: u64 = 1048576;

/// The description of a syscall result code.
pub open spec fn errno_text(code: i64) -> &'static str {
    if code >= 0 {
        "OK"
    } else if code == -1 {
        "ENOENT (file not found)"
    } else if code == -2 {
        "EBADF (bad file descriptor)"
    } else if code == -3 {
        "EINVAL (invalid argument)"
    } else if code == -4 {
        "EFAULT (bad address)"
    } else if code == -5 {
        "EPERM (not permitted)"
    } else if code == -6 {
        "ENOSYS (unknown syscall)"
    } else if code == -7 {
        "EROFS (read-only filesystem)"
    } else {
        "UNKNOWN"
    }
}

/// Describe a syscall result code.
pub fn errno_name(code: i64) -> (r: &'static str)
    ensures
        r == errno_text(code),
{
    if code >= 0 {
        "OK"
    } else if code == -1 {
        "ENOENT (file not found)"
    } else if code == -2 {
        "EBADF (bad file descriptor)"
    } else if code == -3 {
        "EINVAL (invalid argument)"
    } else if code == -4 {
        "EFAULT (bad address)"
    } else if code == -5 {
        "EPERM (not permitted)"
    } else if code == -6 {
        "ENOSYS (unknown syscall)"
    } else if code == -7 {
        "EROFS (read-only filesystem)"
    } else {
        "UNKNOWN"
    }
}

/// The error a buffer of `len` bytes at `ptr` is refused with, if any.
pub open spec fn ptr_error(ptr: u64, len: u64) -> Option<i64> {
    if ptr == 0 {
        Some(EFAULT)
    } else if len > MAX_SYSCALL_BUFFER_LEN {
        Some(EINVAL)
    } else if ptr + len > u64::MAX {
        Some(EFAULT)
    } else {
        None
    }
}

/// Check a caller's buffer: not null, at most 1MB, and not wrapping around
/// the address space.
pub fn validate_ptr(ptr: u64, len: u64) -> (r: Result<(), i64>)
    ensures
        r is Ok <==> ptr_error(ptr, len) is None,
        r matches Err(e) ==> ptr_error(ptr, len) == Some(e),
{
    if ptr == 0 {
        return Err(EFAULT);
    }
    if len > MAX_SYSCALL_BUFFER_LEN {
        return Err(EINVAL);
    }
    if ptr.checked_add(len).is_none() {
        return Err(EFAULT);
    }
    Ok(())
}

/// A syscall as the handler reads it from the number and the arguments.
#[derive(Clone, Copy, Debug, PartialEq, Eq, Structural)]
pub enum SyscallRequest {
    Write { fd: u64, buf_ptr: u64, len: u64 },
    Read { fd: u64, buf_ptr: u64, len: u64 },
    Open { path_ptr: u64, path_len: u64 },
    Close { fd: u64 },
    Exit { code: u64 },
    GetPid,
    /// Answered with `ENOSYS`.
    Unknown { number: u64 },
}

impl SyscallRequest {
    /// The answer to a request that no handler serves: `ENOSYS` for an
    /// unknown number, and `None` for every request that a handler answers.
    pub fn unhandled_result(&self) -> (r: Option<i64>)
        ensures
            r == if *self is Unknown {
                Some(ENOSYS)
            } else {
                None::<i64>
            },
    {
        match self {
            SyscallRequest::Unknown { .. } => Some(ENOSYS),
            _ => None,
        }
    }
}

/// Which syscall a number and its arguments ask for.
pub fn decode_syscall(number: u64, arg1: u64, arg2: u64, arg3: u64) -> (r: SyscallRequest)
    ensures
        r == if number == SYS_WRITE {
            SyscallRequest::Write { fd: arg1, buf_ptr: arg2, len: arg3 }
        } else if number == SYS_READ {
            SyscallRequest::Read { fd: arg1, buf_ptr: arg2, len: arg3 }
        } else if number == SYS_OPEN {
            SyscallRequest::Open { path_ptr: arg1, path_len: arg2 }
        } else if number == SYS_CLOSE {
            SyscallRequest::Close { fd: arg1 }
        } else if number == SYS_EXIT {
            SyscallRequest::Exit { code: arg1 }
        } else if number == SYS_GETPID {
            SyscallRequest::GetPid
        } else {
            SyscallRequest::Unknown { number }
        },
{
    match number {
        SYS_WRITE => SyscallRequest::Write { fd: arg1, buf_ptr: arg2, len: arg3 },
        SYS_READ => SyscallRequest::Read { fd: arg1, buf_ptr: arg2, len: arg3 },
        SYS_OPEN => SyscallRequest::Open { path_ptr: arg1, path_len: arg2 },
        SYS_CLOSE => SyscallRequest::Close { fd: arg1 },
        SYS_EXIT => SyscallRequest::Exit { code: arg1 },
        SYS_GETPID => SyscallRequest::GetPid,
        unknown => SyscallRequest::Unknown { number: unknown },
    }
}

} // verus!
