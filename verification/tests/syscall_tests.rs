use my_os::fs::FdEntry;
use my_os::keyboard::RingBuffer;
use my_os::process::{standard_fd_table, Process, ProcessState, ProcessTable};
use my_os::syscall::fs::{
    console_text, sys_close, sys_open, sys_read, sys_read_user, sys_write, WriteTarget,
};
use my_os::syscall::process::sys_getpid;
use my_os::syscall::{self, decode_syscall, errno_name, validate_ptr, SyscallRequest};

fn test_table() -> ProcessTable<u32> {
    let mut t = ProcessTable::new();
    t.processes.push(Process {
        pid: 0,
        state: ProcessState::Running,
        stack_pointer: 0,
        entry_fn: None,
        stack_region: None,
        fd_table: standard_fd_table(),
    });
    t.next_pid = 1;
    t.current = 0;
    t
}

#[test]
fn syscall_getpid() {
    let t = test_table();
    assert_eq!(sys_getpid(&t), 0, "expected PID 0 for test process");
}

#[test]
fn getpid_without_a_current_process() {
    let t: ProcessTable<u32> = ProcessTable::new();
    assert_eq!(sys_getpid(&t), syscall::EINVAL);
}

#[test]
fn syscall_write_stdout() {
    let msg = b"test output";
    let (result, target) = sys_write(1, msg.as_ptr() as u64, msg.len() as u64);
    assert_eq!(result, msg.len() as i64);
    assert_eq!(target, Some(WriteTarget::Screen));
}

#[test]
fn syscall_write_stderr() {
    let msg = b"test error";
    let (result, target) = sys_write(2, msg.as_ptr() as u64, msg.len() as u64);
    assert_eq!(result, msg.len() as i64);
    assert_eq!(target, Some(WriteTarget::Serial));
}

#[test]
fn syscall_write_stdin_fails() {
    let msg = b"nope";
    let (result, target) = sys_write(0, msg.as_ptr() as u64, msg.len() as u64);
    assert_eq!(result, syscall::EBADF);
    assert_eq!(target, None);
}

#[test]
fn write_to_a_file_descriptor_is_read_only() {
    let msg = b"x";
    assert_eq!(sys_write(5, msg.as_ptr() as u64, 1), (syscall::EROFS, None));
}

#[test]
fn syscall_write_null_pointer() {
    assert_eq!(sys_write(1, 0, 10).0, syscall::EFAULT);
}

#[test]
fn syscall_write_huge_length() {
    let msg = b"x";
    assert_eq!(sys_write(1, msg.as_ptr() as u64, 0xFFFF_FFFF_FFFF).0, syscall::EINVAL);
}

#[test]
fn pointer_validation() {
    assert_eq!(validate_ptr(0, 1), Err(syscall::EFAULT));
    assert_eq!(validate_ptr(0x1000, 1024 * 1024), Ok(()));
    assert_eq!(validate_ptr(0x1000, 1024 * 1024 + 1), Err(syscall::EINVAL));
    assert_eq!(validate_ptr(u64::MAX - 4, 10), Err(syscall::EFAULT));
}

#[test]
fn syscall_ramdisk_open_read_close() {
    let mut t = test_table();
    let mut kb = RingBuffer::new();
    let fd = sys_open(&mut t, b"hello.txt");
    assert!(fd >= 3, "expected fd >= 3, got {}", fd);

    let mut buf = [0u8; 256];
    let bytes = sys_read(&mut t, &mut kb, fd as u64, &mut buf);
    assert!(bytes > 0, "expected to read some bytes");
    let content = core::str::from_utf8(&buf[..bytes as usize]).unwrap();
    assert_eq!(content, "Hello from the ramdisk filesystem!\n");

    let eof = sys_read(&mut t, &mut kb, fd as u64, &mut buf);
    assert_eq!(eof, 0, "expected EOF after reading entire file");

    assert_eq!(sys_close(&mut t, fd as u64), 0, "close should return 0");
}

#[test]
fn reads_continue_from_the_file_position() {
    let mut t = test_table();
    let mut kb = RingBuffer::new();
    let fd = sys_open(&mut t, b"numbers.txt") as u64;
    let mut buf = [0u8; 4];
    assert_eq!(sys_read(&mut t, &mut kb, fd, &mut buf), 4);
    assert_eq!(&buf, b"1\n2\n");
    assert_eq!(sys_read(&mut t, &mut kb, fd, &mut buf), 4);
    assert_eq!(&buf, b"3\n4\n");
    assert_eq!(sys_read(&mut t, &mut kb, fd, &mut buf), 2);
    assert_eq!(&buf[..2], b"5\n");
    assert_eq!(sys_read(&mut t, &mut kb, fd, &mut buf), 0);
    assert_eq!(
        t.processes[0].fd_table[fd as usize],
        Some(FdEntry::File { file_index: 2, position: 10 })
    );
}

#[test]
fn open_takes_the_lowest_free_descriptor() {
    let mut t = test_table();
    assert_eq!(sys_open(&mut t, b"hello.txt"), 3);
    assert_eq!(sys_open(&mut t, b"readme.txt"), 4);
    assert_eq!(sys_close(&mut t, 3), 0);
    assert_eq!(sys_open(&mut t, b"numbers.txt"), 3);
    assert_eq!(t.processes[0].fd_table.len(), 5);
}

#[test]
fn open_rejects_a_path_that_is_not_utf8() {
    let mut t = test_table();
    assert_eq!(sys_open(&mut t, &[0xFF, 0xFE]), syscall::EINVAL);
}

#[test]
fn syscall_open_nonexistent() {
    let mut t = test_table();
    assert_eq!(sys_open(&mut t, b"does_not_exist.txt"), syscall::ENOENT);
}

#[test]
fn syscall_read_bad_fd() {
    let mut t = test_table();
    let mut kb = RingBuffer::new();
    let mut buf = [0u8; 16];
    assert_eq!(sys_read(&mut t, &mut kb, 99, &mut buf), syscall::EBADF);
}

#[test]
fn reading_stdout_or_stderr_fails() {
    let mut t = test_table();
    let mut kb = RingBuffer::new();
    let mut buf = [0u8; 4];
    assert_eq!(sys_read(&mut t, &mut kb, 1, &mut buf), syscall::EBADF);
    assert_eq!(sys_read(&mut t, &mut kb, 2, &mut buf), syscall::EBADF);
}

#[test]
fn stdin_reads_what_was_typed_without_waiting() {
    let mut t = test_table();
    let mut kb = RingBuffer::new();
    let mut buf = [0u8; 4];
    assert_eq!(sys_read(&mut t, &mut kb, 0, &mut buf), 0);
    kb.push(b'h');
    kb.push(b'i');
    assert_eq!(sys_read(&mut t, &mut kb, 0, &mut buf), 2);
    assert_eq!(&buf[..2], b"hi");
    assert_eq!(kb.pop(), None);
}

#[test]
fn syscall_close_stdio_fails() {
    let mut t = test_table();
    assert_eq!(sys_close(&mut t, 0), syscall::EPERM);
    assert_eq!(sys_close(&mut t, 1), syscall::EPERM);
    assert_eq!(sys_close(&mut t, 2), syscall::EPERM);
}

#[test]
fn syscall_close_twice() {
    let mut t = test_table();
    let fd = sys_open(&mut t, b"hello.txt");
    assert!(fd >= 3);
    assert_eq!(sys_close(&mut t, fd as u64), 0);
    assert_eq!(sys_close(&mut t, fd as u64), syscall::EBADF);
}

#[test]
fn syscall_unknown_number() {
    let request = decode_syscall(999, 0, 0, 0);
    assert_eq!(request, SyscallRequest::Unknown { number: 999 });
    assert_eq!(request.unhandled_result(), Some(syscall::ENOSYS));
}

#[test]
fn syscall_numbers_decode() {
    assert_eq!(
        decode_syscall(syscall::SYS_READ, 0, 0x1000, 1),
        SyscallRequest::Read { fd: 0, buf_ptr: 0x1000, len: 1 }
    );
    assert_eq!(decode_syscall(syscall::SYS_GETPID, 7, 8, 9), SyscallRequest::GetPid);
    assert_eq!(decode_syscall(syscall::SYS_CLOSE, 3, 0, 0), SyscallRequest::Close { fd: 3 });
}

#[test]
fn errno_names() {
    assert_eq!(errno_name(5), "OK");
    assert_eq!(errno_name(syscall::ENOENT), "ENOENT (file not found)");
    assert_eq!(errno_name(syscall::EROFS), "EROFS (read-only filesystem)");
    assert_eq!(errno_name(-100), "UNKNOWN");
}

#[test]
fn console_text_escapes_bytes_that_are_not_utf8() {
    assert_eq!(console_text(b"hi\n"), b"hi\n".to_vec());
    assert_eq!(console_text(&[0x41, 0xFF]), b"\\x41\\xff".to_vec());
}

#[test]
fn an_unknown_syscall_is_answered_enosys() {
    let r = decode_syscall(99, 1, 2, 3);
    assert_eq!(r, SyscallRequest::Unknown { number: 99 });
    assert_eq!(r.unhandled_result(), Some(syscall::ENOSYS));
    assert_eq!(syscall::ENOSYS, -6);
    assert_eq!(decode_syscall(syscall::SYS_GETPID, 0, 0, 0).unhandled_result(), None);
    assert_eq!(decode_syscall(syscall::SYS_WRITE, 1, 2, 3).unhandled_result(), None);
}

#[test]
fn a_refused_read_buffer_is_answered_before_the_descriptor() {
    let mut t = test_table();
    let mut kb = RingBuffer::new();
    kb.push(b'x');
    let mut empty: [u8; 0] = [];
    // null pointer: EFAULT, even for a descriptor that would give EBADF
    assert_eq!(sys_read_user(&mut t, &mut kb, 1, 0, 4, &mut empty), syscall::EFAULT);
    // too long: EINVAL
    assert_eq!(
        sys_read_user(&mut t, &mut kb, 0, 0x1000, 2 * 1024 * 1024, &mut empty),
        syscall::EINVAL
    );
    // wrapping around: EFAULT
    assert_eq!(sys_read_user(&mut t, &mut kb, 0, u64::MAX, 2, &mut empty), syscall::EFAULT);
    // nothing was taken from the keyboard buffer
    let mut buf = [0u8; 4];
    assert_eq!(sys_read_user(&mut t, &mut kb, 0, 0x1000, 4, &mut buf), 1);
    assert_eq!(buf, [b'x', 0, 0, 0]);
    assert_eq!(sys_read_user(&mut t, &mut kb, 1, 0x1000, 4, &mut buf), syscall::EBADF);
}
