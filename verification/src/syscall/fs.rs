//! File system syscalls: read, write, open, close. `sys_write` and
//! `sys_read_user` check the caller's pointer and length before anything else;
//! the other calls take a buffer that has passed that check.
use vstd::prelude::*;
use vstd::string::StringSliceAdditionalSpecFns;
use vstd::utf8::valid_utf8;

use super::{EBADF, EINVAL, ENOENT, EPERM, EROFS};
use crate::fs::initrd::{InitRamDisk, ramdisk_contents, FILE_COUNT};
use crate::fs::{first_named, read_range, FdEntry, FileSystem};
use crate::keyboard::RingBuffer;
use crate::process::ProcessTable;

verus! {

/// Where the bytes of a write go.
#[derive(Clone, Copy, Debug, PartialEq, Eq, Structural)]
pub enum WriteTarget {
    /// fd 1: the screen.
    Screen,
    /// fd 2: the serial port.
    Serial,
}

/// Write `len` bytes at `buf_ptr` to `fd`: the result code, and where the
/// bytes go when the write succeeds. Only stdout and stderr can be written:
/// stdin gives `EBADF`, any other descriptor `EROFS`. A successful write
/// reports all `len` bytes written.
pub fn sys_write(fd: u64, buf_ptr: u64, len: u64) -> (r: (i64, Option<WriteTarget>))
    ensures
        r == match super::ptr_error(buf_ptr, len) {
            Some(e) => (e, None),
            None => if fd == 1 {
                (len as i64, Some(WriteTarget::Screen))
            } else if fd == 2 {
                (len as i64, Some(WriteTarget::Serial))
            } else if fd == 0 {
                (EBADF, None)
            } else {
                (EROFS, None)
            },
        },
{
    if let Err(e) = super::validate_ptr(buf_ptr, len) {
        return (e, None);
    }
    match fd {
        1 => (len as i64, Some(WriteTarget::Screen)),
        2 => (len as i64, Some(WriteTarget::Serial)),
        0 => (EBADF, None),
        _ => (EROFS, None),
    }
}

/// Lower-case hexadecimal digit for `d` in `0..16`.
pub open spec fn hex_digit(d: int) -> u8 {
    if d < 10 {
        (48 + d) as u8
    } else {
        (97 + d - 10) as u8
    }
}

/// Each byte written as `\xHH`.
pub open spec fn escape_bytes(s: Seq<u8>) -> Seq<u8>
    decreases s.len(),
{
    if s.len() == 0 {
        Seq::empty()
    } else {
        let b = s.last();
        escape_bytes(s.drop_last()) + seq![92u8, 120u8, hex_digit((b / 16) as int), hex_digit((b % 16) as int)]
    }
}

/// The text a write shows: the bytes themselves when they are UTF-8, each
/// byte as `\xHH` otherwise.
pub open spec fn console_text_spec(s: Seq<u8>) -> Seq<u8> {
    if valid_utf8(s) {
        s
    } else {
        escape_bytes(s)
    }
}

/// Whether `bytes` is UTF-8, by `core::str::from_utf8`.
///
/// Trusted: claims that `from_utf8` accepts exactly the byte strings that are
/// UTF-8 in the sense of `vstd::utf8::valid_utf8`, and that the `&str` it
/// returns has exactly those bytes, as its documentation states.
#[verifier::external_body]
fn str_from_utf8(bytes: &[u8]) -> (r: Option<&str>)
    ensures
        r is Some <==> valid_utf8(bytes@),
        r matches Some(s) ==> s.spec_bytes() == bytes@,
{
    core::str::from_utf8(bytes).ok()
}

fn hex_digit_exec(d: u8) -> (r: u8)
    requires
        d < 16,
    ensures
        r == hex_digit(d as int),
{
    if d < 10 {
        48 + d
    } else {
        97 + d - 10
    }
}

/// The lower-case hexadecimal digits, `0` to `f`.
pub open spec fn hex_digits() -> Seq<u8> {
    seq![48u8, 49u8, 50u8, 51u8, 52u8, 53u8, 54u8, 55u8, 56u8, 57u8, 97u8, 98u8, 99u8, 100u8, 101u8, 102u8]
}

/// What a write shows: UTF-8 bytes as they are; other bytes each as the four
/// characters `\`, `x` and the two lower-case hexadecimal digits of the byte,
/// high digit first, so that the text is four times as long as the bytes.
pub proof fn law_console_text_shows_text_or_escapes(s: Seq<u8>)
    ensures
        valid_utf8(s) ==> console_text_spec(s) == s,
        !valid_utf8(s) ==> console_text_spec(s).len() == 4 * s.len(),
        !valid_utf8(s) ==> forall|k: int|
            0 <= k < s.len() ==> #[trigger] console_text_spec(s).subrange(4 * k, 4 * k + 4) == seq![
                92u8,
                120u8,
                hex_digits()[(s[k] / 16) as int],
                hex_digits()[(s[k] % 16) as int],
            ],
{
    if !valid_utf8(s) {
        lemma_escape_bytes(s);
    }
}

/// Each byte of `s` becomes four characters of its escape, in order.
proof fn lemma_escape_bytes(s: Seq<u8>)
    ensures
        escape_bytes(s).len() == 4 * s.len(),
        forall|k: int|
            0 <= k < s.len() ==> #[trigger] escape_bytes(s).subrange(4 * k, 4 * k + 4) == seq![
                92u8,
                120u8,
                hex_digits()[(s[k] / 16) as int],
                hex_digits()[(s[k] % 16) as int],
            ],
    decreases s.len(),
{
    if s.len() > 0 {
        let front = s.drop_last();
        lemma_escape_bytes(front);
        let b = s.last();
        let g = seq![92u8, 120u8, hex_digit((b / 16) as int), hex_digit((b % 16) as int)];
        let e = escape_bytes(s);
        assert(e == escape_bytes(front) + g);
        assert forall|d: int| 0 <= d < 16 implies #[trigger] hex_digit(d) == hex_digits()[d] by {
            assert(hex_digits()[0] == 48u8 && hex_digits()[1] == 49u8 && hex_digits()[2] == 50u8);
            assert(hex_digits()[3] == 51u8 && hex_digits()[4] == 52u8 && hex_digits()[5] == 53u8);
            assert(hex_digits()[6] == 54u8 && hex_digits()[7] == 55u8 && hex_digits()[8] == 56u8);
            assert(hex_digits()[9] == 57u8 && hex_digits()[10] == 97u8 && hex_digits()[11] == 98u8);
            assert(hex_digits()[12] == 99u8 && hex_digits()[13] == 100u8 && hex_digits()[14] == 101u8);
            assert(hex_digits()[15] == 102u8);
        }
        assert forall|k: int| 0 <= k < s.len() implies #[trigger] e.subrange(4 * k, 4 * k + 4)
            == seq![92u8, 120u8, hex_digits()[(s[k] / 16) as int], hex_digits()[(s[k] % 16) as int]] by {
            if k < s.len() - 1 {
                assert(front[k] == s[k]);
                assert(e.subrange(4 * k, 4 * k + 4) =~= escape_bytes(front).subrange(4 * k, 4 * k + 4));
            } else {
                assert(e.subrange(4 * k, 4 * k + 4) =~= g);
                assert(hex_digit((b / 16) as int) == hex_digits()[(b / 16) as int]);
                assert(hex_digit((b % 16) as int) == hex_digits()[(b % 16) as int]);
                assert(g =~= seq![92u8, 120u8, hex_digits()[(s[k] / 16) as int], hex_digits()[(s[k] % 16) as int]]);
            }
        }
    }
}

/// The text a write to the screen or serial port shows: the bytes when they
/// are UTF-8; otherwise each byte as `\xHH`.
pub fn console_text(buf: &[u8]) -> (r: Vec<u8>)
    ensures
        r@ == console_text_spec(buf@),
        valid_utf8(buf@) ==> r@ == buf@,
        !valid_utf8(buf@) ==> r@.len() == 4 * buf@.len(),
        !valid_utf8(buf@) ==> forall|k: int|
            0 <= k < buf@.len() ==> #[trigger] r@.subrange(4 * k, 4 * k + 4) == seq![
                92u8,
                120u8,
                hex_digits()[(buf@[k] / 16) as int],
                hex_digits()[(buf@[k] % 16) as int],
            ],
{
    proof {
        law_console_text_shows_text_or_escapes(buf@);
    }
    let mut out: Vec<u8> = Vec::new();
    if str_from_utf8(buf).is_some() {
        let mut i: usize = 0;
        while i < buf.len()
            invariant
                i <= buf@.len(),
                out@ == buf@.subrange(0, i as int),
            decreases buf@.len() - i,
        {
            out.push(buf[i]);
            i = i + 1;
        }
        assert(buf@.subrange(0, buf@.len() as int) =~= buf@);
        return out;
    }
    let mut i: usize = 0;
    while i < buf.len()
        invariant
            i <= buf@.len(),
            out@ == escape_bytes(buf@.subrange(0, i as int)),
        decreases buf@.len() - i,
    {
        let b = buf[i];
        out.push(92u8);
        out.push(120u8);
        out.push(hex_digit_exec(b / 16));
        out.push(hex_digit_exec(b % 16));
        proof {
            let s = buf@.subrange(0, i + 1);
            assert(s.drop_last() =~= buf@.subrange(0, i as int));
            assert(s.last() == b);
        }
        i = i + 1;
    }
    assert(buf@.subrange(0, buf@.len() as int) =~= buf@);
    out
}

/// The bytes a read of `len` bytes at `offset` of ramdisk file `file_index`
/// yields.
pub open spec fn ramdisk_read(file_index: int, offset: int, len: int) -> Seq<u8> {
    if 0 <= file_index < FILE_COUNT {
        read_range(ramdisk_contents(file_index).spec_bytes(), offset, len)
    } else {
        Seq::empty()
    }
}

/// What a read of descriptor `fd` into a buffer does: `t0`, `k0` and `b0`
/// are the process table, the queued keyboard bytes and the buffer before,
/// `t1`, `k1` and `b1` after, and `r` is the result code.
pub open spec fn read_post<E>(
    t0: ProcessTable<E>,
    t1: ProcessTable<E>,
    k0: Seq<u8>,
    k1: Seq<u8>,
    fd: u64,
    b0: Seq<u8>,
    b1: Seq<u8>,
    r: i64,
) -> bool {
    &&& b1.len() == b0.len()
    &&& t1.current == t0.current
    &&& t1.next_pid == t0.next_pid
    &&& fd == 0 ==> {
        let n = if b0.len() < k0.len() {
            b0.len() as int
        } else {
            k0.len() as int
        };
        &&& r == n as i64
        &&& b1 == k0.subrange(0, n) + b0.subrange(n, b0.len() as int)
        &&& k1 == k0.subrange(n, k0.len() as int)
        &&& t1.processes@ == t0.processes@
    }
    &&& fd != 0 ==> k1 == k0
    &&& (fd == 1 || fd == 2) ==> r == EBADF && t1.processes@ == t0.processes@
        && b1 == b0
    &&& fd > 2 ==> {
        let ps = t0.processes@;
        let cur = t0.current as int;
        if cur >= ps.len() {
            &&& r == EINVAL
            &&& t1.processes@ == ps
            &&& b1 == b0
        } else if fd as usize >= ps[cur].fd_table@.len() {
            &&& r == EBADF
            &&& t1.processes@ == ps
            &&& b1 == b0
        } else {
            match ps[cur].fd_table@[fd as usize as int] {
                Some(FdEntry::File { file_index, position }) => {
                    let bytes = ramdisk_read(
                        file_index as int,
                        position as int,
                        b0.len() as int,
                    );
                    let n = bytes.len();
                    &&& r == n as i64
                    &&& b1 == bytes + b0.subrange(n as int, b0.len() as int)
                    &&& t1.processes@.len() == ps.len()
                    &&& forall|j: int|
                        0 <= j < ps.len() && j != cur ==> #[trigger] t1.processes@[j] == ps[j]
                    &&& t1.processes@[cur].pid == ps[cur].pid
                    &&& t1.processes@[cur].state == ps[cur].state
                    &&& t1.processes@[cur].stack_pointer == ps[cur].stack_pointer
                    &&& t1.processes@[cur].stack_region == ps[cur].stack_region
                    &&& t1.processes@[cur].entry_fn == ps[cur].entry_fn
                    &&& t1.processes@[cur].fd_table@ == ps[cur].fd_table@.update(
                        fd as usize as int,
                        Some(FdEntry::File { file_index, position: (position + n) as usize }),
                    )
                },
                _ => {
                    &&& r == EBADF
                    &&& t1.processes@ == ps
                    &&& b1 == b0
                },
            }
        }
    }
}

/// Read from descriptor `fd` of the current process into `buf`: stdin takes
/// what the keyboard buffer holds without waiting; a ramdisk file is read from
/// its position, which then moves past the bytes read.
pub fn sys_read<E>(
    table: &mut ProcessTable<E>,
    keyboard: &mut RingBuffer,
    fd: u64,
    buf: &mut [u8],
) -> (r: i64)
    requires
        old(keyboard).wf(),
    ensures
        final(keyboard).wf(),
        read_post(
            *old(table),
            *final(table),
            old(keyboard)@,
            final(keyboard)@,
            fd,
            old(buf)@,
            final(buf)@,
            r,
        ),
{
    let fd_idx = fd as usize;
    match fd {
        0 => {
            // stdin: non-blocking read from the keyboard buffer
            let ghost kb = keyboard@;
            let ghost before = buf@;
            let mut bytes_read: usize = 0;
            while bytes_read < buf.len()
                invariant_except_break
                    bytes_read <= kb.len(),
                invariant
                    keyboard.wf(),
                    bytes_read <= before.len(),
                    buf@.len() == before.len(),
                    keyboard@ == kb.subrange(bytes_read as int, kb.len() as int),
                    forall|j: int| 0 <= j < bytes_read ==> buf@[j] == kb[j],
                    forall|j: int| bytes_read <= j < before.len() ==> buf@[j] == before[j],
                ensures
                    bytes_read <= kb.len(),
                    bytes_read == before.len() || bytes_read == kb.len(),
                decreases before.len() - bytes_read,
            {
                match keyboard.pop() {
                    Some(c) => {
                        buf[bytes_read] = c;
                        bytes_read = bytes_read + 1;
                    },
                    None => {
                        break;
                    },
                }
            }
            proof {
                let n = bytes_read as int;
                assert(buf@ =~= kb.subrange(0, n) + before.subrange(n, before.len() as int));
            }
            bytes_read as i64
        },
        1 | 2 => EBADF,
        _ => {
            let current = table.current;
            if current >= table.processes.len() {
                return EINVAL;
            }
            if fd_idx >= table.processes[current].fd_table.len() {
                return EBADF;
            }
            match table.processes[current].fd_table[fd_idx] {
                Some(FdEntry::File { file_index, position }) => {
                    let ramdisk = InitRamDisk;
                    let bytes_read = ramdisk.read(file_index, position, buf);
                    proof {
                        if file_index < FILE_COUNT {
                            assert(ramdisk.spec_files()[file_index as int].contents
                                == ramdisk_contents(file_index as int).spec_bytes());
                        }
                    }
                    table.processes[current].fd_table[fd_idx] = Some(
                        FdEntry::File { file_index, position: position + bytes_read },
                    );
                    bytes_read as i64
                },
                _ => EBADF,
            }
        },
    }
}

/// The read syscall as a caller makes it: `len` bytes at `buf_ptr` into
/// descriptor `fd`'s data. The pointer and length are checked first: a refused
/// buffer gives the check's error and changes nothing, whatever `fd` is.
/// Otherwise `buf` is the caller's buffer, and the read goes on as `sys_read`.
pub fn sys_read_user<E>(
    table: &mut ProcessTable<E>,
    keyboard: &mut RingBuffer,
    fd: u64,
    buf_ptr: u64,
    len: u64,
    buf: &mut [u8],
) -> (r: i64)
    requires
        old(keyboard).wf(),
        super::ptr_error(buf_ptr, len) is None ==> old(buf)@.len() == len,
    ensures
        final(keyboard).wf(),
        match super::ptr_error(buf_ptr, len) {
            Some(e) => {
                &&& r == e
                &&& *final(table) == *old(table)
                &&& final(keyboard)@ == old(keyboard)@
                &&& final(buf)@ == old(buf)@
            },
            None => read_post(
                *old(table),
                *final(table),
                old(keyboard)@,
                final(keyboard)@,
                fd,
                old(buf)@,
                final(buf)@,
                r,
            ),
        },
{
    if let Err(e) = super::validate_ptr(buf_ptr, len) {
        return e;
    }
    sys_read(table, keyboard, fd, buf)
}

/// The first free descriptor slot from `i` on, or the table's length.
pub open spec fn first_free_fd(fds: Seq<Option<FdEntry>>, i: int) -> int
    decreases fds.len() - i,
{
    if i < 0 || i >= fds.len() {
        fds.len() as int
    } else if fds[i] is None {
        i
    } else {
        first_free_fd(fds, i + 1)
    }
}

/// The descriptor `open` takes is the lowest free one: every descriptor below
/// it is in use, and it is free itself, or one past the end of the table when
/// none is free.
pub proof fn law_open_takes_the_lowest_free_descriptor(fds: Seq<Option<FdEntry>>)
    ensures
        0 <= first_free_fd(fds, 0) <= fds.len(),
        forall|j: int| 0 <= j < first_free_fd(fds, 0) ==> (#[trigger] fds[j]) is Some,
        first_free_fd(fds, 0) < fds.len() ==> fds[first_free_fd(fds, 0)] is None,
{
    lemma_first_free_fd_from(fds, 0);
}

/// The free-descriptor search from `i` on stops at the first free descriptor
/// at `i` or later, passing only descriptors in use.
proof fn lemma_first_free_fd_from(fds: Seq<Option<FdEntry>>, i: int)
    requires
        0 <= i <= fds.len(),
    ensures
        i <= first_free_fd(fds, i) <= fds.len(),
        forall|j: int| i <= j < first_free_fd(fds, i) ==> (#[trigger] fds[j]) is Some,
        first_free_fd(fds, i) < fds.len() ==> fds[first_free_fd(fds, i)] is None,
    decreases fds.len() - i,
{
    if i < fds.len() && fds[i] is Some {
        lemma_first_free_fd_from(fds, i + 1);
    }
}

/// Open the ramdisk file named by the bytes `path` for the current process:
/// it gets the lowest free descriptor, or a new one at the end of its table,
/// reading from position 0.
pub fn sys_open<E>(table: &mut ProcessTable<E>, path: &[u8]) -> (r: i64)
    ensures
        final(table).current == old(table).current,
        final(table).next_pid == old(table).next_pid,
        ({
            let ps = old(table).processes@;
            let cur = old(table).current as int;
            let found = first_named((InitRamDisk).spec_files(), path@, 0);
            if !valid_utf8(path@) {
                r == EINVAL && final(table).processes@ == ps
            } else if found is None {
                r == ENOENT && final(table).processes@ == ps
            } else if cur >= ps.len() {
                r == EINVAL && final(table).processes@ == ps
            } else {
                let fds = ps[cur].fd_table@;
                let fd = first_free_fd(fds, 0);
                let entry = Some(FdEntry::File { file_index: found.unwrap() as usize, position: 0 });
                &&& r == fd as i64
                &&& 0 <= fd <= fds.len()
                &&& forall|j: int| 0 <= j < fd ==> (#[trigger] fds[j]) is Some
                &&& fd < fds.len() ==> fds[fd] is None
                &&& final(table).processes@.len() == ps.len()
                &&& forall|j: int|
                    0 <= j < ps.len() && j != cur ==> #[trigger] final(table).processes@[j] == ps[j]
                &&& final(table).processes@[cur].pid == ps[cur].pid
                &&& final(table).processes@[cur].state == ps[cur].state
                &&& final(table).processes@[cur].stack_pointer == ps[cur].stack_pointer
                &&& final(table).processes@[cur].stack_region == ps[cur].stack_region
                &&& final(table).processes@[cur].entry_fn == ps[cur].entry_fn
                &&& final(table).processes@[cur].fd_table@ == if fd < fds.len() {
                    fds.update(fd, entry)
                } else {
                    fds.push(entry)
                }
            }
        }),
{
    let s = match str_from_utf8(path) {
        Some(s) => s,
        None => {
            return EINVAL;
        },
    };
    let file_index = match (InitRamDisk).open(s) {
        Some(idx) => idx,
        None => {
            return ENOENT;
        },
    };
    let current = table.current;
    if current >= table.processes.len() {
        return EINVAL;
    }
    let ghost fds = table.processes@[current as int].fd_table@;
    proof {
        law_open_takes_the_lowest_free_descriptor(fds);
    }
    let n = table.processes[current].fd_table.len();
    let mut fd: usize = 0;
    while fd < n
        invariant
            n == fds.len(),
            current < table.processes@.len(),
            table.processes@[current as int].fd_table@ == fds,
            fd <= n,
            first_free_fd(fds, 0) == first_free_fd(fds, fd as int),
        ensures
            fd <= n,
            first_free_fd(fds, 0) == first_free_fd(fds, fd as int),
            fd < n ==> fds[fd as int] is None,
        decreases n - fd,
    {
        if table.processes[current].fd_table[fd].is_none() {
            break;
        }
        fd = fd + 1;
    }
    let entry = Some(FdEntry::File { file_index, position: 0 });
    if fd < n {
        table.processes[current].fd_table[fd] = entry;
    } else {
        table.processes[current].fd_table.push(entry);
    }
    fd as i64
}

/// Close descriptor `fd` of the current process. The standard streams
/// cannot be closed (`EPERM`); a free or missing descriptor gives `EBADF`.
pub fn sys_close<E>(table: &mut ProcessTable<E>, fd: u64) -> (r: i64)
    ensures
        final(table).current == old(table).current,
        final(table).next_pid == old(table).next_pid,
        ({
            let ps = old(table).processes@;
            let cur = old(table).current as int;
            let i = fd as usize as int;
            if cur >= ps.len() {
                r == EINVAL && final(table).processes@ == ps
            } else if i >= ps[cur].fd_table@.len() {
                r == EBADF && final(table).processes@ == ps
            } else {
                match ps[cur].fd_table@[i] {
                    Some(FdEntry::File { .. }) => {
                        &&& r == 0
                        &&& final(table).processes@.len() == ps.len()
                        &&& forall|j: int|
                            0 <= j < ps.len() && j != cur ==> #[trigger] final(table).processes@[j] == ps[j]
                        &&& final(table).processes@[cur].pid == ps[cur].pid
                        &&& final(table).processes@[cur].state == ps[cur].state
                        &&& final(table).processes@[cur].stack_pointer == ps[cur].stack_pointer
                        &&& final(table).processes@[cur].stack_region == ps[cur].stack_region
                        &&& final(table).processes@[cur].entry_fn == ps[cur].entry_fn
                        &&& final(table).processes@[cur].fd_table@ == ps[cur].fd_table@.update(
                            i,
                            None,
                        )
                    },
                    Some(_) => r == EPERM && final(table).processes@ == ps,
                    None => r == EBADF && final(table).processes@ == ps,
                }
            }
        }),
{
    let fd_idx = fd as usize;
    let current = table.current;
    if current >= table.processes.len() {
        return EINVAL;
    }
    if fd_idx >= table.processes[current].fd_table.len() {
        return EBADF;
    }
    match table.processes[current].fd_table[fd_idx] {
        Some(FdEntry::Stdin) | Some(FdEntry::Stdout) | Some(FdEntry::Stderr) => EPERM,
        Some(FdEntry::File { .. }) => {
            table.processes[current].fd_table[fd_idx] = None;
            0
        },
        None => EBADF,
    }
}

} // verus!
