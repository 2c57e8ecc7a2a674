# my_os

The verified core of a small x86_64 teaching kernel (single core, Ring 0,
ramdisk, round-robin scheduler, `int 0x80` syscalls, a shell), written in
Verus.

- `src/` is the library, checked by Verus:
  - `allocator/`: `align_up` and the request `Layout`; the bump allocator; the
    coalescing free-list allocator; the fixed-size block allocator that falls
    back on it.
  - `frame_allocator.rs`: the bitmap of physical frames.
  - `keyboard.rs`: the ring buffer between the keyboard interrupt and the shell.
  - `process/`: the process table, stack slots with guard pages, blocking and
    waking, and the scheduler's round-robin decision.
  - `fs/`: the file-system interface and the three-file ramdisk.
  - `syscall/`: syscall numbers and error codes, pointer validation, decoding,
    and the results of `read`, `write`, `open`, `close` and `getpid`.
  - `shell.rs`: line editing, command parsing and the steps of `cat`.
- `app/` is the kernel around it: boot, descriptor tables, page tables, the
  serial port, the context switch, the syscall trap and the shell's I/O.
- `tests/` runs the library on concrete cases.
