//! In-memory ramdisk. Files are constant strings compiled into the kernel.
use vstd::prelude::*;
use vstd::string::StringSliceAdditionalSpecFns;

use super::{first_named, read_range, FileInfo, FileSpec, FileSystem};

verus! {

pub const FILE_COUNT: usize = 3;

pub const HELLO_NAME: &'static str = "hello.txt";

pub const HELLO_CONTENTS: &'static str = "Hello from the ramdisk filesystem!\n";

pub const README_NAME: &'static str = "readme.txt";

pub const README_CONTENTS: &'static str = "Welcome to my_os!\nThis is an in-memory filesystem.\nFiles are baked into the kernel binary.\n";

pub const NUMBERS_NAME: &'static str = "numbers.txt";

pub const NUMBERS_CONTENTS: &'static str = "1\n2\n3\n4\n5\n";

/// Name of file `i` of the ramdisk.
pub open spec fn ramdisk_name(i: int) -> &'static str {
    if i == 0 {
        HELLO_NAME
    } else if i == 1 {
        README_NAME
    } else {
        NUMBERS_NAME
    }
}

/// Contents of file `i` of the ramdisk.
pub open spec fn ramdisk_contents(i: int) -> &'static str {
    if i == 0 {
        HELLO_CONTENTS
    } else if i == 1 {
        README_CONTENTS
    } else {
        NUMBERS_CONTENTS
    }
}

fn file_name(i: usize) -> (r: &'static str)
    requires
        i < FILE_COUNT,
    ensures
        r == ramdisk_name(i as int),
{
    if i == 0 {
        HELLO_NAME
    } else if i == 1 {
        README_NAME
    } else {
        NUMBERS_NAME
    }
}

fn file_contents(i: usize) -> (r: &'static str)
    requires
        i < FILE_COUNT,
    ensures
        r == ramdisk_contents(i as int),
{
    if i == 0 {
        HELLO_CONTENTS
    } else if i == 1 {
        README_CONTENTS
    } else {
        NUMBERS_CONTENTS
    }
}

/// Whether two byte strings are equal.
pub fn bytes_equal(a: &[u8], b: &[u8]) -> (r: bool)
    ensures
        r == (a@ == b@),
{
    if a.len() != b.len() {
        return false;
    }
    let mut i: usize = 0;
    while i < a.len()
        invariant
            a@.len() == b@.len(),
            i <= a@.len(),
            forall|j: int| 0 <= j < i ==> a@[j] == b@[j],
        decreases a@.len() - i,
    {
        if a[i] != b[i] {
            return false;
        }
        i = i + 1;
    }
    assert(a@ =~= b@);
    true
}

/// The ramdisk: three files baked into the kernel.
pub struct InitRamDisk;

impl FileSystem for InitRamDisk {
    open spec fn spec_files(&self) -> Seq<FileSpec> {
        Seq::new(
            FILE_COUNT as nat,
            |i: int|
                FileSpec {
                    name: ramdisk_name(i).spec_bytes(),
                    contents: ramdisk_contents(i).spec_bytes(),
                },
        )
    }

    fn open(&self, path: &str) -> (r: Option<usize>) {
        let p = path.as_bytes();
        let mut i: usize = 0;
        while i < FILE_COUNT
            invariant
                i <= FILE_COUNT,
                p@ == path.spec_bytes(),
                first_named(self.spec_files(), path.spec_bytes(), 0) == first_named(
                    self.spec_files(),
                    path.spec_bytes(),
                    i as int,
                ),
            decreases FILE_COUNT - i,
        {
            if bytes_equal(file_name(i).as_bytes(), p) {
                return Some(i);
            }
            i = i + 1;
        }
        None
    }

    fn read(&self, file_index: usize, offset: usize, buf: &mut [u8]) -> (n: usize)
        ensures
            file_index < FILE_COUNT ==> ramdisk_contents(file_index as int).spec_bytes().len()
                <= usize::MAX,
    {
        if file_index >= FILE_COUNT {
            assert(buf@ =~= Seq::<u8>::empty() + buf@.subrange(0, buf@.len() as int));
            return 0;
        }
        let contents = file_contents(file_index).as_bytes();
        if offset >= contents.len() {
            assert(buf@ =~= Seq::<u8>::empty() + buf@.subrange(0, buf@.len() as int));
            return 0;
        }
        let remaining = contents.len() - offset;
        let to_read = if buf.len() < remaining {
            buf.len()
        } else {
            remaining
        };
        let ghost before = buf@;
        let mut i: usize = 0;
        while i < to_read
            invariant
                to_read <= buf@.len(),
                offset + to_read <= contents.len(),
                buf@.len() == before.len(),
                i <= to_read,
                forall|j: int| 0 <= j < i ==> buf@[j] == contents@[offset + j],
                forall|j: int| i <= j < buf@.len() ==> buf@[j] == before[j],
            decreases to_read - i,
        {
            buf[i] = contents[offset + i];
            i = i + 1;
        }
        assert(buf@ =~= contents@.subrange(offset as int, offset + to_read) + before.subrange(
            to_read as int,
            before.len() as int,
        ));
        to_read
    }

    fn file_info(&self, file_index: usize) -> (r: Option<FileInfo>) {
        if file_index >= FILE_COUNT {
            return None;
        }
        Some(FileInfo { name: file_name(file_index), size: file_contents(file_index).as_bytes().len() })
    }

    fn file_count(&self) -> (r: usize) {
        FILE_COUNT
    }

    fn file_at(&self, index: usize) -> (r: Option<FileInfo>) {
        self.file_info(index)
    }
}

} // verus!
