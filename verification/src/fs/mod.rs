//! File system interface and file descriptor entries.
pub mod initrd;

use vstd::prelude::*;
use vstd::string::StringSliceAdditionalSpecFns;

verus! {

/// What a file descriptor refers to.
#[derive(Clone, Copy, Debug, PartialEq, Eq, Structural)]
pub enum FdEntry {
    Stdin,
    Stdout,
    Stderr,
    File { file_index: usize, position: usize },
}

/// Name and size of a file.
#[derive(Clone, Copy, Debug)]
pub struct FileInfo {
    pub name: &'static str,
    pub size: usize,
}

/// One file as the specifications see it: its name and its contents, as bytes.
pub struct FileSpec {
    pub name: Seq<u8>,
    pub contents: Seq<u8>,
}

/// Index of the first file from `i` on whose name is `name`.
pub open spec fn first_named(files: Seq<FileSpec>, name: Seq<u8>, i: int) -> Option<int>
    decreases files.len() - i,
{
    if i < 0 || i >= files.len() {
        None
    } else if files[i].name == name {
        Some(i)
    } else {
        first_named(files, name, i + 1)
    }
}

/// The bytes a read of `len` bytes at `offset` from `contents` yields.
pub open spec fn read_range(contents: Seq<u8>, offset: int, len: int) -> Seq<u8> {
    if offset >= contents.len() {
        Seq::empty()
    } else {
        let n = if len < contents.len() - offset {
            len
        } else {
            contents.len() - offset
        };
        contents.subrange(offset, offset + n)
    }
}

/// Reading on from where a full read stopped continues the file: two reads
/// give the same bytes as one read of their combined length.
pub proof fn law_reads_continue(contents: Seq<u8>, offset: int, a: int, b: int)
    requires
        0 <= offset,
        0 <= a,
        0 <= b,
        read_range(contents, offset, a).len() == a,
    ensures
        read_range(contents, offset, a) + read_range(contents, offset + a, b) == read_range(
            contents,
            offset,
            a + b,
        ),
{
    if offset >= contents.len() {
        assert(read_range(contents, offset, a) =~= Seq::<u8>::empty());
        assert(read_range(contents, offset, a + b) =~= read_range(contents, offset + a, b));
    } else if offset + a >= contents.len() {
        assert(read_range(contents, offset, a) + read_range(contents, offset + a, b) =~= read_range(
            contents,
            offset,
            a + b,
        ));
    } else {
        assert(read_range(contents, offset, a) + read_range(contents, offset + a, b) =~= read_range(
            contents,
            offset,
            a + b,
        ));
    }
}

/// A read that returns fewer bytes than asked for reached the end of the
/// file: a read from where it stopped returns nothing.
pub proof fn law_short_read_reaches_eof(contents: Seq<u8>, offset: int, a: int, b: int)
    requires
        0 <= offset,
        read_range(contents, offset, a).len() < a,
    ensures
        read_range(contents, offset + read_range(contents, offset, a).len(), b).len() == 0,
{
}

/// Looking a name up finds the first file of that name: the file found has
/// the name, no file before it has, and the lookup fails only when no file
/// has it.
pub proof fn law_lookup_finds_the_first_file_named(files: Seq<FileSpec>, name: Seq<u8>)
    ensures
        first_named(files, name, 0) matches Some(i) ==> 0 <= i < files.len() && files[i].name
            == name && forall|j: int| 0 <= j < i ==> (#[trigger] files[j]).name != name,
        first_named(files, name, 0) is None ==> forall|j: int|
            0 <= j < files.len() ==> (#[trigger] files[j]).name != name,
{
    lemma_first_named_from(files, name, 0);
}

/// The lookup from index `i` on.
proof fn lemma_first_named_from(files: Seq<FileSpec>, name: Seq<u8>, i: int)
    requires
        0 <= i <= files.len(),
    ensures
        first_named(files, name, i) matches Some(k) ==> i <= k < files.len() && files[k].name
            == name && forall|j: int| i <= j < k ==> (#[trigger] files[j]).name != name,
        first_named(files, name, i) is None ==> forall|j: int|
            i <= j < files.len() ==> (#[trigger] files[j]).name != name,
    decreases files.len() - i,
{
    if i < files.len() && files[i].name != name {
        lemma_first_named_from(files, name, i + 1);
    }
}

/// A read gives the bytes of the file from the offset on, as many as asked
/// for and as the file still holds past the offset, each in its place.
pub proof fn law_read_gives_the_bytes_at_the_offset(contents: Seq<u8>, offset: int, len: int)
    requires
        0 <= offset,
        0 <= len,
    ensures
        read_range(contents, offset, len).len() == if offset >= contents.len() {
            0
        } else if len < contents.len() - offset {
            len
        } else {
            contents.len() - offset
        },
        forall|k: int|
            0 <= k < read_range(contents, offset, len).len() ==> #[trigger] read_range(
                contents,
                offset,
                len,
            )[k] == contents[offset + k],
{
}

/// The file information that the file at `i` has.
pub open spec fn info_matches(files: Seq<FileSpec>, i: int, r: Option<FileInfo>) -> bool {
    if 0 <= i < files.len() {
        r matches Some(fi) && fi.name.spec_bytes() == files[i].name && fi.size
            == files[i].contents.len()
    } else {
        r is None
    }
}

/// A read-only file system: a list of named files.
pub trait FileSystem {
    /// The files, in index order.
    spec fn spec_files(&self) -> Seq<FileSpec>;

    /// The index of the file named `path`, if there is one.
    fn open(&self, path: &str) -> (r: Option<usize>)
        ensures
            r matches Some(i) ==> first_named(self.spec_files(), path.spec_bytes(), 0) == Some(
                i as int,
            ),
            r is None ==> first_named(self.spec_files(), path.spec_bytes(), 0) is None,
    ;

    /// Copy bytes of file `file_index` from `offset` into the front of `buf`;
    /// returns how many. Nothing is read past the end of the file, and nothing
    /// of an index that names no file.
    fn read(&self, file_index: usize, offset: usize, buf: &mut [u8]) -> (n: usize)
        ensures
            final(buf)@.len() == old(buf)@.len(),
            ({
                let files = self.spec_files();
                let bytes = if file_index < files.len() {
                    read_range(files[file_index as int].contents, offset as int, old(buf)@.len() as int)
                } else {
                    Seq::<u8>::empty()
                };
                &&& n == bytes.len()
                &&& final(buf)@ == bytes + old(buf)@.subrange(n as int, old(buf)@.len() as int)
            }),
    ;

    /// Name and size of file `file_index`.
    fn file_info(&self, file_index: usize) -> (r: Option<FileInfo>)
        ensures
            info_matches(self.spec_files(), file_index as int, r),
    ;

    /// Number of files.
    fn file_count(&self) -> (r: usize)
        ensures
            r == self.spec_files().len(),
    ;

    /// Name and size of the file at `index`.
    fn file_at(&self, index: usize) -> (r: Option<FileInfo>)
        ensures
            info_matches(self.spec_files(), index as int, r),
    ;
}

} // verus!
