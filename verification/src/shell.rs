//! The shell's decisions: line editing, command parsing, the steps of `cat`
//! and the uptime formula. Reading keys, printing and making syscalls is left
//! to the caller.
use vstd::prelude::*;
use vstd::string::StringSliceAdditionalSpecFns;

use crate::fs::initrd::bytes_equal;
use crate::syscall::{EFAULT, EINVAL, ENOENT};

verus! {

pub const MAX_LINE_LENGTH: usize = 256;

/// Timer ticks per second (the PIT runs at about 18.2 Hz).
pub const TICKS_PER_SECOND: u64 = 18;

/// What the shell does with a typed key.
#[derive(Clone, Copy, Debug, PartialEq, Eq, Structural)]
pub enum LineAction {
    /// Enter: print a newline; the line is complete.
    Submit,
    /// A printable character was added: echo it.
    Echo(u8),
    /// Backspace removed a character: erase it on screen.
    Erase,
    /// Nothing to do.
    Ignore,
}

/// The line being typed into a buffer of `buf_len` bytes: it holds at most
/// `buf_len - 1` characters.
pub struct LineEditor {
    line: Vec<u8>,
    buf_len: usize,
}

/// A byte the shell accepts into a line: printable ASCII.
pub open spec fn is_printable(c: u8) -> bool {
    0x20 <= c <= 0x7E
}

/// The line after the key `c` is typed on `line`, for a buffer of `buf_len`
/// bytes: backspace or DEL removes the last character, a printable character
/// is added while the line is shorter than `buf_len - 1`, and every other key
/// leaves it.
pub open spec fn line_step(line: Seq<u8>, c: u8, buf_len: int) -> Seq<u8> {
    if c == 0x08 || c == 0x7F {
        if line.len() > 0 {
            line.drop_last()
        } else {
            line
        }
    } else if is_printable(c) && line.len() < buf_len - 1 {
        line.push(c)
    } else {
        line
    }
}

/// The line after the keys `keys` are typed, in order, on an empty line, for
/// a buffer of `buf_len` bytes.
pub open spec fn line_after(keys: Seq<u8>, buf_len: int) -> Seq<u8>
    decreases keys.len(),
{
    if keys.len() == 0 {
        Seq::empty()
    } else {
        line_step(line_after(keys.drop_last(), buf_len), keys.last(), buf_len)
    }
}

impl View for LineEditor {
    type V = Seq<u8>;

    closed spec fn view(&self) -> Seq<u8> {
        self.line@
    }
}

impl LineEditor {
    /// Bytes of the buffer the line goes into.
    pub closed spec fn spec_buf_len(&self) -> int {
        self.buf_len as int
    }

    /// The buffer has a byte, and the line leaves its last byte free.
    pub open spec fn wf(&self) -> bool {
        &&& self.spec_buf_len() >= 1
        &&& self@.len() < self.spec_buf_len()
    }

    /// An empty line for the shell's buffer of `MAX_LINE_LENGTH` bytes.
    pub fn new() -> (r: LineEditor)
        ensures
            r@ == Seq::<u8>::empty(),
            r.spec_buf_len() == MAX_LINE_LENGTH,
            r.wf(),
    {
        LineEditor { line: Vec::new(), buf_len: MAX_LINE_LENGTH }
    }

    /// An empty line for a buffer of `buf_len` bytes.
    pub fn with_buffer_len(buf_len: usize) -> (r: LineEditor)
        requires
            buf_len >= 1,
        ensures
            r@ == Seq::<u8>::empty(),
            r.spec_buf_len() == buf_len,
            r.wf(),
    {
        LineEditor { line: Vec::new(), buf_len }
    }

    /// Handle one typed key: Enter completes the line, backspace or DEL
    /// removes the last character, a printable character is added while
    /// there is room, and anything else is ignored.
    pub fn feed(&mut self, c: u8) -> (r: LineAction)
        requires
            old(self).wf(),
        ensures
            final(self).wf(),
            final(self).spec_buf_len() == old(self).spec_buf_len(),
            c == 0x0A ==> r == LineAction::Submit && final(self)@ == old(self)@,
            (c == 0x08 || c == 0x7F) ==> if old(self)@.len() > 0 {
                r == LineAction::Erase && final(self)@ == old(self)@.drop_last()
            } else {
                r == LineAction::Ignore && final(self)@ == old(self)@
            },
            is_printable(c) ==> if old(self)@.len() < old(self).spec_buf_len() - 1 {
                r == LineAction::Echo(c) && final(self)@ == old(self)@.push(c)
            } else {
                r == LineAction::Ignore && final(self)@ == old(self)@
            },
            !(c == 0x0A || c == 0x08 || c == 0x7F || is_printable(c)) ==> r == LineAction::Ignore
                && final(self)@ == old(self)@,
            final(self)@ == line_step(old(self)@, c, old(self).spec_buf_len()),
            0x20 <= c <= 0x7E && old(self)@.len() < old(self).spec_buf_len() - 1 ==> r
                == LineAction::Echo(c) && final(self)@ == old(self)@.push(c),
            0x20 <= c <= 0x7E && old(self)@.len() >= old(self).spec_buf_len() - 1 ==> r
                == LineAction::Ignore && final(self)@ == old(self)@,
            !(c == 0x0A || c == 0x08 || c == 0x7F || 0x20 <= c <= 0x7E) ==> r == LineAction::Ignore
                && final(self)@ == old(self)@,
    {
        if c == 0x0A {
            LineAction::Submit
        } else if c == 0x08 || c == 0x7F {
            if self.line.len() > 0 {
                self.line.pop();
                LineAction::Erase
            } else {
                LineAction::Ignore
            }
        } else if 0x20 <= c && c <= 0x7E {
            if self.line.len() < self.buf_len - 1 {
                self.line.push(c);
                LineAction::Echo(c)
            } else {
                LineAction::Ignore
            }
        } else {
            LineAction::Ignore
        }
    }

    /// Hand over the completed line and start a new one.
    pub fn take_line(&mut self) -> (r: Vec<u8>)
        requires
            old(self).wf(),
        ensures
            r@ == old(self)@,
            final(self)@ == Seq::<u8>::empty(),
            final(self).spec_buf_len() == old(self).spec_buf_len(),
            final(self).wf(),
    {
        let mut line: Vec<u8> = Vec::new();
        std::mem::swap(&mut line, &mut self.line);
        line
    }
}

/// What one key does to a line in a buffer of `buf_len` bytes: every byte
/// from space (0x20) to tilde (0x7E) is appended while the line is shorter
/// than `buf_len - 1` and dropped once it is not; backspace (0x08) and DEL
/// (0x7F) remove the last character of a line that has one; every other byte
/// leaves the line as it is.
pub proof fn law_line_step(line: Seq<u8>, c: u8, buf_len: int)
    ensures
        0x20 <= c <= 0x7E && line.len() < buf_len - 1 ==> line_step(line, c, buf_len) == line.push(c),
        0x20 <= c <= 0x7E && line.len() >= buf_len - 1 ==> line_step(line, c, buf_len) == line,
        (c == 0x08 || c == 0x7F) && line.len() > 0 ==> line_step(line, c, buf_len) == line.drop_last(),
        (c == 0x08 || c == 0x7F) && line.len() == 0 ==> line_step(line, c, buf_len) == line,
        !(c == 0x08 || c == 0x7F || 0x20 <= c <= 0x7E) ==> line_step(line, c, buf_len) == line,
{
}

/// Keys fed one by one to an editor for a buffer of `buf_len` bytes that
/// starts with an empty line build `line_after` of them: when `lines[i + 1]`
/// is what `feed` makes of `lines[i]` and key `keys[i]`, as its contract
/// states, the line after the first `n` keys is `line_after` of those keys.
/// So the line that Enter completes is `line_after` of the keys typed before
/// it.
pub proof fn law_fed_keys_build_the_line(keys: Seq<u8>, lines: Seq<Seq<u8>>, buf_len: int)
    requires
        lines.len() == keys.len() + 1,
        lines[0] == Seq::<u8>::empty(),
        forall|i: int|
            0 <= i < keys.len() ==> lines[i + 1] == line_step(lines[i], #[trigger] keys[i], buf_len),
    ensures
        forall|n: int|
            0 <= n <= keys.len() ==> #[trigger] lines[n] == line_after(keys.subrange(0, n), buf_len),
        lines[keys.len() as int] == line_after(keys, buf_len),
{
    assert forall|n: int| 0 <= n <= keys.len() implies #[trigger] lines[n] == line_after(
        keys.subrange(0, n),
        buf_len,
    ) by {
        lemma_prefix_lines(keys, lines, buf_len, n);
    }
    assert(keys.subrange(0, keys.len() as int) =~= keys);
}

/// The line after the first `n` fed keys, by induction on `n`.
proof fn lemma_prefix_lines(keys: Seq<u8>, lines: Seq<Seq<u8>>, buf_len: int, n: int)
    requires
        lines.len() == keys.len() + 1,
        lines[0] == Seq::<u8>::empty(),
        forall|i: int|
            0 <= i < keys.len() ==> lines[i + 1] == line_step(lines[i], #[trigger] keys[i], buf_len),
        0 <= n <= keys.len(),
    ensures
        lines[n] == line_after(keys.subrange(0, n), buf_len),
    decreases n,
{
    if n > 0 {
        lemma_prefix_lines(keys, lines, buf_len, n - 1);
        assert(keys.subrange(0, n).drop_last() =~= keys.subrange(0, n - 1));
        assert(keys.subrange(0, n).last() == keys[n - 1]);
    } else {
        assert(keys.subrange(0, 0) =~= Seq::<u8>::empty());
    }
}

/// A line always leaves the last byte of its buffer free, whatever is typed:
/// it has at most `buf_len - 1` characters.
pub proof fn law_line_stays_short(keys: Seq<u8>, buf_len: int)
    requires
        buf_len >= 1,
    ensures
        line_after(keys, buf_len).len() < buf_len,
    decreases keys.len(),
{
    if keys.len() > 0 {
        law_line_stays_short(keys.drop_last(), buf_len);
    }
}

/// Printable keys, fewer than the buffer's bytes, give the line they spell.
pub proof fn law_printable_keys_are_kept(keys: Seq<u8>, buf_len: int)
    requires
        keys.len() < buf_len,
        forall|i: int| 0 <= i < keys.len() ==> is_printable(#[trigger] keys[i]),
    ensures
        line_after(keys, buf_len) == keys,
    decreases keys.len(),
{
    if keys.len() > 0 {
        let front = keys.drop_last();
        assert forall|i: int| 0 <= i < front.len() implies is_printable(#[trigger] front[i]) by {
            assert(front[i] == keys[i]);
        }
        law_printable_keys_are_kept(front, buf_len);
        assert(front.push(keys.last()) =~= keys);
    }
}

/// Backspace right after a printable character that was added takes it
/// away again: the line is as before.
pub proof fn law_erase_undoes_echo(line: Seq<u8>, c: u8, buf_len: int)
    requires
        line.len() < buf_len - 1,
        is_printable(c),
    ensures
        line_step(line_step(line, c, buf_len), 0x08, buf_len) == line,
{
    assert(line.push(c).drop_last() =~= line);
}

/// The bytes `a b c` are the UTF-8 encoding of a three-byte whitespace
/// character: U+1680, U+2000 to U+200A, U+2028, U+2029, U+202F, U+205F or
/// U+3000.
pub open spec fn is_ws3(a: u8, b: u8, c: u8) -> bool {
    ||| a == 0xE1 && b == 0x9A && c == 0x80
    ||| a == 0xE2 && b == 0x80 && (0x80 <= c <= 0x8A || c == 0xA8 || c == 0xA9 || c == 0xAF)
    ||| a == 0xE2 && b == 0x81 && c == 0x9F
    ||| a == 0xE3 && b == 0x80 && c == 0x80
}

/// Length in bytes of the whitespace character (the Unicode `White_Space`
/// property, as `char::is_whitespace` has it) whose UTF-8 encoding starts at
/// byte `i` of `s`; 0 if none starts there. One byte: tab, line feed,
/// vertical tab, form feed, carriage return, space; two bytes: U+0085 and
/// U+00A0; three bytes: those of `is_ws3`.
pub open spec fn ws_len_at(s: Seq<u8>, i: int) -> int {
    if i < 0 || i >= s.len() {
        0
    } else if s[i] == 0x20 || 0x09 <= s[i] <= 0x0D {
        1
    } else if i + 1 < s.len() && s[i] == 0xC2 && (s[i + 1] == 0x85 || s[i + 1] == 0xA0) {
        2
    } else if i + 2 < s.len() && is_ws3(s[i], s[i + 1], s[i + 2]) {
        3
    } else {
        0
    }
}

/// Length in bytes of the whitespace character whose UTF-8 encoding ends just
/// before byte `j` of `s`; 0 if none ends there.
pub open spec fn ws_len_before(s: Seq<u8>, j: int) -> int {
    if j <= 0 || j > s.len() {
        0
    } else if s[j - 1] == 0x20 || 0x09 <= s[j - 1] <= 0x0D {
        1
    } else if j >= 2 && s[j - 2] == 0xC2 && (s[j - 1] == 0x85 || s[j - 1] == 0xA0) {
        2
    } else if j >= 3 && is_ws3(s[j - 3], s[j - 2], s[j - 1]) {
        3
    } else {
        0
    }
}

/// Where `s` goes on from index `i` once its leading whitespace is skipped.
pub open spec fn skip_whitespace(s: Seq<u8>, i: int) -> int
    decreases s.len() - i,
{
    if i < 0 || i >= s.len() {
        i
    } else if ws_len_at(s, i) > 0 {
        skip_whitespace(s, i + ws_len_at(s, i))
    } else {
        i
    }
}

/// One past the last byte of `s[..j]` that is not part of trailing
/// whitespace.
pub open spec fn end_without_whitespace(s: Seq<u8>, j: int) -> int
    decreases j,
{
    if j <= 0 || j > s.len() {
        j
    } else if ws_len_before(s, j) > 0 {
        end_without_whitespace(s, j - ws_len_before(s, j))
    } else {
        j
    }
}

/// `s` with leading and trailing whitespace removed, as `str::trim` does.
pub open spec fn trim_whitespace(s: Seq<u8>) -> Seq<u8> {
    let a = skip_whitespace(s, 0);
    let b = end_without_whitespace(s, s.len() as int);
    if a < b {
        s.subrange(a, b)
    } else {
        Seq::empty()
    }
}

/// Index of the first space of `s` from `i` on, or `s.len()`.
pub open spec fn first_space(s: Seq<u8>, i: int) -> int
    decreases s.len() - i,
{
    if i < 0 || i >= s.len() {
        s.len() as int
    } else if s[i] == 0x20 {
        i
    } else {
        first_space(s, i + 1)
    }
}

/// The command word of a line: the trimmed line up to its first space.
pub open spec fn command_word(line: Seq<u8>) -> Seq<u8> {
    let t = trim_whitespace(line);
    t.subrange(0, first_space(t, 0))
}

/// The arguments of a line: what follows the first space of the trimmed line,
/// trimmed again.
pub open spec fn command_args(line: Seq<u8>) -> Seq<u8> {
    let t = trim_whitespace(line);
    let p = first_space(t, 0);
    if p < t.len() {
        trim_whitespace(t.subrange(p + 1, t.len() as int))
    } else {
        Seq::empty()
    }
}

/// How a line splits into command and arguments: the command word holds no
/// space; a line without a space byte has no arguments; and arguments, when
/// there are any, are bytes of the line that stand after a space that follows
/// the command word directly.
pub proof fn law_command_split(line: Seq<u8>)
    ensures
        forall|i: int|
            0 <= i < command_word(line).len() ==> #[trigger] command_word(line)[i] != 0x20,
        (forall|i: int| 0 <= i < line.len() ==> #[trigger] line[i] != 0x20) ==> command_args(
            line,
        ).len() == 0,
        command_args(line).len() > 0 ==> exists|p: int, k: int|
            0 <= p < k && k + command_args(line).len() <= line.len() && #[trigger] line[p] == 0x20
                && p >= command_word(line).len() && line.subrange(p - command_word(line).len(), p)
                == command_word(line) && #[trigger] line.subrange(k, k + command_args(line).len())
                == command_args(line),
{
    let t = trim_whitespace(line);
    let a = skip_whitespace(line, 0);
    let b = end_without_whitespace(line, line.len() as int);
    lemma_skip_whitespace(line, 0);
    lemma_end_without_whitespace(line, line.len() as int);
    lemma_first_space(t, 0);
    let q = first_space(t, 0);
    let w = command_word(line);
    assert(w == t.subrange(0, q));
    assert forall|i: int| 0 <= i < w.len() implies #[trigger] w[i] != 0x20 by {
        assert(w[i] == t[i]);
    }
    if q < t.len() {
        assert(a < b);
        assert(t == line.subrange(a, b));
        let rest = t.subrange(q + 1, t.len() as int);
        let a2 = skip_whitespace(rest, 0);
        let b2 = end_without_whitespace(rest, rest.len() as int);
        lemma_skip_whitespace(rest, 0);
        lemma_end_without_whitespace(rest, rest.len() as int);
        let args = command_args(line);
        assert(args == trim_whitespace(rest));
        assert(line[a + q] == t[q]);
        if args.len() > 0 {
            assert(a2 < b2);
            let p = a + q;
            let k = a + q + 1 + a2;
            assert(line.subrange(p - w.len(), p) =~= w);
            assert(line.subrange(k, k + args.len()) =~= args);
            assert(line[p] == 0x20);
        }
        if forall|i: int| 0 <= i < line.len() ==> #[trigger] line[i] != 0x20 {
            assert(line[a + q] != 0x20);
        }
    }
}

/// Trimming cuts whitespace off both ends and nothing else: the result is a
/// run of bytes of the input; it neither starts nor ends with a space, tab,
/// line feed, vertical tab, form feed, carriage return, U+0085 or U+00A0;
/// and a line of printable non-space ASCII comes back whole.
pub proof fn law_trim_strips_whitespace(s: Seq<u8>)
    ensures
        exists|a: int|
            0 <= a && a + trim_whitespace(s).len() <= s.len() && #[trigger] s.subrange(
                a,
                a + trim_whitespace(s).len(),
            ) == trim_whitespace(s),
        trim_whitespace(s).len() > 0 ==> {
            let t = trim_whitespace(s);
            &&& !(t[0] == 0x20 || 0x09 <= t[0] <= 0x0D)
            &&& !(t.last() == 0x20 || 0x09 <= t.last() <= 0x0D)
        },
        trim_whitespace(s).len() >= 2 ==> {
            let t = trim_whitespace(s);
            &&& !(t[0] == 0xC2 && (t[1] == 0x85 || t[1] == 0xA0))
            &&& !(t[t.len() - 2] == 0xC2 && (t.last() == 0x85 || t.last() == 0xA0))
        },
        (forall|i: int| 0 <= i < s.len() ==> 0x21 <= #[trigger] s[i] <= 0x7E) ==> trim_whitespace(s)
            == s,
{
    let a = skip_whitespace(s, 0);
    let b = end_without_whitespace(s, s.len() as int);
    lemma_skip_whitespace(s, 0);
    lemma_end_without_whitespace(s, s.len() as int);
    lemma_skip_whitespace_stops(s, 0);
    lemma_end_without_whitespace_stops(s, s.len() as int);
    let t = trim_whitespace(s);
    if a < b {
        assert(s.subrange(a, a + t.len()) =~= t);
        assert(t[0] == s[a]);
        assert(t.last() == s[b - 1]);
        if t.len() >= 2 {
            assert(t[1] == s[a + 1]);
            assert(t[t.len() - 2] == s[b - 2]);
        }
    } else {
        assert(s.subrange(0, 0 + t.len() as int) =~= t);
    }
    if forall|i: int| 0 <= i < s.len() ==> 0x21 <= #[trigger] s[i] <= 0x7E {
        if s.len() > 0 {
            assert(ws_len_at(s, 0) == 0);
            assert(ws_len_before(s, s.len() as int) == 0);
            assert(s.subrange(0, s.len() as int) =~= s);
        } else {
            assert(t =~= s);
        }
    }
}

/// The skip over leading whitespace stops at a byte that starts no
/// whitespace character, or at the end.
proof fn lemma_skip_whitespace_stops(s: Seq<u8>, i: int)
    requires
        0 <= i <= s.len(),
    ensures
        skip_whitespace(s, i) < s.len() ==> ws_len_at(s, skip_whitespace(s, i)) == 0,
    decreases s.len() - i,
{
    if i < s.len() && ws_len_at(s, i) > 0 {
        lemma_skip_whitespace_stops(s, i + ws_len_at(s, i));
    }
}

/// The cut of trailing whitespace stops after a byte that ends no whitespace
/// character, or at the start.
proof fn lemma_end_without_whitespace_stops(s: Seq<u8>, j: int)
    requires
        0 <= j <= s.len(),
    ensures
        end_without_whitespace(s, j) > 0 ==> ws_len_before(s, end_without_whitespace(s, j)) == 0,
    decreases j,
{
    if j > 0 && ws_len_before(s, j) > 0 {
        lemma_end_without_whitespace_stops(s, j - ws_len_before(s, j));
    }
}

/// The skip over leading whitespace stays inside the sequence.
proof fn lemma_skip_whitespace(s: Seq<u8>, i: int)
    requires
        0 <= i <= s.len(),
    ensures
        i <= skip_whitespace(s, i) <= s.len(),
    decreases s.len() - i,
{
    if i < s.len() && ws_len_at(s, i) > 0 {
        lemma_skip_whitespace(s, i + ws_len_at(s, i));
    }
}

/// The cut of trailing whitespace stays inside the sequence.
proof fn lemma_end_without_whitespace(s: Seq<u8>, j: int)
    requires
        0 <= j <= s.len(),
    ensures
        0 <= end_without_whitespace(s, j) <= j,
    decreases j,
{
    if j > 0 && ws_len_before(s, j) > 0 {
        lemma_end_without_whitespace(s, j - ws_len_before(s, j));
    }
}

/// The search for a space from `i` on passes only other bytes and stops at a
/// space, or at the end.
proof fn lemma_first_space(s: Seq<u8>, i: int)
    requires
        0 <= i <= s.len(),
    ensures
        i <= first_space(s, i) <= s.len(),
        first_space(s, i) < s.len() ==> s[first_space(s, i)] == 0x20,
        forall|j: int| i <= j < first_space(s, i) ==> #[trigger] s[j] != 0x20,
    decreases s.len() - i,
{
    if i < s.len() && s[i] != 0x20 {
        lemma_first_space(s, i + 1);
    }
}

/// The built-in commands.
#[derive(Clone, Copy, Debug, PartialEq, Eq, Structural)]
pub enum CommandKind {
    Help,
    Echo,
    Clear,
    Ls,
    Cat,
    Pid,
    Uptime,
    Exit,
    /// An empty line: nothing to do.
    Empty,
    Unknown,
}

/// Which command a command word names.
pub open spec fn kind_of(word: Seq<u8>) -> CommandKind {
    if word == "help".spec_bytes() {
        CommandKind::Help
    } else if word == "echo".spec_bytes() {
        CommandKind::Echo
    } else if word == "clear".spec_bytes() {
        CommandKind::Clear
    } else if word == "ls".spec_bytes() {
        CommandKind::Ls
    } else if word == "cat".spec_bytes() {
        CommandKind::Cat
    } else if word == "pid".spec_bytes() {
        CommandKind::Pid
    } else if word == "uptime".spec_bytes() {
        CommandKind::Uptime
    } else if word == "exit".spec_bytes() {
        CommandKind::Exit
    } else if word.len() == 0 {
        CommandKind::Empty
    } else {
        CommandKind::Unknown
    }
}

/// A parsed command line.
pub struct ParsedCommand {
    pub kind: CommandKind,
    /// The command word, as typed.
    pub word: Vec<u8>,
    pub args: Vec<u8>,
}

fn copy_range(s: &[u8], from: usize, to: usize) -> (r: Vec<u8>)
    requires
        from <= to <= s@.len(),
    ensures
        r@ == s@.subrange(from as int, to as int),
{
    let mut v: Vec<u8> = Vec::new();
    let mut i = from;
    while i < to
        invariant
            from <= i <= to,
            to <= s@.len(),
            v@ == s@.subrange(from as int, i as int),
        decreases to - i,
    {
        v.push(s[i]);
        i = i + 1;
    }
    v
}

/// Three bytes encode a three-byte whitespace character.
fn ws3(a: u8, b: u8, c: u8) -> (r: bool)
    ensures
        r == is_ws3(a, b, c),
{
    (a == 0xE1 && b == 0x9A && c == 0x80) || (a == 0xE2 && b == 0x80 && ((0x80 <= c && c
        <= 0x8A) || c == 0xA8 || c == 0xA9 || c == 0xAF)) || (a == 0xE2 && b == 0x81 && c
        == 0x9F) || (a == 0xE3 && b == 0x80 && c == 0x80)
}

/// Length of the whitespace character that starts at byte `i` of `s`.
fn whitespace_at(s: &[u8], i: usize) -> (r: usize)
    requires
        i < s@.len(),
    ensures
        r == ws_len_at(s@, i as int),
{
    let c = s[i];
    if c == 0x20 || (0x09 <= c && c <= 0x0D) {
        1
    } else if s.len() - i > 1 && c == 0xC2 && (s[i + 1] == 0x85 || s[i + 1] == 0xA0) {
        2
    } else if s.len() - i > 2 && ws3(c, s[i + 1], s[i + 2]) {
        3
    } else {
        0
    }
}

/// Length of the whitespace character that ends just before byte `j` of `s`.
fn whitespace_before(s: &[u8], j: usize) -> (r: usize)
    requires
        0 < j <= s@.len(),
    ensures
        r == ws_len_before(s@, j as int),
{
    let c = s[j - 1];
    if c == 0x20 || (0x09 <= c && c <= 0x0D) {
        1
    } else if j >= 2 && s[j - 2] == 0xC2 && (c == 0x85 || c == 0xA0) {
        2
    } else if j >= 3 && ws3(s[j - 3], s[j - 2], c) {
        3
    } else {
        0
    }
}

/// `s` with leading and trailing whitespace removed.
pub fn trim(s: &[u8]) -> (r: Vec<u8>)
    ensures
        r@ == trim_whitespace(s@),
{
    let mut a: usize = 0;
    while a < s.len()
        invariant
            a <= s@.len(),
            skip_whitespace(s@, 0) == skip_whitespace(s@, a as int),
        ensures
            a <= s@.len(),
            skip_whitespace(s@, 0) == a,
        decreases s@.len() - a,
    {
        let w = whitespace_at(s, a);
        if w == 0 {
            break;
        }
        a = a + w;
    }
    let mut b: usize = s.len();
    while b > 0
        invariant
            b <= s@.len(),
            end_without_whitespace(s@, s@.len() as int) == end_without_whitespace(s@, b as int),
        ensures
            b <= s@.len(),
            end_without_whitespace(s@, s@.len() as int) == b,
        decreases b,
    {
        let w = whitespace_before(s, b);
        if w == 0 {
            break;
        }
        b = b - w;
    }
    if a < b {
        copy_range(s, a, b)
    } else {
        Vec::new()
    }
}

/// Split a typed line into its command and arguments.
pub fn parse_command(line: &[u8]) -> (r: ParsedCommand)
    ensures
        r.word@ == command_word(line@),
        r.args@ == command_args(line@),
        r.kind == kind_of(command_word(line@)),
        forall|i: int| 0 <= i < r.word@.len() ==> #[trigger] r.word@[i] != 0x20,
        (forall|i: int| 0 <= i < line@.len() ==> #[trigger] line@[i] != 0x20) ==> r.args@.len() == 0,
        r.args@.len() > 0 ==> exists|p: int, k: int|
            0 <= p < k && k + r.args@.len() <= line@.len() && #[trigger] line@[p] == 0x20 && p
                >= r.word@.len() && line@.subrange(p - r.word@.len(), p) == r.word@
                && #[trigger] line@.subrange(k, k + r.args@.len()) == r.args@,
{
    proof {
        law_command_split(line@);
    }
    let t = trim(line);
    let ts = t.as_slice();
    let mut p: usize = 0;
    while p < ts.len() && ts[p] != 0x20
        invariant
            p <= ts@.len(),
            ts@ == trim_whitespace(line@),
            first_space(ts@, 0) == first_space(ts@, p as int),
        decreases ts@.len() - p,
    {
        p = p + 1;
    }
    let word = copy_range(ts, 0, p);
    let args = if p < ts.len() {
        let rest = copy_range(ts, p + 1, ts.len());
        trim(rest.as_slice())
    } else {
        Vec::new()
    };
    let w = word.as_slice();
    let kind = if bytes_equal(w, "help".as_bytes()) {
        CommandKind::Help
    } else if bytes_equal(w, "echo".as_bytes()) {
        CommandKind::Echo
    } else if bytes_equal(w, "clear".as_bytes()) {
        CommandKind::Clear
    } else if bytes_equal(w, "ls".as_bytes()) {
        CommandKind::Ls
    } else if bytes_equal(w, "cat".as_bytes()) {
        CommandKind::Cat
    } else if bytes_equal(w, "pid".as_bytes()) {
        CommandKind::Pid
    } else if bytes_equal(w, "uptime".as_bytes()) {
        CommandKind::Uptime
    } else if bytes_equal(w, "exit".as_bytes()) {
        CommandKind::Exit
    } else if w.len() == 0 {
        CommandKind::Empty
    } else {
        CommandKind::Unknown
    };
    ParsedCommand { kind, word, args }
}

/// Why `cat` could not open its file.
#[derive(Clone, Copy, Debug, PartialEq, Eq, Structural)]
pub enum OpenFailure {
    NoSuchFile,
    BadPointer,
    InvalidName,
    Other(i64),
}

/// Where `cat` is: what syscall it waits on the result of.
#[derive(Clone, Copy, Debug, PartialEq, Eq, Structural)]
pub enum CatState {
    AwaitOpen,
    AwaitRead(u64),
    AwaitWrite(u64),
    AwaitClose,
    Done,
}

/// What `cat` asks the caller to do next.
#[derive(Clone, Copy, Debug, PartialEq, Eq, Structural)]
pub enum CatAction {
    /// No file name given: print the usage line.
    PrintUsage,
    /// Open the file named by the arguments.
    Open,
    /// Report why the file could not be opened.
    ReportOpenFailure(OpenFailure),
    /// Read a chunk from `fd`.
    Read(u64),
    /// Write the `len` bytes just read to stdout.
    Write { len: u64 },
    /// Report the read error `err`, then close `fd`.
    ReportReadErrorThenClose { err: i64, fd: u64 },
    /// Report the write error `err`, then close `fd`.
    ReportWriteErrorThenClose { err: i64, fd: u64 },
    /// Close `fd`.
    Close(u64),
    /// Warn that closing failed with `err`.
    WarnCloseFailed(i64),
    /// Nothing more to do.
    Finish,
}

/// The first step of `cat`.
pub fn cat_start(args: &[u8]) -> (r: (CatState, CatAction))
    ensures
        args@.len() == 0 ==> r == (CatState::Done, CatAction::PrintUsage),
        args@.len() > 0 ==> r == (CatState::AwaitOpen, CatAction::Open),
{
    if args.len() == 0 {
        (CatState::Done, CatAction::PrintUsage)
    } else {
        (CatState::AwaitOpen, CatAction::Open)
    }
}

/// The open failure an `open` result reports.
pub open spec fn open_failure(code: i64) -> OpenFailure {
    if code == ENOENT {
        OpenFailure::NoSuchFile
    } else if code == EFAULT {
        OpenFailure::BadPointer
    } else if code == EINVAL {
        OpenFailure::InvalidName
    } else {
        OpenFailure::Other(code)
    }
}

/// The next step of `cat`, given the result of the syscall it waited on:
/// open, then read and write chunks until end of file or an error, and
/// always close the file once it was opened.
pub fn cat_step(state: CatState, result: i64) -> (r: (CatState, CatAction))
    ensures
        r == match state {
            CatState::AwaitOpen => if result < 0 {
                (CatState::Done, CatAction::ReportOpenFailure(open_failure(result)))
            } else {
                (CatState::AwaitRead(result as u64), CatAction::Read(result as u64))
            },
            CatState::AwaitRead(fd) => if result < 0 {
                (CatState::AwaitClose, CatAction::ReportReadErrorThenClose { err: result, fd })
            } else if result == 0 {
                (CatState::AwaitClose, CatAction::Close(fd))
            } else {
                (CatState::AwaitWrite(fd), CatAction::Write { len: result as u64 })
            },
            CatState::AwaitWrite(fd) => if result < 0 {
                (CatState::AwaitClose, CatAction::ReportWriteErrorThenClose { err: result, fd })
            } else {
                (CatState::AwaitRead(fd), CatAction::Read(fd))
            },
            CatState::AwaitClose => if result < 0 {
                (CatState::Done, CatAction::WarnCloseFailed(result))
            } else {
                (CatState::Done, CatAction::Finish)
            },
            CatState::Done => (CatState::Done, CatAction::Finish),
        },
{
    match state {
        CatState::AwaitOpen => {
            if result < 0 {
                let failure = if result == ENOENT {
                    OpenFailure::NoSuchFile
                } else if result == EFAULT {
                    OpenFailure::BadPointer
                } else if result == EINVAL {
                    OpenFailure::InvalidName
                } else {
                    OpenFailure::Other(result)
                };
                (CatState::Done, CatAction::ReportOpenFailure(failure))
            } else {
                (CatState::AwaitRead(result as u64), CatAction::Read(result as u64))
            }
        },
        CatState::AwaitRead(fd) => {
            if result < 0 {
                (CatState::AwaitClose, CatAction::ReportReadErrorThenClose { err: result, fd })
            } else if result == 0 {
                (CatState::AwaitClose, CatAction::Close(fd))
            } else {
                (CatState::AwaitWrite(fd), CatAction::Write { len: result as u64 })
            }
        },
        CatState::AwaitWrite(fd) => {
            if result < 0 {
                (CatState::AwaitClose, CatAction::ReportWriteErrorThenClose { err: result, fd })
            } else {
                (CatState::AwaitRead(fd), CatAction::Read(fd))
            }
        },
        CatState::AwaitClose => {
            if result < 0 {
                (CatState::Done, CatAction::WarnCloseFailed(result))
            } else {
                (CatState::Done, CatAction::Finish)
            }
        },
        CatState::Done => (CatState::Done, CatAction::Finish),
    }
}

/// Whole seconds since boot for a tick count.
pub fn uptime_seconds(ticks: u64) -> (r: u64)
    ensures
        r == ticks / TICKS_PER_SECOND,
{
    ticks / TICKS_PER_SECOND
}

} // verus!
