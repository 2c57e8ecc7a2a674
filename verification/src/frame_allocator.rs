//! Bitmap frame allocator. One bit per 4KB physical frame: 0=free, 1=used.
//! A 4KB bitmap supports up to 128MB RAM (32768 frames).
use vstd::prelude::*;
use vstd::std_specs::bits::{axiom_u64_trailing_ones, u64_trailing_ones};

verus! {

pub const FRAME_SIZE: u64 = 4096;

pub const MAX_FRAMES: u64 = 32768;

pub const BITMAP_WORDS: usize = 512;

/// One entry of the boot memory map: the physical range
/// `[start_addr, end_addr)` and whether it is usable RAM.
#[derive(Clone, Copy, Debug, PartialEq, Eq, Structural)]
pub struct MemoryRegion {
    pub start_addr: u64,
    pub end_addr: u64,
    pub usable: bool,
}

/// Bit `b` of `w` is set.
pub open spec fn bit_set(w: u64, b: int) -> bool {
    (w >> (b as u64)) & 1u64 == 1u64
}

/// Frame `f` lies in a usable region among the first `n` entries of the map.
pub open spec fn usable_frame(map: Seq<MemoryRegion>, n: int, f: int) -> bool {
    exists|i: int|
        0 <= i < n && #[trigger] map[i].usable && map[i].start_addr / FRAME_SIZE <= f < map[i].end_addr
            / FRAME_SIZE
}

/// The word the scan looks at `k` steps after starting at word `start`.
pub open spec fn scan_word(start: int, k: int) -> int {
    (start + k) % (BITMAP_WORDS as int)
}

/// Steps from `k` on until the scan meets a word with a free frame, or
/// `BITMAP_WORDS` if every word is full.
pub open spec fn first_nonfull(bitmap: Seq<u64>, start: int, k: int) -> int
    decreases BITMAP_WORDS - k,
{
    if k < 0 || k >= BITMAP_WORDS {
        BITMAP_WORDS as int
    } else if bitmap[scan_word(start, k)] != u64::MAX {
        k
    } else {
        first_nonfull(bitmap, start, k + 1)
    }
}

/// Steps from `i` on until a walk over the frames, cyclically from frame
/// `base`, meets a free one (a `false` flag), or `MAX_FRAMES` if all are used.
pub open spec fn first_free(bits: Seq<bool>, base: int, i: int) -> int
    decreases MAX_FRAMES - i,
{
    if i < 0 || i >= MAX_FRAMES {
        MAX_FRAMES as int
    } else if !bits[(base + i) % (MAX_FRAMES as int)] {
        i
    } else {
        first_free(bits, base, i + 1)
    }
}

/// The frame a scan from hint `next_scan` finds, in terms of the frame flags:
/// the first free frame met walking the frames cyclically from the first
/// frame of the bitmap word that holds frame `next_scan`; `None` if every
/// frame is in use.
pub open spec fn first_free_frame(bits: Seq<bool>, next_scan: int) -> Option<u64> {
    let base = (next_scan / 64) * 64;
    let k = first_free(bits, base, 0);
    if k < MAX_FRAMES {
        Some((((base + k) % (MAX_FRAMES as int)) * FRAME_SIZE) as u64)
    } else {
        None
    }
}

/// The frame bitmap: one bit per 4KB frame, 0 = free, 1 = used. The kernel
/// keeps one, shared by every frame allocator.
pub struct FrameBitmap {
    words: [u64; 512],
}

impl View for FrameBitmap {
    /// For each frame, whether it is in use.
    type V = Seq<bool>;

    closed spec fn view(&self) -> Seq<bool> {
        Seq::new(MAX_FRAMES as nat, |f: int| bit_set(self.words@[f / 64], f % 64))
    }
}

/// The result of a scan of the words `bm` starting near frame `next_scan`:
/// the address of the first free frame met, if any.
pub open spec fn scan_result(bm: Seq<u64>, next_scan: int) -> Option<u64> {
    let start = next_scan / 64;
    let k = first_nonfull(bm, start, 0);
    if k < BITMAP_WORDS {
        let w = scan_word(start, k);
        let idx = w * 64 + u64_trailing_ones(bm[w]);
        Some((idx * FRAME_SIZE) as u64)
    } else {
        None
    }
}

impl FrameBitmap {
    /// The bitmap words.
    pub closed spec fn spec_words(&self) -> Seq<u64> {
        self.words@
    }

    /// There is one flag per frame.
    pub open spec fn wf(&self) -> bool {
        self@.len() == MAX_FRAMES
    }

    /// Every frame in use: all bits set.
    pub fn new() -> (r: FrameBitmap)
        ensures
            r.wf(),
            forall|f: int| 0 <= f < MAX_FRAMES ==> #[trigger] r@[f],
    {
        let r = FrameBitmap { words: [u64::MAX; 512] };
        proof {
            assert forall|f: int| 0 <= f < MAX_FRAMES implies #[trigger] r@[f] by {
                lemma_full_word_bits(r.words@[f / 64], f % 64);
            }
        }
        r
    }

    /// Clear the bit of frame `frame_idx`.
    fn clear_frame(&mut self, frame_idx: u64)
        requires
            frame_idx < MAX_FRAMES,
        ensures
            final(self).wf(),
            final(self)@ == old(self)@.update(frame_idx as int, false),
    {
        let word = (frame_idx / 64) as usize;
        let bit = frame_idx % 64;
        let ghost before = self@;
        self.words[word] = self.words[word] & !(1u64 << bit);
        proof {
            assert forall|f: int| 0 <= f < MAX_FRAMES implies #[trigger] self@[f] == before.update(
                frame_idx as int,
                false,
            )[f] by {
                if f / 64 == word {
                    lemma_clear_bit(old(self).words@[word as int], bit, (f % 64) as u64);
                }
            }
            assert(self@ =~= before.update(frame_idx as int, false));
        }
    }
}

/// Tracks free/used physical frames in the frame bitmap. Must be initialized
/// before the heap.
pub struct BitmapFrameAllocator {
    next_scan: usize,
}

impl BitmapFrameAllocator {
    /// The frame the next scan starts near.
    pub closed spec fn spec_next_scan(&self) -> usize {
        self.next_scan
    }

    /// The scan hint names a frame.
    pub open spec fn wf(&self) -> bool {
        self.spec_next_scan() < MAX_FRAMES
    }

    /// Initialize from the memory map: free the frames of each usable region
    /// (up to `MAX_FRAMES`) in `bitmap`; every other bit stays as it was. The
    /// scan starts at frame 0.
    pub fn init(bitmap: &mut FrameBitmap, memory_map: &[MemoryRegion]) -> (r: BitmapFrameAllocator)
        ensures
            r.wf(),
            r.spec_next_scan() == 0,
            final(bitmap).wf(),
            forall|f: int|
                0 <= f < MAX_FRAMES ==> #[trigger] final(bitmap)@[f] == (old(bitmap)@[f]
                    && !usable_frame(memory_map@, memory_map@.len() as int, f)),
            forall|i: int, f: int|
                #![trigger final(bitmap)@[f], memory_map@[i]]
                0 <= i < memory_map@.len() && memory_map@[i].usable && 0 <= f < MAX_FRAMES
                    && memory_map@[i].start_addr / 4096 <= f < memory_map@[i].end_addr / 4096
                    ==> !final(bitmap)@[f],
            forall|f: int|
                0 <= f < MAX_FRAMES && (forall|i: int|
                    0 <= i < memory_map@.len() ==> !(memory_map@[i].usable && memory_map@[i].start_addr
                        / 4096 <= f < memory_map@[i].end_addr / 4096)) ==> #[trigger] final(bitmap)@[f]
                    == old(bitmap)@[f],
    {
        proof {
            law_every_usable_entry_is_freed(memory_map@);
        }
        let ghost b0 = bitmap@;
        let n = memory_map.len();
        let mut i: usize = 0;
        while i < n
            invariant
                n == memory_map@.len(),
                0 <= i <= n,
                b0 == old(bitmap)@,
                b0.len() == MAX_FRAMES,
                bitmap.wf(),
                forall|f: int|
                    0 <= f < MAX_FRAMES ==> #[trigger] bitmap@[f] == (b0[f] && !usable_frame(
                        memory_map@,
                        i as int,
                        f,
                    )),
            decreases n - i,
        {
            let region = memory_map[i];
            if region.usable {
                let start_frame = region.start_addr / FRAME_SIZE;
                let end_frame = region.end_addr / FRAME_SIZE;
                let hi = if end_frame < MAX_FRAMES {
                    end_frame
                } else {
                    MAX_FRAMES
                };
                let mut frame_idx = start_frame;
                while frame_idx < hi
                    invariant
                        bitmap.wf(),
                        start_frame <= frame_idx,
                        hi <= MAX_FRAMES,
                        frame_idx <= hi || frame_idx == start_frame,
                        forall|f: int|
                            0 <= f < MAX_FRAMES ==> #[trigger] bitmap@[f] == (b0[f] && !(
                            usable_frame(memory_map@, i as int, f) || (start_frame <= f
                                < frame_idx))),
                    decreases hi - frame_idx,
                {
                    bitmap.clear_frame(frame_idx);
                    frame_idx = frame_idx + 1;
                }
                proof {
                    assert forall|f: int| 0 <= f < MAX_FRAMES implies #[trigger] bitmap@[f] == (b0[f]
                        && !usable_frame(memory_map@, i + 1, f)) by {
                        if usable_frame(memory_map@, i + 1, f) && !usable_frame(memory_map@, i as int, f) {
                            let j = choose|j: int|
                                0 <= j < i + 1 && #[trigger] memory_map@[j].usable
                                    && memory_map@[j].start_addr / FRAME_SIZE <= f
                                    < memory_map@[j].end_addr / FRAME_SIZE;
                            assert(j == i);
                        }
                        if usable_frame(memory_map@, i as int, f) {
                            let j = choose|j: int|
                                0 <= j < i && #[trigger] memory_map@[j].usable
                                    && memory_map@[j].start_addr / FRAME_SIZE <= f
                                    < memory_map@[j].end_addr / FRAME_SIZE;
                            assert(usable_frame(memory_map@, i + 1, f));
                        }
                        if start_frame <= f < frame_idx {
                            assert(memory_map@[i as int].usable);
                            assert(memory_map@[i as int].start_addr / FRAME_SIZE <= f
                                < memory_map@[i as int].end_addr / FRAME_SIZE);
                            assert(usable_frame(memory_map@, i + 1, f));
                        }
                    }
                }
            } else {
                proof {
                    assert forall|f: int| 0 <= f < MAX_FRAMES implies #[trigger] bitmap@[f] == (b0[f]
                        && !usable_frame(memory_map@, i + 1, f)) by {
                        if usable_frame(memory_map@, i + 1, f) {
                            let j = choose|j: int|
                                0 <= j < i + 1 && #[trigger] memory_map@[j].usable
                                    && memory_map@[j].start_addr / FRAME_SIZE <= f
                                    < memory_map@[j].end_addr / FRAME_SIZE;
                            assert(j != i);
                            assert(usable_frame(memory_map@, i as int, f));
                        }
                        if usable_frame(memory_map@, i as int, f) {
                            let j = choose|j: int|
                                0 <= j < i && #[trigger] memory_map@[j].usable
                                    && memory_map@[j].start_addr / FRAME_SIZE <= f
                                    < memory_map@[j].end_addr / FRAME_SIZE;
                            assert(usable_frame(memory_map@, i + 1, f));
                        }
                    }
                }
            }
            i = i + 1;
        }
        BitmapFrameAllocator { next_scan: 0 }
    }

    /// Return a frame to the pool. O(1) -- just clears the bit; a frame below
    /// the scan hint moves the hint back to it.
    pub fn deallocate_frame(&mut self, bitmap: &mut FrameBitmap, frame_addr: u64)
        requires
            old(self).wf(),
        ensures
            final(self).wf(),
            final(bitmap).wf(),
            ({
                let idx = frame_addr / FRAME_SIZE;
                if idx < MAX_FRAMES {
                    &&& final(bitmap)@ == old(bitmap)@.update(idx as int, false)
                    &&& final(self).spec_next_scan() == if idx < old(self).spec_next_scan() {
                        idx as usize
                    } else {
                        old(self).spec_next_scan()
                    }
                } else {
                    &&& final(bitmap)@ == old(bitmap)@
                    &&& final(self).spec_next_scan() == old(self).spec_next_scan()
                }
            }),
    {
        proof {
            lemma_bitmap_len(bitmap);
        }
        let frame_idx = frame_addr / FRAME_SIZE;
        if frame_idx < MAX_FRAMES {
            bitmap.clear_frame(frame_idx);
            if (frame_idx as usize) < self.next_scan {
                self.next_scan = frame_idx as usize;
            }
        }
    }

    /// Scan the bitmap, a word at a time starting at the word of the scan
    /// hint, for the first free frame; mark it used and return its address.
    pub fn allocate_frame(&mut self, bitmap: &mut FrameBitmap) -> (r: Option<u64>)
        requires
            old(self).wf(),
        ensures
            final(self).wf(),
            final(bitmap).wf(),
            r == scan_result(old(bitmap).spec_words(), old(self).spec_next_scan() as int),
            r == first_free_frame(old(bitmap)@, old(self).spec_next_scan() as int),
            r matches Some(addr) ==> final(self).spec_next_scan() == ((addr / FRAME_SIZE) as int + 1)
                % (MAX_FRAMES as int),
            ({
                let bm = old(bitmap).spec_words();
                let start = old(self).spec_next_scan() / 64;
                let k = first_nonfull(bm, start as int, 0);
                if k < BITMAP_WORDS {
                    let w = scan_word(start as int, k);
                    let b = u64_trailing_ones(bm[w]);
                    let idx = w * 64 + b;
                    &&& final(bitmap).spec_words() == bm.update(w, bm[w] | (1u64 << b))
                    &&& final(self).spec_next_scan() == if idx + 1 >= MAX_FRAMES {
                        0
                    } else {
                        idx + 1
                    }
                } else {
                    &&& *final(bitmap) == *old(bitmap)
                    &&& *final(self) == *old(self)
                }
            }),
            r matches Some(addr) ==> {
                let f = (addr / FRAME_SIZE) as int;
                &&& addr % FRAME_SIZE == 0
                &&& f < MAX_FRAMES
                &&& !old(bitmap)@[f]
                &&& final(bitmap)@ == old(bitmap)@.update(f, true)
            },
            r is None ==> forall|f: int| 0 <= f < MAX_FRAMES ==> #[trigger] old(bitmap)@[f],
    {
        proof {
            lemma_bitmap_len(bitmap);
            lemma_scan_finds_first_free(bitmap, self.next_scan);
        }
        let ghost bm = bitmap.words@;
        let ghost before = bitmap@;
        let start = self.next_scan / 64;
        let mut i: usize = 0;
        while i < BITMAP_WORDS
            invariant
                self.wf(),
                bitmap.words@ == bm,
                bitmap@ == before,
                *bitmap == *old(bitmap),
                *self == *old(self),
                scan_result(bm, self.next_scan as int) == first_free_frame(before, self.next_scan as int),
                start == self.next_scan / 64,
                i <= BITMAP_WORDS,
                first_nonfull(bm, start as int, 0) == first_nonfull(bm, start as int, i as int),
                forall|k: int| 0 <= k < i ==> #[trigger] bm[scan_word(start as int, k)] == u64::MAX,
            decreases BITMAP_WORDS - i,
        {
            let word_idx = (start + i) % BITMAP_WORDS;
            let word = bitmap.words[word_idx];
            if word == u64::MAX {
                i = i + 1;
                continue;
            }
            proof {
                axiom_u64_trailing_ones(word);
            }
            let bit = word.trailing_ones() as u64;
            let frame_idx = (word_idx as u64) * 64 + bit;
            if frame_idx >= MAX_FRAMES {
                i = i + 1;
                continue;
            }
            bitmap.words[word_idx] = bitmap.words[word_idx] | (1u64 << bit);
            self.next_scan = (frame_idx + 1) as usize;
            if self.next_scan >= MAX_FRAMES as usize {
                self.next_scan = 0;
            }
            proof {
                assert(first_nonfull(bm, start as int, i as int) == i);
                assert forall|f: int| 0 <= f < MAX_FRAMES implies #[trigger] bitmap@[f] == before.update(
                    frame_idx as int,
                    true,
                )[f] by {
                    if f / 64 == word_idx {
                        lemma_set_bit(word, bit, (f % 64) as u64);
                    }
                }
                assert(bitmap@ =~= before.update(frame_idx as int, true));
                assert(!bit_set(word, bit as int));
            }
            return Some(frame_idx * FRAME_SIZE);
        }
        proof {
            assert forall|f: int| 0 <= f < MAX_FRAMES implies #[trigger] before[f] by {
                let w = f / 64;
                let k = (w - start + BITMAP_WORDS) % (BITMAP_WORDS as int);
                assert(scan_word(start as int, k) == w);
                lemma_full_word_bits(bm[w], f % 64);
            }
        }
        None
    }
}

/// A bitmap has one flag per frame.
pub proof fn lemma_bitmap_len(b: &FrameBitmap)
    ensures
        b.wf(),
{
}

/// The frames that initialization frees are the union of the usable entries
/// of the map: a frame that lies in any usable entry, wherever that entry
/// stands in the map, is among them, and a frame that lies in no usable entry
/// is not.
pub proof fn law_every_usable_entry_is_freed(map: Seq<MemoryRegion>)
    ensures
        forall|i: int, f: int|
            #![trigger usable_frame(map, map.len() as int, f), map[i]]
            0 <= i < map.len() && map[i].usable && map[i].start_addr / 4096 <= f
                < map[i].end_addr / 4096 ==> usable_frame(map, map.len() as int, f),
        forall|f: int|
            (forall|i: int|
                0 <= i < map.len() ==> !(map[i].usable && map[i].start_addr / 4096 <= f
                    < map[i].end_addr / 4096)) ==> !#[trigger] usable_frame(map, map.len() as int, f),
{
    assert forall|i: int, f: int|
        #![trigger usable_frame(map, map.len() as int, f), map[i]]
        0 <= i < map.len() && map[i].usable && map[i].start_addr / 4096 <= f < map[i].end_addr
            / 4096 implies usable_frame(map, map.len() as int, f) by {
        assert(map[i].usable);
    }
    assert forall|f: int|
        (forall|i: int|
            0 <= i < map.len() ==> !(map[i].usable && map[i].start_addr / 4096 <= f
                < map[i].end_addr / 4096)) implies !#[trigger] usable_frame(
        map,
        map.len() as int,
        f,
    ) by {
        if usable_frame(map, map.len() as int, f) {
            let i = choose|i: int|
                0 <= i < map.len() && #[trigger] map[i].usable && map[i].start_addr / FRAME_SIZE <= f
                    < map[i].end_addr / FRAME_SIZE;
            assert(map[i].usable && map[i].start_addr / 4096 <= f < map[i].end_addr / 4096);
        }
    }
}

/// Steps before the one the scan stops at meet full words; the word it stops
/// at has a free frame.
pub proof fn lemma_first_nonfull(bm: Seq<u64>, start: int, k: int)
    requires
        0 <= k <= BITMAP_WORDS,
    ensures
        k <= first_nonfull(bm, start, k) <= BITMAP_WORDS,
        forall|j: int|
            k <= j < first_nonfull(bm, start, k) ==> #[trigger] bm[scan_word(start, j)] == u64::MAX,
        first_nonfull(bm, start, k) < BITMAP_WORDS ==> bm[scan_word(start, first_nonfull(bm, start, k))]
            != u64::MAX,
    decreases BITMAP_WORDS - k,
{
    if k < BITMAP_WORDS && bm[scan_word(start, k)] == u64::MAX {
        lemma_first_nonfull(bm, start, k + 1);
    }
}

/// When one frame alone is free, the scan finds it, wherever it starts: a
/// frame given back to an otherwise full bitmap is the next one handed out.
pub proof fn law_sole_free_frame_is_found(bitmap: &FrameBitmap, next_scan: usize, f: int)
    requires
        next_scan < MAX_FRAMES,
        0 <= f < MAX_FRAMES,
        !bitmap@[f],
        forall|g: int| 0 <= g < MAX_FRAMES && g != f ==> #[trigger] bitmap@[g],
    ensures
        scan_result(bitmap.spec_words(), next_scan as int) == Some((f * 4096) as u64),
{
    let bm = bitmap.words@;
    let start = next_scan / 64;
    let wf = f / 64;
    // every word but that of `f` is full
    assert forall|w: int| 0 <= w < BITMAP_WORDS && w != wf implies #[trigger] bm[w] == u64::MAX by {
        if bm[w] != u64::MAX {
            axiom_u64_trailing_ones(bm[w]);
            let t = u64_trailing_ones(bm[w]) as int;
            let g = w * 64 + t;
            assert(g / 64 == w && g % 64 == t);
            assert(!bitmap@[g]);
        }
    }
    // the word of `f` is not full, and its first zero bit is that of `f`
    lemma_set_means_not_full(bm[wf], f % 64, bitmap@[f]);
    axiom_u64_trailing_ones(bm[wf]);
    let t = u64_trailing_ones(bm[wf]) as int;
    let g = wf * 64 + t;
    assert(g / 64 == wf && g % 64 == t);
    assert(!bitmap@[g]);
    assert(g == f);
    lemma_first_nonfull(bm, start as int, 0);
    let k = first_nonfull(bm, start as int, 0);
    let kk = (wf - start + BITMAP_WORDS) % (BITMAP_WORDS as int);
    assert(scan_word(start as int, kk) == wf);
    if k < BITMAP_WORDS {
        assert(scan_word(start as int, k) == wf);
    } else {
        assert(bm[scan_word(start as int, kk)] == u64::MAX);
    }
}

/// Steps before the one the walk stops at meet used frames; the frame it stops
/// at is free.
pub proof fn lemma_first_free(bits: Seq<bool>, base: int, i: int)
    requires
        0 <= i <= MAX_FRAMES,
    ensures
        i <= first_free(bits, base, i) <= MAX_FRAMES,
        forall|j: int|
            i <= j < first_free(bits, base, i) ==> #[trigger] bits[(base + j) % (MAX_FRAMES as int)],
        first_free(bits, base, i) < MAX_FRAMES ==> !bits[(base + first_free(bits, base, i)) % (
        MAX_FRAMES as int)],
    decreases MAX_FRAMES - i,
{
    if i < MAX_FRAMES && bits[(base + i) % (MAX_FRAMES as int)] {
        lemma_first_free(bits, base, i + 1);
    }
}

/// The frame `b` places into the word the scan looks at `j` steps after
/// starting at word `start` is `j * 64 + b` frames after the first frame of
/// word `start`, cyclically.
proof fn lemma_frame_of_step(start: int, j: int, b: int)
    requires
        0 <= start < BITMAP_WORDS,
        0 <= j < BITMAP_WORDS,
        0 <= b < 64,
    ensures
        (start * 64 + j * 64 + b) % (MAX_FRAMES as int) == scan_word(start, j) * 64 + b,
        0 <= scan_word(start, j) < BITMAP_WORDS,
{
    if start + j < BITMAP_WORDS {
        vstd::arithmetic::div_mod::lemma_small_mod((start + j) as nat, BITMAP_WORDS as nat);
        vstd::arithmetic::div_mod::lemma_small_mod(
            (start * 64 + j * 64 + b) as nat,
            MAX_FRAMES as nat,
        );
    } else {
        vstd::arithmetic::div_mod::lemma_small_mod((start + j - 512) as nat, BITMAP_WORDS as nat);
        vstd::arithmetic::div_mod::lemma_mod_add_multiples_vanish(start + j - 512, 512);
        vstd::arithmetic::div_mod::lemma_small_mod(
            (start * 64 + j * 64 + b - 32768) as nat,
            MAX_FRAMES as nat,
        );
        vstd::arithmetic::div_mod::lemma_mod_add_multiples_vanish(
            start * 64 + j * 64 + b - 32768,
            32768,
        );
    }
}

/// The flag of frame `w * 64 + b` is bit `b` of word `w`.
proof fn lemma_frame_flag(bitmap: &FrameBitmap, w: int, b: int)
    requires
        0 <= w < BITMAP_WORDS,
        0 <= b < 64,
    ensures
        bitmap@[w * 64 + b] == bit_set(bitmap.spec_words()[w], b),
{
    let f = w * 64 + b;
    assert(f / 64 == w && f % 64 == b) by {
        vstd::arithmetic::div_mod::lemma_fundamental_div_mod_converse(f, 64, w, b);
    }
}

/// A frame that the walk from the first frame of word `start` meets `i`
/// steps in, before the first free bit of the first word that is not full,
/// is in use.
proof fn lemma_walk_meets_used(bitmap: &FrameBitmap, start: int, i: int)
    requires
        0 <= start < BITMAP_WORDS,
        0 <= i,
        first_nonfull(bitmap.spec_words(), start, 0) < BITMAP_WORDS,
        i < first_nonfull(bitmap.spec_words(), start, 0) * 64 + u64_trailing_ones(
            bitmap.spec_words()[scan_word(start, first_nonfull(bitmap.spec_words(), start, 0))],
        ),
    ensures
        bitmap@[(start * 64 + i) % (MAX_FRAMES as int)],
{
    let bm = bitmap.spec_words();
    lemma_first_nonfull(bm, start, 0);
    let k = first_nonfull(bm, start, 0);
    let w = scan_word(start, k);
    axiom_u64_trailing_ones(bm[w]);
    let j = i / 64;
    let b = i % 64;
    vstd::arithmetic::div_mod::lemma_fundamental_div_mod(i, 64);
    assert(0 <= j <= k);
    lemma_frame_of_step(start, j, b);
    let wj = scan_word(start, j);
    lemma_frame_flag(bitmap, wj, b);
    if j < k {
        lemma_full_word_bits(bm[wj], b);
    } else {
        assert((bm[w] >> (b as u64)) & 1u64 == 1u64);
    }
}

/// When every word is full, every frame is in use.
proof fn lemma_all_words_full(bitmap: &FrameBitmap, start: int, f: int)
    requires
        0 <= start < BITMAP_WORDS,
        0 <= f < MAX_FRAMES,
        first_nonfull(bitmap.spec_words(), start, 0) >= BITMAP_WORDS,
    ensures
        bitmap@[f],
{
    let bm = bitmap.spec_words();
    lemma_first_nonfull(bm, start, 0);
    let w = f / 64;
    let b = f % 64;
    vstd::arithmetic::div_mod::lemma_fundamental_div_mod(f, 64);
    let j = (w - start + BITMAP_WORDS) % (BITMAP_WORDS as int);
    assert(scan_word(start, j) == w);
    lemma_full_word_bits(bm[w], b);
    lemma_frame_flag(bitmap, w, b);
}

/// What the scan over the bitmap words finds is the first free frame of a
/// walk over the frames, cyclically from the first frame of the word that
/// holds the hint: scanning a word from bit 0 upwards and the words one after
/// another visits the frames in that order.
pub proof fn lemma_scan_finds_first_free(bitmap: &FrameBitmap, next_scan: usize)
    requires
        next_scan < MAX_FRAMES,
    ensures
        scan_result(bitmap.spec_words(), next_scan as int) == first_free_frame(
            bitmap@,
            next_scan as int,
        ),
{
    let bm = bitmap.spec_words();
    let bits = bitmap@;
    let start = next_scan / 64;
    let base = (start * 64) as int;
    lemma_first_nonfull(bm, start as int, 0);
    lemma_first_free(bits, base, 0);
    let k = first_nonfull(bm, start as int, 0);
    let ff = first_free(bits, base, 0);
    if k < BITMAP_WORDS {
        let w = scan_word(start as int, k);
        axiom_u64_trailing_ones(bm[w]);
        let t = u64_trailing_ones(bm[w]) as int;
        let kk = k * 64 + t;
        lemma_frame_of_step(start as int, k, t);
        lemma_frame_flag(bitmap, w, t);
        assert(!bits[(base + kk) % (MAX_FRAMES as int)]);
        if ff < kk {
            lemma_walk_meets_used(bitmap, start as int, ff);
        }
        if ff > kk {
            assert(bits[(base + kk) % (MAX_FRAMES as int)]);
        }
        assert(ff == kk);
    } else if ff < MAX_FRAMES {
        lemma_all_words_full(bitmap, start as int, (base + ff) % (MAX_FRAMES as int));
    }
}

/// A word with a clear bit is not full.
proof fn lemma_set_means_not_full(w: u64, c: int, set: bool)
    requires
        0 <= c < 64,
        set == bit_set(w, c),
        !set,
    ensures
        w != u64::MAX,
{
    if w == u64::MAX {
        lemma_full_word_bits(w, c);
    }
}

/// Every bit of an all-ones word is set.
proof fn lemma_full_word_bits(w: u64, c: int)
    requires
        w == u64::MAX,
        0 <= c < 64,
    ensures
        bit_set(w, c),
{
    let cc = c as u64;
    assert(((u64::MAX) >> cc) & 1u64 == 1u64) by (bit_vector)
        requires
            cc < 64,
    ;
}

/// Clearing bit `b` clears that bit and leaves the others.
proof fn lemma_clear_bit(w: u64, b: u64, c: u64)
    requires
        b < 64,
        c < 64,
    ensures
        bit_set(w & !(1u64 << b), c as int) == (c != b && bit_set(w, c as int)),
{
    assert(((w & !(1u64 << b)) >> c) & 1u64 == (if c == b {
        0u64
    } else {
        (w >> c) & 1u64
    })) by (bit_vector)
        requires
            b < 64,
            c < 64,
    ;
    assert(((w >> c) & 1u64 == 1u64) || ((w >> c) & 1u64 == 0u64)) by (bit_vector);
}

/// Setting bit `b` sets that bit and leaves the others.
proof fn lemma_set_bit(w: u64, b: u64, c: u64)
    requires
        b < 64,
        c < 64,
    ensures
        bit_set(w | (1u64 << b), c as int) == (c == b || bit_set(w, c as int)),
{
    assert(((w | (1u64 << b)) >> c) & 1u64 == (if c == b {
        1u64
    } else {
        (w >> c) & 1u64
    })) by (bit_vector)
        requires
            b < 64,
            c < 64,
    ;
}

} // verus!
