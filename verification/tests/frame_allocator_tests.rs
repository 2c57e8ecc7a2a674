use my_os::frame_allocator::{BitmapFrameAllocator, FrameBitmap, MemoryRegion, FRAME_SIZE, MAX_FRAMES};

fn region(start: u64, end: u64, usable: bool) -> MemoryRegion {
    MemoryRegion { start_addr: start, end_addr: end, usable }
}

#[test]
fn frames_of_usable_regions_are_handed_out_in_order() {
    let map = [region(0, 0x1000, false), region(0x1000, 0x4000, true)];
    let mut bm = FrameBitmap::new();
    let mut fa = BitmapFrameAllocator::init(&mut bm, &map);
    assert_eq!(fa.allocate_frame(&mut bm), Some(0x1000));
    assert_eq!(fa.allocate_frame(&mut bm), Some(0x2000));
    assert_eq!(fa.allocate_frame(&mut bm), Some(0x3000));
    assert_eq!(fa.allocate_frame(&mut bm), None);
}

#[test]
fn unknown_memory_is_never_handed_out() {
    let map = [region(0x10000, 0x20000, false)];
    let mut bm = FrameBitmap::new();
    let mut fa = BitmapFrameAllocator::init(&mut bm, &map);
    assert_eq!(fa.allocate_frame(&mut bm), None);
}

#[test]
fn frames_beyond_the_bitmap_are_ignored() {
    let top = MAX_FRAMES * FRAME_SIZE;
    let map = [region(top - 0x1000, top + 0x10000, true)];
    let mut bm = FrameBitmap::new();
    let mut fa = BitmapFrameAllocator::init(&mut bm, &map);
    assert_eq!(fa.allocate_frame(&mut bm), Some(top - 0x1000));
    assert_eq!(fa.allocate_frame(&mut bm), None);
}

#[test]
fn a_freed_frame_is_found_again() {
    let map = [region(0x1000, 0x3000, true)];
    let mut bm = FrameBitmap::new();
    let mut fa = BitmapFrameAllocator::init(&mut bm, &map);
    let a = fa.allocate_frame(&mut bm).unwrap();
    let b = fa.allocate_frame(&mut bm).unwrap();
    assert_eq!((a, b), (0x1000, 0x2000));
    assert_eq!(fa.allocate_frame(&mut bm), None);
    fa.deallocate_frame(&mut bm, a);
    assert_eq!(fa.allocate_frame(&mut bm), Some(0x1000));
    assert_eq!(fa.allocate_frame(&mut bm), None);
}

#[test]
fn freeing_a_frame_outside_the_bitmap_changes_nothing() {
    let map = [region(0x1000, 0x2000, true)];
    let mut bm = FrameBitmap::new();
    let mut fa = BitmapFrameAllocator::init(&mut bm, &map);
    fa.deallocate_frame(&mut bm, MAX_FRAMES * FRAME_SIZE + 0x5000);
    assert_eq!(fa.allocate_frame(&mut bm), Some(0x1000));
    assert_eq!(fa.allocate_frame(&mut bm), None);
}

#[test]
fn a_frame_freed_below_the_hint_is_found_next() {
    let map = [region(0, 128 * 0x1000, true)];
    let mut bm = FrameBitmap::new();
    let mut fa = BitmapFrameAllocator::init(&mut bm, &map);
    for i in 0..70u64 {
        assert_eq!(fa.allocate_frame(&mut bm), Some(i * 0x1000));
    }
    fa.deallocate_frame(&mut bm, 3 * 0x1000);
    assert_eq!(fa.allocate_frame(&mut bm), Some(3 * 0x1000));
    assert_eq!(fa.allocate_frame(&mut bm), Some(70 * 0x1000));
}

#[test]
fn a_second_init_on_the_same_bitmap_keeps_frames_in_use() {
    let map = [region(0x1000, 0x3000, true)];
    let mut bm = FrameBitmap::new();
    let mut first = BitmapFrameAllocator::init(&mut bm, &map);
    assert_eq!(first.allocate_frame(&mut bm), Some(0x1000));
    // a second allocator over the same bitmap: the usable frames are freed
    // again, the others stay as they were
    let other = [region(0x8000, 0x9000, true)];
    let mut second = BitmapFrameAllocator::init(&mut bm, &other);
    assert_eq!(second.allocate_frame(&mut bm), Some(0x2000));
    assert_eq!(second.allocate_frame(&mut bm), Some(0x8000));
    assert_eq!(first.allocate_frame(&mut bm), None);
}

#[test]
fn the_sole_free_frame_is_found_from_any_hint() {
    let map = [region(0, MAX_FRAMES * FRAME_SIZE, true)];
    let mut bm = FrameBitmap::new();
    let mut fa = BitmapFrameAllocator::init(&mut bm, &map);
    for i in 0..MAX_FRAMES {
        assert_eq!(fa.allocate_frame(&mut bm), Some(i * FRAME_SIZE));
    }
    assert_eq!(fa.allocate_frame(&mut bm), None);
    fa.deallocate_frame(&mut bm, 20000 * FRAME_SIZE);
    assert_eq!(fa.allocate_frame(&mut bm), Some(20000 * FRAME_SIZE));
    assert_eq!(fa.allocate_frame(&mut bm), None);
}

#[test]
fn the_scan_starts_at_the_word_of_the_hint() {
    let map = [region(0, 256 * 0x1000, true)];
    let mut bm = FrameBitmap::new();
    let mut fa = BitmapFrameAllocator::init(&mut bm, &map);
    for i in 0..70u64 {
        assert_eq!(fa.allocate_frame(&mut bm), Some(i * 0x1000));
    }
    // a second allocator over the same bitmap frees frames without moving
    // the first one's hint (70)
    let mut other = BitmapFrameAllocator::init(&mut bm, &[]);
    other.deallocate_frame(&mut bm, 65 * 0x1000);
    other.deallocate_frame(&mut bm, 3 * 0x1000);
    // frame 65 lies below the hint but in its word: the scan meets it first
    assert_eq!(fa.allocate_frame(&mut bm), Some(65 * 0x1000));
    // frame 3 lies in an earlier word: the frames after the hint come first
    assert_eq!(fa.allocate_frame(&mut bm), Some(70 * 0x1000));
}
