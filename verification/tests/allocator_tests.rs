use my_os::allocator::bump::BumpAllocator;
use my_os::allocator::fixed_size_block::{list_index, FixedSizeBlockAllocator};
use my_os::allocator::linked_list::{LinkedListAllocator, ListNode};
use my_os::allocator::{align_up, check_power_of_two, Layout};

fn layout(size: usize, align: usize) -> Layout {
    Layout::from_size_align(size, align).unwrap()
}

#[test]
fn test_align_up_basic() {
    assert_eq!(align_up(0, 4), 0);
    assert_eq!(align_up(1, 4), 4);
    assert_eq!(align_up(3, 4), 4);
    assert_eq!(align_up(4, 4), 4);
    assert_eq!(align_up(5, 4), 8);
    assert_eq!(align_up(7, 8), 8);
    assert_eq!(align_up(8, 8), 8);
    assert_eq!(align_up(9, 8), 16);
}

#[test]
fn test_align_up_powers_of_two() {
    assert_eq!(align_up(0x1001, 8), 0x1008);
    assert_eq!(align_up(0x1000, 4096), 0x1000);
    assert_eq!(align_up(0x1001, 4096), 0x2000);
    assert_eq!(align_up(1, 1), 1);
    assert_eq!(align_up(42, 1), 42);
}

#[test]
fn power_of_two_check() {
    assert!(check_power_of_two(1));
    assert!(check_power_of_two(4096));
    assert!(check_power_of_two(1usize << 63));
    assert!(!check_power_of_two(0));
    assert!(!check_power_of_two(6));
    assert!(!check_power_of_two(usize::MAX));
}

#[test]
fn layout_rules() {
    let l = layout(24, 8);
    assert_eq!(l.size(), 24);
    assert_eq!(l.align(), 8);
    assert!(Layout::from_size_align(8, 3).is_err());
    assert!(Layout::from_size_align(8, 0).is_err());
    assert!(Layout::from_size_align(isize::MAX as usize, 1).is_ok());
    assert!(Layout::from_size_align(isize::MAX as usize, 2).is_err());
}

#[test]
fn bump_hands_out_consecutive_aligned_blocks() {
    let mut b = BumpAllocator::new();
    b.init(0x1000, 0x100);
    assert_eq!(b.allocate(&layout(3, 1)), Ok(0x1000));
    assert_eq!(b.allocate(&layout(8, 8)), Ok(0x1008));
    assert_eq!(b.allocate(&layout(16, 16)), Ok(0x1010));
    assert_eq!(b.allocate(&layout(0x100, 1)), Err(()));
}

#[test]
fn bump_resets_when_everything_is_freed() {
    let mut b = BumpAllocator::new();
    b.init(0x1000, 0x40);
    let l = layout(0x20, 8);
    let a1 = b.allocate(&l).unwrap();
    let a2 = b.allocate(&l).unwrap();
    assert_eq!((a1, a2), (0x1000, 0x1020));
    assert_eq!(b.allocate(&l), Err(()));
    b.dealloc(a1, &l);
    // one block still live: nothing is reclaimed
    assert_eq!(b.allocate(&l), Err(()));
    b.dealloc(a2, &l);
    assert_eq!(b.allocate(&l), Ok(0x1000));
}

#[test]
fn list_node_addresses() {
    let n = ListNode::new(0x2000, 0x30);
    assert_eq!(n.start_addr(), 0x2000);
    assert_eq!(n.end_addr(), 0x2030);
}

#[test]
fn linked_list_rounds_small_requests_up_to_a_node() {
    assert_eq!(LinkedListAllocator::size_align(&layout(1, 1)), (16, 8));
    assert_eq!(LinkedListAllocator::size_align(&layout(20, 4)), (24, 8));
    assert_eq!(LinkedListAllocator::size_align(&layout(0, 32)), (16, 32));
    assert_eq!(LinkedListAllocator::size_align(&layout(40, 32)), (64, 32));
}

#[test]
fn linked_list_first_fit_and_split() {
    let mut a = LinkedListAllocator::new();
    a.init(0x10000, 0x1000);
    assert_eq!(a.allocate(&layout(100, 8)), Ok(0x10000));
    // the tail goes back on the list and serves the next request
    assert_eq!(a.allocate(&layout(100, 8)), Ok(0x10068));
    assert_eq!(a.allocate(&layout(0x1000, 8)), Err(()));
}

#[test]
fn linked_list_refuses_a_tail_too_small_for_a_node() {
    let mut a = LinkedListAllocator::new();
    a.init(0x10000, 40);
    // 32 bytes would leave 8, less than a node
    assert_eq!(a.allocate(&layout(32, 8)), Err(()));
    assert_eq!(a.allocate(&layout(40, 8)), Ok(0x10000));
}

#[test]
fn linked_list_coalesces_freed_neighbours() {
    let mut a = LinkedListAllocator::new();
    a.init(0x10000, 312);
    let l = layout(100, 4);
    let x = a.allocate(&l).unwrap();
    let y = a.allocate(&l).unwrap();
    let z = a.allocate(&l).unwrap();
    assert_eq!((x, y, z), (0x10000, 0x10068, 0x100d0));
    a.dealloc(x, &l);
    a.dealloc(z, &l);
    // 208 free bytes in two pieces: 200 do not fit
    assert_eq!(a.allocate(&layout(200, 8)), Err(()));
    a.dealloc(y, &l);
    // the three blocks merged back into one
    assert_eq!(a.allocate(&layout(312, 8)), Ok(0x10000));
}

#[test]
fn linked_list_aligns_blocks() {
    let mut a = LinkedListAllocator::new();
    a.init(0x10008, 0x1000);
    let p = a.allocate(&layout(64, 64)).unwrap();
    assert_eq!(p, 0x10040);
    assert_eq!(p % 64, 0);
}

#[test]
fn size_classes() {
    assert_eq!(list_index(&layout(1, 1)), Some(0));
    assert_eq!(list_index(&layout(8, 8)), Some(0));
    assert_eq!(list_index(&layout(9, 1)), Some(1));
    assert_eq!(list_index(&layout(20, 4)), Some(2));
    assert_eq!(list_index(&layout(4, 64)), Some(3));
    assert_eq!(list_index(&layout(2048, 8)), Some(8));
    assert_eq!(list_index(&layout(2049, 8)), None);
}

#[test]
fn fixed_size_reuses_the_last_freed_block() {
    let mut a = FixedSizeBlockAllocator::new();
    a.init(0x20000, 0x10000);
    let l = layout(20, 4);
    let p = a.allocate(&l).unwrap();
    let q = a.allocate(&l).unwrap();
    assert_ne!(p, q);
    a.dealloc(p, &l);
    a.dealloc(q, &l);
    assert_eq!(a.allocate(&l), Ok(q));
    assert_eq!(a.allocate(&l), Ok(p));
}

#[test]
fn fixed_size_carves_blocks_of_the_class_size() {
    let mut a = FixedSizeBlockAllocator::new();
    a.init(0x20000, 0x10000);
    let p = a.allocate(&layout(20, 4)).unwrap();
    let q = a.allocate(&layout(20, 4)).unwrap();
    // 32-byte blocks aligned to 32
    assert_eq!(p % 32, 0);
    assert_eq!(q, p + 32);
}

#[test]
fn fixed_size_large_requests_use_the_fallback() {
    let mut a = FixedSizeBlockAllocator::new();
    a.init(0x20000, 0x3000);
    let big = layout(0x2000, 8);
    let p = a.allocate(&big).unwrap();
    assert_eq!(p, 0x20000);
    assert_eq!(a.allocate(&big), Err(()));
    a.dealloc(p, &big);
    assert_eq!(a.allocate(&big), Ok(0x20000));
}

#[test]
fn requests_are_checked_before_the_walk() {
    let mut a = LinkedListAllocator::new();
    assert!(a.check_request(&layout(64, 8)));
    a.init(0x1000, 0x1000);
    assert!(a.check_request(&layout(64, 8)));
    assert!(a.check_request(&layout(4096, 4096)));
    // a region near the top of the address space cannot be rounded up to a
    // large alignment
    let mut top = LinkedListAllocator::new();
    top.init(usize::MAX - 0x107, 0x100);
    assert!(top.check_request(&layout(16, 8)));
    assert!(!top.check_request(&layout(16, 0x1000)));
    let mut f = FixedSizeBlockAllocator::new();
    f.init(0x10000, 0x10000);
    assert!(f.check_request(&layout(8, 8)));
    assert!(f.check_request(&layout(4096, 8)));
}

#[test]
fn inserting_a_region_merges_its_neighbours_into_the_head() {
    let mut a = LinkedListAllocator::new();
    a.add_free_region(0x1000, 0x100);
    a.add_free_region(0x1200, 0x100);
    a.add_free_region(0x5000, 0x40);
    // fills the gap between the first two: all three become one head region
    a.add_free_region(0x1100, 0x100);
    // the head now serves a block of the merged size, from its start
    assert_eq!(a.allocate(&layout(0x300, 8)), Ok(0x1000));
    assert_eq!(a.allocate(&layout(0x40, 8)), Ok(0x5000));
    assert_eq!(a.allocate(&layout(16, 8)), Err(()));
}

#[test]
fn first_fit_search_takes_the_first_region_that_fits() {
    let mut a = LinkedListAllocator::new();
    a.add_free_region(0x8000, 0x20);
    a.add_free_region(0x1000, 0x200);
    a.add_free_region(0x4000, 0x400);
    // the list holds 0x4000, 0x1000, 0x8000 in that order
    let (region, start) = a.find_region(0x100, 0x100).unwrap();
    assert_eq!((region.start_addr(), region.end_addr(), start), (0x4000, 0x4400, 0x4000));
    let (region, start) = a.find_region(0x100, 0x100).unwrap();
    assert_eq!((region.start_addr(), start), (0x1000, 0x1000));
    assert!(a.find_region(0x100, 0x100).is_none());
}

#[test]
fn a_region_fits_only_with_no_tail_or_a_tail_that_holds_a_node() {
    let r = ListNode::new(0x1008, 0x100);
    assert_eq!(LinkedListAllocator::alloc_from_region(&r, 0x20, 0x10), Ok(0x1010));
    // leaves 8 bytes: too few for a node
    assert_eq!(LinkedListAllocator::alloc_from_region(&r, 0xf0, 0x10), Err(()));
    // leaves nothing
    assert_eq!(LinkedListAllocator::alloc_from_region(&r, 0xf8, 0x10), Ok(0x1010));
    assert_eq!(LinkedListAllocator::alloc_from_region(&r, 0x100, 0x10), Err(()));
}

#[test]
fn freed_blocks_are_checked_before_they_go_back() {
    let mut a = FixedSizeBlockAllocator::new();
    a.init(0x20000, 0x10000);
    let small = layout(20, 4);
    let p = a.allocate(&small).unwrap();
    assert!(a.check_dealloc(p, &small));
    // not aligned to the 32-byte class
    assert!(!a.check_dealloc(p + 4, &small));
    let big = layout(0x4000, 8);
    let q = a.allocate(&big).unwrap();
    assert!(a.check_dealloc(q, &big));
    a.dealloc(q, &big);
    // freed already: it overlaps a free region
    assert!(!a.check_dealloc(q, &big));
    assert!(!a.check_dealloc(q + 1, &big));
}
