// The kernel's heap scenarios, run against the allocator that serves the
// kernel heap: each Box or Vec buffer is a request of its size and alignment.
use my_os::allocator::fixed_size_block::FixedSizeBlockAllocator;
use my_os::allocator::Layout;
use my_os::heap::{HEAP_SIZE, HEAP_START};

fn heap() -> FixedSizeBlockAllocator {
    let mut a = FixedSizeBlockAllocator::new();
    a.init(HEAP_START as usize, HEAP_SIZE);
    a
}

fn layout(size: usize, align: usize) -> Layout {
    Layout::from_size_align(size, align).unwrap()
}

fn in_heap(p: usize, size: usize) -> bool {
    p >= HEAP_START as usize && p + size <= HEAP_START as usize + HEAP_SIZE
}

/// The heap's bytes, so that values can be stored in the blocks the allocator
/// hands out and read back.
struct Memory {
    bytes: Vec<u8>,
}

impl Memory {
    fn new() -> Memory {
        Memory { bytes: vec![0; HEAP_SIZE] }
    }

    fn offset(&self, addr: usize) -> usize {
        assert!(in_heap(addr, 8), "block outside the heap: {:#x}", addr);
        addr - HEAP_START as usize
    }

    fn write(&mut self, addr: usize, value: u64) {
        let o = self.offset(addr);
        self.bytes[o..o + 8].copy_from_slice(&value.to_le_bytes());
    }

    fn read(&self, addr: usize) -> u64 {
        let o = self.offset(addr);
        let mut b = [0u8; 8];
        b.copy_from_slice(&self.bytes[o..o + 8]);
        u64::from_le_bytes(b)
    }
}

#[test]
fn simple_allocation() {
    let mut a = heap();
    let mut mem = Memory::new();
    let l = layout(8, 8);
    let v1 = a.allocate(&l).unwrap();
    mem.write(v1, 41);
    let v2 = a.allocate(&l).unwrap();
    mem.write(v2, 13);
    assert_eq!(mem.read(v1), 41);
    assert_eq!(mem.read(v2), 13);
}

#[test]
fn large_vec() {
    let n = 1000u64;
    let mut a = heap();
    let mut mem = Memory::new();
    // a growing vector of u64: doubled capacity, contents copied over
    let mut buf: Option<(usize, Layout)> = None;
    let mut cap = 0usize;
    for i in 0..n {
        let len = i as usize;
        if len == cap {
            cap = if cap == 0 { 4 } else { cap * 2 };
            let l = layout(cap * 8, 8);
            let p = a.allocate(&l).unwrap();
            assert!(in_heap(p, cap * 8));
            if let Some((old, old_l)) = buf.take() {
                for k in 0..len {
                    let v = mem.read(old + 8 * k);
                    mem.write(p + 8 * k, v);
                }
                a.dealloc(old, &old_l);
            }
            buf = Some((p, l));
        }
        let p = buf.as_ref().unwrap().0;
        mem.write(p + 8 * len, i);
    }
    let p = buf.as_ref().unwrap().0;
    let sum: u64 = (0..n as usize).map(|k| mem.read(p + 8 * k)).sum();
    assert_eq!(sum, (n - 1) * n / 2);
}

#[test]
fn many_boxes() {
    let mut a = heap();
    let mut mem = Memory::new();
    let l = layout(8, 8);
    for i in 0..HEAP_SIZE {
        let x = a.allocate(&l).unwrap();
        mem.write(x, i as u64);
        assert_eq!(mem.read(x), i as u64);
        a.dealloc(x, &l);
    }
}

#[test]
fn many_boxes_long_lived() {
    let mut a = heap();
    let mut mem = Memory::new();
    let l = layout(8, 8);
    let long_lived = a.allocate(&l).unwrap();
    mem.write(long_lived, 1);
    for i in 0..HEAP_SIZE {
        let x = a.allocate(&l).unwrap();
        mem.write(x, i as u64);
        assert_eq!(mem.read(x), i as u64);
        a.dealloc(x, &l);
    }
    assert_eq!(mem.read(long_lived), 1);
}

#[test]
fn aligned_allocations() {
    let mut a = heap();
    for &align in &[1usize, 2, 4, 8, 16, 32, 64, 128, 256] {
        let l = layout(align, align);
        let p = a.allocate(&l).expect("allocation failed");
        assert_eq!(p % align, 0, "misaligned: ptr={:#x} align={}", p, align);
        a.dealloc(p, &l);
    }
}

#[test]
fn alloc_dealloc_patterns() {
    let mut a = heap();
    let (l64, l128, l256) = (layout(64, 1), layout(128, 1), layout(256, 1));
    // LIFO
    let x = a.allocate(&l64).unwrap();
    let y = a.allocate(&l128).unwrap();
    let z = a.allocate(&l256).unwrap();
    a.dealloc(z, &l256);
    a.dealloc(y, &l128);
    a.dealloc(x, &l64);
    // FIFO
    let x = a.allocate(&l64).unwrap();
    let y = a.allocate(&l128).unwrap();
    let z = a.allocate(&l256).unwrap();
    a.dealloc(x, &l64);
    a.dealloc(y, &l128);
    a.dealloc(z, &l256);
    // Interleaved
    let (l32, l48) = (layout(32, 1), layout(48, 1));
    let x = a.allocate(&l32).unwrap();
    let y = a.allocate(&l64).unwrap();
    a.dealloc(x, &l32);
    let z = a.allocate(&l48).unwrap();
    a.dealloc(z, &l48);
    a.dealloc(y, &l64);
}

#[test]
fn large_allocation() {
    let mut a = heap();
    let l = layout(50 * 1024, 1);
    let p = a.allocate(&l).unwrap();
    assert!(in_heap(p, 50 * 1024));
    a.dealloc(p, &l);
    let q = a.allocate(&l).unwrap();
    assert!(in_heap(q, 50 * 1024));
}
