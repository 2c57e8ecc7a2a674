//! Bump allocator (educational, not the active allocator).
//! Moves a pointer forward on alloc. Never frees individual blocks.
use vstd::prelude::*;

use super::{align_up, lemma_mask_rounds_down, spec_align_up, Layout};

verus! {

pub struct BumpAllocator {
    heap_start: usize,
    heap_end: usize,
    next: usize,
    allocations: usize,
}

impl BumpAllocator {
    pub closed spec fn spec_heap_start(&self) -> usize {
        self.heap_start
    }

    pub closed spec fn spec_heap_end(&self) -> usize {
        self.heap_end
    }

    /// The first address not yet handed out.
    pub closed spec fn spec_next(&self) -> usize {
        self.next
    }

    /// Blocks handed out and not yet given back.
    pub closed spec fn spec_allocations(&self) -> usize {
        self.allocations
    }

    pub fn new() -> (r: BumpAllocator)
        ensures
            r.spec_heap_start() == 0,
            r.spec_heap_end() == 0,
            r.spec_next() == 0,
            r.spec_allocations() == 0,
    {
        BumpAllocator { heap_start: 0, heap_end: 0, next: 0, allocations: 0 }
    }

    /// Manage the heap `[heap_start, heap_start + heap_size)`. The count of
    /// live blocks is left as it was.
    pub fn init(&mut self, heap_start: usize, heap_size: usize)
        requires
            heap_start + heap_size <= usize::MAX,
        ensures
            final(self).spec_heap_start() == heap_start,
            final(self).spec_heap_end() == heap_start + heap_size,
            final(self).spec_next() == heap_start,
            final(self).spec_allocations() == old(self).spec_allocations(),
    {
        self.heap_start = heap_start;
        self.heap_end = heap_start + heap_size;
        self.next = heap_start;
    }

    /// Hand out the next block: `next` rounded up to the alignment, if the
    /// block still ends inside the heap.
    pub fn allocate(&mut self, layout: &Layout) -> (r: Result<usize, ()>)
        requires
            old(self).spec_next() + layout.spec_align() <= usize::MAX,
            old(self).spec_allocations() < usize::MAX,
        ensures
            ({
                let start = spec_align_up(
                    old(self).spec_next() as int,
                    layout.spec_align() as int,
                );
                let end = start + layout.spec_size();
                if end <= old(self).spec_heap_end() {
                    &&& r == Ok::<usize, ()>(start as usize)
                    &&& final(self).spec_next() == end
                    &&& final(self).spec_allocations() == old(self).spec_allocations() + 1
                    &&& final(self).spec_heap_start() == old(self).spec_heap_start()
                    &&& final(self).spec_heap_end() == old(self).spec_heap_end()
                } else {
                    &&& r is Err
                    &&& *final(self) == *old(self)
                }
            }),
            r matches Ok(a) ==> a % layout.spec_align() == 0 && a >= old(self).spec_next(),
    {
        let align = layout.align();
        proof {
            lemma_mask_rounds_down(self.next, align);
        }
        let alloc_start = align_up(self.next, align);
        let alloc_end = match alloc_start.checked_add(layout.size()) {
            Some(e) => e,
            None => {
                return Err(());
            },
        };
        if alloc_end > self.heap_end {
            return Err(());
        }
        self.next = alloc_end;
        self.allocations = self.allocations + 1;
        Ok(alloc_start)
    }

    /// Count one block as given back; once none is left, the whole heap is
    /// free again.
    pub fn dealloc(&mut self, _ptr: usize, _layout: &Layout)
        requires
            old(self).spec_allocations() > 0,
        ensures
            final(self).spec_allocations() == old(self).spec_allocations() - 1,
            final(self).spec_next() == if final(self).spec_allocations() == 0 {
                old(self).spec_heap_start()
            } else {
                old(self).spec_next()
            },
            final(self).spec_heap_start() == old(self).spec_heap_start(),
            final(self).spec_heap_end() == old(self).spec_heap_end(),
    {
        self.allocations = self.allocations - 1;
        if self.allocations == 0 {
            self.next = self.heap_start;
        }
    }
}

} // verus!
