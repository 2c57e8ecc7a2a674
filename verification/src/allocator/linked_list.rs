//! Free-list allocator with coalescing. The free regions are kept in list
//! order (most recently inserted first); each region is at least one list node
//! long and aligned for one.
use vstd::prelude::*;

use super::{
    align_up, is_power_of_two, lemma_mask_rounds_down, lemma_round_down_is_multiple,
    spec_align_up, Layout,
};

verus! {

/// Bytes taken by the list node kept at the start of each free region.
pub const NODE_SIZE: usize = 16;

/// Alignment of the list node kept at the start of each free region.
pub const NODE_ALIGN: usize = 8;

/// One free region: `size` bytes from address `start`.
#[derive(Clone, Copy, Debug, PartialEq, Eq, Structural)]
pub struct ListNode {
    pub start: usize,
    pub size: usize,
}

impl ListNode {
    pub fn new(start: usize, size: usize) -> (r: ListNode)
        ensures
            r.start == start,
            r.size == size,
    {
        ListNode { start, size }
    }

    pub fn start_addr(&self) -> (r: usize)
        ensures
            r == self.start,
    {
        self.start
    }

    pub fn end_addr(&self) -> (r: usize)
        requires
            self.start + self.size <= usize::MAX,
        ensures
            r == self.start + self.size,
    {
        self.start + self.size
    }
}

/// One past the last byte of `r`.
pub open spec fn end_of(r: ListNode) -> int {
    r.start + r.size
}

/// Address `x` lies in region `r`.
pub open spec fn in_region(r: ListNode, x: int) -> bool {
    r.start <= x < end_of(r)
}

/// Address `x` lies in some region of `rs` at index `i` or later.
pub open spec fn covers_from(rs: Seq<ListNode>, i: int, x: int) -> bool {
    exists|j: int| i <= j < rs.len() && #[trigger] in_region(rs[j], x)
}

/// Address `x` is free: it lies in some region of `rs`.
pub open spec fn covers(rs: Seq<ListNode>, x: int) -> bool {
    covers_from(rs, 0, x)
}

/// The ranges `[s1, s1 + z1)` and `[s2, s2 + z2)` do not overlap.
pub open spec fn ranges_disjoint(s1: int, z1: int, s2: int, z2: int) -> bool {
    s1 + z1 <= s2 || s2 + z2 <= s1
}

/// A region can hold a list node and ends inside the address space.
pub open spec fn node_ok(r: ListNode) -> bool {
    &&& r.start % NODE_ALIGN == 0
    &&& r.size >= NODE_SIZE
    &&& r.start + r.size <= usize::MAX
}

/// The range `[s, s + z)` overlaps no region of `rs`.
pub open spec fn disjoint_from_all(rs: Seq<ListNode>, s: int, z: int) -> bool {
    forall|j: int| 0 <= j < rs.len() ==> ranges_disjoint(#[trigger] rs[j].start as int, rs[j].size as int, s, z)
}

/// No region of `rs` ends where another starts: adjacent free regions are
/// always merged into one.
pub open spec fn none_adjacent(rs: Seq<ListNode>) -> bool {
    forall|j: int, k: int|
        0 <= j < rs.len() && 0 <= k < rs.len() && j != k ==> end_of(#[trigger] rs[j])
            != #[trigger] rs[k].start
}

/// Every region holds a node, no two regions overlap, and no two touch.
pub open spec fn regions_wf(rs: Seq<ListNode>) -> bool {
    &&& forall|j: int| 0 <= j < rs.len() ==> node_ok(#[trigger] rs[j])
    &&& forall|j: int, k: int|
        0 <= j < rs.len() && 0 <= k < rs.len() && j != k ==> ranges_disjoint(
            #[trigger] rs[j].start as int,
            rs[j].size as int,
            #[trigger] rs[k].start as int,
            rs[k].size as int,
        )
    &&& none_adjacent(rs)
}

/// The walk that inserts the free range `[s, s + z)`: from index `i` on, each
/// region that ends where the range starts is absorbed in front of it, each
/// region that starts where the range ends is absorbed behind it, and the
/// others are kept in order. Gives the merged range and the kept regions.
pub open spec fn merge_from(rs: Seq<ListNode>, i: int, s: int, z: int) -> (int, int, Seq<ListNode>)
    decreases rs.len() - i,
{
    if i < 0 || i >= rs.len() {
        (s, z, Seq::empty())
    } else {
        let r = rs[i];
        if end_of(r) == s {
            merge_from(rs, i + 1, r.start as int, z + r.size)
        } else if s + z == r.start {
            merge_from(rs, i + 1, s, z + r.size)
        } else {
            let t = merge_from(rs, i + 1, s, z);
            (t.0, t.1, seq![r] + t.2)
        }
    }
}

/// The free list after inserting `[s, s + z)`: the merged range first, then
/// the regions that were not merged.
pub open spec fn add_region_spec(rs: Seq<ListNode>, s: int, z: int) -> Seq<ListNode> {
    let t = merge_from(rs, 0, s, z);
    seq![ListNode { start: t.0 as usize, size: t.1 as usize }] + t.2
}

/// A block of `size` bytes aligned to `align` can be cut from `r` without
/// leaving a tail too small for a list node.
pub open spec fn fits(r: ListNode, size: int, align: int) -> bool {
    let st = spec_align_up(r.start as int, align);
    let excess = end_of(r) - (st + size);
    &&& excess >= 0
    &&& (excess == 0 || excess >= NODE_SIZE)
}

/// Index of the first region at `i` or later that fits, or `rs.len()`.
pub open spec fn first_fit(rs: Seq<ListNode>, i: int, size: int, align: int) -> int
    decreases rs.len() - i,
{
    if i < 0 || i >= rs.len() {
        rs.len() as int
    } else if fits(rs[i], size, align) {
        i
    } else {
        first_fit(rs, i + 1, size, align)
    }
}

/// Rounding a region start up to `align` stays inside the address space for
/// every region that the first-fit walk looks at.
pub open spec fn walk_safe(rs: Seq<ListNode>, size: int, align: int) -> bool {
    forall|j: int|
        0 <= j < rs.len() && j <= first_fit(rs, 0, size, align) ==> #[trigger] rs[j].start + align
            <= usize::MAX
}

/// The larger of two integers.
pub open spec fn max_int(a: int, b: int) -> int {
    if a >= b {
        a
    } else {
        b
    }
}

/// The alignment a request is served with: at least that of a list node.
pub open spec fn block_align(align: int) -> int {
    max_int(align, NODE_ALIGN as int)
}

/// The size a request is served with: padded to its alignment, and at least a
/// list node, so that the block can go back on the free list.
pub open spec fn block_size(size: int, align: int) -> int {
    max_int(spec_align_up(size, block_align(align)), NODE_SIZE as int)
}

/// Raising the alignment to that of a list node keeps the layout valid.
pub open spec fn size_align_ok(size: int, align: int) -> bool {
    size + block_align(align) - 1 <= isize::MAX
}

/// The address the allocator hands out for a block of `size` bytes aligned to
/// `align`, if some region fits.
pub open spec fn alloc_result(rs: Seq<ListNode>, size: int, align: int) -> Option<int> {
    let k = first_fit(rs, 0, size, align);
    if k < rs.len() {
        Some(spec_align_up(rs[k].start as int, align))
    } else {
        None
    }
}

/// The free list after serving a block of `size` bytes aligned to `align`: the
/// region it came from leaves the list, and the tail behind the block goes
/// back on it. The bytes before the aligned start are not returned to the list.
pub open spec fn after_alloc(rs: Seq<ListNode>, size: int, align: int) -> Seq<ListNode> {
    let k = first_fit(rs, 0, size, align);
    if k < rs.len() {
        let end = spec_align_up(rs[k].start as int, align) + size;
        let excess = end_of(rs[k]) - end;
        if excess > 0 {
            add_region_spec(rs.remove(k), end, excess)
        } else {
            rs.remove(k)
        }
    } else {
        rs
    }
}

/// What `allocate` does with a request of `size` bytes aligned to `align` on
/// the free list `before`: it hands out the first-fit address, or fails when
/// no region fits, and leaves the list `after`.
pub open spec fn serve_post(
    before: Seq<ListNode>,
    after: Seq<ListNode>,
    size: int,
    align: int,
    r: Result<usize, ()>,
) -> bool {
    let bsize = block_size(size, align);
    let balign = block_align(align);
    &&& r matches Ok(a) ==> alloc_result(before, bsize, balign) == Some(a as int)
    &&& r is Err ==> alloc_result(before, bsize, balign) is None
    &&& after == after_alloc(before, bsize, balign)
}

/// Free-list allocator. Walks a list of free regions for each alloc; freed
/// blocks are merged with adjacent free regions.
pub struct LinkedListAllocator {
    regions: Vec<ListNode>,
}

impl View for LinkedListAllocator {
    type V = Seq<ListNode>;

    closed spec fn view(&self) -> Seq<ListNode> {
        self.regions@
    }
}

impl LinkedListAllocator {
    /// The free list is well formed.
    pub open spec fn wf(&self) -> bool {
        regions_wf(self@)
    }

    pub fn new() -> (r: LinkedListAllocator)
        ensures
            r@ == Seq::<ListNode>::empty(),
            r.wf(),
    {
        LinkedListAllocator { regions: Vec::new() }
    }

    /// Hand the region `[heap_start, heap_start + heap_size)` to the allocator.
    pub fn init(&mut self, heap_start: usize, heap_size: usize)
        requires
            old(self).wf(),
            heap_start % NODE_ALIGN == 0,
            heap_size >= NODE_SIZE,
            heap_start + heap_size <= usize::MAX,
            disjoint_from_all(old(self)@, heap_start as int, heap_size as int),
        ensures
            final(self).wf(),
            final(self)@ == add_region_spec(old(self)@, heap_start as int, heap_size as int),
            forall|x: int|
                covers(final(self)@, x) <==> covers(old(self)@, x) || heap_start <= x < heap_start
                    + heap_size,
    {
        self.add_free_region(heap_start, heap_size);
    }

    /// Insert a free region, merging with any adjacent free blocks to prevent
    /// fragmentation.
    pub fn add_free_region(&mut self, addr: usize, size: usize)
        requires
            old(self).wf(),
            addr % NODE_ALIGN == 0,
            size >= NODE_SIZE,
            addr + size <= usize::MAX,
            disjoint_from_all(old(self)@, addr as int, size as int),
        ensures
            final(self).wf(),
            final(self)@ == add_region_spec(old(self)@, addr as int, size as int),
            forall|x: int|
                covers(final(self)@, x) <==> covers(old(self)@, x) || addr <= x < addr + size,
            final(self)@.len() > 0,
            final(self)@[0].start <= addr,
            addr + size <= end_of(final(self)@[0]),
    {
        let ghost rs = self.regions@;
        let n = self.regions.len();
        let mut new_start = addr;
        let mut new_size = size;
        let mut kept: Vec<ListNode> = Vec::new();
        let mut i: usize = 0;
        while i < n
            invariant
                n == rs.len(),
                self.regions@ == rs,
                regions_wf(rs),
                0 <= i <= n,
                merge_from(rs, 0, addr as int, size as int) == ({
                    let t = merge_from(rs, i as int, new_start as int, new_size as int);
                    (t.0, t.1, kept@ + t.2)
                }),
                new_start % NODE_ALIGN == 0,
                new_size >= NODE_SIZE,
                new_start + new_size <= usize::MAX,
                forall|j: int|
                    i <= j < n ==> ranges_disjoint(
                        #[trigger] rs[j].start as int,
                        rs[j].size as int,
                        new_start as int,
                        new_size as int,
                    ),
                disjoint_from_all(kept@, new_start as int, new_size as int),
                regions_wf(kept@),
                forall|j: int, l: int|
                    0 <= j < kept@.len() && i <= l < n ==> ranges_disjoint(
                        #[trigger] kept@[j].start as int,
                        kept@[j].size as int,
                        #[trigger] rs[l].start as int,
                        rs[l].size as int,
                    ),
                forall|j: int, l: int|
                    0 <= j < kept@.len() && i <= l < n ==> end_of(#[trigger] kept@[j])
                        != #[trigger] rs[l].start && end_of(rs[l]) != kept@[j].start,
                forall|j: int|
                    0 <= j < kept@.len() ==> end_of(#[trigger] kept@[j]) != new_start
                        && kept@[j].start != new_start + new_size,
            decreases n - i,
        {
            let r = self.regions[i];
            assert(node_ok(rs[i as int]));
            if r.end_addr() == new_start {
                new_start = r.start_addr();
                new_size = new_size + r.size;
            } else if new_start + new_size == r.start_addr() {
                new_size = new_size + r.size;
            } else {
                let ghost old_kept = kept@;
                kept.push(r);
                assert(kept@ == old_kept + seq![r]);
                let ghost t = merge_from(rs, i + 1, new_start as int, new_size as int);
                assert(old_kept + (seq![r] + t.2) == kept@ + t.2);
            }
            i = i + 1;
        }
        let node = ListNode::new(new_start, new_size);
        let ghost kept_before = kept@;
        kept.insert(0, node);
        assert(kept@ == seq![node] + kept_before);
        self.regions = kept;
        proof {
            lemma_add_region_covers(rs, addr as int, size as int);
        }
    }

    /// Whether `allocate` can take `layout`: raising its alignment to that of a
    /// list node keeps it valid, and rounding each region start that the
    /// first-fit walk looks at up to that alignment stays inside the address
    /// space.
    pub fn check_request(&self, layout: &Layout) -> (r: bool)
        requires
            self.wf(),
        ensures
            r == (size_align_ok(layout.spec_size() as int, layout.spec_align() as int) && walk_safe(
                self@,
                block_size(layout.spec_size() as int, layout.spec_align() as int),
                block_align(layout.spec_align() as int),
            )),
    {
        let size = layout.size();
        let align = layout.align();
        let a = if align > NODE_ALIGN {
            align
        } else {
            NODE_ALIGN
        };
        if size > (isize::MAX as usize) - (a - 1) {
            return false;
        }
        let (size, align) = Self::size_align(layout);
        let ghost rs = self.regions@;
        let n = self.regions.len();
        let mut i: usize = 0;
        while i < n
            invariant
                n == rs.len(),
                self.regions@ == rs,
                regions_wf(rs),
                is_power_of_two(align),
                0 <= i <= n,
                first_fit(rs, 0, size as int, align as int) == first_fit(
                    rs,
                    i as int,
                    size as int,
                    align as int,
                ),
                forall|j: int| 0 <= j < i ==> #[trigger] rs[j].start + align <= usize::MAX,
                rs == self@,
                size_align_ok(layout.spec_size() as int, layout.spec_align() as int),
                size == block_size(layout.spec_size() as int, layout.spec_align() as int),
                align == block_align(layout.spec_align() as int),
            decreases n - i,
        {
            proof {
                lemma_first_fit(rs, i as int, size as int, align as int);
            }
            let region = self.regions[i];
            assert(node_ok(rs[i as int]));
            if region.start > usize::MAX - align {
                assert(rs[i as int].start + align > usize::MAX);
                return false;
            }
            if Self::alloc_from_region(&region, size, align).is_ok() {
                assert(first_fit(rs, 0, size as int, align as int) == i);
                return true;
            }
            i = i + 1;
        }
        proof {
            lemma_first_fit(rs, n as int, size as int, align as int);
        }
        true
    }

    /// Whether `dealloc` can take the block at `ptr` for `layout`: raising the
    /// alignment keeps the layout valid, the block is aligned for a list node,
    /// ends inside the address space and overlaps no free region.
    pub fn check_free(&self, ptr: usize, layout: &Layout) -> (r: bool)
        requires
            self.wf(),
        ensures
            r == (size_align_ok(layout.spec_size() as int, layout.spec_align() as int) && ptr
                % NODE_ALIGN == 0 && ptr + block_size(
                layout.spec_size() as int,
                layout.spec_align() as int,
            ) <= usize::MAX && disjoint_from_all(
                self@,
                ptr as int,
                block_size(layout.spec_size() as int, layout.spec_align() as int),
            )),
    {
        let size = layout.size();
        let align = layout.align();
        let a = if align > NODE_ALIGN {
            align
        } else {
            NODE_ALIGN
        };
        if size > (isize::MAX as usize) - (a - 1) {
            return false;
        }
        let (size, _align) = Self::size_align(layout);
        if ptr % NODE_ALIGN != 0 || ptr > usize::MAX - size {
            return false;
        }
        let ghost rs = self.regions@;
        let n = self.regions.len();
        let mut i: usize = 0;
        while i < n
            invariant
                n == rs.len(),
                self.regions@ == rs,
                rs == self@,
                regions_wf(rs),
                0 <= i <= n,
                ptr + size <= usize::MAX,
                size == block_size(layout.spec_size() as int, layout.spec_align() as int),
                forall|j: int|
                    0 <= j < i ==> ranges_disjoint(
                        #[trigger] rs[j].start as int,
                        rs[j].size as int,
                        ptr as int,
                        size as int,
                    ),
            decreases n - i,
        {
            let region = self.regions[i];
            assert(node_ok(rs[i as int]));
            if !(region.start + region.size <= ptr || ptr + size <= region.start) {
                return false;
            }
            i = i + 1;
        }
        true
    }

    /// Walk the free list for a region that fits. Returns the node and the
    /// aligned start address, and takes the node off the list.
    pub fn find_region(&mut self, size: usize, align: usize) -> (r: Option<(ListNode, usize)>)
        requires
            old(self).wf(),
            is_power_of_two(align),
            walk_safe(old(self)@, size as int, align as int),
        ensures
            final(self).wf(),
            first_fit(old(self)@, 0, size as int, align as int) < old(self)@.len() ==> r == Some(
                (
                    old(self)@[first_fit(old(self)@, 0, size as int, align as int)],
                    spec_align_up(
                        old(self)@[first_fit(old(self)@, 0, size as int, align as int)].start as int,
                        align as int,
                    ) as usize,
                ),
            ),
            first_fit(old(self)@, 0, size as int, align as int) < old(self)@.len() ==> final(self)@
                == old(self)@.remove(first_fit(old(self)@, 0, size as int, align as int)),
            first_fit(old(self)@, 0, size as int, align as int) >= old(self)@.len() ==> r is None
                && final(self)@ == old(self)@,
    {
        let ghost rs = self.regions@;
        proof {
            lemma_first_fit(rs, 0, size as int, align as int);
        }
        let n = self.regions.len();
        let mut i: usize = 0;
        while i < n
            invariant
                n == rs.len(),
                self.regions@ == rs,
                rs == old(self)@,
                regions_wf(rs),
                is_power_of_two(align),
                walk_safe(rs, size as int, align as int),
                0 <= i <= n,
                first_fit(rs, 0, size as int, align as int) == first_fit(
                    rs,
                    i as int,
                    size as int,
                    align as int,
                ),
            decreases n - i,
        {
            proof {
                lemma_first_fit(rs, i as int, size as int, align as int);
            }
            let region = self.regions[i];
            assert(node_ok(rs[i as int]));
            match Self::alloc_from_region(&region, size, align) {
                Ok(alloc_start) => {
                    assert(first_fit(rs, i as int, size as int, align as int) == i);
                    let removed = self.regions.remove(i);
                    proof {
                        lemma_remove_keeps_wf(rs, i as int);
                    }
                    return Some((removed, alloc_start));
                },
                Err(()) => {
                    i = i + 1;
                },
            }
        }
        None
    }

    /// Check if a region can satisfy the allocation. Returns the aligned start
    /// if yes.
    pub fn alloc_from_region(region: &ListNode, size: usize, align: usize) -> (r: Result<usize, ()>)
        requires
            node_ok(*region),
            is_power_of_two(align),
            region.start + align <= usize::MAX,
        ensures
            r is Ok <==> fits(*region, size as int, align as int),
            r matches Ok(st) ==> st == spec_align_up(region.start as int, align as int),
    {
        let alloc_start = align_up(region.start_addr(), align);
        let alloc_end = match alloc_start.checked_add(size) {
            Some(e) => e,
            None => {
                return Err(());
            },
        };
        if alloc_end > region.end_addr() {
            return Err(());
        }
        let excess_size = region.end_addr() - alloc_end;
        if excess_size > 0 && excess_size < NODE_SIZE {
            return Err(());
        }
        Ok(alloc_start)
    }

    /// Round a request up so that the freed block can hold a list node:
    /// alignment at least that of a node, size padded to the alignment and at
    /// least a node.
    pub fn size_align(layout: &Layout) -> (r: (usize, usize))
        requires
            size_align_ok(layout.spec_size() as int, layout.spec_align() as int),
        ensures
            r.1 == block_align(layout.spec_align() as int),
            r.0 == block_size(layout.spec_size() as int, layout.spec_align() as int),
            is_power_of_two(r.1),
            r.1 >= NODE_ALIGN,
            r.0 % NODE_ALIGN == 0,
            r.0 >= layout.spec_size(),
            r.0 >= NODE_SIZE,
            is_power_of_two(layout.spec_align()),
    {
        let size = layout.size();
        let align = layout.align();
        let a = if align > NODE_ALIGN {
            align
        } else {
            NODE_ALIGN
        };
        proof {
            lemma_eight_is_power_of_two();
            lemma_mask_rounds_down(size, a);
        }
        let padded = align_up(size, a);
        proof {
            lemma_round_down_is_multiple((size + a - 1) as int, a as int);
            lemma_power_of_two_at_least_eight(a);
            lemma_multiple_of_eight(padded as int, a as int);
        }
        let s = if padded > NODE_SIZE {
            padded
        } else {
            NODE_SIZE
        };
        (s, a)
    }

    /// Find a fitting region, split it if larger than needed, and return the
    /// start of the block.
    pub fn allocate(&mut self, layout: &Layout) -> (r: Result<usize, ()>)
        requires
            old(self).wf(),
            size_align_ok(layout.spec_size() as int, layout.spec_align() as int),
            walk_safe(
                old(self)@,
                block_size(layout.spec_size() as int, layout.spec_align() as int),
                block_align(layout.spec_align() as int),
            ),
        ensures
            final(self).wf(),
            ({
                let size = block_size(layout.spec_size() as int, layout.spec_align() as int);
                let align = block_align(layout.spec_align() as int);
                &&& serve_post(
                    old(self)@,
                    final(self)@,
                    layout.spec_size() as int,
                    layout.spec_align() as int,
                    r,
                )
                &&& r matches Ok(a) ==> {
                    let k = first_fit(old(self)@, 0, size, align);
                    let end = a + size;
                    let region_end = end_of(old(self)@[k]);
                    final(self)@ == if end < region_end {
                        seq![ListNode { start: end as usize, size: (region_end - end) as usize }]
                            + old(self)@.remove(k)
                    } else {
                        old(self)@.remove(k)
                    }
                }
            }),
            r matches Ok(a) ==> {
                &&& a % layout.spec_align() == 0
                &&& forall|x: int|
                    a <= x < a + layout.spec_size() ==> covers(old(self)@, x) && !covers(
                        final(self)@,
                        x,
                    )
            },
    {
        let ghost rs = self.regions@;
        let (size, align) = Self::size_align(layout);
        match self.find_region(size, align) {
            Some((region, alloc_start)) => {
                let ghost k = first_fit(rs, 0, size as int, align as int);
                proof {
                    lemma_first_fit(rs, 0, size as int, align as int);
                    lemma_remove_keeps_wf(rs, k);
                }
                let alloc_end = alloc_start + size;
                let excess_size = region.end_addr() - alloc_end;
                proof {
                    lemma_mask_rounds_down(region.start, align);
                    lemma_round_down_is_multiple((region.start + align - 1) as int, align as int);
                    lemma_power_of_two_at_least_eight(align);
                    lemma_multiple_of_eight(alloc_start as int, align as int);
                    lemma_remove_covers(rs, k);
                    layout_align_divides(layout.spec_align(), align as int, alloc_start as int);
                }
                if excess_size > 0 {
                    proof {
                        assert forall|j: int| 0 <= j < rs.remove(k).len() implies ranges_disjoint(
                            #[trigger] rs.remove(k)[j].start as int,
                            rs.remove(k)[j].size as int,
                            alloc_end as int,
                            excess_size as int,
                        ) by {
                            let jj = if j < k { j } else { j + 1 };
                            assert(rs.remove(k)[j] == rs[jj]);
                        }
                        assert forall|j: int| 0 <= j < rs.remove(k).len() implies end_of(
                            #[trigger] rs.remove(k)[j],
                        ) != alloc_end && rs.remove(k)[j].start != alloc_end + excess_size by {
                            let jj = if j < k { j } else { j + 1 };
                            assert(rs.remove(k)[j] == rs[jj]);
                        }
                        lemma_merge_untouched(rs.remove(k), 0, alloc_end as int, excess_size as int);
                    }
                    self.add_free_region(alloc_end, excess_size);
                    proof {
                        let tail = ListNode { start: alloc_end, size: excess_size };
                        assert(self@ =~= seq![tail] + rs.remove(k));
                    }
                }
                proof {
                    assert(region == rs[k]);
                    assert forall|x: int|
                        alloc_start <= x < alloc_start + layout.spec_size() implies covers(rs, x)
                        && !covers(self@, x) by {
                        assert(in_region(rs[k], x));
                        assert(covers_from(rs, 0, x));
                        assert(!covers(rs.remove(k), x));
                        if excess_size > 0 {
                            assert(covers(add_region_spec(rs.remove(k), alloc_end as int, excess_size as int), x)
                                <==> covers(rs.remove(k), x) || alloc_end <= x < alloc_end + excess_size);
                        }
                    }
                }
                Ok(alloc_start)
            },
            None => Err(()),
        }
    }

    /// Return a block to the free list. Coalesces with neighbors.
    pub fn dealloc(&mut self, ptr: usize, layout: &Layout)
        requires
            old(self).wf(),
            size_align_ok(layout.spec_size() as int, layout.spec_align() as int),
            ptr % NODE_ALIGN == 0,
            ptr + block_size(layout.spec_size() as int, layout.spec_align() as int)
                <= usize::MAX,
            disjoint_from_all(
                old(self)@,
                ptr as int,
                block_size(layout.spec_size() as int, layout.spec_align() as int),
            ),
        ensures
            final(self).wf(),
            final(self)@ == add_region_spec(
                old(self)@,
                ptr as int,
                block_size(layout.spec_size() as int, layout.spec_align() as int),
            ),
            forall|x: int|
                covers(final(self)@, x) <==> covers(old(self)@, x) || ptr <= x < ptr + block_size(
                    layout.spec_size() as int,
                    layout.spec_align() as int,
                ),
    {
        let (size, _align) = Self::size_align(layout);
        self.add_free_region(ptr, size);
    }
}

/// A range that touches none of the regions from index `i` on absorbs none of
/// them: the walk keeps them all, in order.
pub proof fn lemma_merge_untouched(rs: Seq<ListNode>, i: int, s: int, z: int)
    requires
        0 <= i <= rs.len(),
        forall|j: int| i <= j < rs.len() ==> end_of(#[trigger] rs[j]) != s && rs[j].start != s + z,
    ensures
        merge_from(rs, i, s, z) == (s, z, rs.subrange(i, rs.len() as int)),
    decreases rs.len() - i,
{
    if i < rs.len() {
        lemma_merge_untouched(rs, i + 1, s, z);
        assert(seq![rs[i]] + rs.subrange(i + 1, rs.len() as int) =~= rs.subrange(i, rs.len() as int));
    } else {
        assert(rs.subrange(i, rs.len() as int) =~= Seq::<ListNode>::empty());
    }
}

/// Facts about the first-fit index from `i` on.
pub proof fn lemma_first_fit(rs: Seq<ListNode>, i: int, size: int, align: int)
    requires
        0 <= i <= rs.len(),
    ensures
        i <= first_fit(rs, i, size, align) <= rs.len(),
        forall|j: int| i <= j < first_fit(rs, i, size, align) ==> !#[trigger] fits(rs[j], size, align),
        first_fit(rs, i, size, align) < rs.len() ==> fits(
            rs[first_fit(rs, i, size, align)],
            size,
            align,
        ),
        i < rs.len() && !fits(rs[i], size, align) ==> first_fit(rs, i, size, align) == first_fit(
            rs,
            i + 1,
            size,
            align,
        ),
    decreases rs.len() - i,
{
    if i < rs.len() && !fits(rs[i], size, align) {
        lemma_first_fit(rs, i + 1, size, align);
    }
}

/// Taking one region off a well-formed list leaves it well formed.
pub proof fn lemma_remove_keeps_wf(rs: Seq<ListNode>, k: int)
    requires
        regions_wf(rs),
        0 <= k < rs.len(),
    ensures
        regions_wf(rs.remove(k)),
{
    let t = rs.remove(k);
    assert forall|j: int| 0 <= j < t.len() implies node_ok(#[trigger] t[j]) by {
        let jj = if j < k { j } else { j + 1 };
        assert(t[j] == rs[jj]);
    }
    assert forall|j: int, l: int|
        0 <= j < t.len() && 0 <= l < t.len() && j != l implies ranges_disjoint(
        #[trigger] t[j].start as int,
        t[j].size as int,
        #[trigger] t[l].start as int,
        t[l].size as int,
    ) by {
        let jj = if j < k { j } else { j + 1 };
        let ll = if l < k { l } else { l + 1 };
        assert(t[j] == rs[jj]);
        assert(t[l] == rs[ll]);
    }
}

/// Taking region `k` off a well-formed list frees exactly its bytes.
pub proof fn lemma_remove_covers(rs: Seq<ListNode>, k: int)
    requires
        regions_wf(rs),
        0 <= k < rs.len(),
    ensures
        forall|x: int| #[trigger] covers(rs.remove(k), x) <==> covers(rs, x) && !in_region(rs[k], x),
{
    let t = rs.remove(k);
    assert forall|x: int| covers(t, x) <==> covers(rs, x) && !in_region(rs[k], x) by {
        if covers(t, x) {
            let j = choose|j: int| 0 <= j < t.len() && #[trigger] in_region(t[j], x);
            let jj = if j < k { j } else { j + 1 };
            assert(t[j] == rs[jj]);
            assert(in_region(rs[jj], x));
            assert(ranges_disjoint(
                rs[jj].start as int,
                rs[jj].size as int,
                rs[k].start as int,
                rs[k].size as int,
            ));
        }
        if covers(rs, x) && !in_region(rs[k], x) {
            let j = choose|j: int| 0 <= j < rs.len() && #[trigger] in_region(rs[j], x);
            let jj = if j < k { j } else { j - 1 };
            assert(t[jj] == rs[j]);
            assert(in_region(t[jj], x));
        }
    }
}

/// An address lies in a region from index `i` on exactly when it lies in
/// region `i` or in one after it.
pub proof fn lemma_covers_from_split(rs: Seq<ListNode>, i: int)
    requires
        0 <= i < rs.len(),
    ensures
        forall|x: int| covers_from(rs, i, x) <==> in_region(rs[i], x) || covers_from(rs, i + 1, x),
{
    assert forall|x: int| covers_from(rs, i, x) <==> in_region(rs[i], x) || covers_from(rs, i + 1, x) by {
        if covers_from(rs, i, x) {
            let j = choose|j: int| i <= j < rs.len() && #[trigger] in_region(rs[j], x);
            if j > i {
                assert(covers_from(rs, i + 1, x));
            }
        }
        if covers_from(rs, i + 1, x) {
            let j = choose|j: int| i + 1 <= j < rs.len() && #[trigger] in_region(rs[j], x);
            assert(covers_from(rs, i, x));
        }
        if in_region(rs[i], x) {
            assert(covers_from(rs, i, x));
        }
    }
}

/// An address lies in some region of `seq![r] + rest` exactly when it lies in
/// `r` or in a region of `rest`.
pub proof fn lemma_covers_cons(r: ListNode, rest: Seq<ListNode>)
    ensures
        forall|x: int| covers(seq![r] + rest, x) <==> in_region(r, x) || covers(rest, x),
{
    let a = seq![r] + rest;
    assert forall|x: int| covers(a, x) <==> in_region(r, x) || covers(rest, x) by {
        if covers(a, x) {
            let j = choose|j: int| 0 <= j < a.len() && #[trigger] in_region(a[j], x);
            if j > 0 {
                assert(a[j] == rest[j - 1]);
                assert(covers_from(rest, 0, x));
            }
        }
        if covers(rest, x) {
            let j = choose|j: int| 0 <= j < rest.len() && #[trigger] in_region(rest[j], x);
            assert(a[j + 1] == rest[j]);
            assert(covers_from(a, 0, x));
        }
        if in_region(r, x) {
            assert(a[0] == r);
            assert(covers_from(a, 0, x));
        }
    }
}

/// The merge walk keeps exactly the addresses of the range and of the regions
/// it walks over: none is lost and none is added. The merged range stays
/// inside the address space.
pub proof fn lemma_merge_covers(rs: Seq<ListNode>, i: int, s: int, z: int)
    requires
        0 <= i <= rs.len(),
        z >= 0,
        s >= 0,
        s + z <= usize::MAX,
        forall|j: int| 0 <= j < rs.len() ==> #[trigger] rs[j].start + rs[j].size <= usize::MAX,
    ensures
        ({
            let t = merge_from(rs, i, s, z);
            &&& t.1 >= z
            &&& t.0 >= 0
            &&& t.0 <= s
            &&& s + z <= t.0 + t.1
            &&& t.0 + t.1 <= usize::MAX
            &&& forall|x: int|
                (t.0 <= x < t.0 + t.1 || covers(t.2, x)) <==> (s <= x < s + z || covers_from(
                    rs,
                    i,
                    x,
                ))
        }),
    decreases rs.len() - i,
{
    let t = merge_from(rs, i, s, z);
    if i < rs.len() {
        let r = rs[i];
        assert(r.start + r.size <= usize::MAX);
        lemma_covers_from_split(rs, i);
        if end_of(r) == s {
            lemma_merge_covers(rs, i + 1, r.start as int, z + r.size);
            assert(t == merge_from(rs, i + 1, r.start as int, z + r.size));
            assert forall|x: int|
                (t.0 <= x < t.0 + t.1 || covers(t.2, x)) <==> (s <= x < s + z || covers_from(
                    rs,
                    i,
                    x,
                )) by {
                assert(covers_from(rs, i, x) <==> in_region(r, x) || covers_from(rs, i + 1, x));
            }
        } else if s + z == r.start {
            lemma_merge_covers(rs, i + 1, s, z + r.size);
            assert(t == merge_from(rs, i + 1, s, z + r.size));
            assert forall|x: int|
                (t.0 <= x < t.0 + t.1 || covers(t.2, x)) <==> (s <= x < s + z || covers_from(
                    rs,
                    i,
                    x,
                )) by {
                assert(covers_from(rs, i, x) <==> in_region(r, x) || covers_from(rs, i + 1, x));
            }
        } else {
            lemma_merge_covers(rs, i + 1, s, z);
            let t1 = merge_from(rs, i + 1, s, z);
            assert(t == (t1.0, t1.1, seq![r] + t1.2));
            lemma_covers_cons(r, t1.2);
            assert forall|x: int|
                (t.0 <= x < t.0 + t.1 || covers(t.2, x)) <==> (s <= x < s + z || covers_from(
                    rs,
                    i,
                    x,
                )) by {
                assert(covers_from(rs, i, x) <==> in_region(r, x) || covers_from(rs, i + 1, x));
                assert(covers(t.2, x) <==> in_region(r, x) || covers(t1.2, x));
            }
        }
    } else {
        assert(t == (s, z, Seq::<ListNode>::empty()));
        assert forall|x: int| !covers_from(rs, i, x) && !covers(t.2, x) by {}
    }
}

/// Inserting a free range adds exactly its addresses to the free set, and the
/// merged region at the head of the list holds the whole range.
pub proof fn lemma_add_region_covers(rs: Seq<ListNode>, s: int, z: int)
    requires
        regions_wf(rs),
        z >= 0,
        s >= 0,
        s + z <= usize::MAX,
    ensures
        forall|x: int| #[trigger] covers(add_region_spec(rs, s, z), x) <==> covers(rs, x) || s <= x < s + z,
        add_region_spec(rs, s, z)[0].start <= s,
        s + z <= end_of(add_region_spec(rs, s, z)[0]),
{
    assert forall|j: int| 0 <= j < rs.len() implies #[trigger] rs[j].start + rs[j].size <= usize::MAX by {
        assert(node_ok(rs[j]));
    }
    lemma_merge_covers(rs, 0, s, z);
    let t = merge_from(rs, 0, s, z);
    let node = ListNode { start: t.0 as usize, size: t.1 as usize };
    lemma_covers_cons(node, t.2);
    assert(add_region_spec(rs, s, z) == seq![node] + t.2);
    assert forall|x: int| covers(add_region_spec(rs, s, z), x) <==> covers(rs, x) || s <= x < s + z by {
        assert(in_region(node, x) <==> t.0 <= x < t.0 + t.1);
        assert(covers(rs, x) == covers_from(rs, 0, x));
    }
}

proof fn lemma_eight_is_power_of_two()
    ensures
        is_power_of_two(NODE_ALIGN),
{
    vstd::arithmetic::power2::lemma2_to64();
    assert(vstd::arithmetic::power2::pow2(3) == 8);
}

/// A power of two that is at least 8 is a multiple of 8.
proof fn lemma_power_of_two_at_least_eight(a: usize)
    requires
        is_power_of_two(a),
        a >= 8,
    ensures
        a % 8 == 0,
{
    let n = choose|n: nat| n < usize::BITS && #[trigger] vstd::arithmetic::power2::pow2(n) == a;
    vstd::arithmetic::power2::lemma2_to64();
    if n < 3 {
        assert(n == 0 || n == 1 || n == 2);
    } else {
        vstd::arithmetic::power2::lemma_pow2_adds(3, (n - 3) as nat);
        vstd::arithmetic::div_mod::lemma_mod_multiples_basic(
            vstd::arithmetic::power2::pow2((n - 3) as nat) as int,
            8,
        );
    }
}

/// A multiple of an alignment of at least 8 that is a power of two is a
/// multiple of 8.
proof fn lemma_multiple_of_eight(x: int, a: int)
    requires
        a >= 8,
        a % 8 == 0,
        x % a == 0,
        x >= 0,
    ensures
        x % 8 == 0,
{
    vstd::arithmetic::div_mod::lemma_mod_mod(x, 8, a / 8);
    vstd::arithmetic::div_mod::lemma_fundamental_div_mod(a, 8);
}

/// A multiple of the larger of two powers of two is a multiple of the smaller.
proof fn layout_align_divides(small: usize, big: int, x: int)
    requires
        is_power_of_two(small),
        big == max_int(small as int, NODE_ALIGN as int),
        x % big == 0,
        x >= 0,
    ensures
        x % (small as int) == 0,
{
    if small < 8 {
        let n = choose|n: nat| n < usize::BITS && #[trigger] vstd::arithmetic::power2::pow2(n) == small;
        vstd::arithmetic::power2::lemma2_to64();
        if n > 3 {
            vstd::arithmetic::power2::lemma_pow2_strictly_increases(3, n);
        }
        assert(n == 0 || n == 1 || n == 2);
        assert(small == 1 || small == 2 || small == 4);
        vstd::arithmetic::div_mod::lemma_mod_mod(x, small as int, 8int / (small as int));
        assert((small as int) * (8int / (small as int)) == 8);
    }
}

} // verus!
