//! Fixed-size block allocator. Per-size free lists for 8..2048 bytes, O(1)
//! alloc/dealloc. Falls back to the linked-list allocator for larger sizes and
//! for size classes whose list is empty.
use vstd::prelude::*;

use super::linked_list::{
    add_region_spec, alloc_result, block_align, block_size, covers, disjoint_from_all,
    serve_post, size_align_ok, walk_safe, LinkedListAllocator, ListNode, NODE_ALIGN, NODE_SIZE,
};
use super::is_power_of_two;
use super::Layout;

verus! {

/// Number of size classes.
pub const NUM_BLOCK_SIZES: usize = 9;

/// The block size of each size class.
pub const BLOCK_SIZES: [usize; 9] = [8, 16, 32, 64, 128, 256, 512, 1024, 2048];

/// The block size of size class `i`.
pub open spec fn class_size(i: int) -> int {
    BLOCK_SIZES@[i] as int
}

/// The first size class from `i` on whose blocks hold `required` bytes.
pub open spec fn class_from(required: int, i: int) -> Option<int>
    decreases NUM_BLOCK_SIZES - i,
{
    if i < 0 || i >= NUM_BLOCK_SIZES {
        None
    } else if class_size(i) >= required {
        Some(i)
    } else {
        class_from(required, i + 1)
    }
}

/// The size class that serves a request: the smallest block that holds both
/// its size and its alignment.
pub open spec fn size_class(size: int, align: int) -> Option<int> {
    class_from(if size >= align { size } else { align }, 0)
}

/// The size class of a layout, if it has one.
pub fn list_index(layout: &Layout) -> (r: Option<usize>)
    ensures
        r matches Some(i) ==> size_class(layout.spec_size() as int, layout.spec_align() as int)
            == Some(i as int),
        r is None ==> size_class(layout.spec_size() as int, layout.spec_align() as int) is None,
        r matches Some(i) ==> i < NUM_BLOCK_SIZES,
{
    let size = layout.size();
    let align = layout.align();
    let required = if size >= align {
        size
    } else {
        align
    };
    let mut i: usize = 0;
    while i < NUM_BLOCK_SIZES
        invariant
            i <= NUM_BLOCK_SIZES,
            required == if layout.spec_size() >= layout.spec_align() {
                layout.spec_size()
            } else {
                layout.spec_align()
            },
            class_from(required as int, 0) == class_from(required as int, i as int),
        decreases NUM_BLOCK_SIZES - i,
    {
        if BLOCK_SIZES[i] >= required {
            return Some(i);
        }
        i = i + 1;
    }
    None
}

pub struct FixedSizeBlockAllocator {
    list_heads: Vec<Vec<usize>>,
    fallback_allocator: LinkedListAllocator,
}

impl FixedSizeBlockAllocator {
    /// The free blocks of each size class; the last one of a list is handed out
    /// first.
    pub closed spec fn spec_lists(&self) -> Seq<Seq<usize>> {
        self.list_heads@.map_values(|l: Vec<usize>| l@)
    }

    /// The allocator behind the size classes.
    pub closed spec fn spec_fallback(&self) -> LinkedListAllocator {
        self.fallback_allocator
    }

    /// One list per size class, each block in a list aligned to its class
    /// size, and a well-formed fallback allocator.
    pub open spec fn wf(&self) -> bool {
        &&& self.spec_lists().len() == NUM_BLOCK_SIZES
        &&& forall|i: int, j: int|
            0 <= i < NUM_BLOCK_SIZES && 0 <= j < self.spec_lists()[i].len() ==> #[trigger] self.spec_lists()[i][j]
                % (class_size(i) as usize) == 0
        &&& self.spec_fallback().wf()
    }

    /// A request for `layout` can be served without a fault: either a free
    /// block of its class is at hand, or the fallback allocator can be asked.
    pub open spec fn can_serve(&self, layout: Layout) -> bool {
        match size_class(layout.spec_size() as int, layout.spec_align() as int) {
            Some(i) => self.spec_lists()[i].len() > 0 || walk_safe(
                self.spec_fallback()@,
                block_size(class_size(i), class_size(i)),
                block_align(class_size(i)),
            ),
            None => size_align_ok(layout.spec_size() as int, layout.spec_align() as int)
                && walk_safe(
                self.spec_fallback()@,
                block_size(layout.spec_size() as int, layout.spec_align() as int),
                block_align(layout.spec_align() as int),
            ),
        }
    }

    /// What `allocate` does: serve a small request from the end of its class
    /// list, or from the fallback allocator with a block of the class size
    /// when that list is empty; serve a large request from the fallback.
    pub open spec fn allocate_post(
        old_a: FixedSizeBlockAllocator,
        new_a: FixedSizeBlockAllocator,
        layout: Layout,
        r: Result<usize, ()>,
    ) -> bool {
        let fb = old_a.spec_fallback()@;
        match size_class(layout.spec_size() as int, layout.spec_align() as int) {
            Some(i) => {
                let list = old_a.spec_lists()[i];
                if list.len() > 0 {
                    &&& r == Ok::<usize, ()>(list.last())
                    &&& new_a.spec_lists() == old_a.spec_lists().update(i, list.drop_last())
                    &&& new_a.spec_fallback()@ == fb
                } else {
                    &&& serve_post(
                        fb,
                        new_a.spec_fallback()@,
                        class_size(i),
                        class_size(i),
                        r,
                    )
                    &&& new_a.spec_lists() == old_a.spec_lists()
                }
            },
            None => {
                &&& serve_post(
                    fb,
                    new_a.spec_fallback()@,
                    layout.spec_size() as int,
                    layout.spec_align() as int,
                    r,
                )
                &&& new_a.spec_lists() == old_a.spec_lists()
            },
        }
    }

    /// What `dealloc` does: a small block goes on the end of its class list; a
    /// large one goes back to the fallback allocator.
    pub open spec fn dealloc_post(
        old_a: FixedSizeBlockAllocator,
        new_a: FixedSizeBlockAllocator,
        ptr: usize,
        layout: Layout,
    ) -> bool {
        match size_class(layout.spec_size() as int, layout.spec_align() as int) {
            Some(i) => {
                &&& new_a.spec_lists() == old_a.spec_lists().update(
                    i,
                    old_a.spec_lists()[i].push(ptr),
                )
                &&& new_a.spec_fallback()@ == old_a.spec_fallback()@
            },
            None => {
                &&& new_a.spec_lists() == old_a.spec_lists()
                &&& new_a.spec_fallback()@ == add_region_spec(
                    old_a.spec_fallback()@,
                    ptr as int,
                    block_size(layout.spec_size() as int, layout.spec_align() as int),
                )
            },
        }
    }

    pub fn new() -> (r: FixedSizeBlockAllocator)
        ensures
            r.wf(),
            forall|i: int| 0 <= i < NUM_BLOCK_SIZES ==> r.spec_lists()[i].len() == 0,
            r.spec_fallback()@ == Seq::<ListNode>::empty(),
    {
        let mut list_heads: Vec<Vec<usize>> = Vec::new();
        let mut i: usize = 0;
        while i < NUM_BLOCK_SIZES
            invariant
                i <= NUM_BLOCK_SIZES,
                list_heads@.len() == i,
                forall|j: int| 0 <= j < i ==> list_heads@[j]@.len() == 0,
            decreases NUM_BLOCK_SIZES - i,
        {
            list_heads.push(Vec::new());
            i = i + 1;
        }
        FixedSizeBlockAllocator { list_heads, fallback_allocator: LinkedListAllocator::new() }
    }

    /// Hand the heap `[heap_start, heap_start + heap_size)` to the fallback
    /// allocator.
    pub fn init(&mut self, heap_start: usize, heap_size: usize)
        requires
            old(self).wf(),
            heap_start % NODE_ALIGN == 0,
            heap_size >= NODE_SIZE,
            heap_start + heap_size <= usize::MAX,
            disjoint_from_all(old(self).spec_fallback()@, heap_start as int, heap_size as int),
        ensures
            final(self).wf(),
            final(self).spec_lists() == old(self).spec_lists(),
            final(self).spec_fallback()@ == add_region_spec(
                old(self).spec_fallback()@,
                heap_start as int,
                heap_size as int,
            ),
    {
        self.fallback_allocator.init(heap_start, heap_size);
    }

    /// Whether `allocate` can take `layout` now: a free block of its class is
    /// at hand, or the fallback allocator can take the request.
    pub fn check_request(&self, layout: &Layout) -> (r: bool)
        requires
            self.wf(),
        ensures
            r == self.can_serve(*layout),
    {
        match list_index(layout) {
            Some(index) => {
                if self.list_heads[index].len() > 0 {
                    return true;
                }
                let block_size = BLOCK_SIZES[index];
                proof {
                    lemma_block_sizes_are_powers_of_two(index as int);
                }
                let class_layout = Layout::from_size_align(block_size, block_size).unwrap();
                self.fallback_allocator.check_request(&class_layout)
            },
            None => self.fallback_allocator.check_request(layout),
        }
    }

    pub fn allocate(&mut self, layout: &Layout) -> (r: Result<usize, ()>)
        requires
            old(self).wf(),
            old(self).can_serve(*layout),
        ensures
            final(self).wf(),
            Self::allocate_post(*old(self), *final(self), *layout, r),
            r matches Ok(a) ==> a % layout.spec_align() == 0,
            r matches Ok(a) ==> match size_class(
                layout.spec_size() as int,
                layout.spec_align() as int,
            ) {
                Some(i) => old(self).spec_lists()[i].len() == 0 ==> forall|x: int|
                    a <= x < a + class_size(i) ==> covers(old(self).spec_fallback()@, x) && !covers(
                        final(self).spec_fallback()@,
                        x,
                    ),
                None => forall|x: int|
                    a <= x < a + layout.spec_size() ==> covers(old(self).spec_fallback()@, x)
                        && !covers(final(self).spec_fallback()@, x),
            },
    {
        proof {
            lemma_class_in_range(if layout.spec_size() >= layout.spec_align() {
                layout.spec_size() as int
            } else {
                layout.spec_align() as int
            }, 0);
        }
        let align = layout.align();
        match list_index(layout) {
            Some(index) => {
                proof {
                    lemma_class_multiple_of_align(index as int, align);
                }
                let ghost lists = self.spec_lists();
                match self.list_heads[index].pop() {
                    Some(addr) => {
                        assert(self.spec_lists() =~= lists.update(
                            index as int,
                            lists[index as int].drop_last(),
                        ));
                        proof {
                            let last = lists[index as int].len() - 1;
                            assert(lists[index as int][last] % (class_size(index as int) as usize) == 0);
                            lemma_mod_of_multiple(addr as int, class_size(index as int), align as int);
                            assert forall|i: int, j: int|
                                0 <= i < NUM_BLOCK_SIZES && 0 <= j < self.spec_lists()[i].len()
                                    implies #[trigger] self.spec_lists()[i][j] % (class_size(i) as usize) == 0 by {
                                if i == index {
                                    assert(self.spec_lists()[i][j] == lists[i][j]);
                                }
                            }
                        }
                        Ok(addr)
                    },
                    None => {
                        assert(self.spec_lists() =~= lists);
                        let block_size = BLOCK_SIZES[index];
                        let block_align = block_size;
                        let layout = Layout::from_size_align(block_size, block_align);
                        proof {
                            lemma_block_sizes_are_powers_of_two(index as int);
                        }
                        let class_layout = layout.unwrap();
                        let r = self.fallback_allocator.allocate(&class_layout);
                        proof {
                            if let Ok(a) = r {
                                lemma_mod_of_multiple(a as int, class_size(index as int), align as int);
                            }
                        }
                        r
                    },
                }
            },
            None => self.fallback_allocator.allocate(layout),
        }
    }

    /// Whether `dealloc` can take the block at `ptr` for `layout`: a small
    /// block is aligned to its class size; a large one meets what the fallback
    /// allocator asks of a freed block.
    pub fn check_dealloc(&self, ptr: usize, layout: &Layout) -> (r: bool)
        requires
            self.wf(),
        ensures
            r == match size_class(layout.spec_size() as int, layout.spec_align() as int) {
                Some(i) => ptr % (class_size(i) as usize) == 0,
                None => {
                    &&& size_align_ok(layout.spec_size() as int, layout.spec_align() as int)
                    &&& ptr % NODE_ALIGN == 0
                    &&& ptr + block_size(layout.spec_size() as int, layout.spec_align() as int)
                        <= usize::MAX
                    &&& disjoint_from_all(
                        self.spec_fallback()@,
                        ptr as int,
                        block_size(layout.spec_size() as int, layout.spec_align() as int),
                    )
                },
            },
    {
        match list_index(layout) {
            Some(index) => ptr % BLOCK_SIZES[index] == 0,
            None => self.fallback_allocator.check_free(ptr, layout),
        }
    }

    pub fn dealloc(&mut self, ptr: usize, layout: &Layout)
        requires
            old(self).wf(),
            size_class(layout.spec_size() as int, layout.spec_align() as int) matches Some(i) ==> ptr
                % (class_size(i) as usize) == 0,
            size_class(layout.spec_size() as int, layout.spec_align() as int) is None ==> {
                &&& size_align_ok(layout.spec_size() as int, layout.spec_align() as int)
                &&& ptr % NODE_ALIGN == 0
                &&& ptr + block_size(layout.spec_size() as int, layout.spec_align() as int)
                    <= usize::MAX
                &&& disjoint_from_all(
                    old(self).spec_fallback()@,
                    ptr as int,
                    block_size(layout.spec_size() as int, layout.spec_align() as int),
                )
            },
        ensures
            final(self).wf(),
            Self::dealloc_post(*old(self), *final(self), ptr, *layout),
    {
        match list_index(layout) {
            Some(index) => {
                let ghost lists = self.spec_lists();
                self.list_heads[index].push(ptr);
                assert(self.spec_lists() =~= lists.update(index as int, lists[index as int].push(ptr)));
                proof {
                    assert forall|i: int, j: int|
                        0 <= i < NUM_BLOCK_SIZES && 0 <= j < self.spec_lists()[i].len()
                            implies #[trigger] self.spec_lists()[i][j] % (class_size(i) as usize) == 0 by {
                        if i == index && j < lists[i].len() {
                            assert(self.spec_lists()[i][j] == lists[i][j]);
                        }
                    }
                }
            },
            None => {
                self.fallback_allocator.dealloc(ptr, layout);
            },
        }
    }
}

/// The block size of a class is a multiple of every power of two that it is
/// at least.
proof fn lemma_class_multiple_of_align(i: int, align: usize)
    requires
        0 <= i < NUM_BLOCK_SIZES,
        is_power_of_two(align),
        align <= class_size(i),
    ensures
        align > 0,
        class_size(i) % (align as int) == 0,
{
    let m = choose|m: nat| m < usize::BITS && #[trigger] vstd::arithmetic::power2::pow2(m) == align;
    let c = (i + 3) as nat;
    vstd::arithmetic::power2::lemma2_to64();
    vstd::arithmetic::power2::lemma_pow2_pos(m);
    assert(vstd::arithmetic::power2::pow2(c) == class_size(i));
    if m > c {
        vstd::arithmetic::power2::lemma_pow2_strictly_increases(c, m);
    }
    vstd::arithmetic::power2::lemma_pow2_adds(m, (c - m) as nat);
    vstd::arithmetic::power2::lemma_pow2_pos((c - m) as nat);
    vstd::arithmetic::div_mod::lemma_mod_multiples_basic(
        vstd::arithmetic::power2::pow2((c - m) as nat) as int,
        align as int,
    );
    vstd::arithmetic::mul::lemma_mul_is_commutative(
        vstd::arithmetic::power2::pow2((c - m) as nat) as int,
        align as int,
    );
}

/// A multiple of `c` is a multiple of every divisor `a` of `c`.
proof fn lemma_mod_of_multiple(x: int, c: int, a: int)
    requires
        x >= 0,
        a > 0,
        c > 0,
        x % c == 0,
        c % a == 0,
    ensures
        x % a == 0,
{
    vstd::arithmetic::div_mod::lemma_fundamental_div_mod(c, a);
    let k = c / a;
    assert(c == a * k);
    assert(k > 0) by (nonlinear_arith)
        requires
            c == a * k,
            c > 0,
            a > 0,
    ;
    vstd::arithmetic::div_mod::lemma_mod_mod(x, a, k);
}

/// Every block size is a power of two, and a block of that size aligned to
/// itself is a valid layout.
proof fn lemma_block_sizes_are_powers_of_two(i: int)
    requires
        0 <= i < NUM_BLOCK_SIZES,
    ensures
        super::valid_layout(BLOCK_SIZES@[i], BLOCK_SIZES@[i]),
{
    vstd::arithmetic::power2::lemma2_to64();
    assert(vstd::arithmetic::power2::pow2((i + 3) as nat) == BLOCK_SIZES@[i]);
}

/// A block of a small size class that is given back is the next one handed
/// out for the same layout, and the lists are as before.
pub proof fn law_freed_block_is_reused_first(
    a0: FixedSizeBlockAllocator,
    a1: FixedSizeBlockAllocator,
    a2: FixedSizeBlockAllocator,
    ptr: usize,
    layout: Layout,
    r: Result<usize, ()>,
)
    requires
        a0.wf(),
        size_class(layout.spec_size() as int, layout.spec_align() as int) is Some,
        FixedSizeBlockAllocator::dealloc_post(a0, a1, ptr, layout),
        FixedSizeBlockAllocator::allocate_post(a1, a2, layout, r),
    ensures
        r == Ok::<usize, ()>(ptr),
        a2.spec_lists() == a0.spec_lists(),
        a2.spec_fallback()@ == a0.spec_fallback()@,
{
    let i = size_class(layout.spec_size() as int, layout.spec_align() as int).unwrap();
    lemma_class_in_range(if layout.spec_size() >= layout.spec_align() {
        layout.spec_size() as int
    } else {
        layout.spec_align() as int
    }, 0);
    assert(a1.spec_lists()[i] == a0.spec_lists()[i].push(ptr));
    assert(a1.spec_lists()[i].drop_last() == a0.spec_lists()[i]);
    assert(a2.spec_lists() =~= a0.spec_lists());
}

/// A small request whose class list is empty is served as the fallback
/// allocator serves a request for one block of the class size aligned to that
/// size: same result, same fallback list after; a request that no class holds
/// is served as the fallback allocator serves it. `r2` and `fb2` are what the
/// fallback's `allocate` gives for that request on the fallback list before.
pub proof fn law_fallback_serves_what_no_list_holds(
    a0: FixedSizeBlockAllocator,
    a1: FixedSizeBlockAllocator,
    layout: Layout,
    r: Result<usize, ()>,
    fb2: Seq<ListNode>,
    r2: Result<usize, ()>,
)
    requires
        a0.wf(),
        FixedSizeBlockAllocator::allocate_post(a0, a1, layout, r),
        match size_class(layout.spec_size() as int, layout.spec_align() as int) {
            Some(i) => a0.spec_lists()[i].len() == 0 && serve_post(
                a0.spec_fallback()@,
                fb2,
                class_size(i),
                class_size(i),
                r2,
            ),
            None => serve_post(
                a0.spec_fallback()@,
                fb2,
                layout.spec_size() as int,
                layout.spec_align() as int,
                r2,
            ),
        },
    ensures
        r is Err <==> r2 is Err,
        r matches Ok(a) ==> r2 == Ok::<usize, ()>(a),
        a1.spec_fallback()@ == fb2,
        a1.spec_lists() == a0.spec_lists(),
{
    lemma_class_in_range(if layout.spec_size() >= layout.spec_align() {
        layout.spec_size() as int
    } else {
        layout.spec_align() as int
    }, 0);
    let (size, align) = match size_class(layout.spec_size() as int, layout.spec_align() as int) {
        Some(i) => (class_size(i), class_size(i)),
        None => (layout.spec_size() as int, layout.spec_align() as int),
    };
    let fb = a0.spec_fallback()@;
    assert(serve_post(fb, a1.spec_fallback()@, size, align, r));
    assert(serve_post(fb, fb2, size, align, r2));
    lemma_serve_result_unique(fb, a1.spec_fallback()@, fb2, size, align, r, r2);
}

/// The result `allocate` gives on a free list is fixed by the list and the
/// request.
proof fn lemma_serve_result_unique(
    fb: Seq<ListNode>,
    f1: Seq<ListNode>,
    f2: Seq<ListNode>,
    size: int,
    align: int,
    r1: Result<usize, ()>,
    r2: Result<usize, ()>,
)
    requires
        serve_post(fb, f1, size, align, r1),
        serve_post(fb, f2, size, align, r2),
    ensures
        r1 is Err <==> r2 is Err,
        r1 matches Ok(a) ==> r2 == Ok::<usize, ()>(a),
        f1 == f2,
{
    if let Ok(a) = r1 {
        if let Ok(b) = r2 {
            assert(a as int == b as int);
        }
    }
}

/// A request is served from the smallest size class whose blocks hold both
/// its size and its alignment; it has no class when even the largest block
/// (2048 bytes) is too small.
pub proof fn law_size_class_is_the_smallest_that_holds(size: int, align: int)
    ensures
        size_class(size, align) matches Some(i) ==> 0 <= i < NUM_BLOCK_SIZES && class_size(i)
            >= size && class_size(i) >= align && forall|j: int|
            0 <= j < i ==> (#[trigger] class_size(j) < size || class_size(j) < align),
        size_class(size, align) is None ==> size > 2048 || align > 2048,
{
    let req = if size >= align {
        size
    } else {
        align
    };
    lemma_class_from_least(req, 0);
    if size_class(size, align) is None {
        assert(class_size(8) == 2048);
        assert(class_size(8) < req);
    }
}

/// The class search from `i` on passes only classes too small.
proof fn lemma_class_from_least(required: int, i: int)
    requires
        0 <= i <= NUM_BLOCK_SIZES,
    ensures
        class_from(required, i) matches Some(k) ==> i <= k < NUM_BLOCK_SIZES && class_size(k)
            >= required && forall|j: int| i <= j < k ==> #[trigger] class_size(j) < required,
        class_from(required, i) is None ==> forall|j: int|
            i <= j < NUM_BLOCK_SIZES ==> #[trigger] class_size(j) < required,
    decreases NUM_BLOCK_SIZES - i,
{
    if i < NUM_BLOCK_SIZES && class_size(i) < required {
        lemma_class_from_least(required, i + 1);
    }
}

/// A size class found from `i` on is a valid class index at or after `i`.
pub proof fn lemma_class_in_range(required: int, i: int)
    ensures
        class_from(required, i) matches Some(k) ==> 0 <= k < NUM_BLOCK_SIZES && k >= i
            && class_size(k) >= required,
    decreases NUM_BLOCK_SIZES - i,
{
    if 0 <= i < NUM_BLOCK_SIZES && class_size(i) < required {
        lemma_class_in_range(required, i + 1);
    }
}

} // verus!
