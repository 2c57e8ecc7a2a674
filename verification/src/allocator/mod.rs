//! Heap allocators and the layout they are asked for.
pub mod bump;
pub mod fixed_size_block;
pub mod linked_list;

use vstd::arithmetic::power2::{lemma_pow2_pos, pow2};
use vstd::arithmetic::div_mod::{
    lemma_fundamental_div_mod, lemma_mod_multiples_basic, lemma_mod_bound,
};
use vstd::arithmetic::mul::lemma_mul_is_commutative;
use vstd::bits::{
    low_bits_mask, lemma_usize_low_bits_mask_is_mod, lemma_usize_pow2_no_overflow,
    lemma_usize_shl_is_mul,
};
use vstd::prelude::*;

verus! {

/// `x` is a power of two that fits in a `usize`.
pub open spec fn is_power_of_two(x: usize) -> bool {
    exists|n: nat| n < usize::BITS && #[trigger] pow2(n) == x
}

/// `r` is the least multiple of `align` that is at least `addr`.
pub open spec fn is_aligned_up(addr: int, align: int, r: int) -> bool {
    &&& r % align == 0
    &&& addr <= r < addr + align
}

/// Masking with a power of two: `x & (a - 1)` is `x % a`, and `x & !(a - 1)`
/// rounds `x` down to a multiple of `a`.
pub proof fn lemma_mask_rounds_down(x: usize, a: usize)
    requires
        is_power_of_two(a),
    ensures
        a > 0,
        x & ((a - 1) as usize) == x % a,
        x & !((a - 1) as usize) == x - x % a,
{
    let n = choose|n: nat| n < usize::BITS && #[trigger] pow2(n) == a;
    lemma_pow2_pos(n);
    lemma_usize_low_bits_mask_is_mod(x, n);
    let m: usize = (a - 1) as usize;
    assert(low_bits_mask(n) == m);
    assert(x & !m == x - (x & m)) by (bit_vector);
}

/// The value `align_up` computes: `addr + align - 1` rounded down to a
/// multiple of `align`.
pub open spec fn spec_align_up(addr: int, align: int) -> int {
    (addr + align - 1) - (addr + align - 1) % align
}

/// Round `addr` up to the nearest multiple of `align` (must be power of two).
pub fn align_up(addr: usize, align: usize) -> (r: usize)
    requires
        is_power_of_two(align),
        addr + align <= usize::MAX,
    ensures
        r == spec_align_up(addr as int, align as int),
        is_aligned_up(addr as int, align as int, r as int),
{
    proof {
        lemma_mask_rounds_down(addr, align);
    }
    let x: usize = addr + align - 1;
    proof {
        lemma_mask_rounds_down(x, align);
        lemma_round_down_is_multiple(x as int, align as int);
    }
    x & !(align - 1)
}

/// `x - x % a` is a multiple of `a`.
pub proof fn lemma_round_down_is_multiple(x: int, a: int)
    requires
        a > 0,
    ensures
        (x - x % a) % a == 0,
        0 <= x % a < a,
{
    lemma_fundamental_div_mod(x, a);
    lemma_mod_multiples_basic(x / a, a);
    lemma_mul_is_commutative(a, x / a);
    lemma_mod_bound(x, a);
}

/// The layout rule: `align` is a power of two and `size`, rounded up to a
/// multiple of `align`, stays within `isize::MAX`.
pub open spec fn valid_layout(size: usize, align: usize) -> bool {
    &&& is_power_of_two(align)
    &&& size + align - 1 <= isize::MAX
}

/// Size and alignment of a requested block of memory.
pub struct Layout {
    size: usize,
    align: usize,
}

/// Returned when a size and an alignment do not form a valid layout.
#[derive(Debug)]
pub struct LayoutError;

impl Layout {
    #[verifier::type_invariant]
    spec fn inv(&self) -> bool {
        valid_layout(self.size, self.align)
    }

    /// The size in bytes.
    pub closed spec fn spec_size(&self) -> usize {
        self.size
    }

    /// The alignment in bytes.
    pub closed spec fn spec_align(&self) -> usize {
        self.align
    }

    /// A layout of `size` bytes aligned to `align`, if the two form a valid layout.
    pub fn from_size_align(size: usize, align: usize) -> (r: Result<Layout, LayoutError>)
        ensures
            r is Ok <==> valid_layout(size, align),
            r matches Ok(l) ==> l.spec_size() == size && l.spec_align() == align,
    {
        if !check_power_of_two(align) {
            return Err(LayoutError);
        }
        proof {
            lemma_mask_rounds_down(0, align);
        }
        if align - 1 > isize::MAX as usize || size > (isize::MAX as usize) - (align - 1) {
            return Err(LayoutError);
        }
        Ok(Layout { size, align })
    }

    pub fn size(&self) -> (r: usize)
        ensures
            r == self.spec_size(),
            valid_layout(self.spec_size(), self.spec_align()),
    {
        proof {
            use_type_invariant(self);
        }
        self.size
    }

    pub fn align(&self) -> (r: usize)
        ensures
            r == self.spec_align(),
            valid_layout(self.spec_size(), self.spec_align()),
    {
        proof {
            use_type_invariant(self);
        }
        self.align
    }
}

/// Whether `x` is a power of two, by comparing it with each `1 << n`.
pub fn check_power_of_two(x: usize) -> (r: bool)
    ensures
        r == is_power_of_two(x),
{
    let mut n: u32 = 0;
    while n < usize::BITS
        invariant
            n <= usize::BITS,
            forall|k: nat| k < n ==> #[trigger] pow2(k) != x,
        decreases usize::BITS - n,
    {
        proof {
            lemma_usize_pow2_no_overflow(n as nat);
            lemma_usize_shl_is_mul(1, n as usize);
        }
        if (1usize << n) == x {
            return true;
        }
        n = n + 1;
    }
    false
}

} // verus!
