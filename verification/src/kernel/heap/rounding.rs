//! How the heap rounds what it is asked for: sizes to powers of two, bytes
//! to pages.

use crate::bitmap_allocator::PAGE_SIZE;
use crate::kernel::heap::MIN_BLOCK;
use vstd::prelude::*;

verus! {

/// The smallest power of two that is at least `n`.
pub open spec fn pow2_ceil(n: nat) -> nat
    decreases n,
{
    if n <= 1 {
        1
    } else {
        2 * pow2_ceil((n + 1) / 2)
    }
}

/// Whether `n` is a power of two.
pub open spec fn is_pow2(n: nat) -> bool
    decreases n,
{
    if n <= 1 {
        n == 1
    } else {
        n % 2 == 0 && is_pow2(n / 2)
    }
}

/// `n` rounded up to a power of two, and to `MIN_BLOCK` at least.
pub open spec fn block_ceil(n: nat) -> nat {
    if pow2_ceil(n) < MIN_BLOCK {
        MIN_BLOCK as nat
    } else {
        pow2_ceil(n)
    }
}

/// Number of pages that cover `bytes` bytes.
pub open spec fn page_span(bytes: int) -> int {
    (bytes + PAGE_SIZE - 1) / (PAGE_SIZE as int)
}

/// `size` padded to a multiple of `align`, which counts as 16 at least.
pub open spec fn padded_size(size: nat, align: nat) -> nat {
    let a: nat = if align < MIN_BLOCK {
        MIN_BLOCK as nat
    } else {
        align
    };
    (((size + a - 1) / (a as int)) * a) as nat
}

/// Payload length of the cell that serves a request of `size` bytes aligned
/// to `align`: the padded size rounded up to a power of two, and to
/// `MIN_BLOCK` at least.
pub open spec fn block_size_of(size: nat, align: nat) -> nat {
    block_ceil(padded_size(size, align))
}

/// A power of two that is at least `n`, and whose half is not, is the
/// smallest such power.
pub proof fn lemma_pow2_ceil_unique(n: nat, r: nat)
    requires
        is_pow2(r),
        r >= n,
        r == 1 || r / 2 < n,
    ensures
        r == pow2_ceil(n),
    decreases n,
{
    if n > 1 {
        assert(is_pow2(r / 2));
        lemma_pow2_ceil_unique((n + 1) / 2, r / 2);
    }
}

/// Rounding up to a power of two never gives less than was given, and gives a
/// power of two back unchanged.
pub proof fn lemma_pow2_ceil_bounds(n: nat)
    ensures
        is_pow2(pow2_ceil(n)),
        pow2_ceil(n) >= n,
        is_pow2(n) ==> pow2_ceil(n) == n,
    decreases n,
{
    if n > 1 {
        lemma_pow2_ceil_bounds((n + 1) / 2);
        if is_pow2(n) {
            lemma_pow2_ceil_unique(n, n);
        }
    }
}

/// Between a power of two and its double there is no other power of two.
proof fn lemma_pow2_gap(r: nat, c: nat)
    requires
        is_pow2(r),
        is_pow2(c),
        r < c,
    ensures
        2 * r <= c,
    decreases c,
{
    if c > 1 && r > 1 {
        lemma_pow2_gap(r / 2, c / 2);
    }
}

proof fn lemma_pow2_multiple_of_16(r: nat)
    requires
        is_pow2(r),
        r >= 16,
    ensures
        r % 16 == 0,
{
    reveal_with_fuel(is_pow2, 5);
    let a = r / 2;
    let b = a / 2;
    let c = b / 2;
    let d = c / 2;
    assert(r == 2 * a && a == 2 * b && b == 2 * c && c == 2 * d);
}

/// A size rounded up to a block is a multiple of 16.
pub proof fn lemma_block_ceil_aligned(n: nat)
    ensures
        block_ceil(n) % 16 == 0,
        block_ceil(n) >= n,
        block_ceil(n) >= MIN_BLOCK,
        is_pow2(block_ceil(n)),
{
    lemma_pow2_ceil_bounds(n);
    assert(is_pow2(16)) by {
        reveal_with_fuel(is_pow2, 6);
    }
    if pow2_ceil(n) >= 16 {
        lemma_pow2_multiple_of_16(pow2_ceil(n));
    }
}

/// The smallest power of two that is at least `n`, or `None` where it does
/// not fit the machine word.
pub fn round_up_power_of_two(n: usize) -> (rounded: Option<usize>)
    ensures
        rounded.is_some() == (pow2_ceil(n as nat) <= usize::MAX),
        rounded.is_some() ==> rounded.unwrap() == pow2_ceil(n as nat),
{
    let mut r: usize = 1;
    while r < n
        invariant
            r >= 1,
            is_pow2(r as nat),
            r == 1 || r / 2 < n,
        decreases usize::MAX - r,
    {
        if r > usize::MAX / 2 {
            proof {
                lemma_pow2_ceil_bounds(n as nat);
                let c = pow2_ceil(n as nat);
                if c <= usize::MAX {
                    lemma_pow2_gap(r as nat, c);
                }
            }
            return None;
        }
        r = r * 2;
        assert(is_pow2(r as nat));
    }
    proof {
        lemma_pow2_ceil_unique(n as nat, r as nat);
    }
    Some(r)
}

/// `amount` rounded up to a power of two, and to `MIN_BLOCK` at least; `None`
/// where that does not fit the machine word.
pub fn round_up_block(amount: usize) -> (rounded: Option<usize>)
    ensures
        rounded.is_some() == (block_ceil(amount as nat) <= usize::MAX),
        rounded.is_some() ==> rounded.unwrap() == block_ceil(amount as nat),
{
    match round_up_power_of_two(amount) {
        Some(r) => if r < MIN_BLOCK {
            Some(MIN_BLOCK)
        } else {
            Some(r)
        },
        None => None,
    }
}

/// Payload length of the cell that serves a request of `size` bytes aligned
/// to `align`, or `None` where it does not fit the machine word.
pub fn block_size(size: usize, align: usize) -> (block: Option<usize>)
    ensures
        block.is_some() == (block_size_of(size as nat, align as nat) <= usize::MAX),
        block.is_some() ==> block.unwrap() == block_size_of(size as nat, align as nat),
        block.is_some() ==> block.unwrap() % 16 == 0,
{
    let a: usize = if align < MIN_BLOCK {
        MIN_BLOCK
    } else {
        align
    };
    proof {
        let max = usize::MAX as int;
        assert(size as int / a as int <= max / 2) by (nonlinear_arith)
            requires
                a >= 16,
                0 <= size <= max,
        ;
    }
    let units: usize = if size % a == 0 {
        size / a
    } else {
        size / a + 1
    };
    proof {
        assert(units == (size + a - 1) / (a as int)) by (nonlinear_arith)
            requires
                a >= 16,
                size % a == 0 ==> units == size / a,
                size % a != 0 ==> units == size / a + 1,
        ;
        lemma_pow2_ceil_bounds(padded_size(size as nat, align as nat));
        lemma_block_ceil_aligned(padded_size(size as nat, align as nat));
    }
    match units.checked_mul(a) {
        Some(padded) => round_up_block(padded),
        None => None,
    }
}

/// Number of pages that cover `bytes` bytes.
pub fn pages_for(bytes: usize) -> (pages: usize)
    ensures
        pages == (bytes + PAGE_SIZE - 1) / (PAGE_SIZE as int),
        pages * PAGE_SIZE < bytes + PAGE_SIZE,
        pages * PAGE_SIZE >= bytes,
{
    if bytes % PAGE_SIZE == 0 {
        bytes / PAGE_SIZE
    } else {
        bytes / PAGE_SIZE + 1
    }
}

} // verus!
