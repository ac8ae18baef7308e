//! Page geometry shared by the allocator and the page-table engine.

use vstd::prelude::*;

verus! {

/// The size of a page frame, in bytes.
pub const PAGE_SIZE: usize = 4096;

/// One beyond the highest virtual address that the kernel uses: one bit below
/// what Sv39 allows, so that no virtual address needs sign extension.
pub const MAX_VIRTUAL_ADDRESS: u64 = 0x40_0000_0000;

/// The virtual address of the trampoline page, the last page below
/// `MAX_VIRTUAL_ADDRESS`.
pub const TRAMPOLINE: u64 = 0x3f_ffff_f000;

/// `a` rounded down to a multiple of `PAGE_SIZE`.
pub open spec fn page_down(a: int) -> int {
    a - a % (PAGE_SIZE as int)
}

/// `a` rounded up to a multiple of `PAGE_SIZE`.
pub open spec fn page_up(a: int) -> int {
    if a % (PAGE_SIZE as int) == 0 {
        a
    } else {
        page_down(a) + PAGE_SIZE as int
    }
}

/// Rounds `a` down to the start of its page.
pub fn pgrounddown(a: usize) -> (r: usize)
    ensures
        r == page_down(a as int),
        r % PAGE_SIZE == 0,
        r <= a,
        a - r < PAGE_SIZE,
{
    let r = a & !(PAGE_SIZE - 1);
    assert(a & !4095usize == a - a % 4096) by (bit_vector);
    r
}

/// Rounds `a` up to the next page boundary.
pub fn pgroundup(a: usize) -> (r: usize)
    requires
        a + PAGE_SIZE - 1 <= usize::MAX,
    ensures
        r == page_up(a as int),
        r % PAGE_SIZE == 0,
        a <= r,
        r - a < PAGE_SIZE,
{
    let b = a + (PAGE_SIZE - 1);
    let r = b & !(PAGE_SIZE - 1);
    assert(b & !4095usize == b - b % 4096) by (bit_vector);
    r
}

/// Rounds a 64-bit address down to the start of its page.
pub fn page_start(a: u64) -> (r: u64)
    ensures
        r == page_down(a as int),
        r % 4096 == 0,
        r <= a,
        a - r < 4096,
{
    let r = a & !4095u64;
    assert(a & !4095u64 == a - a % 4096) by (bit_vector);
    r
}

} // verus!
