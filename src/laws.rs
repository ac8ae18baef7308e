//! Properties of the allocators over several calls, proved from the
//! contracts of `kalloc`.

use vstd::prelude::*;
use crate::kalloc::{
    fits_first, first_fit, is_page_request, round16, KernelAllocator, KernelPageAllocator,
    PageAllocView, TinyHeader, HEADER_SIZE, MAX_ALIGNMENT, TINY_LIMIT,
};
use crate::layout::{page_up, PAGE_SIZE};

verus! {

/// A call on the frame allocator, for stating what a run of calls does.
#[derive(PartialEq, Eq, Structural, Clone, Copy, Debug)]
pub enum PageOp {
    /// `allocate(PAGE_SIZE, PAGE_SIZE)`.
    Alloc,
    /// `dealloc` of the frame at the address.
    Dealloc(usize),
}

/// The state after the calls `ops`, first to last.
pub open spec fn run(s: PageAllocView, ops: Seq<PageOp>) -> PageAllocView
    decreases ops.len(),
{
    if ops.len() == 0 {
        s
    } else {
        let t = run(s, ops.drop_last());
        match ops.last() {
            PageOp::Alloc => t.after_alloc(PAGE_SIZE as int, PAGE_SIZE as int),
            PageOp::Dealloc(p) => t.after_dealloc(p as int),
        }
    }
}

/// The number of allocations among `ops`.
pub open spec fn alloc_count(ops: Seq<PageOp>) -> int
    decreases ops.len(),
{
    if ops.len() == 0 {
        0
    } else {
        alloc_count(ops.drop_last()) + if ops.last() is Alloc { 1int } else { 0int }
    }
}

/// Whether each call of `ops` finds the allocator quiescent: an allocation
/// finds a free frame, and a release drops the only reference to a frame.
pub open spec fn unshared_run(s: PageAllocView, ops: Seq<PageOp>) -> bool {
    forall|k: int|
        0 <= k < ops.len() ==> {
            let t = run(s, ops.subrange(0, k));
            match #[trigger] ops[k] {
                PageOp::Alloc => t.free.len() > 0,
                PageOp::Dealloc(p) => t.can_dealloc(p as int) && t.refcount(p as int) == 1,
            }
        }
}

/// The state after `k` calls of `in_place_copy(p)`.
pub open spec fn share_times(s: PageAllocView, p: int, k: nat) -> PageAllocView
    decreases k,
{
    if k == 0 {
        s
    } else {
        share_times(s, p, (k - 1) as nat).after_share(p)
    }
}

/// The state after `j` calls of `dealloc(p)`.
pub open spec fn dealloc_times(s: PageAllocView, p: int, j: nat) -> PageAllocView
    decreases j,
{
    if j == 0 {
        s
    } else {
        dealloc_times(s, p, (j - 1) as nat).after_dealloc(p)
    }
}

/// Conservation: over calls that each find the allocator quiescent, the
/// free memory (what `pfree_count` reports) falls by a page for each
/// allocation and rises by a page for each release.
#[verifier::spinoff_prover]
pub proof fn law_conservation(s: PageAllocView, ops: Seq<PageOp>)
    requires
        unshared_run(s, ops),
    ensures
        run(s, ops).free.len() * PAGE_SIZE == s.free.len() * PAGE_SIZE - (alloc_count(ops) - (
        ops.len() - alloc_count(ops))) * PAGE_SIZE,
    decreases ops.len(),
{
    if ops.len() > 0 {
        let init = ops.drop_last();
        assert forall|k: int| 0 <= k < init.len() implies {
            let t = run(s, init.subrange(0, k));
            match #[trigger] init[k] {
                PageOp::Alloc => t.free.len() > 0,
                PageOp::Dealloc(p) => t.can_dealloc(p as int) && t.refcount(p as int) == 1,
            }
        } by {
            assert(init.subrange(0, k) =~= ops.subrange(0, k));
            assert(init[k] == ops[k]);
        }
        law_conservation(s, init);
        let k = ops.len() - 1;
        assert(ops.subrange(0, k) =~= init);
        assert(ops[k] == ops.last());
    }
}

/// Uniqueness: a referenced frame, such as one that `allocate` returned
/// and that no `dealloc` has released since, is never handed out; what
/// `allocate` hands out is referenced afterwards.
pub proof fn law_alloc_unique(a: &KernelPageAllocator, p: int, size: int, align: int)
    requires
        a.wf(),
        a@.holds(p),
        a@.refcount(p) >= 1,
    ensures
        a@.alloc_result(size, align) != Some(p),
        a@.alloc_result(size, align) matches Some(q) ==> a@.after_alloc(size, align).refcount(q) == 1,
{
    a.lemma_consistent();
}

/// Bounds: what `allocate` returns is a page-aligned address between
/// `end` rounded up and `phystop`.
pub proof fn law_alloc_bounds(a: &KernelPageAllocator, size: int, align: int)
    requires
        a.wf(),
    ensures
        a@.alloc_result(size, align) matches Some(p) ==> page_up(a@.end) <= p < a@.phystop && p
            % (PAGE_SIZE as int) == 0,
{
    a.lemma_consistent();
    if a@.alloc_result(size, align) is Some {
        let p = a@.free.last();
        assert(a@.free[a@.free.len() - 1] == p);
    }
}

/// Poisoning: every byte of a frame just handed out reads `0x05`; every
/// byte of a frame just released to the free list reads `0x01`.
#[verifier::spinoff_prover]
pub proof fn law_poison(a: &KernelPageAllocator, size: int, align: int, p: int)
    requires
        a.wf(),
    ensures
        a@.alloc_result(size, align) matches Some(q) ==> forall|j: int|
            0 <= j < PAGE_SIZE ==> #[trigger] a@.after_alloc(size, align).page_bytes(q)[j] == 5u8,
        a@.can_dealloc(p) && a@.refcount(p) == 1 ==> forall|j: int|
            0 <= j < PAGE_SIZE ==> #[trigger] a@.after_dealloc(p).page_bytes(p)[j] == 1u8,
{
    a.lemma_consistent();
    if a@.alloc_result(size, align) is Some {
        let q = a@.free.last();
        assert(a@.free[a@.free.len() - 1] == q);
        assert(q + 4096 <= a@.base + a@.memory.len()) by (nonlinear_arith)
            requires
                a@.holds(q),
                q % 4096 == 0,
                a@.base % 4096 == 0,
                a@.memory.len() == a@.refcounts.len() * 4096,
        ;
    }
    if a@.can_dealloc(p) {
        assert(p + 4096 <= a@.base + a@.memory.len()) by (nonlinear_arith)
            requires
                a@.holds(p),
                p % 4096 == 0,
                a@.base % 4096 == 0,
                a@.memory.len() == a@.refcounts.len() * 4096,
        ;
    }
}

proof fn lemma_share_times(s: PageAllocView, q: int, i: nat)
    requires
        s.holds(q),
        s.refcount(q) == 1,
        i <= 254,
    ensures
        share_times(s, q, i).refcount(q) == 1 + i,
        share_times(s, q, i).free == s.free,
        share_times(s, q, i).refcounts.len() == s.refcounts.len(),
        share_times(s, q, i).base == s.base,
        share_times(s, q, i).end == s.end,
        share_times(s, q, i).phystop == s.phystop,
    decreases i,
{
    if i > 0 {
        lemma_share_times(s, q, (i - 1) as nat);
    }
}

proof fn lemma_dealloc_times(s: PageAllocView, q: int, k: nat, j: nat)
    requires
        s.holds(q),
        q % 4096 == 0,
        s.end <= q < s.phystop,
        s.refcount(q) == k + 1,
        j <= k + 1,
        k <= 254,
    ensures
        dealloc_times(s, q, j).refcount(q) == k + 1 - j,
        dealloc_times(s, q, j).refcounts.len() == s.refcounts.len(),
        dealloc_times(s, q, j).base == s.base,
        dealloc_times(s, q, j).end == s.end,
        dealloc_times(s, q, j).phystop == s.phystop,
        j <= k ==> dealloc_times(s, q, j).free == s.free,
        j == k + 1 ==> dealloc_times(s, q, j).free == s.free.push(q),
    decreases j,
{
    if j > 0 {
        lemma_dealloc_times(s, q, k, (j - 1) as nat);
    }
}

/// Refcount law: a frame handed out, shared `k` more times and then
/// released `k + 1` times goes back to the free list on the last release
/// and on none before; each release is accepted.
#[verifier::spinoff_prover]
pub proof fn law_refcount(a: &KernelPageAllocator, k: nat)
    requires
        a.wf(),
        a@.free.len() > 0,
        k <= 254,
    ensures
        ({
            let q = a@.free.last();
            let shared = share_times(a@.after_alloc(PAGE_SIZE as int, PAGE_SIZE as int), q, k);
            &&& forall|j: nat|
                j <= k ==> !(#[trigger] dealloc_times(shared, q, j)).free.contains(q)
                    && dealloc_times(shared, q, j).can_dealloc(q)
            &&& dealloc_times(shared, q, k + 1).free.last() == q
        }),
{
    a.lemma_consistent();
    let s = a@;
    let q = s.free.last();
    assert(s.free[s.free.len() - 1] == q);
    let s1 = s.after_alloc(PAGE_SIZE as int, PAGE_SIZE as int);
    assert(s1.refcount(q) == 1);
    assert(!s1.free.contains(q)) by {
        if s1.free.contains(q) {
            let x = choose|x: int| 0 <= x < s1.free.len() && s1.free[x] == q;
            assert(s.free[x] == s.free[s.free.len() - 1]);
        }
    }
    assert(q < s.phystop) by (nonlinear_arith)
        requires
            s.holds(q),
            s.refcounts.len() > 0 ==> s.base + s.refcounts.len() * 4096 <= s.phystop,
            q % 4096 == 0,
            s.base % 4096 == 0,
    ;
    lemma_share_times(s1, q, k);
    let shared = share_times(s1, q, k);
    assert forall|j: nat| j <= k implies !(#[trigger] dealloc_times(shared, q, j)).free.contains(q)
        && dealloc_times(shared, q, j).can_dealloc(q) by {
        lemma_dealloc_times(shared, q, k, j);
    }
    lemma_dealloc_times(shared, q, k, k + 1);
}

proof fn lemma_round16(size: int)
    requires
        0 <= size < TINY_LIMIT,
    ensures
        round16(size) % 16 == 0,
        size <= round16(size) <= TINY_LIMIT,
{
    assert(round16(size) % 16 == 0 && size <= round16(size) <= TINY_LIMIT) by (nonlinear_arith)
        requires
            0 <= size < 4064,
            round16(size) == (size + 15) / 16 * 16,
    ;
}

/// Size honoring: a tiny request that succeeds returns a 16-byte aligned
/// payload whose header records at least the request rounded up to 16.
#[verifier::spinoff_prover]
pub proof fn law_tiny_size(a: &KernelAllocator, size: int, align: int)
    requires
        a.wf(),
        0 <= size < TINY_LIMIT,
        0 <= align <= MAX_ALIGNMENT,
    ensures
        a@.alloc_result(size, align) matches Some(r) ==> {
            let h = a@.after_alloc(size, align).live.last();
            &&& r % 16 == 0
            &&& h.addr + HEADER_SIZE == r
            &&& h.size >= round16(size)
        },
{
    let s = a@;
    a.lemma_free_frames();
    a.lemma_bounds();
    let req = round16(size);
    lemma_round16(size);
    assert(!is_page_request(size, align));
    match first_fit(s.free, req) {
        Some(k) => {
            assert(fits_first(s.free, req, k));
            a.lemma_block(k);
            let h = s.free[k];
            assert(h.addr % 16 == 0 && h.size % 16 == 0);
            if h.size > req {
                let rest = h.size - (req + HEADER_SIZE);
                assert(h.addr + HEADER_SIZE + h.size <= usize::MAX);
                let nh = TinyHeader { addr: (h.addr + HEADER_SIZE + rest) as usize, size: req as usize };
                assert(s.after_alloc(size, align).live == s.live.push(nh));
                assert(s.alloc_result(size, align) == Some(h.addr + h.size - req + HEADER_SIZE));
                assert(nh.addr + HEADER_SIZE == h.addr + h.size - req + HEADER_SIZE);
            } else {
                assert(s.after_alloc(size, align).live == s.live.push(h));
                assert(s.alloc_result(size, align) == Some(h.addr + HEADER_SIZE));
            }
        },
        None => {
            if s.pages.free.len() > 0 {
                let p = s.pages.free.last();
                assert(s.pages.free[s.pages.free.len() - 1] == p);
                assert(p % 4096 == 0);
                assert(p + 4096 <= s.pages.phystop);
                assert(s.after_alloc(size, align).live == s.live.push(
                    TinyHeader { addr: p as usize, size: req as usize },
                ));
                assert(s.alloc_result(size, align) == Some(p + HEADER_SIZE));
                assert((p as usize) + HEADER_SIZE == p + HEADER_SIZE);
            }
        },
    }
}

} // verus!
