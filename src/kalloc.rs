//! The physical page frame allocator and the sub-page heap built on it.
//!
//! Physical memory is held as a byte vector that covers every frame from
//! `end` rounded up to `phystop` rounded down. Frame `i` starts at
//! `base + i * PAGE_SIZE`; its reference count is byte `i` of the refcount
//! table. The free list is a LIFO stack whose head is its last element.

use vstd::prelude::*;
use crate::layout::{page_down, page_up, pgrounddown, pgroundup, PAGE_SIZE};
use vstd::set_lib::{lemma_int_range, lemma_len_subset, set_int_range};

verus! {

/// The abstract state of a [`KernelPageAllocator`].
pub struct PageAllocView {
    /// First byte beyond the kernel image.
    pub end: int,
    /// One beyond the last usable byte of physical memory.
    pub phystop: int,
    /// `end` rounded up to a page: the address of frame 0.
    pub base: int,
    /// Reference count of each frame; empty before `init`.
    pub refcounts: Seq<u8>,
    /// Addresses of the free frames; the head is the last element.
    pub free: Seq<int>,
    /// The bytes of every frame, frame 0 first.
    pub memory: Seq<u8>,
}

/// The number of frames between `end` and `phystop`.
pub open spec fn frame_count(end: int, phystop: int) -> int {
    (page_down(phystop) - page_up(end)) / (PAGE_SIZE as int)
}

/// `mem` with the `PAGE_SIZE` bytes from offset `off` set to `b`.
pub open spec fn fill_page(mem: Seq<u8>, off: int, b: u8) -> Seq<u8> {
    Seq::new(mem.len(), |j: int| if off <= j < off + PAGE_SIZE as int { b } else { mem[j] })
}

/// `mem` with `n` bytes from offset `from` copied to offset `to`.
pub open spec fn copy_bytes(mem: Seq<u8>, from: int, to: int, n: int) -> Seq<u8> {
    Seq::new(mem.len(), |j: int| if to <= j < to + n { mem[from + (j - to)] } else { mem[j] })
}

impl PageAllocView {
    /// The index of the frame that holds address `p`.
    pub open spec fn page_index(self, p: int) -> int {
        (p - self.base) / (PAGE_SIZE as int)
    }

    /// The address of frame `i`.
    pub open spec fn page_addr(self, i: int) -> int {
        self.base + i * (PAGE_SIZE as int)
    }

    /// Whether `init` has run: there is one refcount byte per frame.
    pub open spec fn initialized(self) -> bool {
        self.base <= page_down(self.phystop) && self.refcounts.len() == frame_count(
            self.end,
            self.phystop,
        )
    }

    /// Whether `p` lies in some frame.
    pub open spec fn holds(self, p: int) -> bool {
        self.base <= p < self.base + self.refcounts.len() * (PAGE_SIZE as int)
    }

    /// The reference count of the frame that holds `p`.
    pub open spec fn refcount(self, p: int) -> u8 {
        self.refcounts[self.page_index(p)]
    }

    /// The bytes of the frame that starts at `p`.
    pub open spec fn page_bytes(self, p: int) -> Seq<u8> {
        self.memory.subrange(p - self.base, p - self.base + PAGE_SIZE as int)
    }

    /// The first frame that `init` frees: the refcount table takes one byte
    /// per frame at `end`, and frames start after it.
    pub open spec fn first_free(self, page_count: int) -> int {
        page_up(self.end + page_count)
    }

    /// The number of frames that `init` frees.
    pub open spec fn init_free_count(self, page_count: int) -> int {
        let first = self.first_free(page_count);
        if first <= page_down(self.phystop) {
            (page_down(self.phystop) - first) / (PAGE_SIZE as int)
        } else {
            0
        }
    }

    /// The state after `init(page_count)`: every frame from the first free
    /// one up to `phystop` has been released, lowest first, and reads as
    /// `0x01`; the frames under the refcount table keep one reference.
    pub open spec fn after_init(self, page_count: int) -> PageAllocView {
        let first = self.first_free(page_count);
        PageAllocView {
            refcounts: Seq::new(
                page_count as nat,
                |i: int| if self.page_addr(i) >= first { 0u8 } else { 1u8 },
            ),
            free: Seq::new(
                self.init_free_count(page_count) as nat,
                |j: int| first + j * (PAGE_SIZE as int),
            ),
            memory: Seq::new(
                (page_count * PAGE_SIZE) as nat,
                |j: int| if self.base + j >= first { 1u8 } else { 0u8 },
            ),
            ..self
        }
    }

    /// What `allocate(size, align)` returns from this state.
    pub open spec fn alloc_result(self, size: int, align: int) -> Option<int> {
        if size > PAGE_SIZE || align > PAGE_SIZE || self.free.len() == 0 {
            None
        } else {
            Some(self.free.last())
        }
    }

    /// The state after `allocate(size, align)`: the head frame leaves the free
    /// list with one reference and is poisoned with `0x05`.
    pub open spec fn after_alloc(self, size: int, align: int) -> PageAllocView {
        match self.alloc_result(size, align) {
            None => self,
            Some(p) => PageAllocView {
                refcounts: self.refcounts.update(self.page_index(p), 1),
                free: self.free.drop_last(),
                memory: fill_page(self.memory, p - self.base, 5),
                ..self
            },
        }
    }

    /// Whether `dealloc` accepts `p`: a page-aligned address in
    /// `[end, phystop)` whose frame is referenced.
    pub open spec fn can_dealloc(self, p: int) -> bool {
        &&& p % (PAGE_SIZE as int) == 0
        &&& self.end <= p < self.phystop
        &&& self.holds(p)
        &&& self.refcount(p) > 0
    }

    /// The state after `dealloc(p)`: one reference fewer; at zero the frame
    /// is poisoned with `0x01` and pushed on the free list.
    pub open spec fn after_dealloc(self, p: int) -> PageAllocView {
        let i = self.page_index(p);
        let c = (self.refcounts[i] - 1) as u8;
        if c == 0 {
            PageAllocView {
                refcounts: self.refcounts.update(i, 0),
                free: self.free.push(p),
                memory: fill_page(self.memory, p - self.base, 1),
                ..self
            }
        } else {
            PageAllocView { refcounts: self.refcounts.update(i, c), ..self }
        }
    }

    /// This state with `n` bytes copied from address `from` to address `to`.
    pub open spec fn with_copy(self, from: int, to: int, n: int) -> PageAllocView {
        PageAllocView {
            memory: copy_bytes(self.memory, from - self.base, to - self.base, n),
            ..self
        }
    }

    /// This state with `n` bytes from address `at` set to zero.
    pub open spec fn with_zeroes(self, at: int, n: int) -> PageAllocView {
        PageAllocView {
            memory: Seq::new(
                self.memory.len(),
                |j: int| if at - self.base <= j < at - self.base + n { 0u8 } else { self.memory[j] },
            ),
            ..self
        }
    }

    /// The state after `realloc(ptr, old_size, align, new_size)`: a new frame
    /// receives the first `min(old_size, new_size)` bytes and `ptr` is
    /// released; when no frame can be had, nothing changes.
    pub open spec fn after_realloc(self, ptr: int, old_size: int, align: int, new_size: int) -> PageAllocView {
        match self.alloc_result(new_size, align) {
            None => self,
            Some(q) => self.after_alloc(new_size, align).with_copy(
                ptr,
                q,
                if old_size < new_size { old_size } else { new_size },
            ).after_dealloc(ptr),
        }
    }

    /// Whether `in_place_copy(p)` adds a reference: the frame is referenced
    /// and its count is below the ceiling of a byte.
    pub open spec fn can_share(self, p: int) -> bool {
        1 <= self.refcount(p) < 255
    }

    /// The state after `in_place_copy(p)`.
    pub open spec fn after_share(self, p: int) -> PageAllocView {
        if self.can_share(p) {
            PageAllocView {
                refcounts: self.refcounts.update(
                    self.page_index(p),
                    (self.refcount(p) + 1) as u8,
                ),
                ..self
            }
        } else {
            self
        }
    }
}

/// `r` with its value widened to `int`.
pub open spec fn as_int_opt(r: Option<usize>) -> Option<int> {
    match r {
        Some(p) => Some(p as int),
        None => None,
    }
}

/// A list of distinct indices below `n` has at most `n` elements.
proof fn lemma_distinct_below(s: Seq<usize>, n: int)
    requires
        s.no_duplicates(),
        0 <= n,
        forall|k: int| 0 <= k < s.len() ==> #[trigger] s[k] < n,
    ensures
        s.len() <= n,
{
    let t = s.map_values(|x: usize| x as int);
    assert(t.no_duplicates()) by {
        assert forall|i: int, j: int| 0 <= i < t.len() && 0 <= j < t.len() && i != j implies t[i]
            != t[j] by {
            assert(s[i] != s[j]);
        }
    }
    t.unique_seq_to_set();
    lemma_int_range(0, n);
    assert forall|x: int| t.to_set().contains(x) implies set_int_range(0, n).contains(x) by {
        let k = choose|k: int| 0 <= k < t.len() && t[k] == x;
        assert(s[k] < n);
    }
    lemma_len_subset(t.to_set(), set_int_range(0, n));
}

/// Sets the `PAGE_SIZE` bytes of `mem` from offset `off` to `b`.
fn fill_frame(mem: &mut Vec<u8>, off: usize, b: u8)
    requires
        off + PAGE_SIZE <= old(mem).len(),
    ensures
        final(mem)@ == fill_page(old(mem)@, off as int, b),
{
    let ghost start = mem@;
    let mut j: usize = 0;
    while j < PAGE_SIZE
        invariant
            j <= PAGE_SIZE,
            off + PAGE_SIZE <= mem.len(),
            mem.len() == start.len(),
            forall|x: int|
                0 <= x < mem.len() ==> #[trigger] mem@[x] == if off <= x < off + j {
                    b
                } else {
                    start[x]
                },
        decreases PAGE_SIZE - j,
    {
        mem.set(off + j, b);
        j = j + 1;
    }
    assert(mem@ =~= fill_page(start, off as int, b));
}

/// Counts that are positive stay positive when a frame is handed out.
proof fn lemma_counts_after_alloc(s: PageAllocView, size: int, align: int)
    requires
        s.alloc_result(size, align) matches Some(q) ==> s.holds(q),
    ensures
        forall|f: int|
            s.holds(f) && s.refcount(f) >= 1 ==> #[trigger] s.after_alloc(size, align).refcount(f) >= 1,
        s.alloc_result(size, align) matches Some(q) ==> s.after_alloc(size, align).refcount(q) == 1,
{
    if s.alloc_result(size, align) is Some {
        lemma_index_in_range(s, s.free.last());
    }
    assert forall|f: int| s.holds(f) && s.refcount(f) >= 1 implies #[trigger] s.after_alloc(
        size,
        align,
    ).refcount(f) >= 1 by {
        lemma_index_in_range(s, f);
    }
}

/// Releasing the frame at `p` changes no other frame's count.
proof fn lemma_counts_after_dealloc(s: PageAllocView, p: int)
    requires
        s.base % 4096 == 0,
        p % 4096 == 0,
        s.holds(p),
    ensures
        forall|f: int|
            f % 4096 == 0 && s.holds(f) && f != p ==> #[trigger] s.after_dealloc(p).refcount(f)
                == s.refcount(f),
{
    assert forall|f: int| f % 4096 == 0 && s.holds(f) && f != p implies #[trigger] s.after_dealloc(
        p,
    ).refcount(f) == s.refcount(f) by {
        assert(s.page_index(f) != s.page_index(p)) by (nonlinear_arith)
            requires
                s.base % 4096 == 0,
                p % 4096 == 0,
                f % 4096 == 0,
                f != p,
                s.base <= f,
                s.base <= p,
                s.page_index(f) == (f - s.base) / 4096,
                s.page_index(p) == (p - s.base) / 4096,
        ;
    }
}

/// The index of an address that some frame holds is a frame's index.
proof fn lemma_index_in_range(s: PageAllocView, f: int)
    requires
        s.holds(f),
    ensures
        0 <= s.page_index(f) < s.refcounts.len(),
{
    assert(0 <= (f - s.base) / 4096 < s.refcounts.len()) by (nonlinear_arith)
        requires
            s.base <= f < s.base + s.refcounts.len() * 4096,
    ;
}

/// Allocates physical page frames, tracking a reference count per frame.
pub struct KernelPageAllocator {
    end: usize,
    phystop: usize,
    base: usize,
    refcounts: Vec<u8>,
    /// Indices of the free frames; the head of the list is the last element.
    free: Vec<usize>,
    memory: Vec<u8>,
}

impl View for KernelPageAllocator {
    type V = PageAllocView;

    closed spec fn view(&self) -> PageAllocView {
        PageAllocView {
            end: self.end as int,
            phystop: self.phystop as int,
            base: self.base as int,
            refcounts: self.refcounts@,
            free: self.free@.map_values(|i: usize| self.base + i * (PAGE_SIZE as int)),
            memory: self.memory@,
        }
    }
}

impl KernelPageAllocator {
    /// The allocator's invariant: the free list holds, without repeats,
    /// exactly the frames whose count is zero.
    pub closed spec fn wf(&self) -> bool {
        &&& self.base == page_up(self.end as int)
        &&& self.base % PAGE_SIZE == 0
        &&& self.base <= self.end + PAGE_SIZE - 1
        &&& self.end + PAGE_SIZE - 1 <= usize::MAX
        &&& self.refcounts.len() == 0 || (self.base <= page_down(self.phystop as int)
            && self.refcounts.len() == frame_count(self.end as int, self.phystop as int))
        &&& self.memory.len() == self.refcounts.len() * PAGE_SIZE
        &&& self.free@.no_duplicates()
        &&& forall|k: int|
            0 <= k < self.free.len() ==> #[trigger] self.free[k] < self.refcounts.len()
                && self.refcounts[self.free[k] as int] == 0
        &&& forall|i: int|
            0 <= i < self.refcounts.len() && #[trigger] self.refcounts[i] == 0 ==> self.free@.contains(
                i as usize,
            )
    }

    /// An allocator for the memory from `end` to `phystop`, with no frames
    /// yet: `init` provides them.
    pub fn new(end: usize, phystop: usize) -> (r: Self)
        requires
            end + PAGE_SIZE - 1 <= usize::MAX,
        ensures
            r.wf(),
            r@.end == end,
            r@.phystop == phystop,
            r@.base == page_up(end as int),
            r@.refcounts.len() == 0,
            r@.free.len() == 0,
            r@.memory.len() == 0,
    {
        let r = KernelPageAllocator {
            end,
            phystop,
            base: pgroundup(end),
            refcounts: Vec::new(),
            free: Vec::new(),
            memory: Vec::new(),
        };
        assert(r@.free =~= Seq::<int>::empty());
        r
    }
    /// Builds the refcount table, one byte per frame, all `1`, and then
    /// releases each frame from the end of the table up to `phystop`: the
    /// only way frames reach the free list.
    #[verifier::spinoff_prover]
    pub fn init(&mut self, page_count: usize)
        requires
            old(self).wf(),
            old(self)@.refcounts.len() == 0,
            old(self)@.base <= page_down(old(self)@.phystop),
            page_count == frame_count(old(self)@.end, old(self)@.phystop),
            old(self)@.end + page_count + PAGE_SIZE <= usize::MAX,
        ensures
            final(self).wf(),
            final(self)@.initialized(),
            final(self)@ == old(self)@.after_init(page_count as int),
    {
        let ghost before = self@;
        assert(self.free.len() == 0) by {
            if self.free.len() > 0 {
                assert(self.free[0] < self.refcounts.len());
            }
        }
        let mut refcounts: Vec<u8> = Vec::new();
        while refcounts.len() < page_count
            invariant
                refcounts.len() <= page_count,
                forall|x: int| 0 <= x < refcounts.len() ==> #[trigger] refcounts@[x] == 1u8,
            decreases page_count - refcounts.len(),
        {
            refcounts.push(1);
        }
        assert(page_count * PAGE_SIZE == page_down(self.phystop as int) - self.base);
        let bytes = page_count * PAGE_SIZE;
        let mut memory: Vec<u8> = Vec::new();
        while memory.len() < bytes
            invariant
                memory.len() <= bytes,
                forall|x: int| 0 <= x < memory.len() ==> #[trigger] memory@[x] == 0u8,
            decreases bytes - memory.len(),
        {
            memory.push(0);
        }
        self.refcounts = refcounts;
        self.memory = memory;
        let first = pgroundup(self.end + page_count);
        let phystop = self.phystop;
        let mut ptr = first;
        assert(self@.free =~= Seq::new(0, |j: int| first + j * (PAGE_SIZE as int)));
        let ghost target = before.after_init(page_count as int);
        assert(first >= self.base);
        assert((first - self.base) % 4096 == 0);
        while phystop >= PAGE_SIZE && ptr <= phystop - PAGE_SIZE
            invariant
                self.wf(),
                self.end == before.end,
                self.phystop == phystop,
                self.base == before.base,
                self.base % 4096 == 0,
                first == before.first_free(page_count as int),
                self.refcounts.len() == page_count,
                page_count == frame_count(before.end, before.phystop),
                page_count * PAGE_SIZE == page_down(phystop as int) - self.base,
                self.memory.len() == page_count * PAGE_SIZE,
                ptr % 4096 == 0,
                first <= ptr,
                ptr <= first || ptr <= page_down(phystop as int),
                self.end <= first,
                forall|x: int|
                    0 <= x < page_count ==> #[trigger] self.refcounts@[x] == if first
                        <= before.page_addr(x) < ptr {
                        0u8
                    } else {
                        1u8
                    },
                forall|x: int|
                    0 <= x < self.memory.len() ==> #[trigger] self.memory@[x] == if first
                        <= self.base + x < ptr {
                        1u8
                    } else {
                        0u8
                    },
                self@.free =~= Seq::new(
                    ((ptr - first) / 4096) as nat,
                    |j: int| first + j * (PAGE_SIZE as int),
                ),
            decreases phystop - ptr,
        {
            let ghost st = self@;
            assert(ptr + PAGE_SIZE <= page_down(phystop as int));
            proof {
                let i = st.page_index(ptr as int);
                assert(i * 4096 == ptr - self.base);
                assert(0 <= i < page_count) by (nonlinear_arith)
                    requires
                        i * 4096 == ptr - self.base,
                        ptr + 4096 <= self.base + page_count * 4096,
                        ptr >= self.base,
                ;
                assert(before.page_addr(i) == ptr);
                assert(self.refcounts@[i] == 1u8);
            }
            self.dealloc(ptr, PAGE_SIZE, PAGE_SIZE);
            proof {
                let i = st.page_index(ptr as int);
                assert(i * 4096 == ptr - self.base);
                assert forall|x: int| 0 <= x < page_count implies #[trigger] self.refcounts@[x]
                    == if first <= before.page_addr(x) < ptr + 4096 {
                    0u8
                } else {
                    1u8
                } by {
                    if x != i {
                        assert(before.page_addr(x) != ptr) by (nonlinear_arith)
                            requires
                                x != i,
                                i * 4096 == ptr - before.base,
                                before.page_addr(x) == before.base + x * 4096,
                        ;
                        assert(before.page_addr(x) < ptr || before.page_addr(x) >= ptr + 4096)
                            by (nonlinear_arith)
                            requires
                                i * 4096 == ptr - before.base,
                                before.page_addr(x) == before.base + x * 4096,
                                before.page_addr(x) != ptr,
                        ;
                    }
                }
                assert((ptr + 4096 - first) / 4096 == (ptr - first) / 4096 + 1);
                assert(first + ((ptr - first) / 4096) * 4096 == ptr);
            }
            ptr = ptr + PAGE_SIZE;
        }
        proof {
            assert(ptr >= page_down(phystop as int) || ptr <= first);
            if first <= page_down(phystop as int) {
                assert(ptr == page_down(phystop as int));
            } else {
                assert(ptr == first);
            }
            assert(self@.refcounts =~= target.refcounts) by {
                assert forall|x: int| 0 <= x < page_count implies before.page_addr(x) < ptr by {
                    assert(before.page_addr(x) < page_down(phystop as int)) by (nonlinear_arith)
                        requires
                            x < page_count,
                            before.page_addr(x) == before.base + x * 4096,
                            page_count * 4096 == page_down(phystop as int) - before.base,
                    ;
                }
            }
            assert(self@.memory =~= target.memory);
            assert(self@.free =~= target.free);
        }
    }

    /// Every free frame is a whole page of `memory`.
    proof fn lemma_free_frames(&self)
        requires
            self.wf(),
        ensures
            self@.base % 4096 == 0,
            self@.memory.len() > 0 ==> self@.base + self@.memory.len() <= usize::MAX,
            forall|k: int|
                0 <= k < self@.free.len() ==> {
                    let p = #[trigger] self@.free[k];
                    p % 4096 == 0 && self@.base <= p && p + 4096 <= self@.base
                        + self@.memory.len()
                },
    {
        if self.memory.len() > 0 {
            assert(self.refcounts.len() * PAGE_SIZE == page_down(self.phystop as int) - self.base);
        }
        assert forall|k: int| 0 <= k < self@.free.len() implies {
            let p = #[trigger] self@.free[k];
            p % 4096 == 0 && self@.base <= p && p + 4096 <= self@.base + self@.memory.len()
        } by {
            let i = self.free[k] as int;
            assert(i < self.refcounts.len());
            assert(self@.free[k] == self.base + i * 4096);
            assert(i * 4096 + 4096 <= self.refcounts.len() * 4096) by (nonlinear_arith)
                requires
                    i < self.refcounts.len(),
            ;
            assert((self.base + i * 4096) % 4096 == 0) by (nonlinear_arith)
                requires
                    self.base % 4096 == 0,
                    i >= 0,
            ;
        }
    }

    /// Takes the head of the free list: a zero-reference frame, which now
    /// has one reference and reads as `0x05` throughout. Refuses requests
    /// of more than a page or aligned to more than a page, and gives `None`
    /// when no frame is free.
    pub fn allocate(&mut self, size: usize, align: usize) -> (r: Option<usize>)
        requires
            old(self).wf(),
        ensures
            final(self).wf(),
            as_int_opt(r) == old(self)@.alloc_result(size as int, align as int),
            final(self)@ == old(self)@.after_alloc(size as int, align as int),
    {
        if size > PAGE_SIZE || align > PAGE_SIZE {
            return None;
        }
        let ghost before = self@;
        let ghost free0 = self.free@;
        match self.free.pop() {
            None => {
                assert(self@.free =~= before.free);
                None
            },
            Some(i) => {
                assert(free0[free0.len() - 1] == i);
                assert(i < self.refcounts.len());
                self.refcounts.set(i, 1);
                assert(i * PAGE_SIZE + PAGE_SIZE <= self.memory.len()) by (nonlinear_arith)
                    requires
                        i < self.refcounts.len(),
                        self.memory.len() == self.refcounts.len() * PAGE_SIZE,
                ;
                let off = i * PAGE_SIZE;
                fill_frame(&mut self.memory, off, 5);
                assert(self.base + self.memory.len() <= usize::MAX) by {
                    assert(self.refcounts.len() == frame_count(self.end as int, self.phystop as int));
                    assert(self.refcounts.len() * PAGE_SIZE == page_down(self.phystop as int) - self.base);
                }
                let p = self.base + off;
                proof {
                    assert(self.free@ =~= free0.drop_last());
                    assert(self@.free =~= before.free.drop_last());
                    assert(before.page_index(p as int) == i) by (nonlinear_arith)
                        requires
                            p == self.base + i * 4096,
                            before.base == self.base,
                    ;
                    assert(self@.refcounts =~= before.refcounts.update(i as int, 1));
                    assert forall|k: int| 0 <= k < self.free.len() implies #[trigger] self.free[k]
                        < self.refcounts.len() && self.refcounts[self.free[k] as int] == 0 by {
                        assert(free0[k] == self.free[k]);
                        assert(free0[k] != free0[free0.len() - 1]);
                    }
                    assert forall|x: int|
                        0 <= x < self.refcounts.len() && #[trigger] self.refcounts[x]
                            == 0 implies self.free@.contains(x as usize) by {
                        assert(x != i);
                        let k = choose|k: int| 0 <= k < free0.len() && free0[k] == x as usize;
                        assert(k != free0.len() - 1);
                        assert(self.free@[k] == x as usize);
                    }
                }
                Some(p)
            },
        }
    }

    /// Drops one reference to the frame at `ptr`. When none is left the
    /// frame reads as `0x01` throughout and becomes the head of the free
    /// list.
    pub fn dealloc(&mut self, ptr: usize, size: usize, align: usize)
        requires
            old(self).wf(),
            old(self)@.can_dealloc(ptr as int),
            size <= PAGE_SIZE,
            align <= PAGE_SIZE,
        ensures
            final(self).wf(),
            final(self)@ == old(self)@.after_dealloc(ptr as int),
    {
        let ghost before = self@;
        let ghost free0 = self.free@;
        let i = (ptr - self.base) / PAGE_SIZE;
        assert(i * PAGE_SIZE == ptr - self.base) by {
            assert((ptr - self.base) % 4096 == 0);
        }
        assert(i < self.refcounts.len()) by (nonlinear_arith)
            requires
                i * 4096 == ptr - self.base,
                ptr < self.base + self.refcounts.len() * 4096,
        ;
        let c = self.refcounts[i] - 1;
        self.refcounts.set(i, c);
        if c == 0 {
            assert(i * PAGE_SIZE + PAGE_SIZE <= self.memory.len()) by (nonlinear_arith)
                requires
                    i < self.refcounts.len(),
                    self.memory.len() == self.refcounts.len() * PAGE_SIZE,
            ;
            fill_frame(&mut self.memory, i * PAGE_SIZE, 1);
            assert(!free0.contains(i)) by {
                if free0.contains(i) {
                    let k = choose|k: int| 0 <= k < free0.len() && free0[k] == i;
                    assert(before.refcounts[i as int] == 0);
                }
            }
            self.free.push(i);
            proof {
                assert(self@.free =~= before.free.push(ptr as int));
                assert(self@.refcounts =~= before.refcounts.update(i as int, 0));
                assert forall|k: int| 0 <= k < self.free.len() implies #[trigger] self.free[k]
                    < self.refcounts.len() && self.refcounts[self.free[k] as int] == 0 by {
                    if k < free0.len() {
                        assert(free0[k] == self.free[k]);
                    }
                }
                assert forall|x: int|
                    0 <= x < self.refcounts.len() && #[trigger] self.refcounts[x]
                        == 0 implies self.free@.contains(x as usize) by {
                    if x == i {
                        assert(self.free@[free0.len() as int] == i);
                    } else {
                        let k = choose|k: int| 0 <= k < free0.len() && free0[k] == x as usize;
                        assert(self.free@[k] == x as usize);
                    }
                }
            }
        } else {
            proof {
                assert(self@.free =~= before.free);
                assert(self@.refcounts =~= before.refcounts.update(i as int, c));
                assert forall|k: int| 0 <= k < self.free.len() implies #[trigger] self.free[k]
                    < self.refcounts.len() && self.refcounts[self.free[k] as int] == 0 by {
                    assert(free0[k] == self.free[k]);
                }
            }
        }
    }

    /// Sets `n` bytes from address `at` to zero.
    fn zero_memory(&mut self, at: usize, n: usize)
        requires
            old(self).wf(),
            old(self)@.base <= at,
            at + n <= old(self)@.base + old(self)@.memory.len(),
        ensures
            final(self).wf(),
            final(self)@ == old(self)@.with_zeroes(at as int, n as int),
    {
        let ghost start = self.memory@;
        let a = at - self.base;
        let mut j: usize = 0;
        while j < n
            invariant
                j <= n,
                a + n <= self.memory.len(),
                self.memory.len() == start.len(),
                self.refcounts@ == old(self).refcounts@,
                self.free@ == old(self).free@,
                self.base == old(self).base,
                self.end == old(self).end,
                self.phystop == old(self).phystop,
                forall|x: int|
                    0 <= x < self.memory.len() ==> #[trigger] self.memory@[x] == if a <= x < a + j {
                        0u8
                    } else {
                        start[x]
                    },
            decreases n - j,
        {
            self.memory.set(a + j, 0);
            j = j + 1;
        }
        assert(self@.memory =~= old(self)@.with_zeroes(at as int, n as int).memory);
    }

    /// Copies `n` bytes from address `from` to address `to`.
    fn copy_memory(&mut self, from: usize, to: usize, n: usize)
        requires
            old(self).wf(),
            old(self)@.base <= from,
            from + n <= old(self)@.base + old(self)@.memory.len(),
            old(self)@.base <= to,
            to + n <= old(self)@.base + old(self)@.memory.len(),
        ensures
            final(self).wf(),
            final(self)@ == old(self)@.with_copy(from as int, to as int, n as int),
    {
        let ghost start = self.memory@;
        let a = from - self.base;
        let b = to - self.base;
        let mut buf: Vec<u8> = Vec::new();
        while buf.len() < n
            invariant
                buf.len() <= n,
                a + n <= self.memory.len(),
                forall|x: int| 0 <= x < buf.len() ==> #[trigger] buf@[x] == self.memory@[a + x],
            decreases n - buf.len(),
        {
            let v = self.memory[a + buf.len()];
            buf.push(v);
        }
        let mut j: usize = 0;
        while j < n
            invariant
                j <= n,
                buf.len() == n,
                b + n <= self.memory.len(),
                self.memory.len() == start.len(),
                a + n <= start.len(),
                self.refcounts@ == old(self).refcounts@,
                self.free@ == old(self).free@,
                self.base == old(self).base,
                self.end == old(self).end,
                self.phystop == old(self).phystop,
                forall|x: int| 0 <= x < n ==> #[trigger] buf@[x] == start[a + x],
                forall|x: int|
                    0 <= x < self.memory.len() ==> #[trigger] self.memory@[x] == if b <= x < b + j {
                        start[a + (x - b)]
                    } else {
                        start[x]
                    },
            decreases n - j,
        {
            self.memory.set(b + j, buf[j]);
            j = j + 1;
        }
        assert(self.memory@ =~= copy_bytes(start, a as int, b as int, n as int));
    }

    /// Moves the frame at `ptr` to a new frame able to hold `new_size`
    /// bytes: the first `min(old_size, new_size)` bytes are copied and
    /// `ptr` is released. Gives `None`, and changes nothing, when no frame
    /// can be had for the new size.
    pub fn realloc(&mut self, ptr: usize, old_size: usize, align: usize, new_size: usize) -> (r: Option<usize>)
        requires
            old(self).wf(),
            old(self)@.can_dealloc(ptr as int),
            old_size <= PAGE_SIZE,
            align <= PAGE_SIZE,
        ensures
            final(self).wf(),
            as_int_opt(r) == old(self)@.alloc_result(new_size as int, align as int),
            final(self)@ == old(self)@.after_realloc(
                ptr as int,
                old_size as int,
                align as int,
                new_size as int,
            ),
    {
        proof {
            self.lemma_free_frames();
        }
        let ghost st = self@;
        let r = self.allocate(new_size, align);
        match r {
            None => None,
            Some(q) => {
                let n = if old_size < new_size { old_size } else { new_size };
                assert(ptr + 4096 <= st.base + st.memory.len()) by {
                    assert(st.page_index(ptr as int) * 4096 == ptr - st.base);
                    assert(st.page_index(ptr as int) < st.refcounts.len());
                    assert(st.page_index(ptr as int) * 4096 + 4096 <= st.refcounts.len() * 4096)
                        by (nonlinear_arith)
                        requires
                            st.page_index(ptr as int) < st.refcounts.len(),
                    ;
                }
                self.copy_memory(ptr, q, n);
                self.dealloc(ptr, old_size, align);
                Some(q)
            },
        }
    }

    /// The byte of memory at address `addr`.
    pub fn read_byte(&self, addr: usize) -> (r: u8)
        requires
            self.wf(),
            self@.holds(addr as int),
        ensures
            r == self@.memory[addr - self@.base],
    {
        assert((addr - self.base) < self.memory.len()) by (nonlinear_arith)
            requires
                addr < self.base + self.refcounts.len() * 4096,
                self.memory.len() == self.refcounts.len() * 4096,
                addr >= self.base,
        ;
        self.memory[addr - self.base]
    }

    /// The number of free bytes: `PAGE_SIZE` for each frame on the free
    /// list.
    pub fn pfree_count(&self) -> (r: usize)
        requires
            self.wf(),
        ensures
            r == self@.free.len() * PAGE_SIZE,
    {
        proof {
            lemma_distinct_below(self.free@, self.refcounts.len() as int);
        }
        let mut free_memory: usize = 0;
        let mut k: usize = 0;
        while k < self.free.len()
            invariant
                k <= self.free.len(),
                self.free.len() <= self.refcounts.len(),
                self.memory.len() == self.refcounts.len() * PAGE_SIZE,
                free_memory == k * PAGE_SIZE,
            decreases self.free.len() - k,
        {
            assert(free_memory + PAGE_SIZE <= self.memory.len()) by (nonlinear_arith)
                requires
                    free_memory == k * PAGE_SIZE,
                    k < self.refcounts.len(),
                    self.memory.len() == self.refcounts.len() * PAGE_SIZE,
            ;
            free_memory = free_memory + PAGE_SIZE;
            k = k + 1;
        }
        free_memory
    }

    /// Adds a reference to the frame that holds `physical_address`, as a
    /// copy-on-write share does. Returns whether it did: a frame with no
    /// reference, or with 255 (the ceiling of its count), is left as it is.
    pub fn in_place_copy(&mut self, physical_address: usize) -> (r: bool)
        requires
            old(self).wf(),
            old(self)@.holds(physical_address as int),
        ensures
            final(self).wf(),
            r == old(self)@.can_share(physical_address as int),
            final(self)@ == old(self)@.after_share(physical_address as int),
    {
        let index = pgrounddown(physical_address - self.base) / PAGE_SIZE;
        assert(index == (physical_address - self.base) / 4096);
        let c = self.refcounts[index];
        if 1 <= c && c < 255 {
            let ghost free0 = self.free@;
            self.refcounts.set(index, c + 1);
            proof {
                assert forall|k: int| 0 <= k < self.free.len() implies #[trigger] self.free[k]
                    < self.refcounts.len() && self.refcounts[self.free[k] as int] == 0 by {
                    assert(free0[k] == self.free[k]);
                }
            }
            true
        } else {
            false
        }
    }

    /// Whether the frame that holds `physical_address` has exactly one
    /// reference.
    pub fn exactly_one_reference(&self, physical_address: usize) -> (r: bool)
        requires
            self.wf(),
            self@.holds(physical_address as int),
        ensures
            r == (self@.refcount(physical_address as int) == 1),
    {
        let index = pgrounddown(physical_address - self.base) / PAGE_SIZE;
        assert(index == (physical_address - self.base) / 4096);
        self.refcounts[index] == 1
    }
}

/// Size of a tiny block header: it comes right before the block's payload.
pub const HEADER_SIZE: usize = 16;

/// The largest alignment that a tiny block offers.
pub const MAX_ALIGNMENT: usize = 16;

/// Requests of this size or more are served by whole frames:
/// `PAGE_SIZE - 2 * HEADER_SIZE`.
pub const TINY_LIMIT: usize = 4064;

/// A tiny block: where its header stands, and the payload size it records.
#[derive(PartialEq, Eq, Structural, Clone, Copy, Debug)]
pub struct TinyHeader {
    pub addr: usize,
    pub size: usize,
}

/// Whether a request goes to the page allocator as a whole.
pub open spec fn is_page_request(size: int, align: int) -> bool {
    size >= TINY_LIMIT || align >= PAGE_SIZE
}

/// `size` rounded up to a multiple of 16.
pub open spec fn round16(size: int) -> int {
    (size + 15) / 16 * 16
}

/// `k` is the first block of `free` with room for `req` bytes.
pub open spec fn fits_first(free: Seq<TinyHeader>, req: int, k: int) -> bool {
    &&& 0 <= k < free.len()
    &&& free[k].size >= req
    &&& forall|j: int| 0 <= j < k ==> #[trigger] free[j].size < req
}

/// The first block of `free` with room for `req` bytes, if any.
pub open spec fn first_fit(free: Seq<TinyHeader>, req: int) -> Option<int> {
    if exists|k: int| fits_first(free, req, k) {
        Some(choose|k: int| fits_first(free, req, k))
    } else {
        None
    }
}

/// `k` is the first block of `live` whose payload starts at `ptr`.
pub open spec fn owns_first(live: Seq<TinyHeader>, ptr: int, k: int) -> bool {
    &&& 0 <= k < live.len()
    &&& live[k].addr + HEADER_SIZE == ptr
    &&& forall|j: int| 0 <= j < k ==> #[trigger] live[j].addr + HEADER_SIZE != ptr
}

/// The block handed out whose payload starts at `ptr`, if any.
pub open spec fn live_block(live: Seq<TinyHeader>, ptr: int) -> Option<int> {
    if exists|k: int| owns_first(live, ptr, k) {
        Some(choose|k: int| owns_first(live, ptr, k))
    } else {
        None
    }
}

proof fn lemma_fits_first_unique(free: Seq<TinyHeader>, req: int, k: int)
    requires
        fits_first(free, req, k),
    ensures
        first_fit(free, req) == Some(k),
{
    let c = choose|c: int| fits_first(free, req, c);
    if c < k {
        assert(free[c].size < req);
    }
    if k < c {
        assert(free[k].size < req);
    }
}

proof fn lemma_owns_first_unique(live: Seq<TinyHeader>, ptr: int, k: int)
    requires
        owns_first(live, ptr, k),
    ensures
        live_block(live, ptr) == Some(k),
{
    let c = choose|c: int| owns_first(live, ptr, c);
    if c < k {
        assert(live[c].addr + HEADER_SIZE != ptr);
    }
    if k < c {
        assert(live[k].addr + HEADER_SIZE != ptr);
    }
}

/// The total of the sizes that the blocks of `s` record.
pub open spec fn sum_sizes(s: Seq<TinyHeader>) -> int
    decreases s.len(),
{
    if s.len() == 0 {
        0
    } else {
        sum_sizes(s.drop_last()) + s.last().size
    }
}

proof fn lemma_sum_prefix(s: Seq<TinyHeader>, k: int)
    requires
        0 <= k <= s.len(),
    ensures
        sum_sizes(s.subrange(0, k)) <= sum_sizes(s),
    decreases s.len() - k,
{
    if k < s.len() {
        lemma_sum_prefix(s, k + 1);
        assert(s.subrange(0, k + 1).drop_last() =~= s.subrange(0, k));
    } else {
        assert(s.subrange(0, k) =~= s);
    }
}

/// The frame that holds a well-placed block is an aligned frame of memory.
proof fn lemma_block_frame(a: KernelAllocView, h: TinyHeader)
    requires
        a.block_ok(h),
        a.pages.base % 4096 == 0,
        a.pages.memory.len() == a.pages.refcounts.len() * 4096,
    ensures
        page_down(h.addr as int) % 4096 == 0,
        a.pages.holds(page_down(h.addr as int)),
{
    let f = page_down(h.addr as int);
    assert(f % 4096 == 0);
    assert(a.pages.base <= f);
    assert(f < a.pages.base + a.pages.refcounts.len() * 4096);
}

/// Blocks `a` and `b`, headers included, do not overlap.
pub open spec fn apart(a: TinyHeader, b: TinyHeader) -> bool {
    a.addr + HEADER_SIZE + a.size <= b.addr || b.addr + HEADER_SIZE + b.size <= a.addr
}

/// Block `a`, header included, lies inside block `b`.
pub open spec fn inside(a: TinyHeader, b: TinyHeader) -> bool {
    b.addr <= a.addr && a.addr + HEADER_SIZE + a.size <= b.addr + HEADER_SIZE + b.size
}

/// No two blocks of `s` overlap.
pub open spec fn pairwise_apart(s: Seq<TinyHeader>) -> bool {
    forall|i: int, j: int|
        0 <= i < s.len() && 0 <= j < s.len() && i != j ==> apart(#[trigger] s[i], #[trigger] s[j])
}

/// Blocks stay apart when each new block lies inside an old one (`m` gives
/// which) or, where `m` gives `-1`, in the range from `lo` to `hi` that no
/// old block meets; two new blocks from one source must be apart.
proof fn lemma_apart_kept(
    old: Seq<TinyHeader>,
    new: Seq<TinyHeader>,
    m: spec_fn(int) -> int,
    lo: int,
    hi: int,
)
    requires
        pairwise_apart(old),
        forall|i: int|
            0 <= i < new.len() ==> (0 <= m(i) < old.len() && inside(#[trigger] new[i], old[m(i)])) || (m(
                i,
            ) == -1 && lo <= new[i].addr && new[i].addr + HEADER_SIZE + new[i].size <= hi),
        forall|k: int|
            0 <= k < old.len() ==> (#[trigger] old[k]).addr + HEADER_SIZE + old[k].size <= lo || hi
                <= old[k].addr,
        forall|i: int, j: int|
            0 <= i < new.len() && 0 <= j < new.len() && i != j && m(i) == m(j) ==> apart(
                #[trigger] new[i],
                #[trigger] new[j],
            ),
    ensures
        pairwise_apart(new),
{
    assert forall|i: int, j: int| 0 <= i < new.len() && 0 <= j < new.len() && i != j implies apart(
        #[trigger] new[i],
        #[trigger] new[j],
    ) by {
        let a = new[i];
        let b = new[j];
        assert((0 <= m(i) < old.len() && inside(a, old[m(i)])) || (m(i) == -1 && lo <= a.addr && a.addr
            + HEADER_SIZE + a.size <= hi));
        assert((0 <= m(j) < old.len() && inside(b, old[m(j)])) || (m(j) == -1 && lo <= b.addr && b.addr
            + HEADER_SIZE + b.size <= hi));
        if m(i) != m(j) {
            if m(i) >= 0 && m(j) >= 0 {
                let x = m(i);
                let y = m(j);
                assert(apart(old[x], old[y]));
            } else if m(i) >= 0 {
                let o = old[m(i)];
                assert(o.addr + HEADER_SIZE + o.size <= lo || hi <= o.addr);
            } else if m(j) >= 0 {
                let o = old[m(j)];
                assert(o.addr + HEADER_SIZE + o.size <= lo || hi <= o.addr);
            }
        }
    }
}

/// Splitting the tail off free block `k` keeps the blocks apart.
#[verifier::spinoff_prover]
proof fn lemma_split_apart(free: Seq<TinyHeader>, live: Seq<TinyHeader>, k: int, rest: usize, req: usize)
    requires
        pairwise_apart(free + live),
        0 <= k < free.len(),
        rest + HEADER_SIZE + req == free[k].size,
        free[k].addr + HEADER_SIZE + free[k].size <= usize::MAX,
    ensures
        pairwise_apart(
            free.update(k, TinyHeader { addr: free[k].addr, size: rest }) + live.push(
                TinyHeader { addr: (free[k].addr + HEADER_SIZE + rest) as usize, size: req },
            ),
        ),
{
    let old = free + live;
    let h = free[k];
    let new = free.update(k, TinyHeader { addr: h.addr, size: rest }) + live.push(
        TinyHeader { addr: (h.addr + HEADER_SIZE + rest) as usize, size: req },
    );
    let nf = free.len() as int;
    let nl = live.len() as int;
    let m = |x: int| if x == nf + nl { k } else { x };
    assert(old[k] == h);
    assert forall|x: int| 0 <= x < new.len() implies (0 <= m(x) < old.len() && inside(
        #[trigger] new[x],
        old[m(x)],
    )) || (m(x) == -1 && 0 <= new[x].addr && new[x].addr + HEADER_SIZE + new[x].size <= 0) by {
        if x < nf + nl && x != k {
            assert(new[x] == old[x]);
        }
    }
    lemma_apart_kept(old, new, m, 0, 0);
}

/// Moving free block `k` to the blocks handed out keeps the blocks apart.
#[verifier::spinoff_prover]
proof fn lemma_unlink_apart(free: Seq<TinyHeader>, live: Seq<TinyHeader>, k: int)
    requires
        pairwise_apart(free + live),
        0 <= k < free.len(),
    ensures
        pairwise_apart(free.remove(k) + live.push(free[k])),
{
    let old = free + live;
    let new = free.remove(k) + live.push(free[k]);
    let nf = free.len() as int;
    let nl = live.len() as int;
    let m = |x: int| if x < k { x } else if x < nf - 1 + nl { x + 1 } else { k };
    assert forall|x: int| 0 <= x < new.len() implies (0 <= m(x) < old.len() && inside(
        #[trigger] new[x],
        old[m(x)],
    )) || (m(x) == -1 && 0 <= new[x].addr && new[x].addr + HEADER_SIZE + new[x].size <= 0) by {
        assert(new[x] == old[m(x)]);
    }
    lemma_apart_kept(old, new, m, 0, 0);
}

/// Moving block `k` handed out to the head of the free list keeps the
/// blocks apart.
#[verifier::spinoff_prover]
proof fn lemma_release_apart(free: Seq<TinyHeader>, live: Seq<TinyHeader>, k: int)
    requires
        pairwise_apart(free + live),
        0 <= k < live.len(),
    ensures
        pairwise_apart(free.insert(0, live[k]) + live.remove(k)),
{
    let old = free + live;
    let new = free.insert(0, live[k]) + live.remove(k);
    let nf = free.len() as int;
    let m = |x: int| if x == 0 { nf + k } else if x <= nf + k { x - 1 } else { x };
    assert forall|x: int| 0 <= x < new.len() implies (0 <= m(x) < old.len() && inside(
        #[trigger] new[x],
        old[m(x)],
    )) || (m(x) == -1 && 0 <= new[x].addr && new[x].addr + HEADER_SIZE + new[x].size <= 0) by {
        assert(new[x] == old[m(x)]);
    }
    lemma_apart_kept(old, new, m, 0, 0);
}

/// Carving a fresh frame at `p` that no block meets into the blocks `fh`
/// and `lh`, which lie in it apart, keeps the blocks apart.
#[verifier::spinoff_prover]
proof fn lemma_fresh_apart(free: Seq<TinyHeader>, live: Seq<TinyHeader>, p: int, fh: TinyHeader, lh: TinyHeader)
    requires
        pairwise_apart(free + live),
        forall|k: int|
            0 <= k < (free + live).len() ==> ((#[trigger] (free + live)[k]).addr + HEADER_SIZE + (free
                + live)[k].size <= p || p + PAGE_SIZE <= (free + live)[k].addr),
        p <= fh.addr,
        fh.addr + HEADER_SIZE + fh.size <= p + PAGE_SIZE,
        p <= lh.addr,
        lh.addr + HEADER_SIZE + lh.size <= p + PAGE_SIZE,
        apart(fh, lh),
    ensures
        pairwise_apart(free.insert(0, fh) + live.push(lh)),
{
    let old = free + live;
    let new = free.insert(0, fh) + live.push(lh);
    let nf = free.len() as int;
    let nl = live.len() as int;
    let m = |x: int| if x == 0 || x == nf + nl + 1 { -1 } else { x - 1 };
    assert forall|x: int| 0 <= x < new.len() implies (0 <= m(x) < old.len() && inside(
        #[trigger] new[x],
        old[m(x)],
    )) || (m(x) == -1 && p <= new[x].addr && new[x].addr + HEADER_SIZE + new[x].size <= p
        + PAGE_SIZE) by {
        if m(x) >= 0 {
            assert(new[x] == old[m(x)]);
        }
    }
    assert forall|i: int, j: int|
        0 <= i < new.len() && 0 <= j < new.len() && i != j && m(i) == m(j) implies apart(
        #[trigger] new[i],
        #[trigger] new[j],
    ) by {
        if m(i) >= 0 {
            assert(i == j);
        }
    }
    lemma_apart_kept(old, new, m, p, p + PAGE_SIZE);
}

/// A frame with no reference meets no tiny block.
proof fn lemma_outside_frame(a: KernelAllocView, p: int)
    requires
        forall|k: int| 0 <= k < a.free.len() ==> a.block_ok(#[trigger] a.free[k]),
        forall|k: int| 0 <= k < a.live.len() ==> a.block_ok(#[trigger] a.live[k]),
        forall|k: int| 0 <= k < a.free.len() ==> a.frame_kept(#[trigger] a.free[k]),
        forall|k: int| 0 <= k < a.live.len() ==> a.frame_kept(#[trigger] a.live[k]),
        a.pages.refcount(p) == 0,
        p % 4096 == 0,
    ensures
        forall|k: int|
            0 <= k < a.blocks().len() ==> ((#[trigger] a.blocks()[k]).addr + HEADER_SIZE
                + a.blocks()[k].size <= p || p + PAGE_SIZE <= a.blocks()[k].addr),
{
    assert forall|k: int| 0 <= k < a.blocks().len() implies ((#[trigger] a.blocks()[k]).addr
        + HEADER_SIZE + a.blocks()[k].size <= p || p + PAGE_SIZE <= a.blocks()[k].addr) by {
        let h = a.blocks()[k];
        if k < a.free.len() {
            assert(h == a.free[k]);
        } else {
            assert(h == a.live[k - a.free.len()]);
        }
        assert(a.block_ok(h) && a.frame_kept(h));
        let f = page_down(h.addr as int);
        assert(f != p);
        assert(h.addr + HEADER_SIZE + h.size <= f + 4096);
        assert(f + 4096 <= p || p + 4096 <= f) by (nonlinear_arith)
            requires
                f % 4096 == 0,
                p % 4096 == 0,
                f != p,
        ;
    }
}

/// The bytes that the blocks of `s` cover, headers included.
pub open spec fn span_sum(s: Seq<TinyHeader>) -> int
    decreases s.len(),
{
    if s.len() == 0 {
        0
    } else {
        span_sum(s.drop_last()) + HEADER_SIZE + s.last().size
    }
}

proof fn lemma_span_concat(a: Seq<TinyHeader>, b: Seq<TinyHeader>)
    ensures
        span_sum(a + b) == span_sum(a) + span_sum(b),
    decreases b.len(),
{
    if b.len() == 0 {
        assert(a + b =~= a);
    } else {
        lemma_span_concat(a, b.drop_last());
        assert((a + b).drop_last() =~= a + b.drop_last());
    }
}

proof fn lemma_span_remove(s: Seq<TinyHeader>, k: int)
    requires
        0 <= k < s.len(),
    ensures
        span_sum(s) == span_sum(s.remove(k)) + HEADER_SIZE + s[k].size,
    decreases s.len(),
{
    if k == s.len() - 1 {
        assert(s.remove(k) =~= s.drop_last());
    } else {
        lemma_span_remove(s.drop_last(), k);
        assert(s.remove(k).drop_last() =~= s.drop_last().remove(k));
        assert(s.remove(k).last() == s.last());
    }
}

proof fn lemma_sizes_within_span(s: Seq<TinyHeader>)
    ensures
        sum_sizes(s) <= span_sum(s),
    decreases s.len(),
{
    if s.len() > 0 {
        lemma_sizes_within_span(s.drop_last());
    }
}

/// The block of `s` that starts lowest.
proof fn lemma_lowest(s: Seq<TinyHeader>) -> (k: int)
    requires
        s.len() > 0,
    ensures
        0 <= k < s.len(),
        forall|j: int| 0 <= j < s.len() ==> s[k].addr <= #[trigger] s[j].addr,
    decreases s.len(),
{
    if s.len() == 1 {
        0
    } else {
        let k = lemma_lowest(s.drop_last());
        if s.last().addr < s[k].addr {
            assert forall|j: int| 0 <= j < s.len() implies s[s.len() - 1].addr <= #[trigger] s[j].addr by {
                if j < s.len() - 1 {
                    assert(s[j] == s.drop_last()[j]);
                }
            }
            s.len() - 1
        } else {
            assert forall|j: int| 0 <= j < s.len() implies s[k].addr <= #[trigger] s[j].addr by {
                if j < s.len() - 1 {
                    assert(s[j] == s.drop_last()[j]);
                }
            }
            k
        }
    }
}

/// Blocks that do not overlap and lie between `lo` and `hi` cover at most
/// `hi - lo` bytes.
proof fn lemma_span_bound(s: Seq<TinyHeader>, lo: int, hi: int)
    requires
        lo <= hi,
        pairwise_apart(s),
        forall|k: int|
            0 <= k < s.len() ==> lo <= (#[trigger] s[k]).addr && s[k].addr + HEADER_SIZE + s[k].size
                <= hi,
    ensures
        span_sum(s) <= hi - lo,
    decreases s.len(),
{
    if s.len() > 0 {
        let k = lemma_lowest(s);
        let e = s[k];
        let rest = s.remove(k);
        let top = e.addr + HEADER_SIZE + e.size;
        assert forall|x: int| 0 <= x < rest.len() implies top <= (#[trigger] rest[x]).addr && rest[x].addr
            + HEADER_SIZE + rest[x].size <= hi by {
            let y = if x < k { x } else { x + 1 };
            assert(rest[x] == s[y]);
            assert(apart(s[y], s[k]));
            assert(s[k].addr <= s[y].addr);
        }
        assert forall|x: int, z: int|
            0 <= x < rest.len() && 0 <= z < rest.len() && x != z implies apart(
            #[trigger] rest[x],
            #[trigger] rest[z],
        ) by {
            let y = if x < k { x } else { x + 1 };
            let w = if z < k { z } else { z + 1 };
            assert(rest[x] == s[y] && rest[z] == s[w]);
        }
        lemma_span_bound(rest, top, hi);
        lemma_span_remove(s, k);
    }
}

/// Blocks of 4080 bytes cover 4096 bytes each, header included.
proof fn lemma_span_frames(s: Seq<TinyHeader>)
    requires
        forall|k: int| 0 <= k < s.len() ==> (#[trigger] s[k]).size == 4080,
    ensures
        span_sum(s) == s.len() * 4096,
    decreases s.len(),
{
    if s.len() > 0 {
        lemma_span_frames(s.drop_last());
    }
}

/// The abstract state of a [`KernelAllocator`].
pub struct KernelAllocView {
    /// The frames.
    pub pages: PageAllocView,
    /// The free tiny blocks, head first.
    pub free: Seq<TinyHeader>,
    /// The tiny blocks handed out.
    pub live: Seq<TinyHeader>,
}

impl KernelAllocView {
    /// A block lies in one frame of memory, with aligned header and size.
    pub open spec fn block_ok(self, h: TinyHeader) -> bool {
        &&& h.addr % 16 == 0
        &&& h.size % 16 == 0
        &&& self.pages.base <= h.addr
        &&& h.addr + HEADER_SIZE + h.size <= self.pages.base + self.pages.memory.len()
        &&& h.addr % 4096 + HEADER_SIZE + h.size <= PAGE_SIZE
    }

    /// Every tiny block, free or handed out.
    pub open spec fn blocks(self) -> Seq<TinyHeader> {
        self.free + self.live
    }

    /// The frame that holds block `h` keeps a reference.
    pub open spec fn frame_kept(self, h: TinyHeader) -> bool {
        self.pages.refcount(page_down(h.addr as int)) >= 1
    }

    /// No tiny block, free or handed out, lies in the frame at `p`.
    pub open spec fn no_blocks_in(self, p: int) -> bool {
        &&& forall|k: int| 0 <= k < self.free.len() ==> page_down(#[trigger] self.free[k].addr as int) != p
        &&& forall|k: int| 0 <= k < self.live.len() ==> page_down(#[trigger] self.live[k].addr as int) != p
    }

    /// What `allocate(size, align)` returns from this state.
    pub open spec fn alloc_result(self, size: int, align: int) -> Option<int> {
        if is_page_request(size, align) {
            self.pages.alloc_result(size, align)
        } else if align > MAX_ALIGNMENT {
            None
        } else {
            let req = round16(size);
            match first_fit(self.free, req) {
                Some(k) => {
                    let h = self.free[k];
                    if h.size > req {
                        Some(h.addr + h.size - req + HEADER_SIZE)
                    } else {
                        Some(h.addr + HEADER_SIZE)
                    }
                },
                None => match self.pages.alloc_result(PAGE_SIZE as int, PAGE_SIZE as int) {
                    Some(p) => Some(p + HEADER_SIZE),
                    None => None,
                },
            }
        }
    }

    /// The state after `allocate(size, align)`. A tiny request, rounded up
    /// to 16 bytes, takes the first free block with room: the tail of a
    /// larger block, split off with a header of its own, or the whole block
    /// when the size is equal. With no such block a fresh frame is carved
    /// into the new block and a free remainder, which becomes the head of
    /// the free list.
    pub open spec fn after_alloc(self, size: int, align: int) -> KernelAllocView {
        if is_page_request(size, align) {
            KernelAllocView { pages: self.pages.after_alloc(size, align), ..self }
        } else if align > MAX_ALIGNMENT {
            self
        } else {
            let req = round16(size);
            match first_fit(self.free, req) {
                Some(k) => {
                    let h = self.free[k];
                    if h.size > req {
                        let rest = h.size - (req + HEADER_SIZE);
                        KernelAllocView {
                            free: self.free.update(
                                k,
                                TinyHeader { addr: h.addr, size: rest as usize },
                            ),
                            live: self.live.push(
                                TinyHeader {
                                    addr: (h.addr + HEADER_SIZE + rest) as usize,
                                    size: req as usize,
                                },
                            ),
                            ..self
                        }
                    } else {
                        KernelAllocView {
                            free: self.free.remove(k),
                            live: self.live.push(h),
                            ..self
                        }
                    }
                },
                None => match self.pages.alloc_result(PAGE_SIZE as int, PAGE_SIZE as int) {
                    Some(p) => KernelAllocView {
                        pages: self.pages.after_alloc(PAGE_SIZE as int, PAGE_SIZE as int),
                        free: self.free.insert(
                            0,
                            TinyHeader {
                                addr: (p + HEADER_SIZE + req) as usize,
                                size: (PAGE_SIZE - (req + 2 * HEADER_SIZE)) as usize,
                            },
                        ),
                        live: self.live.push(TinyHeader { addr: p as usize, size: req as usize }),
                    },
                    None => self,
                },
            }
        }
    }

    /// Whether `realloc(ptr, old_size, align, new_size)` accepts its
    /// arguments: `dealloc` would, and a tiny block holds `old_size` bytes.
    pub open spec fn can_realloc(self, ptr: int, old_size: int, align: int) -> bool {
        &&& self.can_dealloc(ptr, old_size, align)
        &&& !is_page_request(old_size, align) ==> self.live[live_block(self.live, ptr)->Some_0].size
            >= old_size
    }

    /// This state with `n` bytes copied from address `from` to address `to`.
    pub open spec fn with_copy(self, from: int, to: int, n: int) -> KernelAllocView {
        KernelAllocView { pages: self.pages.with_copy(from, to, n), ..self }
    }

    /// The state after moving a tiny block to a fresh allocation of
    /// `new_size` bytes, as `realloc` does when the block is too small.
    pub open spec fn after_move(self, ptr: int, old_size: int, align: int, new_size: int) -> KernelAllocView {
        match self.alloc_result(new_size, align) {
            None => self,
            Some(q) => self.after_alloc(new_size, align).with_copy(
                ptr,
                q,
                if old_size < new_size { old_size } else { new_size },
            ).after_dealloc(ptr, old_size, align),
        }
    }

    /// What `realloc(ptr, old_size, align, new_size)` returns.
    pub open spec fn realloc_result(self, ptr: int, old_size: int, align: int, new_size: int) -> Option<int> {
        if align >= PAGE_SIZE {
            self.pages.alloc_result(new_size, align)
        } else if old_size >= TINY_LIMIT {
            if new_size <= old_size {
                Some(ptr)
            } else {
                self.pages.alloc_result(new_size, align)
            }
        } else if self.live[live_block(self.live, ptr)->Some_0].size >= new_size {
            Some(ptr)
        } else {
            self.alloc_result(new_size, align)
        }
    }

    /// The state after `realloc(ptr, old_size, align, new_size)`: a block
    /// that already has room stays where it is; frames move through the
    /// page allocator; a tiny block too small moves to a new allocation.
    pub open spec fn after_realloc(self, ptr: int, old_size: int, align: int, new_size: int) -> KernelAllocView {
        if align >= PAGE_SIZE || (old_size >= TINY_LIMIT && new_size > old_size) {
            KernelAllocView {
                pages: self.pages.after_realloc(ptr, old_size, align, new_size),
                ..self
            }
        } else if old_size >= TINY_LIMIT {
            self
        } else if self.live[live_block(self.live, ptr)->Some_0].size >= new_size {
            self
        } else {
            self.after_move(ptr, old_size, align, new_size)
        }
    }

    /// The free bytes of the heap: the sizes that the free tiny blocks
    /// record, and the free frames.
    pub open spec fn free_bytes(self) -> int {
        sum_sizes(self.free) + self.pages.free.len() * PAGE_SIZE
    }

    /// This state with `n` bytes from address `at` set to zero.
    pub open spec fn with_zeroes(self, at: int, n: int) -> KernelAllocView {
        KernelAllocView { pages: self.pages.with_zeroes(at, n), ..self }
    }

    /// Whether `dealloc(ptr, size, align)` accepts its arguments: a frame
    /// that the page allocator takes back and that holds no tiny block, or
    /// the payload of a tiny block handed out, below `phystop`.
    pub open spec fn can_dealloc(self, ptr: int, size: int, align: int) -> bool {
        if is_page_request(size, align) {
            self.pages.can_dealloc(ptr) && size <= PAGE_SIZE && align <= PAGE_SIZE && self.no_blocks_in(ptr)
        } else {
            live_block(self.live, ptr) is Some && ptr < self.pages.phystop
        }
    }

    /// The state after `dealloc(ptr, size, align)`: a tiny block becomes
    /// the head of the free list with the size that its header records.
    pub open spec fn after_dealloc(self, ptr: int, size: int, align: int) -> KernelAllocView {
        if is_page_request(size, align) {
            KernelAllocView { pages: self.pages.after_dealloc(ptr), ..self }
        } else {
            let k = live_block(self.live, ptr)->Some_0;
            KernelAllocView {
                free: self.free.insert(0, self.live[k]),
                live: self.live.remove(k),
                ..self
            }
        }
    }
}

/// The kernel heap: whole frames for large requests, and tiny blocks carved
/// out of frames for the others.
pub struct KernelAllocator {
    page_allocator: KernelPageAllocator,
    /// Free tiny blocks, head first.
    tiny_free: Vec<TinyHeader>,
    /// Tiny blocks handed out.
    tiny_live: Vec<TinyHeader>,
}

impl View for KernelAllocator {
    type V = KernelAllocView;

    closed spec fn view(&self) -> KernelAllocView {
        KernelAllocView {
            pages: self.page_allocator@,
            free: self.tiny_free@,
            live: self.tiny_live@,
        }
    }
}

impl KernelAllocator {
    /// The heap's invariant: the frame allocator's, every tiny block lies
    /// aligned in one frame, which keeps a reference, and no two tiny blocks
    /// overlap.
    pub closed spec fn wf(&self) -> bool {
        &&& self.page_allocator.wf()
        &&& forall|k: int| 0 <= k < self.tiny_free.len() ==> self@.block_ok(#[trigger] self.tiny_free@[k])
        &&& forall|k: int| 0 <= k < self.tiny_live.len() ==> self@.block_ok(#[trigger] self.tiny_live@[k])
        &&& forall|k: int| 0 <= k < self.tiny_free.len() ==> self@.frame_kept(#[trigger] self.tiny_free@[k])
        &&& forall|k: int| 0 <= k < self.tiny_live.len() ==> self@.frame_kept(#[trigger] self.tiny_live@[k])
        &&& pairwise_apart(self@.blocks())
    }

    /// A heap for the memory from `end` to `phystop`, before `init`.
    pub fn new(end: usize, phystop: usize) -> (r: Self)
        requires
            end + PAGE_SIZE - 1 <= usize::MAX,
        ensures
            r.wf(),
            r@.pages.end == end,
            r@.pages.phystop == phystop,
            r@.pages.base == page_up(end as int),
            r@.pages.refcounts.len() == 0,
            r@.pages.free.len() == 0,
            r@.pages.memory.len() == 0,
            r@.free.len() == 0,
            r@.live.len() == 0,
    {
        KernelAllocator {
            page_allocator: KernelPageAllocator::new(end, phystop),
            tiny_free: Vec::new(),
            tiny_live: Vec::new(),
        }
    }

    /// The free tiny blocks, head first.
    pub fn free_blocks(&self) -> (r: &Vec<TinyHeader>)
        ensures
            r@ == self@.free,
    {
        &self.tiny_free
    }

    /// The tiny blocks handed out.
    pub fn live_blocks(&self) -> (r: &Vec<TinyHeader>)
        ensures
            r@ == self@.live,
    {
        &self.tiny_live
    }

    /// The frame allocator below the heap.
    pub fn page_allocator(&self) -> (r: &KernelPageAllocator)
        ensures
            r@ == self@.pages,
            self.wf() ==> r.wf(),
    {
        &self.page_allocator
    }

    /// Hands out the first free block at index `k`, which has room for
    /// `req` bytes: its tail when it is larger, split off under a header of
    /// its own, else the whole block. Returns the payload address.
    #[verifier::rlimit(100)]
    #[verifier::spinoff_prover]
    fn write_blocks(&mut self, k: usize, req: usize) -> (r: usize)
        requires
            old(self).wf(),
            fits_first(old(self)@.free, req as int, k as int),
            req % 16 == 0,
        ensures
            final(self).wf(),
            final(self)@.pages == old(self)@.pages,
            ({
                let h = old(self)@.free[k as int];
                if h.size > req {
                    let rest = h.size - (req + HEADER_SIZE);
                    &&& r == h.addr + h.size - req + HEADER_SIZE
                    &&& final(self)@.free == old(self)@.free.update(
                        k as int,
                        TinyHeader { addr: h.addr, size: rest as usize },
                    )
                    &&& final(self)@.live == old(self)@.live.push(
                        TinyHeader { addr: (h.addr + HEADER_SIZE + rest) as usize, size: req },
                    )
                } else {
                    &&& r == h.addr + HEADER_SIZE
                    &&& final(self)@.free == old(self)@.free.remove(k as int)
                    &&& final(self)@.live == old(self)@.live.push(h)
                }
            }),
    {
        let h = self.tiny_free[k];
        assert(self@.block_ok(h));
        if h.size > req {
            let rest = h.size - (req + HEADER_SIZE);
            let ghost st = self@;
            self.tiny_free.set(k, TinyHeader { addr: h.addr, size: rest });
            let na = h.addr + HEADER_SIZE + rest;
            let nh = TinyHeader { addr: na, size: req };
            proof {
                let a = h.addr as int;
                assert(na % 4096 == a % 4096 + 16 + rest) by {
                    assert(a % 4096 + 16 + rest + 16 + req <= 4096);
                }
                assert(st.block_ok(nh));
                assert(st.block_ok(TinyHeader { addr: h.addr, size: rest }));
                assert(page_down(na as int) == page_down(a));
                assert(st.frame_kept(h));
            }
            self.tiny_live.push(nh);
            proof {
                assert forall|j: int| 0 <= j < self.tiny_free.len() implies self@.block_ok(
                    #[trigger] self.tiny_free@[j],
                ) by {
                    if j != k {
                        assert(self.tiny_free@[j] == st.free[j]);
                    }
                }
                assert forall|j: int| 0 <= j < self.tiny_live.len() implies self@.block_ok(
                    #[trigger] self.tiny_live@[j],
                ) by {
                    if j < st.live.len() {
                        assert(self.tiny_live@[j] == st.live[j]);
                    }
                }
            }
            proof {
                lemma_split_apart(st.free, st.live, k as int, rest, req);
                assert(self@.blocks() =~= st.free.update(k as int, TinyHeader { addr: h.addr, size: rest })
                    + st.live.push(nh));
            }
            na + HEADER_SIZE
        } else {
            let ghost st = self@;
            self.tiny_free.remove(k);
            self.tiny_live.push(h);
            proof {
                assert forall|j: int| 0 <= j < self.tiny_free.len() implies self@.block_ok(
                    #[trigger] self.tiny_free@[j],
                ) by {
                    if j < k {
                        assert(self.tiny_free@[j] == st.free[j]);
                    } else {
                        assert(self.tiny_free@[j] == st.free[j + 1]);
                    }
                }
                assert forall|j: int| 0 <= j < self.tiny_live.len() implies self@.block_ok(
                    #[trigger] self.tiny_live@[j],
                ) by {
                    if j < st.live.len() {
                        assert(self.tiny_live@[j] == st.live[j]);
                    }
                }
            }
            proof {
                lemma_unlink_apart(st.free, st.live, k as int);
                assert(self@.blocks() =~= st.free.remove(k as int) + st.live.push(h));
            }
            h.addr + HEADER_SIZE
        }
    }
    /// Serves a request: whole frames for large ones (see
    /// [`KernelPageAllocator::allocate`]), tiny blocks aligned to 16 bytes
    /// for the others. A tiny request aligned to more than 16 bytes is
    /// refused, and so is one that needs a fresh frame when none is free.
    #[verifier::rlimit(40)]
    #[verifier::spinoff_prover]
    pub fn allocate(&mut self, size: usize, align: usize) -> (r: Option<usize>)
        requires
            old(self).wf(),
        ensures
            final(self).wf(),
            as_int_opt(r) == old(self)@.alloc_result(size as int, align as int),
            final(self)@ == old(self)@.after_alloc(size as int, align as int),
    {
        if size >= TINY_LIMIT || align >= PAGE_SIZE {
            let r = self.page_allocator.allocate(size, align);
            proof {
                assert forall|k: int| 0 <= k < self.tiny_free.len() implies self@.block_ok(
                    #[trigger] self.tiny_free@[k],
                ) by {
                    assert(old(self)@.block_ok(self.tiny_free@[k]));
                }
                assert forall|k: int| 0 <= k < self.tiny_live.len() implies self@.block_ok(
                    #[trigger] self.tiny_live@[k],
                ) by {
                    assert(old(self)@.block_ok(self.tiny_live@[k]));
                }
            }
            return r;
        }
        if align > MAX_ALIGNMENT {
            return None;
        }
        let req = (size + 15) & !15usize;
        assert(req == round16(size as int)) by {
            let s1 = (size + 15) as usize;
            assert(s1 & !15usize == s1 - s1 % 16) by (bit_vector);
        }
        assert(req % 16 == 0 && req <= TINY_LIMIT);
        let mut k: usize = 0;
        while k < self.tiny_free.len() && self.tiny_free[k].size < req
            invariant
                k <= self.tiny_free.len(),
                forall|j: int| 0 <= j < k ==> #[trigger] self.tiny_free@[j].size < req,
            decreases self.tiny_free.len() - k,
        {
            k = k + 1;
        }
        if k < self.tiny_free.len() {
            proof {
                lemma_fits_first_unique(self.tiny_free@, req as int, k as int);
            }
            let r = self.write_blocks(k, req);
            Some(r)
        } else {
            assert(first_fit(self.tiny_free@, req as int) is None) by {
                if exists|c: int| fits_first(self.tiny_free@, req as int, c) {
                    let c = choose|c: int| fits_first(self.tiny_free@, req as int, c);
                    assert(self.tiny_free@[c].size < req);
                }
            }
            self.grow(req)
        }
    }

    /// Carves a fresh frame into a block of `req` bytes, handed out, and
    /// a free remainder that becomes the head of the free list.
    #[verifier::spinoff_prover]
    #[verifier::rlimit(100)]
    fn grow(&mut self, req: usize) -> (r: Option<usize>)
        requires
            old(self).wf(),
            req % 16 == 0,
            req <= TINY_LIMIT,
        ensures
            final(self).wf(),
            old(self)@.pages.free.len() == 0 ==> r is None && final(self)@ == old(self)@,
            old(self)@.pages.free.len() > 0 ==> {
                let p = old(self)@.pages.free.last();
                &&& as_int_opt(r) == Some(p + HEADER_SIZE)
                &&& final(self)@.pages == old(self)@.pages.after_alloc(PAGE_SIZE as int, PAGE_SIZE as int)
                &&& final(self)@.free == old(self)@.free.insert(
                    0,
                    TinyHeader {
                        addr: (p + HEADER_SIZE + req) as usize,
                        size: (PAGE_SIZE - (req + 2 * HEADER_SIZE)) as usize,
                    },
                )
                &&& final(self)@.live == old(self)@.live.push(TinyHeader { addr: p as usize, size: req })
            },
    {
        proof {
            self.lemma_free_frames();
            self.lemma_memory_frames();
        }
        let ghost st = self@;
        match self.page_allocator.allocate(PAGE_SIZE, PAGE_SIZE) {
            None => {
                assert(self@.pages == st.pages);
                None
            },
            Some(p) => {
                assert(st.pages.free[st.pages.free.len() - 1] == p);
                assert(p % 4096 == 0 && st.pages.holds(p as int) && p + 4096 <= st.pages.phystop);
                let fh = TinyHeader { addr: p + HEADER_SIZE + req, size: PAGE_SIZE - (req + 2 * HEADER_SIZE) };
                let lh = TinyHeader { addr: p, size: req };
                proof {
                    let a = (p + 16 + req) as int;
                    assert(a % 4096 == 16 + req) by (nonlinear_arith)
                        requires
                            a == p + 16 + req,
                            p % 4096 == 0,
                            16 + req < 4096,
                    ;
                    assert(self@.pages.base == st.pages.base);
                    assert(self@.pages.memory.len() == st.pages.memory.len());
                    assert(p + 4096 <= st.pages.base + st.pages.memory.len());
                }
                assert(self@.block_ok(fh));
                assert(self@.block_ok(lh));
                self.tiny_free.insert(0, fh);
                self.tiny_live.push(lh);
                proof {
                    assert forall|j: int| 0 <= j < self.tiny_free.len() implies self@.block_ok(
                        #[trigger] self.tiny_free@[j],
                    ) by {
                        if j > 0 {
                            assert(self.tiny_free@[j] == st.free[j - 1]);
                            assert(st.block_ok(st.free[j - 1]));
                        }
                    }
                    assert forall|j: int| 0 <= j < self.tiny_live.len() implies self@.block_ok(
                        #[trigger] self.tiny_live@[j],
                    ) by {
                        if j < st.live.len() {
                            assert(self.tiny_live@[j] == st.live[j]);
                            assert(st.block_ok(st.live[j]));
                        }
                    }
                }
                proof {
                    assert(st.pages.refcount(p as int) == 0);
                    lemma_outside_frame(st, p as int);
                    lemma_fresh_apart(st.free, st.live, p as int, fh, lh);
                    assert(self@.blocks() =~= st.free.insert(0, fh) + st.live.push(lh));
                    lemma_counts_after_alloc(st.pages, PAGE_SIZE as int, PAGE_SIZE as int);
                    assert(page_down(p as int) == p);
                    assert(page_down(fh.addr as int) == p);
                    assert forall|j: int| 0 <= j < self.tiny_free.len() implies self@.frame_kept(
                        #[trigger] self.tiny_free@[j],
                    ) by {
                        if j > 0 {
                            let h = st.free[j - 1];
                            assert(self.tiny_free@[j] == h);
                            assert(st.block_ok(h) && st.frame_kept(h));
                            lemma_block_frame(st, h);
                        }
                    }
                    assert forall|j: int| 0 <= j < self.tiny_live.len() implies self@.frame_kept(
                        #[trigger] self.tiny_live@[j],
                    ) by {
                        if j < st.live.len() {
                            let h = st.live[j];
                            assert(self.tiny_live@[j] == h);
                            assert(st.block_ok(h) && st.frame_kept(h));
                            lemma_block_frame(st, h);
                        }
                    }
                }
                assert(st.pages.alloc_result(PAGE_SIZE as int, PAGE_SIZE as int) == Some(p as int));
                assert(self@.pages == st.pages.after_alloc(PAGE_SIZE as int, PAGE_SIZE as int));
                assert(self@.free == st.free.insert(0, fh));
                assert(self@.live == st.live.push(lh));
                Some(p + HEADER_SIZE)
            },
        }
    }

    /// Takes back what `allocate` handed out, under the same size and
    /// alignment. Frames go back to the page allocator; a tiny block becomes
    /// the head of the free list, without coalescing.
    #[verifier::spinoff_prover]
    pub fn dealloc(&mut self, ptr: usize, size: usize, align: usize)
        requires
            old(self).wf(),
            old(self)@.can_dealloc(ptr as int, size as int, align as int),
        ensures
            final(self).wf(),
            final(self)@ == old(self)@.after_dealloc(ptr as int, size as int, align as int),
    {
        if size >= TINY_LIMIT || align >= PAGE_SIZE {
            proof {
                self.lemma_memory_frames();
                lemma_counts_after_dealloc(self@.pages, ptr as int);
            }
            self.page_allocator.dealloc(ptr, size, align);
            proof {
                let st = old(self)@;
                assert forall|k: int| 0 <= k < self.tiny_free.len() implies self@.frame_kept(
                    #[trigger] self.tiny_free@[k],
                ) by {
                    let h = st.free[k];
                    assert(st.block_ok(h) && st.frame_kept(h));
                    lemma_block_frame(st, h);
                    assert(page_down(h.addr as int) != ptr);
                }
                assert forall|k: int| 0 <= k < self.tiny_live.len() implies self@.frame_kept(
                    #[trigger] self.tiny_live@[k],
                ) by {
                    let h = st.live[k];
                    assert(st.block_ok(h) && st.frame_kept(h));
                    lemma_block_frame(st, h);
                    assert(page_down(h.addr as int) != ptr);
                }
                assert forall|k: int| 0 <= k < self.tiny_free.len() implies self@.block_ok(
                    #[trigger] self.tiny_free@[k],
                ) by {
                    assert(old(self)@.block_ok(self.tiny_free@[k]));
                }
                assert forall|k: int| 0 <= k < self.tiny_live.len() implies self@.block_ok(
                    #[trigger] self.tiny_live@[k],
                ) by {
                    assert(old(self)@.block_ok(self.tiny_live@[k]));
                }
            }
        } else {
            let mut k: usize = 0;
            while k < self.tiny_live.len() && self.tiny_live[k].addr + HEADER_SIZE != ptr
                invariant
                    self.wf(),
                    k <= self.tiny_live.len(),
                    forall|j: int| 0 <= j < k ==> #[trigger] self.tiny_live@[j].addr + HEADER_SIZE != ptr,
                decreases self.tiny_live.len() - k,
            {
                assert(self@.block_ok(self.tiny_live@[k as int]));
                k = k + 1;
            }
            proof {
                let c = live_block(self.tiny_live@, ptr as int)->Some_0;
                assert(owns_first(self.tiny_live@, ptr as int, c));
                if k >= self.tiny_live.len() {
                    assert(self.tiny_live@[c].addr + HEADER_SIZE != ptr);
                }
                lemma_owns_first_unique(self.tiny_live@, ptr as int, k as int);
            }
            let ghost st = self@;
            let h = self.tiny_live.remove(k);
            self.tiny_free.insert(0, h);
            proof {
                lemma_release_apart(st.free, st.live, k as int);
                assert(self@.blocks() =~= st.free.insert(0, st.live[k as int]) + st.live.remove(k as int));
                assert(st.frame_kept(st.live[k as int]));
                assert forall|j: int| 0 <= j < self.tiny_free.len() implies self@.frame_kept(
                    #[trigger] self.tiny_free@[j],
                ) by {
                    if j > 0 {
                        assert(self.tiny_free@[j] == st.free[j - 1]);
                    }
                }
                assert forall|j: int| 0 <= j < self.tiny_live.len() implies self@.frame_kept(
                    #[trigger] self.tiny_live@[j],
                ) by {
                    if j < k {
                        assert(self.tiny_live@[j] == st.live[j]);
                    } else {
                        assert(self.tiny_live@[j] == st.live[j + 1]);
                    }
                }
                assert forall|j: int| 0 <= j < self.tiny_free.len() implies self@.block_ok(
                    #[trigger] self.tiny_free@[j],
                ) by {
                    if j > 0 {
                        assert(self.tiny_free@[j] == st.free[j - 1]);
                    } else {
                        assert(st.block_ok(st.live[k as int]));
                    }
                }
                assert forall|j: int| 0 <= j < self.tiny_live.len() implies self@.block_ok(
                    #[trigger] self.tiny_live@[j],
                ) by {
                    if j < k {
                        assert(self.tiny_live@[j] == st.live[j]);
                    } else {
                        assert(self.tiny_live@[j] == st.live[j + 1]);
                    }
                }
            }
        }
    }
    /// Moves the tiny block at `ptr` to a fresh allocation of `new_size`
    /// bytes, copying the first `min(old_size, new_size)` bytes, and frees
    /// it. Gives `None`, and changes nothing, when the allocation fails.
    #[verifier::spinoff_prover]
    fn default_realloc(&mut self, ptr: usize, old_size: usize, align: usize, new_size: usize) -> (r: Option<usize>)
        requires
            old(self).wf(),
            old(self)@.can_realloc(ptr as int, old_size as int, align as int),
            !is_page_request(old_size as int, align as int),
        ensures
            final(self).wf(),
            as_int_opt(r) == old(self)@.alloc_result(new_size as int, align as int),
            final(self)@ == old(self)@.after_move(
                ptr as int,
                old_size as int,
                align as int,
                new_size as int,
            ),
    {
        let ghost st = self@;
        proof {
            self.page_allocator.lemma_free_frames();
            let k = live_block(st.live, ptr as int)->Some_0;
            assert(owns_first(st.live, ptr as int, k));
            assert(st.block_ok(st.live[k]));
        }
        let r = self.allocate(new_size, align);
        match r {
            None => None,
            Some(q) => {
                let n = if old_size < new_size { old_size } else { new_size };
                proof {
                    let k = live_block(st.live, ptr as int)->Some_0;
                    assert(owns_first(self@.live, ptr as int, k));
                    lemma_owns_first_unique(self@.live, ptr as int, k);
                    if is_page_request(new_size as int, align as int) {
                    } else {
                        let h = self.tiny_live@.last();
                        assert(self@.block_ok(h));
                    }
                }
                self.page_allocator.copy_memory(ptr, q, n);
                proof {
                    assert forall|k: int| 0 <= k < self.tiny_free.len() implies self@.block_ok(
                        #[trigger] self.tiny_free@[k],
                    ) by {
                        assert(st.after_alloc(new_size as int, align as int).block_ok(self.tiny_free@[k]));
                    }
                    assert forall|k: int| 0 <= k < self.tiny_live.len() implies self@.block_ok(
                        #[trigger] self.tiny_live@[k],
                    ) by {
                        assert(st.after_alloc(new_size as int, align as int).block_ok(self.tiny_live@[k]));
                    }
                }
                self.dealloc(ptr, old_size, align);
                Some(q)
            },
        }
    }

    /// Resizes what `allocate` handed out at `ptr` under `old_size` and
    /// `align`. Returns `ptr` itself when the block already has room (a
    /// large block that shrinks, a tiny block whose header records enough),
    /// else the new place, or `None` when none can be had; the old block is
    /// then kept.
    #[verifier::spinoff_prover]
    pub fn realloc(&mut self, ptr: usize, old_size: usize, align: usize, new_size: usize) -> (r: Option<usize>)
        requires
            old(self).wf(),
            old(self)@.can_realloc(ptr as int, old_size as int, align as int),
        ensures
            final(self).wf(),
            as_int_opt(r) == old(self)@.realloc_result(
                ptr as int,
                old_size as int,
                align as int,
                new_size as int,
            ),
            final(self)@ == old(self)@.after_realloc(
                ptr as int,
                old_size as int,
                align as int,
                new_size as int,
            ),
    {
        if align >= PAGE_SIZE || (old_size >= TINY_LIMIT && new_size > old_size) {
            let r = self.page_allocator.realloc(ptr, old_size, align, new_size);
            proof {
                self.lemma_blocks_kept(old(self)@);
            }
            r
        } else if old_size >= TINY_LIMIT {
            Some(ptr)
        } else {
            let mut k: usize = 0;
            while k < self.tiny_live.len() && self.tiny_live[k].addr + HEADER_SIZE != ptr
                invariant
                    self.wf(),
                    k <= self.tiny_live.len(),
                    forall|j: int| 0 <= j < k ==> #[trigger] self.tiny_live@[j].addr + HEADER_SIZE != ptr,
                decreases self.tiny_live.len() - k,
            {
                assert(self@.block_ok(self.tiny_live@[k as int]));
                k = k + 1;
            }
            proof {
                let c = live_block(self.tiny_live@, ptr as int)->Some_0;
                assert(owns_first(self.tiny_live@, ptr as int, c));
                if k >= self.tiny_live.len() {
                    assert(self.tiny_live@[c].addr + HEADER_SIZE != ptr);
                }
                lemma_owns_first_unique(self.tiny_live@, ptr as int, k as int);
            }
            if self.tiny_live[k].size >= new_size {
                Some(ptr)
            } else {
                self.default_realloc(ptr, old_size, align, new_size)
            }
        }
    }

    /// The tiny blocks stay well placed when only the frames' contents and
    /// counts change.
    proof fn lemma_blocks_kept(&self, prev: KernelAllocView)
        requires
            self@.free == prev.free,
            self@.live == prev.live,
            self@.pages.base == prev.pages.base,
            self@.pages.base % 4096 == 0,
            self@.pages.memory.len() == prev.pages.memory.len(),
            self@.pages.refcounts.len() == prev.pages.refcounts.len(),
            prev.pages.memory.len() == prev.pages.refcounts.len() * 4096,
            forall|k: int| 0 <= k < prev.free.len() ==> prev.block_ok(#[trigger] prev.free[k]),
            forall|k: int| 0 <= k < prev.live.len() ==> prev.block_ok(#[trigger] prev.live[k]),
            forall|k: int| 0 <= k < prev.free.len() ==> prev.frame_kept(#[trigger] prev.free[k]),
            forall|k: int| 0 <= k < prev.live.len() ==> prev.frame_kept(#[trigger] prev.live[k]),
            forall|f: int|
                f % 4096 == 0 && prev.pages.holds(f) && prev.pages.refcount(f) >= 1 && !prev.no_blocks_in(
                    f,
                ) ==> #[trigger] self@.pages.refcount(f) >= 1,
        ensures
            forall|k: int| 0 <= k < self.tiny_free.len() ==> self@.block_ok(#[trigger] self.tiny_free@[k]),
            forall|k: int| 0 <= k < self.tiny_live.len() ==> self@.block_ok(#[trigger] self.tiny_live@[k]),
            forall|k: int| 0 <= k < self.tiny_free.len() ==> self@.frame_kept(#[trigger] self.tiny_free@[k]),
            forall|k: int| 0 <= k < self.tiny_live.len() ==> self@.frame_kept(#[trigger] self.tiny_live@[k]),
    {
        assert forall|k: int| 0 <= k < self.tiny_free.len() implies self@.frame_kept(
            #[trigger] self.tiny_free@[k],
        ) by {
            let h = prev.free[k];
            assert(prev.block_ok(h) && prev.frame_kept(h));
            lemma_block_frame(prev, h);
            assert(!prev.no_blocks_in(page_down(h.addr as int)));
        }
        assert forall|k: int| 0 <= k < self.tiny_live.len() implies self@.frame_kept(
            #[trigger] self.tiny_live@[k],
        ) by {
            let h = prev.live[k];
            assert(prev.block_ok(h) && prev.frame_kept(h));
            lemma_block_frame(prev, h);
            assert(!prev.no_blocks_in(page_down(h.addr as int)));
        }
        assert forall|k: int| 0 <= k < self.tiny_free.len() implies self@.block_ok(
            #[trigger] self.tiny_free@[k],
        ) by {
            assert(prev.block_ok(prev.free[k]));
        }
        assert forall|k: int| 0 <= k < self.tiny_live.len() implies self@.block_ok(
            #[trigger] self.tiny_live@[k],
        ) by {
            assert(prev.block_ok(prev.live[k]));
        }
    }

    /// Sets up the frames between `end` and `phystop`: see
    /// [`KernelPageAllocator::init`].
    pub fn init(&mut self)
        requires
            old(self).wf(),
            old(self)@.pages.refcounts.len() == 0,
            old(self)@.pages.base <= page_down(old(self)@.pages.phystop),
            old(self)@.pages.end + frame_count(old(self)@.pages.end, old(self)@.pages.phystop)
                + PAGE_SIZE <= usize::MAX,
        ensures
            final(self).wf(),
            final(self)@.pages.initialized(),
            final(self)@.pages == old(self)@.pages.after_init(
                frame_count(old(self)@.pages.end, old(self)@.pages.phystop),
            ),
            final(self)@.free == old(self)@.free,
            final(self)@.live == old(self)@.live,
    {
        let page_count = (pgrounddown(self.page_allocator.phystop) - pgroundup(
            self.page_allocator.end,
        )) / PAGE_SIZE;
        assert(self.tiny_free.len() == 0 && self.tiny_live.len() == 0) by {
            if self.tiny_free.len() > 0 {
                assert(self@.block_ok(self.tiny_free@[0]));
            }
            if self.tiny_live.len() > 0 {
                assert(self@.block_ok(self.tiny_live@[0]));
            }
        }
        self.page_allocator.init(page_count);
    }

    /// Adds a reference to the frame at `physical_address`, which must start
    /// a page: see [`KernelPageAllocator::in_place_copy`]. Returns whether
    /// it did.
    pub fn in_place_copy(&mut self, physical_address: usize) -> (r: bool)
        requires
            old(self).wf(),
            physical_address % PAGE_SIZE == 0 ==> old(self)@.pages.holds(physical_address as int),
        ensures
            final(self).wf(),
            r == (physical_address % PAGE_SIZE == 0 && old(self)@.pages.can_share(
                physical_address as int,
            )),
            final(self)@ == if physical_address % PAGE_SIZE == 0 {
                KernelAllocView {
                    pages: old(self)@.pages.after_share(physical_address as int),
                    ..old(self)@
                }
            } else {
                old(self)@
            },
    {
        if pgrounddown(physical_address) == physical_address {
            let r = self.page_allocator.in_place_copy(physical_address);
            proof {
                self.lemma_blocks_kept(old(self)@);
            }
            r
        } else {
            false
        }
    }

    /// Whether `physical_address` starts a page with exactly one reference.
    pub fn exactly_one_reference(&self, physical_address: usize) -> (r: bool)
        requires
            self.wf(),
            physical_address % PAGE_SIZE == 0 ==> self@.pages.holds(physical_address as int),
        ensures
            r == (physical_address % PAGE_SIZE == 0 && self@.pages.refcount(physical_address as int)
                == 1),
    {
        pgrounddown(physical_address) == physical_address
            && self.page_allocator.exactly_one_reference(physical_address)
    }

    /// The free bytes of the heap: what the free tiny blocks record, and the
    /// free frames.
    #[verifier::spinoff_prover]
    pub fn memfree_count(&self) -> (r: usize)
        requires
            self.wf(),
        ensures
            r == self@.free_bytes(),
    {
        let mut tiny_space: usize = 0;
        let mut k: usize = 0;
        proof {
            self.lemma_free_bytes_fit();
            self.page_allocator.lemma_free_frames();
            assert(self.tiny_free@.subrange(0, 0) =~= Seq::<TinyHeader>::empty());
        }
        while k < self.tiny_free.len()
            invariant
                self.wf(),
                self@.free_bytes() <= usize::MAX,
                k <= self.tiny_free.len(),
                tiny_space == sum_sizes(self.tiny_free@.subrange(0, k as int)),
            decreases self.tiny_free.len() - k,
        {
            proof {
                assert(self.tiny_free@.subrange(0, k + 1).drop_last() =~= self.tiny_free@.subrange(0, k as int));
                lemma_sum_prefix(self.tiny_free@, k + 1);
            }
            tiny_space = tiny_space + self.tiny_free[k].size;
            k = k + 1;
        }
        proof {
            assert(self.tiny_free@.subrange(0, k as int) =~= self.tiny_free@);
        }
        tiny_space + self.page_allocator.pfree_count()
    }
    /// The free bytes fit in memory: the free tiny blocks and the free
    /// frames do not overlap.
    #[verifier::spinoff_prover]
    pub proof fn lemma_free_bytes_fit(&self)
        requires
            self.wf(),
        ensures
            self@.free_bytes() <= self@.pages.memory.len(),
            self@.free_bytes() <= usize::MAX,
    {
        let a = self@;
        self.lemma_free_frames();
        self.lemma_memory_frames();
        self.lemma_bounds();
        self.page_allocator.lemma_consistent();
        let n = a.pages.free.len();
        let frames = Seq::new(n, |i: int| TinyHeader { addr: a.pages.free[i] as usize, size: 4080 });
        let nf = a.free.len() as int;
        let c = a.free + frames;
        assert(a.blocks().subrange(0, nf) =~= a.free);
        assert forall|x: int| 0 <= x < c.len() implies a.pages.base <= (#[trigger] c[x]).addr && c[x].addr
            + HEADER_SIZE + c[x].size <= a.pages.base + a.pages.memory.len() by {
            if x < nf {
                assert(c[x] == a.free[x]);
                assert(a.block_ok(a.free[x]));
            } else {
                let p = a.pages.free[x - nf];
                assert(c[x] == frames[x - nf]);
                assert(p % 4096 == 0 && a.pages.holds(p));
                assert(p + 4096 <= a.pages.base + a.pages.refcounts.len() * 4096) by (nonlinear_arith)
                    requires
                        p % 4096 == 0,
                        a.pages.base % 4096 == 0,
                        a.pages.base <= p < a.pages.base + a.pages.refcounts.len() * 4096,
                ;
            }
        }
        assert forall|x: int, z: int| 0 <= x < c.len() && 0 <= z < c.len() && x != z implies apart(
            #[trigger] c[x],
            #[trigger] c[z],
        ) by {
            if x < nf && z < nf {
                assert(c[x] == a.blocks()[x] && c[z] == a.blocks()[z]);
            } else if x >= nf && z >= nf {
                let p = a.pages.free[x - nf];
                let q = a.pages.free[z - nf];
                assert(p != q);
                assert(p % 4096 == 0 && q % 4096 == 0);
                assert(p + 4096 <= q || q + 4096 <= p) by (nonlinear_arith)
                    requires
                        p % 4096 == 0,
                        q % 4096 == 0,
                        p != q,
                ;
            } else {
                let (b, f) = if x < nf { (x, z - nf) } else { (z, x - nf) };
                let p = a.pages.free[f];
                assert(a.pages.refcount(p) == 0 && p % 4096 == 0);
                lemma_outside_frame(a, p);
                assert(a.blocks()[b] == a.free[b]);
                assert(a.blocks()[b].addr + HEADER_SIZE + a.blocks()[b].size <= p || p + PAGE_SIZE
                    <= a.blocks()[b].addr);
            }
        }
        lemma_span_bound(c, a.pages.base, a.pages.base + a.pages.memory.len());
        lemma_span_concat(a.free, frames);
        lemma_sizes_within_span(a.free);
        assert(span_sum(frames) == n * 4096) by {
            lemma_span_frames(frames);
        }
    }

    /// Each free tiny block is aligned and lies in memory.
    pub proof fn lemma_block(&self, k: int)
        requires
            self.wf(),
            0 <= k < self@.free.len(),
        ensures
            self@.block_ok(self@.free[k]),
    {
    }

    /// Every free frame is a page of memory below `phystop`, with no
    /// reference.
    pub proof fn lemma_free_frames(&self)
        requires
            self.wf(),
        ensures
            self@.pages.base % 4096 == 0,
            forall|k: int|
                0 <= k < self@.pages.free.len() ==> {
                    let p = #[trigger] self@.pages.free[k];
                    &&& p % 4096 == 0
                    &&& self@.pages.holds(p)
                    &&& p + 4096 <= self@.pages.phystop
                    &&& self@.pages.refcount(p) == 0
                },
    {
        self.page_allocator.lemma_free_frames();
        assert forall|k: int| 0 <= k < self@.pages.free.len() implies {
            let p = #[trigger] self@.pages.free[k];
            &&& p % 4096 == 0
            &&& self@.pages.holds(p)
            &&& p + 4096 <= self@.pages.phystop
            &&& self@.pages.refcount(p) == 0
        } by {
            let pa = &self.page_allocator;
            let i = pa.free[k] as int;
            assert(pa@.free[k] == pa.base + i * 4096);
            assert(pa@.page_index(pa@.free[k]) == i) by (nonlinear_arith)
                requires
                    pa@.free[k] == pa.base + i * 4096,
                    pa@.base == pa.base,
            ;
            assert(pa.refcounts.len() * PAGE_SIZE == page_down(pa.phystop as int) - pa.base);
        }
    }

    /// No two tiny blocks, free or handed out, overlap.
    pub proof fn lemma_blocks_apart(&self)
        requires
            self.wf(),
        ensures
            pairwise_apart(self@.blocks()),
    {
    }

    /// Memory holds one page per frame, from an aligned base.
    pub proof fn lemma_memory_frames(&self)
        requires
            self.wf(),
        ensures
            self@.pages.base % 4096 == 0,
            self@.pages.memory.len() == self@.pages.refcounts.len() * 4096,
    {
    }

    /// The frames lie below `phystop`, an address.
    pub proof fn lemma_bounds(&self)
        requires
            self.wf(),
        ensures
            0 <= self@.pages.base,
            self@.pages.phystop <= usize::MAX,
            self@.pages.base + self@.pages.memory.len() <= usize::MAX,
    {
        if self.page_allocator.memory.len() > 0 {
            self.page_allocator.lemma_free_frames();
        }
    }

    /// Like `allocate`, and the bytes handed out read as zero.
    #[verifier::spinoff_prover]
    pub fn alloc_zeroed(&mut self, size: usize, align: usize) -> (r: Option<usize>)
        requires
            old(self).wf(),
        ensures
            final(self).wf(),
            as_int_opt(r) == old(self)@.alloc_result(size as int, align as int),
            final(self)@ == match old(self)@.alloc_result(size as int, align as int) {
                None => old(self)@,
                Some(q) => old(self)@.after_alloc(size as int, align as int).with_zeroes(q, size as int),
            },
    {
        let ghost st = self@;
        proof {
            self.page_allocator.lemma_free_frames();
        }
        let r = self.allocate(size, align);
        match r {
            None => None,
            Some(q) => {
                proof {
                    if !is_page_request(size as int, align as int) {
                        assert(self@.block_ok(self.tiny_live@.last()));
                    }
                }
                self.page_allocator.zero_memory(q, size);
                proof {
                    self.lemma_blocks_kept(st.after_alloc(size as int, align as int));
                }
                Some(q)
            },
        }
    }
}

impl PageAllocView {
    /// What the allocator's invariant shows of its abstract state.
    pub open spec fn consistent(self) -> bool {
        &&& self.base % 4096 == 0
        &&& self.end <= self.base
        &&& self.memory.len() == self.refcounts.len() * PAGE_SIZE
        &&& self.refcounts.len() > 0 ==> self.base + self.refcounts.len() * PAGE_SIZE <= self.phystop
        &&& self.free.no_duplicates()
        &&& forall|k: int|
            0 <= k < self.free.len() ==> {
                let p = #[trigger] self.free[k];
                p % 4096 == 0 && self.holds(p) && self.refcount(p) == 0
            }
    }
}

impl KernelPageAllocator {
    /// The abstract state of a well-formed allocator is consistent.
    #[verifier::spinoff_prover]
    pub proof fn lemma_consistent(&self)
        requires
            self.wf(),
        ensures
            self@.consistent(),
    {
        self.lemma_free_frames();
        if self.refcounts.len() > 0 {
            assert(self.refcounts.len() * PAGE_SIZE == page_down(self.phystop as int) - self.base);
        }
        assert forall|k: int| 0 <= k < self@.free.len() implies #[trigger] self@.refcount(self@.free[k]) == 0 by {
            let i = self.free[k] as int;
            assert(self@.free[k] == self.base + i * 4096);
            assert(self@.page_index(self@.free[k]) == i) by (nonlinear_arith)
                requires
                    self@.free[k] == self.base + i * 4096,
                    self@.base == self.base,
            ;
        }
        assert(self@.free.no_duplicates()) by {
            assert forall|x: int, y: int|
                0 <= x < self@.free.len() && 0 <= y < self@.free.len() && x != y implies self@.free[x]
                != self@.free[y] by {
                assert(self.free@[x] != self.free@[y]);
                if self@.free[x] == self@.free[y] {
                    assert(self.free@[x] == self.free@[y]) by (nonlinear_arith)
                        requires
                            self.base + self.free@[x] * 4096 == self.base + self.free@[y] * 4096,
                    ;
                }
            }
        }
    }
}

} // verus!
