//! Sv39 page tables: three levels of 512 entries, each table a frame taken
//! from the kernel heap, and the kernel's own address space.

use vstd::prelude::*;
use crate::kalloc::{KernelAllocView, KernelAllocator};
use crate::layout::{page_down, page_start, MAX_VIRTUAL_ADDRESS, PAGE_SIZE, TRAMPOLINE};
use crate::pte::{
    bit_of, flags_of, lemma_flags_valid, lemma_leaf_entry, lemma_table_entry, leaf_entry_bits, ppn_of,
    table_entry_bits, PageTableEntry, BIT_VALID,
};

verus! {

/// One beyond the highest physical address that an entry can hold.
pub const PHYS_LIMIT: u64 = 0x100_0000_0000_0000;

/// Why a walk stopped short of the leaf.
#[derive(PartialEq, Eq, Structural, Clone, Copy, Debug)]
pub enum PageTableWalkError {
    /// An inner table on the way is missing, and the walk may not add it.
    PageTableUnallocated,
    /// An inner table on the way is missing, and no frame was left for it.
    UnableToAllocate,
}

/// Why a mapping failed.
#[derive(PartialEq, Eq, Structural, Clone, Copy, Debug)]
pub enum PageTableMapError {
    PageTableWalkError(PageTableWalkError),
}

impl From<PageTableWalkError> for PageTableMapError {
    fn from(value: PageTableWalkError) -> (r: PageTableMapError)
        ensures
            r == PageTableMapError::PageTableWalkError(value),
    {
        PageTableMapError::PageTableWalkError(value)
    }
}

impl vstd::std_specs::convert::FromSpecImpl<PageTableWalkError> for PageTableMapError {
    open spec fn obeys_from_spec() -> bool {
        true
    }

    open spec fn from_spec(value: PageTableWalkError) -> PageTableMapError {
        PageTableMapError::PageTableWalkError(value)
    }
}

/// The index into a table that `va` selects: nine bits from `shift`
/// (30 for the root, 21 for the middle level, 12 for the leaves).
pub open spec fn index_at(va: u64, shift: u64) -> int {
    ((va >> shift) & 0x1ff) as int
}

/// The physical address that an entry points at.
pub open spec fn target(e: PageTableEntry) -> int {
    ppn_of(e.0) * 4096
}

proof fn lemma_index_range(va: u64)
    ensures
        0 <= index_at(va, 30) < 512,
        0 <= index_at(va, 21) < 512,
        0 <= index_at(va, 12) < 512,
{
    assert((va >> 30u64) & 0x1ff < 512 && (va >> 21u64) & 0x1ff < 512 && (va >> 12u64) & 0x1ff
        < 512) by (bit_vector);
}

/// Two addresses below `MAX_VIRTUAL_ADDRESS` that select the same three
/// indices lie in the same page.
proof fn lemma_same_indices(a: u64, b: u64)
    requires
        a < 0x40_0000_0000u64,
        b < 0x40_0000_0000u64,
        (a >> 30u64) & 0x1ff == (b >> 30u64) & 0x1ff,
        (a >> 21u64) & 0x1ff == (b >> 21u64) & 0x1ff,
        (a >> 12u64) & 0x1ff == (b >> 12u64) & 0x1ff,
    ensures
        a >> 12u64 == b >> 12u64,
{
    assert(a >> 12u64 == b >> 12u64) by (bit_vector)
        requires
            a < 0x40_0000_0000u64,
            b < 0x40_0000_0000u64,
            (a >> 30u64) & 0x1ff == (b >> 30u64) & 0x1ff,
            (a >> 21u64) & 0x1ff == (b >> 21u64) & 0x1ff,
            (a >> 12u64) & 0x1ff == (b >> 12u64) & 0x1ff,
    ;
}

/// Whether `v` lies in one of the pages that `map_pages(va, len, ..)`
/// maps: from the page of `va` to the page of `va + len - 1`, both
/// included.
pub open spec fn in_region(v: int, va: int, len: int) -> bool {
    page_down(va) <= page_down(v) <= page_down(va + len - 1)
}

/// The physical address that `map_pages(va, .., pa, ..)` maps the page of
/// `v` to.
pub open spec fn region_pa(v: int, va: int, pa: int) -> int {
    pa + (page_down(v) - page_down(va))
}

/// Whether `leaf` is a valid entry that maps to `pa` with the flag byte
/// `perms` and the valid bit.
pub open spec fn maps_to(leaf: Option<PageTableEntry>, pa: int, perms: u8) -> bool {
    match leaf {
        Some(e) => e.is_valid() && flags_of(e.0) == (perms as u64) | 1 && target(e) == pa,
        None => false,
    }
}

/// The heap after one table frame is taken from it, as
/// `alloc_zeroed(PAGE_SIZE, PAGE_SIZE)` takes it: the head of the free list
/// leaves it with one reference and reads as zero; nothing else changes.
/// With no free frame the heap stays as it is.
pub open spec fn take_frame(a: KernelAllocView) -> KernelAllocView {
    match a.alloc_result(PAGE_SIZE as int, PAGE_SIZE as int) {
        Some(q) => a.after_alloc(PAGE_SIZE as int, PAGE_SIZE as int).with_zeroes(q, PAGE_SIZE as int),
        None => a,
    }
}

/// The heap after `k` table frames are taken from it.
pub open spec fn take_frames(a: KernelAllocView, k: nat) -> KernelAllocView
    decreases k,
{
    if k == 0 {
        a
    } else {
        take_frame(take_frames(a, (k - 1) as nat))
    }
}

/// Taking `i` frames and then `j` more is taking `i + j`.
proof fn lemma_take_frames_add(a: KernelAllocView, i: nat, j: nat)
    ensures
        take_frames(take_frames(a, i), j) == take_frames(a, i + j),
    decreases j,
{
    if j > 0 {
        lemma_take_frames_add(a, i, (j - 1) as nat);
    }
}

/// The number of pages that `map_pages(va, len, ..)` maps.
pub open spec fn region_pages(va: int, len: int) -> int {
    (page_down(va + len - 1) - page_down(va)) / (PAGE_SIZE as int) + 1
}

/// The page of `v`, as the walk's frame conditions name it.
proof fn lemma_page_of(v: u64)
    ensures
        (v >> 12u64) as int * 4096 == page_down(v as int),
{
    assert(v >> 12u64 == v / 4096) by (bit_vector);
}

/// A three-level Sv39 page table. It owns its root frame; each inner table
/// is owned by the entry that points at it.
pub struct PageTable {
    /// Physical address of each table; the root comes first.
    frames: Vec<u64>,
    /// The 512 entries of each table.
    tables: Vec<Vec<PageTableEntry>>,
    /// The level of each table: 2 for the root, 0 for a table of leaves.
    levels: Ghost<Seq<int>>,
    /// For each table but the root, the table and slot of the entry that
    /// points at it.
    parents: Ghost<Seq<(int, int)>>,
}

impl PageTable {
    /// Entry `i` of table `t`.
    pub closed spec fn ent(self, t: int, i: int) -> PageTableEntry {
        self.tables@[t]@[i]
    }

    /// The table whose frame is at `pa`.
    pub closed spec fn table_at(self, pa: int) -> Option<int> {
        if exists|u: int| 0 <= u < self.frames.len() && self.frames@[u] == pa {
            Some(choose|u: int| 0 <= u < self.frames.len() && self.frames@[u] == pa)
        } else {
            None
        }
    }

    /// The table that entry `i` of table `t` leads to, if it is valid.
    pub closed spec fn child(self, t: int, i: int) -> Option<int> {
        if self.ent(t, i).is_valid() {
            self.table_at(target(self.ent(t, i)))
        } else {
            None
        }
    }

    /// The table and slot of the leaf entry for `va`, when both inner
    /// tables on its way exist.
    pub closed spec fn slot(self, va: u64) -> Option<(int, int)> {
        match self.child(0, index_at(va, 30)) {
            Some(t1) => match self.child(t1, index_at(va, 21)) {
                Some(t0) => Some((t0, index_at(va, 12))),
                None => None,
            },
            None => None,
        }
    }

    /// The leaf entry for `va`, when both inner tables on its way exist.
    pub closed spec fn leaf(self, va: u64) -> Option<PageTableEntry> {
        match self.slot(va) {
            Some(s) => Some(self.ent(s.0, s.1)),
            None => None,
        }
    }

    /// The bits of the leaf entry for `va`; zero where there is none.
    pub open spec fn leaf_bits(self, va: u64) -> u64 {
        match self.leaf(va) {
            Some(e) => e.0,
            None => 0,
        }
    }

    /// The number of inner tables missing on the way to the leaf of `va`:
    /// two when the root has no table for it, one when only the table of
    /// leaves is missing, none when the leaf exists.
    pub closed spec fn missing_tables(self, va: u64) -> int {
        match self.child(0, index_at(va, 30)) {
            None => 2,
            Some(t1) => if self.child(t1, index_at(va, 21)) is None {
                1
            } else {
                0
            },
        }
    }

    /// The physical address of the root table.
    pub closed spec fn root_pa(self) -> int {
        self.frames@[0] as int
    }

    /// The number of tables, the root included.
    pub closed spec fn num_tables(self) -> int {
        self.frames.len() as int
    }

    /// The valid entry `i` of table `t`, at level 1 or 2, leads to a table
    /// one level down that records it as its parent.
    pub closed spec fn child_ok(self, t: int, i: int) -> bool {
        self.levels@[t] >= 1 && self.ent(t, i).is_valid() ==> exists|u: int|
            0 < u < self.frames.len() && self.frames@[u] == target(self.ent(t, i)) && self.levels@[u]
                == self.levels@[t] - 1 && self.parents@[u] == (t, i)
    }

    /// Table `u` is pointed at by the entry recorded as its parent.
    pub closed spec fn parent_ok(self, u: int) -> bool {
        let t = self.parents@[u].0;
        let i = self.parents@[u].1;
        &&& 0 <= t < self.frames.len()
        &&& 0 <= i < 512
        &&& self.levels@[t] == self.levels@[u] + 1
        &&& self.ent(t, i).is_valid()
        &&& target(self.ent(t, i)) == self.frames@[u]
    }

    /// Entry `i` of table `t`, when `t` is an inner table, is zero or points
    /// at a table with the valid bit alone set among its flags (R = W = X = 0).
    pub closed spec fn inner_entry_ok(self, t: int, i: int) -> bool {
        self.levels@[t] >= 1 ==> (self.ent(t, i).0 == 0 || flags_of(self.ent(t, i).0) == 1)
    }

    /// Every entry of an inner table is zero or points at a table with the
    /// flags V only.
    pub closed spec fn inner_entries_ok(self) -> bool {
        forall|t: int, i: int|
            0 <= t < self.frames.len() && 0 <= i < 512 ==> #[trigger] self.inner_entry_ok(t, i)
    }

    /// The table's invariant: distinct aligned frames, the root at level 2,
    /// and each inner table reached by exactly one valid entry one level up.
    pub closed spec fn wf(self) -> bool {
        let n = self.frames.len();
        &&& n >= 1
        &&& self.tables.len() == n
        &&& self.levels@.len() == n
        &&& self.parents@.len() == n
        &&& forall|t: int| 0 <= t < n ==> (#[trigger] self.tables@[t]).len() == 512
        &&& forall|t: int|
            0 <= t < n ==> #[trigger] self.frames@[t] % 4096 == 0 && self.frames@[t] < PHYS_LIMIT
        &&& forall|t: int, u: int|
            0 <= t < n && 0 <= u < n && t != u ==> #[trigger] self.frames@[t]
                != #[trigger] self.frames@[u]
        &&& self.levels@[0] == 2
        &&& forall|t: int| 0 < t < n ==> #[trigger] self.levels@[t] == 0 || self.levels@[t] == 1
        &&& forall|t: int, i: int| 0 <= t < n && 0 <= i < 512 ==> #[trigger] self.child_ok(t, i)
        &&& forall|u: int| 0 < u < n ==> #[trigger] self.parent_ok(u)
        &&& self.inner_entries_ok()
    }

    /// Every frame of the table is a referenced page of `a`.
    pub closed spec fn frames_held(self, a: KernelAllocView) -> bool {
        forall|t: int|
            0 <= t < self.frames.len() ==> a.pages.holds(#[trigger] self.frames@[t] as int)
                && a.pages.refcount(self.frames@[t] as int) >= 1
    }

    proof fn lemma_table_at(self, u: int)
        requires
            self.wf(),
            0 <= u < self.frames.len(),
        ensures
            self.table_at(self.frames@[u] as int) == Some(u),
    {
        let c = choose|c: int| 0 <= c < self.frames.len() && self.frames@[c] == self.frames@[u];
        if c != u {
            assert(self.frames@[c] != self.frames@[u]);
        }
    }

    /// A valid entry of an inner table leads to the table one level down
    /// that records it as parent.
    proof fn lemma_child(self, t: int, i: int)
        requires
            self.wf(),
            0 <= t < self.frames.len(),
            0 <= i < 512,
            self.levels@[t] >= 1,
            self.ent(t, i).is_valid(),
        ensures
            self.child(t, i) is Some,
            0 < self.child(t, i)->Some_0 < self.frames.len(),
            self.levels@[self.child(t, i)->Some_0] == self.levels@[t] - 1,
            self.parents@[self.child(t, i)->Some_0] == (t, i),
            self.frames@[self.child(t, i)->Some_0] == target(self.ent(t, i)),
    {
        assert(self.child_ok(t, i));
        let u = choose|u: int|
            0 < u < self.frames.len() && self.frames@[u] == target(self.ent(t, i)) && self.levels@[u]
                == self.levels@[t] - 1 && self.parents@[u] == (t, i);
        self.lemma_table_at(u);
    }

    /// Where the leaf for `va` lies: at level 0, reached from the root
    /// through one table at level 1.
    proof fn lemma_slot(self, va: u64)
        requires
            self.wf(),
            self.slot(va) is Some,
        ensures
            ({
                let t1 = self.child(0, index_at(va, 30))->Some_0;
                let t0 = self.slot(va)->Some_0.0;
                &&& 0 < t1 < self.frames.len()
                &&& self.levels@[t1] == 1
                &&& self.parents@[t1] == (0int, index_at(va, 30))
                &&& self.child(t1, index_at(va, 21)) == Some(t0)
                &&& 0 < t0 < self.frames.len()
                &&& self.levels@[t0] == 0
                &&& self.parents@[t0] == (t1, index_at(va, 21))
                &&& self.slot(va)->Some_0.1 == index_at(va, 12)
            }),
    {
        let i2 = index_at(va, 30);
        let i1 = index_at(va, 21);
        lemma_index_range(va);
        self.lemma_child(0, i2);
        let t1 = self.child(0, i2)->Some_0;
        self.lemma_child(t1, i1);
    }

    /// Two addresses whose leaves share a slot lie in the same page.
    proof fn lemma_slot_unique(self, a: u64, b: u64)
        requires
            self.wf(),
            a < MAX_VIRTUAL_ADDRESS,
            b < MAX_VIRTUAL_ADDRESS,
            self.slot(a) is Some,
            self.slot(a) == self.slot(b),
        ensures
            a >> 12u64 == b >> 12u64,
    {
        self.lemma_slot(a);
        self.lemma_slot(b);
        lemma_same_indices(a, b);
    }
    /// Adding a zeroed table under the invalid entry `i` of table `t`
    /// keeps the invariant and every leaf's bits; leaves that existed stay.
    #[verifier::spinoff_prover]
    proof fn lemma_grow(s: PageTable, s2: PageTable, t: int, i: int, p: u64, ne: PageTableEntry)
        requires
            s.wf(),
            0 <= t < s.frames.len(),
            0 <= i < 512,
            s.levels@[t] >= 1,
            !s.ent(t, i).is_valid(),
            p % 4096 == 0,
            p < PHYS_LIMIT,
            forall|u: int| 0 <= u < s.frames.len() ==> s.frames@[u] != p,
            ne.is_valid(),
            flags_of(ne.0) == 1,
            target(ne) == p,
            s2.frames@ == s.frames@.push(p),
            s2.levels@ == s.levels@.push(s.levels@[t] - 1),
            s2.parents@ == s.parents@.push((t, i)),
            s2.tables.len() == s.tables.len() + 1,
            forall|x: int| 0 <= x < s2.tables.len() ==> (#[trigger] s2.tables@[x]).len() == 512,
            forall|x: int, j: int|
                0 <= x < s.frames.len() && 0 <= j < 512 && (x, j) != (t, i) ==> s2.ent(x, j)
                    == s.ent(x, j),
            s2.ent(t, i) == ne,
            forall|j: int| 0 <= j < 512 ==> (#[trigger] s2.ent(s.frames.len() as int, j)).0 == 0,
        ensures
            s2.wf(),
            s2.child(t, i) == Some(s.frames.len() as int),
            forall|x: int, j: int|
                0 <= x < s.frames.len() && 0 <= j < 512 && s.levels@[x] >= 1 && (x, j) != (t, i)
                    ==> #[trigger] s2.child(x, j) == s.child(x, j),
            forall|w: u64| #[trigger] s2.leaf_bits(w) == s.leaf_bits(w),
            forall|w: u64| s.leaf(w) is Some ==> #[trigger] s2.leaf(w) == s.leaf(w),
    {
        let n = s.frames.len() as int;
        assert forall|x: int, j: int| 0 <= x < n + 1 && 0 <= j < 512 implies #[trigger] s2.child_ok(
            x,
            j,
        ) by {
            if x < n && (x, j) != (t, i) {
                if s.levels@[x] >= 1 && s.ent(x, j).is_valid() {
                    s.lemma_child(x, j);
                    let u = s.child(x, j)->Some_0;
                    assert(0 < u < n + 1 && s2.frames@[u] == target(s2.ent(x, j)) && s2.levels@[u]
                        == s2.levels@[x] - 1 && s2.parents@[u] == (x, j));
                }
            } else if x == n {
                assert(s2.ent(n, j).0 == 0);
                assert(!bit_of(0, BIT_VALID)) by (bit_vector);
            } else {
                assert(0 < n < n + 1 && s2.frames@[n] == target(s2.ent(x, j)) && s2.levels@[n]
                    == s2.levels@[x] - 1 && s2.parents@[n] == (x, j));
            }
        }
        assert forall|u: int| 0 < u < n + 1 implies #[trigger] s2.parent_ok(u) by {
            if u < n {
                assert(s.parent_ok(u));
                let pt = s.parents@[u].0;
                let pi = s.parents@[u].1;
                assert((pt, pi) != (t, i));
                assert(s2.ent(pt, pi) == s.ent(pt, pi));
            }
        }
        assert forall|x: int, j: int| 0 <= x < n + 1 && 0 <= j < 512 implies #[trigger] s2.inner_entry_ok(
            x,
            j,
        ) by {
            if x < n && (x, j) != (t, i) {
                assert(s.inner_entry_ok(x, j));
            } else if x == n {
                assert(s2.ent(n, j).0 == 0);
            }
        }
        assert(s2.wf());
        s2.lemma_table_at(n);
        assert(s2.frames@[n] == p);
        assert forall|x: int, j: int|
            0 <= x < n && 0 <= j < 512 && s.levels@[x] >= 1 && (x, j) != (t, i) implies #[trigger] s2.child(
            x,
            j,
        ) == s.child(x, j) by {
            if s.ent(x, j).is_valid() {
                s.lemma_child(x, j);
                let u = s.child(x, j)->Some_0;
                s2.lemma_table_at(u);
            }
        }
        assert forall|w: u64| #[trigger] s2.leaf(w) == s.leaf(w) || (s.leaf(w) is None && s2.leaf_bits(
            w,
        ) == 0) by {
            lemma_index_range(w);
            let i2 = index_at(w, 30);
            let i1 = index_at(w, 21);
            if (0int, i2) != (t, i) {
                assert(s2.child(0, i2) == s.child(0, i2));
                if s.child(0, i2) is Some {
                    s.lemma_child(0, i2);
                    let t1 = s.child(0, i2)->Some_0;
                    if (t1, i1) != (t, i) {
                        assert(s2.child(t1, i1) == s.child(t1, i1));
                        if s.child(t1, i1) is Some {
                            s.lemma_child(t1, i1);
                            let t0 = s.child(t1, i1)->Some_0;
                            assert(s2.ent(t0, index_at(w, 12)) == s.ent(t0, index_at(w, 12)));
                        }
                    } else {
                        assert(s2.ent(n, index_at(w, 12)).0 == 0);
                    }
                }
            } else {
                assert(s2.ent(n, i1).0 == 0);
                assert(!bit_of(0, BIT_VALID)) by (bit_vector);
                assert(s2.child(n, i1) is None);
            }
        }
    }

    /// Writing the leaf slot of `va` changes no leaf of another page.
    #[verifier::spinoff_prover]
    proof fn lemma_set_leaf(s: PageTable, s2: PageTable, va: u64, e: PageTableEntry)
        requires
            s.wf(),
            va < MAX_VIRTUAL_ADDRESS,
            s.slot(va) is Some,
            s2.frames@ == s.frames@,
            s2.levels@ == s.levels@,
            s2.parents@ == s.parents@,
            s2.tables.len() == s.tables.len(),
            forall|x: int| 0 <= x < s2.tables.len() ==> (#[trigger] s2.tables@[x]).len() == 512,
            forall|x: int, j: int|
                0 <= x < s.frames.len() && 0 <= j < 512 && (x, j) != s.slot(va)->Some_0 ==> s2.ent(
                    x,
                    j,
                ) == s.ent(x, j),
            s2.ent(s.slot(va)->Some_0.0, s.slot(va)->Some_0.1) == e,
        ensures
            s2.wf(),
            s2.leaf(va) == Some(e),
            forall|w: u64|
                w < MAX_VIRTUAL_ADDRESS && w >> 12u64 != va >> 12u64 ==> #[trigger] s2.leaf(w)
                    == s.leaf(w),
    {
        s.lemma_slot(va);
        let t0 = s.slot(va)->Some_0.0;
        assert forall|x: int, j: int|
            0 <= x < s.frames.len() && 0 <= j < 512 && s.levels@[x] >= 1 implies s2.ent(x, j)
            == s.ent(x, j) && s2.child(x, j) == s.child(x, j) by {
            assert(x != t0);
        }
        assert forall|x: int, j: int|
            0 <= x < s.frames.len() && 0 <= j < 512 implies #[trigger] s2.child_ok(x, j) by {
            assert(s.child_ok(x, j));
        }
        assert forall|u: int| 0 < u < s.frames.len() implies #[trigger] s2.parent_ok(u) by {
            assert(s.parent_ok(u));
        }
        assert forall|x: int, j: int|
            0 <= x < s.frames.len() && 0 <= j < 512 implies #[trigger] s2.inner_entry_ok(x, j) by {
            assert(s.inner_entry_ok(x, j));
        }
        assert forall|w: u64| #[trigger] s2.slot(w) == s.slot(w) by {
            lemma_index_range(w);
            let i2 = index_at(w, 30);
            if s.child(0, i2) is Some {
                s.lemma_child(0, i2);
            }
        }
        assert forall|w: u64|
            w < MAX_VIRTUAL_ADDRESS && w >> 12u64 != va >> 12u64 implies #[trigger] s2.leaf(w)
            == s.leaf(w) by {
            assert(s2.slot(w) == s.slot(w));
            lemma_index_range(w);
            if s.slot(w) is Some {
                s.lemma_slot(w);
                if s.slot(w) == s.slot(va) {
                    s.lemma_slot_unique(va, w);
                }
            }
        }
        assert(s2.slot(va) == s.slot(va));
    }

    /// The index of the table whose frame is at `pa`.
    fn find_table(&self, pa: u64) -> (r: usize)
        requires
            self.wf(),
            exists|u: int| 0 <= u < self.frames.len() && self.frames@[u] == pa,
        ensures
            r < self.frames.len(),
            self.frames@[r as int] == pa,
            self.table_at(pa as int) == Some(r as int),
    {
        let mut u: usize = 0;
        while u < self.frames.len() && self.frames[u] != pa
            invariant
                u <= self.frames.len(),
                forall|x: int| 0 <= x < u ==> self.frames@[x] != pa,
            decreases self.frames.len() - u,
        {
            u = u + 1;
        }
        proof {
            if u >= self.frames.len() {
                let c = choose|c: int| 0 <= c < self.frames.len() && self.frames@[c] == pa;
                assert(self.frames@[c] != pa);
            }
            self.lemma_table_at(u as int);
        }
        u
    }

    /// Follows entry `i` of the inner table `t` to the table below it. A
    /// missing table is added, zeroed, when `should_allocate` holds.
    #[verifier::spinoff_prover]
    fn descend(&mut self, alloc: &mut KernelAllocator, t: usize, i: usize, should_allocate: bool) -> (r: Result<usize, PageTableWalkError>)
        requires
            old(self).wf(),
            old(alloc).wf(),
            old(self).frames_held(old(alloc)@),
            old(alloc)@.pages.phystop <= PHYS_LIMIT,
            t < old(self).frames.len(),
            i < 512,
            old(self).levels@[t as int] >= 1,
        ensures
            final(self).wf(),
            final(alloc).wf(),
            final(self).frames_held(final(alloc)@),
            final(alloc)@.pages.phystop == old(alloc)@.pages.phystop,
            final(alloc)@.free == old(alloc)@.free,
            final(alloc)@.live == old(alloc)@.live,
            final(self).frames@[0] == old(self).frames@[0],
            old(self).frames.len() <= final(self).frames.len() <= old(self).frames.len() + 1,
            final(alloc)@.pages.free.len() + final(self).frames.len() == old(alloc)@.pages.free.len()
                + old(self).frames.len(),
            final(alloc)@ == take_frames(
                old(alloc)@,
                (final(self).frames.len() - old(self).frames.len()) as nat,
            ),
            should_allocate && old(alloc)@.pages.free.len() >= 1 ==> r is Ok,
            forall|x: int| 0 <= x < old(self).frames.len() ==> #[trigger] final(self).levels@[x] == old(self).levels@[x],
            forall|x: int, j: int|
                0 <= x < old(self).frames.len() && 0 <= j < 512 && old(self).levels@[x] >= 1 && (x, j) != (t as int, i as int)
                    ==> #[trigger] final(self).child(x, j) == old(self).child(x, j),
            !should_allocate ==> *final(self) == *old(self) && *final(alloc) == *old(alloc),
            forall|w: u64| #[trigger] final(self).leaf_bits(w) == old(self).leaf_bits(w),
            forall|w: u64| old(self).leaf(w) is Some ==> #[trigger] final(self).leaf(w) == old(self).leaf(w),
            old(self).child(t as int, i as int) is Some ==> r == Ok::<usize, PageTableWalkError>(
                old(self).child(t as int, i as int)->Some_0 as usize,
            ) && *final(self) == *old(self) && *final(alloc) == *old(alloc),
            match r {
                Ok(u) => final(self).child(t as int, i as int) == Some(u as int)
                    && final(self).levels@[u as int] == old(self).levels@[t as int] - 1
                    && (old(self).child(t as int, i as int) is None ==> u == old(self).frames.len()
                    && final(self).frames.len() == old(self).frames.len() + 1 && forall|j: int|
                    0 <= j < 512 ==> #[trigger] final(self).child(u as int, j) is None),
                Err(e) => old(self).child(t as int, i as int) is None && *final(self) == *old(self)
                    && (e == PageTableWalkError::PageTableUnallocated <==> !should_allocate)
                    && (e == PageTableWalkError::UnableToAllocate ==> final(alloc)@.pages.free.len() == 0),
            },
    {
        let e = self.tables[t][i];
        if e.valid() {
            proof {
                self.lemma_child(t as int, i as int);
            }
            let pa = e.pa_int();
            let u = self.find_table(pa);
            assert(take_frames(alloc@, 0) == alloc@);
            Ok(u)
        } else if !should_allocate {
            assert(take_frames(alloc@, 0) == alloc@);
            Err(PageTableWalkError::PageTableUnallocated)
        } else {
            proof {
                alloc.lemma_free_frames();
            }
            let ghost a0 = alloc@;
            assert(take_frames(a0, 0) == a0);
            assert(take_frames(a0, 1) == take_frame(a0));
            match alloc.alloc_zeroed(PAGE_SIZE, PAGE_SIZE) {
                None => Err(PageTableWalkError::UnableToAllocate),
                Some(p) => {
                    let ghost s0 = *self;
                    let pa = p as u64;
                    assert(a0.pages.free.last() == p);
                    assert forall|u: int| 0 <= u < self.frames.len() implies self.frames@[u] != pa by {
                        assert(a0.pages.refcount(self.frames@[u] as int) >= 1);
                    }
                    let mut table: Vec<PageTableEntry> = Vec::new();
                    while table.len() < 512
                        invariant
                            table.len() <= 512,
                            forall|j: int| 0 <= j < table.len() ==> (#[trigger] table@[j]).0 == 0,
                        decreases 512 - table.len(),
                    {
                        table.push(PageTableEntry::zero());
                    }
                    let n = self.frames.len();
                    self.frames.push(pa);
                    self.tables.push(table);
                    let ghost lv = self.levels@[t as int] - 1;
                    proof {
                        self.levels = Ghost(self.levels@.push(lv));
                        self.parents = Ghost(self.parents@.push((t as int, i as int)));
                    }
                    let mut ne = e;
                    ne.set_mapping(pa);
                    ne.set_valid(true);
                    proof {
                        assert(s0.inner_entry_ok(t as int, i as int));
                        if e.0 != 0 {
                            lemma_flags_valid(e.0);
                        }
                        lemma_table_entry(e.0, pa);
                        assert(ne.0 == table_entry_bits(e.0, pa));
                    }
                    self.tables[t].set(i, ne);
                    proof {
                        assert forall|x: int, j: int|
                            0 <= x < s0.frames.len() && 0 <= j < 512 && (x, j) != (t as int, i as int) implies self.ent(x, j) == s0.ent(x, j) by {
                        }
                        PageTable::lemma_grow(s0, *self, t as int, i as int, pa, ne);
                        assert forall|j: int| 0 <= j < 512 implies #[trigger] self.child(n as int, j)
                            is None by {
                            assert(self.ent(n as int, j).0 == 0);
                            assert(!bit_of(0, BIT_VALID)) by (bit_vector);
                        }
                        assert forall|x: int| 0 <= x < self.frames.len() implies alloc@.pages.holds(
                            #[trigger] self.frames@[x] as int,
                        ) && alloc@.pages.refcount(self.frames@[x] as int) >= 1 by {
                            if x < n {
                                assert(a0.pages.refcount(self.frames@[x] as int) >= 1);
                            }
                        }
                    }
                    Ok(n)
                },
            }
        }
    }

    /// Walks to the leaf entry for `virtual_address` and replaces it by
    /// what `pte_edit` makes of it. Missing inner tables are added, zeroed,
    /// when `should_allocate` holds; else the walk fails with
    /// `PageTableUnallocated`, changing nothing. An allocating walk succeeds
    /// exactly when the heap has a frame for each missing table, and then
    /// adds exactly those tables; else it fails with `UnableToAllocate` and
    /// the leaf stays unreachable. No other page's leaf changes, and a
    /// failed walk changes no leaf's bits.
    #[verifier::spinoff_prover]
    pub fn walk_mut<F: FnOnce(PageTableEntry) -> PageTableEntry>(
        &mut self,
        alloc: &mut KernelAllocator,
        virtual_address: u64,
        should_allocate: bool,
        pte_edit: F,
    ) -> (r: Result<(), PageTableWalkError>)
        requires
            old(self).wf(),
            old(alloc).wf(),
            old(self).frames_held(old(alloc)@),
            old(alloc)@.pages.phystop <= PHYS_LIMIT,
            virtual_address < MAX_VIRTUAL_ADDRESS,
            pte_edit.requires((PageTableEntry(old(self).leaf_bits(virtual_address)),)),
        ensures
            final(self).wf(),
            final(alloc).wf(),
            final(self).frames_held(final(alloc)@),
            final(alloc)@.pages.phystop == old(alloc)@.pages.phystop,
            final(alloc)@.free == old(alloc)@.free,
            final(alloc)@.live == old(alloc)@.live,
            final(self).root_pa() == old(self).root_pa(),
            old(self).num_tables() <= final(self).num_tables() <= old(self).num_tables() + 2,
            final(self).inner_entries_ok(),
            final(alloc)@.pages.free.len() + final(self).num_tables() == old(alloc)@.pages.free.len()
                + old(self).num_tables(),
            final(alloc)@ == take_frames(
                old(alloc)@,
                (old(alloc)@.pages.free.len() - final(alloc)@.pages.free.len()) as nat,
            ),
            old(self).leaf(virtual_address) is Some ==> r is Ok && final(alloc)@ == old(alloc)@,
            old(self).leaf(virtual_address) is Some <==> old(self).missing_tables(virtual_address) == 0,
            should_allocate ==> (r is Ok <==> old(alloc)@.pages.free.len() >= old(self).missing_tables(
                virtual_address,
            )),
            r is Ok ==> final(self).num_tables() == old(self).num_tables() + old(self).missing_tables(
                virtual_address,
            ),
            r is Err ==> final(self).leaf(virtual_address) is None,
            r is Err && !should_allocate ==> *final(self) == *old(self),
            (r == Err::<(), PageTableWalkError>(PageTableWalkError::PageTableUnallocated)) <==> (
            old(self).leaf(virtual_address) is None && !should_allocate),
            r == Err::<(), PageTableWalkError>(PageTableWalkError::UnableToAllocate) ==> old(self).leaf(virtual_address) is None && should_allocate && final(alloc)@.pages.free.len()
                == 0,
            !should_allocate ==> *final(alloc) == *old(alloc),
            r is Ok ==> final(self).leaf(virtual_address) is Some && pte_edit.ensures(
                (PageTableEntry(old(self).leaf_bits(virtual_address)),),
                final(self).leaf(virtual_address)->Some_0,
            ),
            r is Err ==> forall|w: u64| #[trigger] final(self).leaf_bits(w) == old(self).leaf_bits(w),
            forall|w: u64|
                w < MAX_VIRTUAL_ADDRESS && w >> 12u64 != virtual_address >> 12u64 ==> #[trigger] final(self).leaf_bits(w) == old(self).leaf_bits(w),
            forall|w: u64|
                w < MAX_VIRTUAL_ADDRESS && w >> 12u64 != virtual_address >> 12u64 && old(self).leaf(
                    w,
                ) is Some ==> #[trigger] final(self).leaf(w) == old(self).leaf(w),
    {
        let ghost s0 = *self;
        let ghost a0 = alloc@;
        proof {
            lemma_index_range(virtual_address);
        }
        let i2 = ((virtual_address >> 30u64) & 0x1ff) as usize;
        let t1 = match self.descend(alloc, 0, i2, should_allocate) {
            Ok(u) => u,
            Err(e) => {
                proof {
                    assert(s0.child(0, i2 as int) is None);
                    assert(self.missing_tables(virtual_address) == 2);
                }
                return Err(e);
            },
        };
        let ghost s1 = *self;
        let ghost a1 = alloc@;
        let i1 = ((virtual_address >> 21u64) & 0x1ff) as usize;
        let t0 = match self.descend(alloc, t1, i1, should_allocate) {
            Ok(u) => u,
            Err(e) => {
                proof {
                    assert(s1.levels@[t1 as int] == 1);
                    assert(self.child(0, i2 as int) == s1.child(0, i2 as int));
                    assert(self.slot(virtual_address) is None);
                    if !should_allocate {
                        assert(s0.child(0, i2 as int) is Some);
                    }
                    if s0.child(0, i2 as int) is None {
                        assert(s1.child(t1 as int, i1 as int) is None);
                    }
                    lemma_take_frames_add(
                        a0,
                        (s1.frames.len() - s0.frames.len()) as nat,
                        (self.frames.len() - s1.frames.len()) as nat,
                    );
                }
                return Err(e);
            },
        };
        let ghost s2 = *self;
        proof {
            if s0.child(0, i2 as int) is None {
                assert(s1.child(t1 as int, i1 as int) is None);
            }
            lemma_take_frames_add(
                a0,
                (s1.frames.len() - s0.frames.len()) as nat,
                (s2.frames.len() - s1.frames.len()) as nat,
            );
        }
        let i0 = ((virtual_address >> 12u64) & 0x1ff) as usize;
        assert(s2.slot(virtual_address) == Some((t0 as int, i0 as int))) by {
            assert(s1.levels@[t1 as int] == 1);
            assert(s2.child(0, i2 as int) == s1.child(0, i2 as int));
        }
        let old_e = self.tables[t0][i0];
        assert(s2.leaf_bits(virtual_address) == s1.leaf_bits(virtual_address));
        assert(s1.leaf_bits(virtual_address) == s0.leaf_bits(virtual_address));
        assert(old_e == PageTableEntry(s0.leaf_bits(virtual_address)));
        let new_e = pte_edit(old_e);
        self.tables[t0].set(i0, new_e);
        proof {
            PageTable::lemma_set_leaf(s2, *self, virtual_address, new_e);
            assert forall|w: u64|
                w < MAX_VIRTUAL_ADDRESS && w >> 12u64 != virtual_address >> 12u64 implies #[trigger] self.leaf_bits(w)
                == s0.leaf_bits(w) by {
                assert(self.leaf(w) == s2.leaf(w));
                assert(s2.leaf_bits(w) == s1.leaf_bits(w));
                assert(s1.leaf_bits(w) == s0.leaf_bits(w));
            }
        }
        Ok(())
    }

    /// The leaf entry for `virtual_address`, or `PageTableUnallocated` when
    /// an inner table on its way is missing.
    #[verifier::spinoff_prover]
    pub fn walk_const(&self, virtual_address: u64) -> (r: Result<PageTableEntry, PageTableWalkError>)
        requires
            self.wf(),
            virtual_address < MAX_VIRTUAL_ADDRESS,
        ensures
            r == match self.leaf(virtual_address) {
                Some(e) => Ok::<PageTableEntry, PageTableWalkError>(e),
                None => Err(PageTableWalkError::PageTableUnallocated),
            },
    {
        proof {
            lemma_index_range(virtual_address);
        }
        let i2 = ((virtual_address >> 30u64) & 0x1ff) as usize;
        let e2 = self.tables[0][i2];
        if !e2.valid() {
            return Err(PageTableWalkError::PageTableUnallocated);
        }
        proof {
            self.lemma_child(0, i2 as int);
        }
        let t1 = self.find_table(e2.pa_int());
        let i1 = ((virtual_address >> 21u64) & 0x1ff) as usize;
        let e1 = self.tables[t1][i1];
        if !e1.valid() {
            return Err(PageTableWalkError::PageTableUnallocated);
        }
        proof {
            self.lemma_child(t1 as int, i1 as int);
        }
        let t0 = self.find_table(e1.pa_int());
        let i0 = ((virtual_address >> 12u64) & 0x1ff) as usize;
        Ok(self.tables[t0][i0])
    }
    /// A page table with a zeroed root frame from `alloc`, mapping nothing;
    /// `None` when no frame is free.
    #[verifier::spinoff_prover]
    pub fn new(alloc: &mut KernelAllocator) -> (r: Option<PageTable>)
        requires
            old(alloc).wf(),
            old(alloc)@.pages.phystop <= PHYS_LIMIT,
        ensures
            final(alloc).wf(),
            final(alloc)@.pages.phystop == old(alloc)@.pages.phystop,
            final(alloc)@.free == old(alloc)@.free,
            final(alloc)@.live == old(alloc)@.live,
            r is Some <==> old(alloc)@.pages.free.len() > 0,
            final(alloc)@ == take_frame(old(alloc)@),
            r is None ==> final(alloc)@ == old(alloc)@,
            r is Some ==> {
                let pt = r->Some_0;
                &&& pt.wf()
                &&& pt.frames_held(final(alloc)@)
                &&& pt.num_tables() == 1
                &&& pt.root_pa() == old(alloc)@.pages.free.last()
                &&& forall|va: u64| #[trigger] pt.leaf(va) is None
            },
    {
        proof {
            alloc.lemma_free_frames();
        }
        let ghost a0 = alloc@;
        match alloc.alloc_zeroed(PAGE_SIZE, PAGE_SIZE) {
            None => None,
            Some(p) => {
                let mut table: Vec<PageTableEntry> = Vec::new();
                while table.len() < 512
                    invariant
                        table.len() <= 512,
                        forall|j: int| 0 <= j < table.len() ==> (#[trigger] table@[j]).0 == 0,
                    decreases 512 - table.len(),
                {
                    table.push(PageTableEntry::zero());
                }
                let mut frames: Vec<u64> = Vec::new();
                frames.push(p as u64);
                let mut tables: Vec<Vec<PageTableEntry>> = Vec::new();
                tables.push(table);
                let ghost lv: Seq<int> = seq![2int];
                let ghost pr: Seq<(int, int)> = seq![(0int, 0int)];
                let pt = PageTable { frames, tables, levels: Ghost(lv), parents: Ghost(pr) };
                proof {
                    assert(a0.pages.free.last() == p);
                    assert(!bit_of(0, BIT_VALID)) by (bit_vector);
                    assert forall|t: int, i: int| 0 <= t < 1 && 0 <= i < 512 implies #[trigger] pt.child_ok(t, i) by {
                        assert(pt.ent(t, i).0 == 0);
                    }
                    assert forall|va: u64| #[trigger] pt.leaf(va) is None by {
                        lemma_index_range(va);
                        assert(pt.ent(0, index_at(va, 30)).0 == 0);
                    }
                }
                Some(pt)
            },
        }
    }

    /// The physical address of the frame of table `t`.
    pub closed spec fn frame_pa(self, t: int) -> int {
        self.frames@[t] as int
    }

    /// The entries of table `t`.
    pub closed spec fn entries(self, t: int) -> Seq<PageTableEntry> {
        self.tables@[t]@
    }

    /// The physical address of the frame of table `t`: where its entries
    /// belong in memory. Table 0 is the root.
    pub fn frame_of(&self, t: usize) -> (r: u64)
        requires
            self.wf(),
            t < self.num_tables(),
        ensures
            r == self.frame_pa(t as int),
            r % 4096 == 0,
    {
        self.frames[t]
    }

    /// The 512 entries of table `t`, to be written to its frame.
    pub fn entries_of(&self, t: usize) -> (r: &Vec<PageTableEntry>)
        requires
            self.wf(),
            t < self.num_tables(),
        ensures
            r@ == self.entries(t as int),
            r@.len() == 512,
    {
        &self.tables[t]
    }

    /// The number of tables, the root included.
    pub fn table_count(&self) -> (r: usize)
        ensures
            r == self.num_tables(),
    {
        self.frames.len()
    }

    /// The physical page number of the root table, as `satp` takes it.
    pub fn root_ppn(&self) -> (r: u64)
        requires
            self.wf(),
        ensures
            r as int * 4096 == self.root_pa(),
    {
        let p = self.frames[0];
        assert(p >> 12u64 == p / 4096) by (bit_vector);
        p >> 12u64
    }

    /// Whether no page of the region that `map_pages(virtual_base,
    /// region_size, ..)` would map has a valid leaf.
    #[verifier::spinoff_prover]
    pub fn region_unmapped(&self, virtual_base: u64, region_size: u64) -> (r: bool)
        requires
            self.wf(),
            region_size != 0,
            virtual_base + region_size <= MAX_VIRTUAL_ADDRESS,
        ensures
            r == forall|v: u64|
                v < MAX_VIRTUAL_ADDRESS && in_region(v as int, virtual_base as int, region_size as int)
                    ==> !bit_of(#[trigger] self.leaf_bits(v), BIT_VALID),
    {
        let start = page_start(virtual_base);
        let last = page_start(virtual_base + region_size - 1);
        let mut v = start;
        while v <= last
            invariant
                self.wf(),
                start == page_down(virtual_base as int),
                last == page_down(virtual_base + region_size - 1),
                last < MAX_VIRTUAL_ADDRESS,
                start <= v <= last + 4096,
                v % 4096 == 0,
                forall|w: u64|
                    w < MAX_VIRTUAL_ADDRESS && start <= page_down(w as int) < v ==> !bit_of(
                        #[trigger] self.leaf_bits(w),
                        BIT_VALID,
                    ),
            decreases last + 4096 - v,
        {
            let e = self.walk_const(v);
            let bad = match e {
                Ok(x) => x.valid(),
                Err(_) => false,
            };
            if bad {
                assert(in_region(v as int, virtual_base as int, region_size as int));
                assert(bit_of(self.leaf_bits(v), BIT_VALID));
                return false;
            }
            proof {
                assert(!bit_of(self.leaf_bits(v), BIT_VALID)) by {
                    if self.leaf(v) is None {
                        assert(!bit_of(0, BIT_VALID)) by (bit_vector);
                    }
                }
                assert forall|w: u64|
                    w < MAX_VIRTUAL_ADDRESS && start <= page_down(w as int) < v + 4096 implies !bit_of(
                    #[trigger] self.leaf_bits(w),
                    BIT_VALID,
                ) by {
                    if page_down(w as int) >= v {
                        lemma_page_of(w);
                        lemma_page_of(v);
                        assert(w >> 12u64 == v >> 12u64);
                        self.lemma_same_page(v, w);
                    }
                }
            }
            v = v + 4096;
        }
        true
    }

    /// Addresses in one page share their leaf.
    proof fn lemma_same_page(self, a: u64, b: u64)
        requires
            a >> 12u64 == b >> 12u64,
        ensures
            self.leaf(a) == self.leaf(b),
            self.missing_tables(a) == self.missing_tables(b),
    {
        assert((a >> 30u64) & 0x1ff == (b >> 30u64) & 0x1ff && (a >> 21u64) & 0x1ff == (b >> 21u64)
            & 0x1ff && (a >> 12u64) & 0x1ff == (b >> 12u64) & 0x1ff) by (bit_vector)
            requires
                a >> 12u64 == b >> 12u64,
        ;
    }

    /// One page more of a region is mapped: the loop of `map_pages` goes
    /// from `s1` to `s2` by mapping the page at `v`.
    #[verifier::spinoff_prover]
    proof fn lemma_map_step(
        s0: PageTable,
        s1: PageTable,
        s2: PageTable,
        v: u64,
        virtual_base: u64,
        region_size: u64,
        physical_base: u64,
        permissions: u8,
    )
        requires
            v % 4096 == 0,
            page_down(virtual_base as int) <= v,
            v < MAX_VIRTUAL_ADDRESS,
            v - page_down(virtual_base as int) + physical_base <= u64::MAX,
            forall|w: u64|
                w < MAX_VIRTUAL_ADDRESS && page_down(virtual_base as int) <= page_down(w as int) < v
                    ==> #[trigger] s1.leaf(w) == Some(
                    PageTableEntry(
                        leaf_entry_bits(
                            s0.leaf_bits(w),
                            region_pa(w as int, virtual_base as int, physical_base as int) as u64,
                            permissions,
                        ),
                    ),
                ),
            forall|w: u64|
                w < MAX_VIRTUAL_ADDRESS && !(page_down(virtual_base as int) <= page_down(w as int) < v)
                    ==> #[trigger] s1.leaf_bits(w) == s0.leaf_bits(w),
            forall|w: u64|
                w < MAX_VIRTUAL_ADDRESS && !(page_down(virtual_base as int) <= page_down(w as int) < v)
                    && s0.leaf(w) is Some ==> #[trigger] s1.leaf(w) == s0.leaf(w),
            s2.leaf(v) is Some,
            s2.leaf(v)->Some_0.0 == leaf_entry_bits(
                s1.leaf_bits(v),
                (v - page_down(virtual_base as int) + physical_base) as u64,
                permissions,
            ),
            forall|w: u64|
                w < MAX_VIRTUAL_ADDRESS && w >> 12u64 != v >> 12u64 ==> #[trigger] s2.leaf_bits(w)
                    == s1.leaf_bits(w),
            forall|w: u64|
                w < MAX_VIRTUAL_ADDRESS && w >> 12u64 != v >> 12u64 && s1.leaf(w) is Some
                    ==> #[trigger] s2.leaf(w) == s1.leaf(w),
        ensures
            forall|w: u64|
                w < MAX_VIRTUAL_ADDRESS && page_down(virtual_base as int) <= page_down(w as int) < v
                    + 4096 ==> #[trigger] s2.leaf(w) == Some(
                    PageTableEntry(
                        leaf_entry_bits(
                            s0.leaf_bits(w),
                            region_pa(w as int, virtual_base as int, physical_base as int) as u64,
                            permissions,
                        ),
                    ),
                ),
            forall|w: u64|
                w < MAX_VIRTUAL_ADDRESS && !(page_down(virtual_base as int) <= page_down(w as int) < v
                    + 4096) ==> #[trigger] s2.leaf_bits(w) == s0.leaf_bits(w),
            forall|w: u64|
                w < MAX_VIRTUAL_ADDRESS && !(page_down(virtual_base as int) <= page_down(w as int) < v
                    + 4096) && s0.leaf(w) is Some ==> #[trigger] s2.leaf(w) == s0.leaf(w),
    {
        let start = page_down(virtual_base as int);
        lemma_page_of(v);
        assert forall|w: u64|
            w < MAX_VIRTUAL_ADDRESS && start <= page_down(w as int) < v + 4096 implies #[trigger] s2.leaf(w)
            == Some(
            PageTableEntry(
                leaf_entry_bits(
                    s0.leaf_bits(w),
                    region_pa(w as int, virtual_base as int, physical_base as int) as u64,
                    permissions,
                ),
            ),
        ) by {
            lemma_page_of(w);
            if page_down(w as int) >= v {
                assert(w >> 12u64 == v >> 12u64);
                s2.lemma_same_page(v, w);
                s1.lemma_same_page(v, w);
                s0.lemma_same_page(v, w);
                assert(page_down(w as int) == v);
                assert(s1.leaf_bits(v) == s0.leaf_bits(v));
            } else {
                assert(w >> 12u64 != v >> 12u64);
                assert(s1.leaf(w) is Some);
            }
        }
        assert forall|w: u64|
            w < MAX_VIRTUAL_ADDRESS && !(start <= page_down(w as int) < v + 4096) implies #[trigger] s2.leaf_bits(w)
            == s0.leaf_bits(w) by {
            lemma_page_of(w);
            assert(w >> 12u64 != v >> 12u64);
        }
        assert forall|w: u64|
            w < MAX_VIRTUAL_ADDRESS && !(start <= page_down(w as int) < v + 4096) && s0.leaf(w) is Some
                implies #[trigger] s2.leaf(w) == s0.leaf(w) by {
            lemma_page_of(w);
            assert(w >> 12u64 != v >> 12u64);
            assert(s1.leaf(w) == s0.leaf(w));
        }
    }

    /// When mapping the page at `v` fails, each page of the region is
    /// mapped or left as it was, and no page outside it changes.
    #[verifier::spinoff_prover]
    proof fn lemma_map_stopped(
        s0: PageTable,
        s1: PageTable,
        s2: PageTable,
        v: u64,
        virtual_base: u64,
        region_size: u64,
        physical_base: u64,
        permissions: u8,
    )
        requires
            page_down(virtual_base as int) <= v <= page_down(virtual_base + region_size - 1),
            v % 4096 == 0,
            v < MAX_VIRTUAL_ADDRESS,
            forall|w: u64|
                w < MAX_VIRTUAL_ADDRESS && page_down(virtual_base as int) <= page_down(w as int) < v
                    ==> #[trigger] s1.leaf(w) == Some(
                    PageTableEntry(
                        leaf_entry_bits(
                            s0.leaf_bits(w),
                            region_pa(w as int, virtual_base as int, physical_base as int) as u64,
                            permissions,
                        ),
                    ),
                ),
            forall|w: u64|
                w < MAX_VIRTUAL_ADDRESS && !(page_down(virtual_base as int) <= page_down(w as int) < v)
                    ==> #[trigger] s1.leaf_bits(w) == s0.leaf_bits(w),
            forall|w: u64|
                w < MAX_VIRTUAL_ADDRESS && !(page_down(virtual_base as int) <= page_down(w as int) < v)
                    && s0.leaf(w) is Some ==> #[trigger] s1.leaf(w) == s0.leaf(w),
            forall|w: u64| #[trigger] s2.leaf_bits(w) == s1.leaf_bits(w),
            forall|w: u64|
                w < MAX_VIRTUAL_ADDRESS && w >> 12u64 != v >> 12u64 && s1.leaf(w) is Some
                    ==> #[trigger] s2.leaf(w) == s1.leaf(w),
        ensures
            forall|w: u64|
                w < MAX_VIRTUAL_ADDRESS && in_region(w as int, virtual_base as int, region_size as int)
                    ==> #[trigger] s2.leaf_bits(w) == s0.leaf_bits(w) || s2.leaf(w) == Some(
                    PageTableEntry(
                        leaf_entry_bits(
                            s0.leaf_bits(w),
                            region_pa(w as int, virtual_base as int, physical_base as int) as u64,
                            permissions,
                        ),
                    ),
                ),
            forall|w: u64|
                w < MAX_VIRTUAL_ADDRESS && !in_region(w as int, virtual_base as int, region_size as int)
                    ==> #[trigger] s2.leaf_bits(w) == s0.leaf_bits(w),
            forall|w: u64|
                w < MAX_VIRTUAL_ADDRESS && !in_region(w as int, virtual_base as int, region_size as int)
                    && s0.leaf(w) is Some ==> #[trigger] s2.leaf(w) == s0.leaf(w),
    {
        let start = page_down(virtual_base as int);
        lemma_page_of(v);
        assert forall|w: u64|
            w < MAX_VIRTUAL_ADDRESS && in_region(w as int, virtual_base as int, region_size as int)
                implies #[trigger] s2.leaf_bits(w) == s0.leaf_bits(w) || s2.leaf(w) == Some(
            PageTableEntry(
                leaf_entry_bits(
                    s0.leaf_bits(w),
                    region_pa(w as int, virtual_base as int, physical_base as int) as u64,
                    permissions,
                ),
            ),
        ) by {
            lemma_page_of(w);
            if start <= page_down(w as int) < v {
                assert(s1.leaf(w) is Some);
                assert(w >> 12u64 != v >> 12u64);
                assert(s2.leaf(w) == s1.leaf(w));
            }
        }
        assert forall|w: u64|
            w < MAX_VIRTUAL_ADDRESS && !in_region(w as int, virtual_base as int, region_size as int)
                implies #[trigger] s2.leaf_bits(w) == s0.leaf_bits(w) by {
            lemma_page_of(w);
        }
        assert forall|w: u64|
            w < MAX_VIRTUAL_ADDRESS && !in_region(w as int, virtual_base as int, region_size as int)
                && s0.leaf(w) is Some implies #[trigger] s2.leaf(w) == s0.leaf(w) by {
            lemma_page_of(w);
            assert(w >> 12u64 != v >> 12u64);
        }
    }

    /// Maps each page from that of `virtual_base` to that of
    /// `virtual_base + region_size - 1`, both included, to the physical
    /// pages from `physical_base` on, with the flags `permissions` and the
    /// valid bit. Inner tables are added as needed; when no frame is left
    /// for one the mapping stops with `UnableToAllocate`, each page of the
    /// region then mapped or left as it was.
    #[verifier::spinoff_prover]
    #[verifier::rlimit(100)]
    pub fn map_pages(
        &mut self,
        alloc: &mut KernelAllocator,
        virtual_base: u64,
        region_size: u64,
        physical_base: u64,
        permissions: u8,
    ) -> (r: Result<(), PageTableMapError>)
        requires
            old(self).wf(),
            old(alloc).wf(),
            old(self).frames_held(old(alloc)@),
            old(alloc)@.pages.phystop <= PHYS_LIMIT,
            region_size != 0,
            virtual_base + region_size <= MAX_VIRTUAL_ADDRESS,
            physical_base + region_size + PAGE_SIZE <= u64::MAX,
            forall|v: u64|
                v < MAX_VIRTUAL_ADDRESS && in_region(v as int, virtual_base as int, region_size as int)
                    ==> !bit_of(#[trigger] old(self).leaf_bits(v), BIT_VALID),
        ensures
            final(self).wf(),
            final(alloc).wf(),
            final(self).frames_held(final(alloc)@),
            final(alloc)@.pages.phystop == old(alloc)@.pages.phystop,
            final(alloc)@.free == old(alloc)@.free,
            final(alloc)@.live == old(alloc)@.live,
            final(self).root_pa() == old(self).root_pa(),
            r is Ok ==> forall|v: u64|
                v < MAX_VIRTUAL_ADDRESS && in_region(v as int, virtual_base as int, region_size as int)
                    ==> #[trigger] final(self).leaf(v) == Some(
                    PageTableEntry(
                        leaf_entry_bits(
                            old(self).leaf_bits(v),
                            region_pa(v as int, virtual_base as int, physical_base as int) as u64,
                            permissions,
                        ),
                    ),
                ),
            old(self).num_tables() <= final(self).num_tables() <= old(self).num_tables() + 2
                * region_pages(virtual_base as int, region_size as int),
            final(alloc)@.pages.free.len() + final(self).num_tables() == old(alloc)@.pages.free.len()
                + old(self).num_tables(),
            final(alloc)@ == take_frames(
                old(alloc)@,
                (old(alloc)@.pages.free.len() - final(alloc)@.pages.free.len()) as nat,
            ),
            old(alloc)@.pages.free.len() >= 2 * region_pages(virtual_base as int, region_size as int)
                ==> r is Ok,
            r is Err ==> exists|v: u64|
                v < MAX_VIRTUAL_ADDRESS && in_region(v as int, virtual_base as int, region_size as int)
                    && #[trigger] old(self).leaf(v) is None,
            r is Err ==> exists|v: u64|
                v < MAX_VIRTUAL_ADDRESS && in_region(v as int, virtual_base as int, region_size as int)
                    && #[trigger] final(self).leaf(v) is None,
            region_pages(virtual_base as int, region_size as int) == 1 ==> (r is Ok <==> old(alloc)@.pages.free.len() >= old(self).missing_tables(virtual_base)),
            region_pages(virtual_base as int, region_size as int) == 1 && r is Ok ==> final(self).num_tables() == old(self).num_tables() + old(self).missing_tables(virtual_base),
            r is Ok && physical_base % 4096 == 0 && physical_base + region_size + PAGE_SIZE
                <= PHYS_LIMIT ==> forall|v: u64|
                v < MAX_VIRTUAL_ADDRESS && in_region(v as int, virtual_base as int, region_size as int)
                    ==> maps_to(
                    #[trigger] final(self).leaf(v),
                    region_pa(v as int, virtual_base as int, physical_base as int),
                    permissions,
                ),
            r is Err ==> r == Err::<(), PageTableMapError>(
                PageTableMapError::PageTableWalkError(PageTableWalkError::UnableToAllocate),
            ) && final(alloc)@.pages.free.len() == 0,
            r is Err ==> forall|v: u64|
                v < MAX_VIRTUAL_ADDRESS && in_region(v as int, virtual_base as int, region_size as int)
                    ==> #[trigger] final(self).leaf_bits(v) == old(self).leaf_bits(v) || final(self).leaf(v)
                    == Some(
                    PageTableEntry(
                        leaf_entry_bits(
                            old(self).leaf_bits(v),
                            region_pa(v as int, virtual_base as int, physical_base as int) as u64,
                            permissions,
                        ),
                    ),
                ),
            forall|v: u64|
                v < MAX_VIRTUAL_ADDRESS && !in_region(v as int, virtual_base as int, region_size as int)
                    ==> #[trigger] final(self).leaf_bits(v) == old(self).leaf_bits(v),
            forall|v: u64|
                v < MAX_VIRTUAL_ADDRESS && !in_region(v as int, virtual_base as int, region_size as int)
                    && old(self).leaf(v) is Some ==> #[trigger] final(self).leaf(v) == old(self).leaf(v),
    {
        let ghost s0 = *self;
        let ghost a0 = alloc@;
        let start = page_start(virtual_base);
        let last = page_start(virtual_base + region_size - 1);
        let mut v = start;
        let ghost mut done: int = 0;
        assert(take_frames(a0, 0) == a0);
        assert((last - start) % 4096 == 0);
        while v <= last
            invariant
                a0 == old(alloc)@,
                done == 0 ==> self.num_tables() == s0.num_tables() && self.missing_tables(v)
                    == s0.missing_tables(v) && alloc@ == a0,
                region_pages(virtual_base as int, region_size as int) == 1 && done == 1
                    ==> self.num_tables() == s0.num_tables() + s0.missing_tables(virtual_base),
                v == start + done * 4096,
                0 <= done,
                (last - start) % 4096 == 0,
                s0.num_tables() <= self.num_tables() <= s0.num_tables() + 2 * done,
                alloc@.pages.free.len() + self.num_tables() == a0.pages.free.len() + s0.num_tables(),
                alloc@ == take_frames(a0, (a0.pages.free.len() - alloc@.pages.free.len()) as nat),
                self.wf(),
                alloc.wf(),
                self.frames_held(alloc@),
                alloc@.pages.phystop == old(alloc)@.pages.phystop,
                alloc@.free == old(alloc)@.free,
                alloc@.live == old(alloc)@.live,
                alloc@.pages.phystop <= PHYS_LIMIT,
                self.root_pa() == s0.root_pa(),
                s0 == *old(self),
                start == page_down(virtual_base as int),
                last == page_down(virtual_base + region_size - 1),
                last < MAX_VIRTUAL_ADDRESS,
                start <= v <= last + 4096,
                v % 4096 == 0,
                physical_base + region_size + PAGE_SIZE <= u64::MAX,
                virtual_base + region_size <= MAX_VIRTUAL_ADDRESS,
                forall|w: u64|
                    w < MAX_VIRTUAL_ADDRESS && in_region(w as int, virtual_base as int, region_size as int)
                        ==> !bit_of(#[trigger] s0.leaf_bits(w), BIT_VALID),
                forall|w: u64|
                    w < MAX_VIRTUAL_ADDRESS && start <= page_down(w as int) < v ==> #[trigger] self.leaf(w)
                        == Some(
                        PageTableEntry(
                            leaf_entry_bits(
                                s0.leaf_bits(w),
                                region_pa(w as int, virtual_base as int, physical_base as int) as u64,
                                permissions,
                            ),
                        ),
                    ),
                forall|w: u64|
                    w < MAX_VIRTUAL_ADDRESS && !(start <= page_down(w as int) < v) ==> #[trigger] self.leaf_bits(w)
                        == s0.leaf_bits(w),
                forall|w: u64|
                    w < MAX_VIRTUAL_ADDRESS && !(start <= page_down(w as int) < v) && s0.leaf(w) is Some
                        ==> #[trigger] self.leaf(w) == s0.leaf(w),
            decreases last + 4096 - v,
        {
            let ghost s1 = *self;
            let ghost a1 = alloc@;
            proof {
                assert(done * 4096 <= last - start);
                assert(region_pages(virtual_base as int, region_size as int) == (last - start) / 4096 + 1);
                assert(done <= (last - start) / 4096);
                if a0.pages.free.len() >= 2 * region_pages(virtual_base as int, region_size as int) {
                    assert(alloc@.pages.free.len() >= 2);
                }
            }
            let pa = v - start + physical_base;
            let mapping = |pte: PageTableEntry| -> (r: PageTableEntry)
                ensures
                    r.0 == leaf_entry_bits(pte.0, pa, permissions),
                {
                    let mut e = pte;
                    e.set_mapping(pa);
                    e.set_flags(permissions);
                    e.set_valid(true);
                    e
                };
            match self.walk_mut(alloc, v, true, mapping) {
                Ok(()) => {},
                Err(e) => {
                    proof {
                        lemma_take_frames_add(
                            a0,
                            (a0.pages.free.len() - a1.pages.free.len()) as nat,
                            (a1.pages.free.len() - alloc@.pages.free.len()) as nat,
                        );
                        assert(s1.leaf(v) is None);
                        assert(self.leaf(v) is None);
                        if done == 0 {
                            lemma_page_of(virtual_base);
                            lemma_page_of(v);
                            assert(virtual_base >> 12u64 == v >> 12u64);
                            s0.lemma_same_page(virtual_base, v);
                        }
                        lemma_page_of(v);
                        assert(s0.leaf(v) is None);
                        assert(in_region(v as int, virtual_base as int, region_size as int));
                        PageTable::lemma_map_stopped(
                            s0,
                            s1,
                            *self,
                            v,
                            virtual_base,
                            region_size,
                            physical_base,
                            permissions,
                        );
                    }
                    return Err(PageTableMapError::from(e));
                },
            }
            proof {
                lemma_take_frames_add(
                    a0,
                    (a0.pages.free.len() - a1.pages.free.len()) as nat,
                    (a1.pages.free.len() - alloc@.pages.free.len()) as nat,
                );
                if done == 0 {
                    lemma_page_of(virtual_base);
                    lemma_page_of(v);
                    assert(virtual_base >> 12u64 == v >> 12u64);
                    s0.lemma_same_page(virtual_base, v);
                }
                done = done + 1;
                let e = self.leaf(v)->Some_0;
                assert(e.0 == leaf_entry_bits(s1.leaf_bits(v), pa, permissions));
                PageTable::lemma_map_step(
                    s0,
                    s1,
                    *self,
                    v,
                    virtual_base,
                    region_size,
                    physical_base,
                    permissions,
                );
            }
            v = v + 4096;
        }
        proof {
            assert(done * 4096 == last - start + 4096);
            assert(region_pages(virtual_base as int, region_size as int) == (last - start) / 4096 + 1);
            assert forall|w: u64|
                w < MAX_VIRTUAL_ADDRESS && in_region(w as int, virtual_base as int, region_size as int)
                    implies start <= page_down(w as int) < v by {}
            if physical_base % 4096 == 0 && physical_base + region_size + PAGE_SIZE <= PHYS_LIMIT {
                assert forall|w: u64|
                    w < MAX_VIRTUAL_ADDRESS && in_region(w as int, virtual_base as int, region_size as int)
                        implies maps_to(
                        #[trigger] self.leaf(w),
                        region_pa(w as int, virtual_base as int, physical_base as int),
                        permissions,
                    ) by {
                    let x = region_pa(w as int, virtual_base as int, physical_base as int) as u64;
                    lemma_leaf_entry(s0.leaf_bits(w), x, permissions);
                    assert(x % 4096 == 0);
                    assert(x < PHYS_LIMIT);
                    assert((x / 4096) & 0xfff_ffff_ffff == x / 4096) by (bit_vector)
                        requires
                            x < 0x100_0000_0000_0000u64,
                    ;
                }
            }
        }
        Ok(())
    }
}

/// Leaf flags of the kernel's text and of the trampoline: readable and
/// executable (the walk adds the valid bit).
pub const TEXT_FLAGS: u8 = 10;

/// Leaf flags of the kernel's data and of the rest of memory: readable and
/// writeable.
pub const DATA_FLAGS: u8 = 6;

/// The leaf bits of `v` in the kernel's address space: the text from
/// `text_start` to `etext` and the memory from `etext` to `phystop` mapped
/// to themselves, the trampoline page at `TRAMPOLINE` mapped to the code at
/// `trampoline`, and nothing else.
pub open spec fn kernel_leaf_bits(v: int, text_start: int, etext: int, trampoline: int, phystop: int) -> u64 {
    if text_start <= page_down(v) < etext {
        leaf_entry_bits(0, page_down(v) as u64, TEXT_FLAGS)
    } else if etext <= page_down(v) <= page_down(phystop - 1) {
        leaf_entry_bits(0, page_down(v) as u64, DATA_FLAGS)
    } else if page_down(v) == TRAMPOLINE {
        leaf_entry_bits(0, trampoline as u64, TEXT_FLAGS)
    } else {
        0
    }
}

/// The number of frames that `kvmmake` needs at most: the root, and two
/// inner tables for each page that it maps.
pub open spec fn kernel_frames(text_start: int, etext: int, phystop: int) -> int {
    1 + 2 * (region_pages(text_start, etext - text_start) + region_pages(etext, phystop - etext) + 1)
}

/// Builds the kernel's page table: its text from `text_start` to `etext`
/// mapped to itself as read-execute, the memory from `etext` to `phystop`
/// mapped to itself as read-write, and the trampoline page at
/// `TRAMPOLINE` mapped to `trampoline` as read-execute. Its tables are
/// frames taken from `alloc` and nothing else of the heap changes. It
/// succeeds whenever the heap has `kernel_frames` free frames, and fails
/// with `UnableToAllocate` only when the heap runs out of frames.
#[verifier::spinoff_prover]
pub fn kvmmake(alloc: &mut KernelAllocator, text_start: u64, etext: u64, trampoline: u64, phystop: u64) -> (r: Result<PageTable, PageTableMapError>)
    requires
        old(alloc).wf(),
        old(alloc)@.pages.phystop <= PHYS_LIMIT,
        text_start % 4096 == 0,
        etext % 4096 == 0,
        trampoline % 4096 == 0,
        text_start < etext < phystop <= TRAMPOLINE,
        trampoline + PAGE_SIZE <= PHYS_LIMIT,
    ensures
        final(alloc).wf(),
        final(alloc)@.pages.phystop == old(alloc)@.pages.phystop,
        final(alloc)@ == take_frames(
            old(alloc)@,
            (old(alloc)@.pages.free.len() - final(alloc)@.pages.free.len()) as nat,
        ),
        old(alloc)@.pages.free.len() >= kernel_frames(text_start as int, etext as int, phystop as int)
            ==> r is Ok,
        r is Err ==> r == Err::<PageTable, PageTableMapError>(
            PageTableMapError::PageTableWalkError(PageTableWalkError::UnableToAllocate),
        ) && final(alloc)@.pages.free.len() == 0,
        r is Ok ==> {
            let pt = r->Ok_0;
            &&& pt.wf()
            &&& pt.frames_held(final(alloc)@)
            &&& pt.num_tables() == old(alloc)@.pages.free.len() - final(alloc)@.pages.free.len()
            &&& forall|v: u64|
                v < MAX_VIRTUAL_ADDRESS ==> #[trigger] pt.leaf_bits(v) == kernel_leaf_bits(
                    v as int,
                    text_start as int,
                    etext as int,
                    trampoline as int,
                    phystop as int,
                )
        },
{
    let ghost a0 = alloc@;
    proof {
        assert(take_frames(a0, 1) == take_frame(take_frames(a0, 0)));
        assert(take_frames(a0, 0) == a0);
    }
    let mut page_table = match PageTable::new(alloc) {
        Some(pt) => pt,
        None => {
            return Err(PageTableMapError::PageTableWalkError(PageTableWalkError::UnableToAllocate));
        },
    };
    proof {
        assert(!bit_of(0, BIT_VALID)) by (bit_vector);
        assert(region_pages(TRAMPOLINE as int, PAGE_SIZE as int) == 1);
    }
    let ghost s0 = page_table;
    let ghost a1 = alloc@;
    match page_table.map_pages(alloc, text_start, etext - text_start, text_start, TEXT_FLAGS) {
        Ok(()) => {},
        Err(e) => {
            proof {
                lemma_take_frames_add(a0, 1, (a1.pages.free.len() - alloc@.pages.free.len()) as nat);
            }
            return Err(e);
        },
    }
    let ghost s1 = page_table;
    let ghost a2 = alloc@;
    proof {
        lemma_take_frames_add(a0, 1, (a1.pages.free.len() - a2.pages.free.len()) as nat);
        assert forall|v: u64|
            v < MAX_VIRTUAL_ADDRESS && in_region(v as int, etext as int, (phystop - etext) as int)
                implies !bit_of(#[trigger] s1.leaf_bits(v), BIT_VALID) by {
            assert(!in_region(v as int, text_start as int, (etext - text_start) as int));
            assert(s1.leaf_bits(v) == s0.leaf_bits(v));
        }
    }
    match page_table.map_pages(alloc, etext, phystop - etext, etext, DATA_FLAGS) {
        Ok(()) => {},
        Err(e) => {
            proof {
                lemma_take_frames_add(
                    a0,
                    (a0.pages.free.len() - a2.pages.free.len()) as nat,
                    (a2.pages.free.len() - alloc@.pages.free.len()) as nat,
                );
            }
            return Err(e);
        },
    }
    let ghost s2 = page_table;
    let ghost a3 = alloc@;
    proof {
        lemma_take_frames_add(
            a0,
            (a0.pages.free.len() - a2.pages.free.len()) as nat,
            (a2.pages.free.len() - a3.pages.free.len()) as nat,
        );
        assert forall|v: u64|
            v < MAX_VIRTUAL_ADDRESS && in_region(v as int, TRAMPOLINE as int, PAGE_SIZE as int)
                implies !bit_of(#[trigger] s2.leaf_bits(v), BIT_VALID) by {
            assert(!in_region(v as int, text_start as int, (etext - text_start) as int));
            assert(!in_region(v as int, etext as int, (phystop - etext) as int));
            assert(s2.leaf_bits(v) == s1.leaf_bits(v));
            assert(s1.leaf_bits(v) == s0.leaf_bits(v));
        }
    }
    match page_table.map_pages(alloc, TRAMPOLINE, PAGE_SIZE as u64, trampoline, TEXT_FLAGS) {
        Ok(()) => {},
        Err(e) => {
            proof {
                lemma_take_frames_add(
                    a0,
                    (a0.pages.free.len() - a3.pages.free.len()) as nat,
                    (a3.pages.free.len() - alloc@.pages.free.len()) as nat,
                );
            }
            return Err(e);
        },
    }
    proof {
        lemma_take_frames_add(
            a0,
            (a0.pages.free.len() - a3.pages.free.len()) as nat,
            (a3.pages.free.len() - alloc@.pages.free.len()) as nat,
        );
        lemma_kernel_leaves(s0, s1, s2, page_table, text_start, etext, trampoline, phystop);
    }
    Ok(page_table)
}

/// The leaves after the three mappings of `kvmmake` are the kernel's.
proof fn lemma_kernel_leaves(
    s0: PageTable,
    s1: PageTable,
    s2: PageTable,
    s3: PageTable,
    text_start: u64,
    etext: u64,
    trampoline: u64,
    phystop: u64,
)
    requires
        text_start % 4096 == 0,
        etext % 4096 == 0,
        text_start < etext < phystop <= TRAMPOLINE,
        forall|v: u64| #[trigger] s0.leaf_bits(v) == 0,
        forall|v: u64|
            v < MAX_VIRTUAL_ADDRESS ==> #[trigger] s1.leaf_bits(v) == if in_region(
                v as int,
                text_start as int,
                (etext - text_start) as int,
            ) {
                leaf_entry_bits(s0.leaf_bits(v), page_down(v as int) as u64, TEXT_FLAGS)
            } else {
                s0.leaf_bits(v)
            },
        forall|v: u64|
            v < MAX_VIRTUAL_ADDRESS ==> #[trigger] s2.leaf_bits(v) == if in_region(
                v as int,
                etext as int,
                (phystop - etext) as int,
            ) {
                leaf_entry_bits(s1.leaf_bits(v), page_down(v as int) as u64, DATA_FLAGS)
            } else {
                s1.leaf_bits(v)
            },
        forall|v: u64|
            v < MAX_VIRTUAL_ADDRESS ==> #[trigger] s3.leaf_bits(v) == if in_region(
                v as int,
                TRAMPOLINE as int,
                PAGE_SIZE as int,
            ) {
                leaf_entry_bits(s2.leaf_bits(v), trampoline, TEXT_FLAGS)
            } else {
                s2.leaf_bits(v)
            },
    ensures
        forall|v: u64|
            v < MAX_VIRTUAL_ADDRESS ==> #[trigger] s3.leaf_bits(v) == kernel_leaf_bits(
                v as int,
                text_start as int,
                etext as int,
                trampoline as int,
                phystop as int,
            ),
{
    assert forall|v: u64| v < MAX_VIRTUAL_ADDRESS implies #[trigger] s3.leaf_bits(v)
        == kernel_leaf_bits(v as int, text_start as int, etext as int, trampoline as int, phystop as int) by {
        assert(s3.leaf_bits(v) == if in_region(v as int, TRAMPOLINE as int, PAGE_SIZE as int) {
            leaf_entry_bits(s2.leaf_bits(v), trampoline, TEXT_FLAGS)
        } else {
            s2.leaf_bits(v)
        });
        assert(s2.leaf_bits(v) == if in_region(v as int, etext as int, (phystop - etext) as int) {
            leaf_entry_bits(s1.leaf_bits(v), page_down(v as int) as u64, DATA_FLAGS)
        } else {
            s1.leaf_bits(v)
        });
        assert(s1.leaf_bits(v) == if in_region(v as int, text_start as int, (etext - text_start) as int) {
            leaf_entry_bits(s0.leaf_bits(v), page_down(v as int) as u64, TEXT_FLAGS)
        } else {
            s0.leaf_bits(v)
        });
        assert(s0.leaf_bits(v) == 0);
    }
}
} // verus!
