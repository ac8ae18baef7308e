//! Sv39 page table entries.
//!
//! Bit layout of an entry: `V[0] R[1] W[2] X[3] U[4] G[5] A[6] D[7]
//! RSW[9:8] PPN[53:10]`.

use vstd::prelude::*;

verus! {

/// Bit `i` of `x`.
pub open spec fn bit_of(x: u64, i: u64) -> bool {
    (x >> i) & 1 == 1
}

/// `x` with bit `i` set to `v` and all other bits kept.
pub open spec fn with_bit(x: u64, i: u64, v: bool) -> u64 {
    if v {
        x | (1u64 << i)
    } else {
        x & !(1u64 << i)
    }
}

/// The 44-bit physical page number held in bits 53..10.
pub open spec fn ppn_of(x: u64) -> u64 {
    (x >> 10u64) & 0xfff_ffff_ffff
}

/// `x` with its physical page number replaced by the low 44 bits of `p`.
pub open spec fn with_ppn(x: u64, p: u64) -> u64 {
    (x & !0x3f_ffff_ffff_fc00u64) | ((p & 0xfff_ffff_ffff) << 10u64)
}

/// The flag byte, bits 7..0.
pub open spec fn flags_of(x: u64) -> u64 {
    x & 0xff
}

/// `x` with bits 7..0 replaced by `f`.
pub open spec fn with_flags(x: u64, f: u8) -> u64 {
    (x & !0xffu64) | (f as u64)
}

/// The two reserved-for-software bits, 9..8.
pub open spec fn rsw_of(x: u64) -> u8 {
    ((x >> 8u64) & 3) as u8
}

/// `x` with bits 9..8 replaced by the low two bits of `r`.
pub open spec fn with_rsw(x: u64, r: u8) -> u64 {
    (x & !0x300u64) | (((r as u64) & 3) << 8u64)
}

pub const BIT_VALID: u64 = 0;
pub const BIT_READ: u64 = 1;
pub const BIT_WRITE: u64 = 2;
pub const BIT_EXECUTE: u64 = 3;
pub const BIT_USER: u64 = 4;
pub const BIT_ACCESSED: u64 = 6;
pub const BIT_DIRTY: u64 = 7;

/// The bits of an inner entry that points at the table at `p`, made from
/// `x` as a walk makes it.
pub open spec fn table_entry_bits(x: u64, p: u64) -> u64 {
    with_bit(with_ppn(x, p / 4096), BIT_VALID, true)
}

/// The bits of a leaf that maps `pa` with `perms`, made from `x` as
/// `map_pages` makes it.
pub open spec fn leaf_entry_bits(x: u64, pa: u64, perms: u8) -> u64 {
    with_bit(with_flags(with_ppn(x, pa / 4096), perms), BIT_VALID, true)
}

/// An inner entry for the table at a page-aligned `p` below 2^56 is valid
/// and holds the page number of `p`.
pub proof fn lemma_table_entry(x: u64, p: u64)
    requires
        p % 4096 == 0,
        p < 0x100_0000_0000_0000u64,
    ensures
        bit_of(table_entry_bits(x, p), BIT_VALID),
        ppn_of(table_entry_bits(x, p)) * 4096 == p,
        x == 0 ==> flags_of(table_entry_bits(x, p)) == 1,
{
    let q = p / 4096;
    assert(q < 0x1000_0000_0000u64);
    let y = table_entry_bits(x, p);
    assert(y == ((x & !0x3f_ffff_ffff_fc00u64) | ((q & 0xfff_ffff_ffff) << 10u64)) | (1u64 << 0u64));
    assert((((y >> 0u64) & 1) == 1) && ((y >> 10u64) & 0xfff_ffff_ffff) == q) by (bit_vector)
        requires
            y == ((x & !0x3f_ffff_ffff_fc00u64) | ((q & 0xfff_ffff_ffff) << 10u64)) | (1u64 << 0u64),
            q < 0x1000_0000_0000u64,
    ;
    if x == 0 {
        assert(((((0u64 & !0x3f_ffff_ffff_fc00u64) | ((q & 0xfff_ffff_ffff) << 10u64)) | (1u64
            << 0u64)) & 0xff) == 1) by (bit_vector);
    }
}

/// An entry whose flag byte is the valid bit alone is valid.
pub proof fn lemma_flags_valid(x: u64)
    requires
        flags_of(x) == 1,
    ensures
        bit_of(x, BIT_VALID),
{
    assert((x & 0xff) == 1 ==> ((x >> 0u64) & 1) == 1) by (bit_vector);
}

/// A leaf that maps `pa` with `perms` is valid, has the flag byte `perms`
/// with the valid bit, and holds the page number of `pa`.
pub proof fn lemma_leaf_entry(x: u64, pa: u64, perms: u8)
    ensures
        bit_of(leaf_entry_bits(x, pa, perms), BIT_VALID),
        flags_of(leaf_entry_bits(x, pa, perms)) == (perms as u64) | 1,
        ppn_of(leaf_entry_bits(x, pa, perms)) == (pa / 4096) & 0xfff_ffff_ffff,
{
    let q = pa / 4096;
    let f = perms as u64;
    let y = leaf_entry_bits(x, pa, perms);
    assert(f <= 0xff);
    assert(y == ((((x & !0x3f_ffff_ffff_fc00u64) | ((q & 0xfff_ffff_ffff) << 10u64)) & !0xffu64)
        | f) | (1u64 << 0u64));
    assert((((y >> 0u64) & 1) == 1) && (y & 0xff) == (f | 1) && ((y >> 10u64) & 0xfff_ffff_ffff)
        == (q & 0xfff_ffff_ffff)) by (bit_vector)
        requires
            y == ((((x & !0x3f_ffff_ffff_fc00u64) | ((q & 0xfff_ffff_ffff) << 10u64)) & !0xffu64)
                | f) | (1u64 << 0u64),
            f <= 0xff,
    ;
}

/// A Sv39 page table entry, held as its raw 64 bits.
#[derive(PartialEq, Eq, Structural, Clone, Copy, Debug)]
pub struct PageTableEntry(pub u64);

/// Values of the reserved-for-software field of a [`PageTableEntry`].
#[derive(PartialEq, Eq, Structural, Clone, Copy, Debug)]
pub enum RSW {
    /// The value of a fresh entry.
    Default,
    /// The page is writeable, but shared copy-on-write.
    COWPage,
}

impl RSW {
    /// The field value that stands for `self`.
    pub open spec fn code(self) -> u8 {
        match self {
            RSW::Default => 0,
            RSW::COWPage => 1,
        }
    }

    /// The variant that a field value decodes to: `1` is `COWPage`, every
    /// other value the default.
    pub open spec fn decode(v: u8) -> RSW {
        if v == 1 {
            RSW::COWPage
        } else {
            RSW::Default
        }
    }
}

impl Default for RSW {
    fn default() -> (r: RSW)
        ensures
            r == RSW::Default,
    {
        RSW::Default
    }
}

impl From<u8> for RSW {
    fn from(v: u8) -> (r: RSW)
        ensures
            r == RSW::decode(v),
    {
        if v == 1 {
            RSW::COWPage
        } else {
            RSW::Default
        }
    }
}

impl vstd::std_specs::convert::FromSpecImpl<u8> for RSW {
    open spec fn obeys_from_spec() -> bool {
        true
    }

    open spec fn from_spec(v: u8) -> RSW {
        RSW::decode(v)
    }
}

impl From<RSW> for u8 {
    fn from(r: RSW) -> (v: u8)
        ensures
            v == r.code(),
    {
        match r {
            RSW::Default => 0,
            RSW::COWPage => 1,
        }
    }
}

impl vstd::std_specs::convert::FromSpecImpl<RSW> for u8 {
    open spec fn obeys_from_spec() -> bool {
        true
    }

    open spec fn from_spec(r: RSW) -> u8 {
        r.code()
    }
}

impl From<PageTableEntry> for u64 {
    fn from(e: PageTableEntry) -> (v: u64)
        ensures
            v == e.0,
    {
        e.0
    }
}

impl vstd::std_specs::convert::FromSpecImpl<PageTableEntry> for u64 {
    open spec fn obeys_from_spec() -> bool {
        true
    }

    open spec fn from_spec(e: PageTableEntry) -> u64 {
        e.0
    }
}

impl From<u64> for PageTableEntry {
    fn from(v: u64) -> (e: PageTableEntry)
        ensures
            e.0 == v,
    {
        PageTableEntry(v)
    }
}

impl vstd::std_specs::convert::FromSpecImpl<u64> for PageTableEntry {
    open spec fn obeys_from_spec() -> bool {
        true
    }

    open spec fn from_spec(v: u64) -> PageTableEntry {
        PageTableEntry(v)
    }
}

fn get_bit(x: u64, i: u64) -> (r: bool)
    requires
        i < 64,
    ensures
        r == bit_of(x, i),
{
    (x >> i) & 1 == 1
}

fn put_bit(x: u64, i: u64, v: bool) -> (r: u64)
    requires
        i < 64,
    ensures
        r == with_bit(x, i, v),
{
    if v {
        x | (1u64 << i)
    } else {
        x & !(1u64 << i)
    }
}

impl PageTableEntry {
    /// The entry of all zero bits: invalid, no flags, page number zero.
    pub fn zero() -> (e: PageTableEntry)
        ensures
            e.0 == 0,
    {
        PageTableEntry(0)
    }

    pub open spec fn is_valid(self) -> bool {
        bit_of(self.0, BIT_VALID)
    }

    /// Whether the referenced page is valid.
    pub fn valid(&self) -> (r: bool)
        ensures
            r == self.is_valid(),
    {
        get_bit(self.0, BIT_VALID)
    }

    pub fn set_valid(&mut self, v: bool)
        ensures
            final(self).0 == with_bit(old(self).0, BIT_VALID, v),
    {
        self.0 = put_bit(self.0, BIT_VALID, v);
    }

    /// Whether the page can be read.
    pub fn readable(&self) -> (r: bool)
        ensures
            r == bit_of(self.0, BIT_READ),
    {
        get_bit(self.0, BIT_READ)
    }

    pub fn set_readable(&mut self, v: bool)
        ensures
            final(self).0 == with_bit(old(self).0, BIT_READ, v),
    {
        self.0 = put_bit(self.0, BIT_READ, v);
    }

    /// Whether the page can be written.
    pub fn writeable(&self) -> (r: bool)
        ensures
            r == bit_of(self.0, BIT_WRITE),
    {
        get_bit(self.0, BIT_WRITE)
    }

    pub fn set_writeable(&mut self, v: bool)
        ensures
            final(self).0 == with_bit(old(self).0, BIT_WRITE, v),
    {
        self.0 = put_bit(self.0, BIT_WRITE, v);
    }

    /// Whether code in the page can be executed.
    pub fn executable(&self) -> (r: bool)
        ensures
            r == bit_of(self.0, BIT_EXECUTE),
    {
        get_bit(self.0, BIT_EXECUTE)
    }

    pub fn set_executable(&mut self, v: bool)
        ensures
            final(self).0 == with_bit(old(self).0, BIT_EXECUTE, v),
    {
        self.0 = put_bit(self.0, BIT_EXECUTE, v);
    }

    /// Whether user code can reach the page.
    pub fn user_accessible(&self) -> (r: bool)
        ensures
            r == bit_of(self.0, BIT_USER),
    {
        get_bit(self.0, BIT_USER)
    }

    pub fn set_user_accessible(&mut self, v: bool)
        ensures
            final(self).0 == with_bit(old(self).0, BIT_USER, v),
    {
        self.0 = put_bit(self.0, BIT_USER, v);
    }

    /// Whether the page was accessed since the bit was last cleared.
    pub fn accessed(&self) -> (r: bool)
        ensures
            r == bit_of(self.0, BIT_ACCESSED),
    {
        get_bit(self.0, BIT_ACCESSED)
    }

    /// Whether the page was written since the bit was last cleared.
    pub fn dirty(&self) -> (r: bool)
        ensures
            r == bit_of(self.0, BIT_DIRTY),
    {
        get_bit(self.0, BIT_DIRTY)
    }

    /// Clears the accessed bit; software can only read and clear it.
    pub fn clear_accessed(&mut self)
        ensures
            final(self).0 == with_bit(old(self).0, BIT_ACCESSED, false),
    {
        self.0 = put_bit(self.0, BIT_ACCESSED, false);
    }

    /// Clears the dirty bit; software can only read and clear it.
    pub fn clear_dirty(&mut self)
        ensures
            final(self).0 == with_bit(old(self).0, BIT_DIRTY, false),
    {
        self.0 = put_bit(self.0, BIT_DIRTY, false);
    }

    /// The reserved-for-software field, decoded.
    pub fn rsw(&self) -> (r: RSW)
        ensures
            r == RSW::decode(rsw_of(self.0)),
    {
        let v = ((self.0 >> 8u64) & 3) as u8;
        RSW::from(v)
    }

    pub fn set_rsw(&mut self, r: RSW)
        ensures
            final(self).0 == with_rsw(old(self).0, r.code()),
    {
        let c: u8 = u8::from(r);
        self.0 = (self.0 & !0x300u64) | (((c as u64) & 3) << 8u64);
    }

    /// The physical page number.
    pub fn pa(&self) -> (r: u64)
        ensures
            r == ppn_of(self.0),
    {
        (self.0 >> 10u64) & 0xfff_ffff_ffff
    }

    /// Replaces the physical page number by the low 44 bits of `p`.
    pub fn set_pa(&mut self, p: u64)
        ensures
            final(self).0 == with_ppn(old(self).0, p),
    {
        self.0 = (self.0 & !0x3f_ffff_ffff_fc00u64) | ((p & 0xfff_ffff_ffff) << 10u64);
    }

    /// The physical address that this entry maps to.
    pub fn pa_int(&self) -> (r: u64)
        ensures
            r == ppn_of(self.0) * 4096,
            r % 4096 == 0,
    {
        let x = self.0;
        let p = self.pa();
        assert(p <= 0xfff_ffff_ffffu64) by (bit_vector)
            requires
                p == (x >> 10u64) & 0xfff_ffff_ffff,
        ;
        assert(p << 12u64 == p * 4096) by (bit_vector)
            requires
                p <= 0xfff_ffff_ffffu64,
        ;
        p << 12u64
    }

    /// Points this entry at the page holding `physical_address`.
    pub fn set_mapping(&mut self, physical_address: u64)
        ensures
            final(self).0 == with_ppn(old(self).0, physical_address / 4096),
    {
        assert(physical_address >> 12u64 == physical_address / 4096) by (bit_vector);
        self.set_pa(physical_address >> 12u64);
    }

    /// The flag bits 7..0.
    pub fn get_flags(&self) -> (r: u64)
        ensures
            r == flags_of(self.0),
    {
        self.0 & 0xff
    }

    /// Replaces the flag bits 7..0 by `flags`.
    pub fn set_flags(&mut self, flags: u8)
        ensures
            final(self).0 == with_flags(old(self).0, flags),
    {
        self.0 = (self.0 & !0xffu64) | (flags as u64);
    }
}

} // verus!
