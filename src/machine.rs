//! What the kernel learns of the machine from its device tree: where usable
//! physical memory stops, and how many harts there are.

use vstd::prelude::*;
use crate::layout::{MAX_VIRTUAL_ADDRESS, PAGE_SIZE};

verus! {

/// A memory region as the device tree describes it.
#[derive(PartialEq, Eq, Structural, Clone, Copy, Debug)]
pub struct MemoryRegion {
    pub starting_address: usize,
    pub size: Option<usize>,
}

/// The machine's limits, fixed once at boot.
#[derive(PartialEq, Eq, Structural, Clone, Copy, Debug)]
pub struct MachineSpec {
    phystop: usize,
    cpu_count: usize,
}

/// Why the device tree's description cannot be used.
#[derive(PartialEq, Eq, Structural, Clone, Copy, Debug)]
pub enum MachineSpecError {
    /// No memory region is described.
    NoMemory,
    /// A region ends beyond the address space.
    RegionOverflow,
    /// The stacks of so many harts do not fit below `MAX_VIRTUAL_ADDRESS`.
    TooManyCpus,
}

/// One beyond the last byte of a region; a region without a size is empty.
pub open spec fn region_end(r: MemoryRegion) -> int {
    r.starting_address + match r.size {
        Some(s) => s as int,
        None => 0,
    }
}

/// The highest end of the regions `rs`.
pub open spec fn max_end(rs: Seq<MemoryRegion>) -> int
    decreases rs.len(),
{
    if rs.len() == 0 {
        0
    } else {
        let m = max_end(rs.drop_last());
        let e = region_end(rs.last());
        if m < e {
            e
        } else {
            m
        }
    }
}

/// The pages kept back below `MAX_VIRTUAL_ADDRESS`: the trampoline's, and a
/// stack and a guard page for each hart.
pub open spec fn reserved_bytes(cpu_count: int) -> int {
    PAGE_SIZE * (2 * cpu_count + 1)
}

/// What [`MachineSpec::from_device_tree`] gives for `regions` and
/// `cpu_count`.
pub open spec fn machine_spec_result(regions: Seq<MemoryRegion>, cpu_count: int) -> Result<(int, int), MachineSpecError> {
    if regions.len() == 0 {
        Err(MachineSpecError::NoMemory)
    } else if exists|k: int| 0 <= k < regions.len() && region_end(#[trigger] regions[k]) > usize::MAX {
        Err(MachineSpecError::RegionOverflow)
    } else if reserved_bytes(cpu_count) > MAX_VIRTUAL_ADDRESS {
        Err(MachineSpecError::TooManyCpus)
    } else {
        let limit = MAX_VIRTUAL_ADDRESS - reserved_bytes(cpu_count);
        let top = max_end(regions);
        Ok((if top < limit { top } else { limit }, cpu_count))
    }
}

impl MachineSpec {
    pub closed spec fn phystop(self) -> int {
        self.phystop as int
    }

    pub closed spec fn cpus(self) -> int {
        self.cpu_count as int
    }

    /// The limits from the memory regions and the number of harts that the
    /// device tree lists: memory stops at the highest end of a region, or
    /// lower, so that the reserved pages fit below `MAX_VIRTUAL_ADDRESS`.
    pub fn from_device_tree(regions: &Vec<MemoryRegion>, cpu_count: usize) -> (r: Result<MachineSpec, MachineSpecError>)
        ensures
            match machine_spec_result(regions@, cpu_count as int) {
                Ok(v) => r is Ok && r->Ok_0.phystop() == v.0 && r->Ok_0.cpus() == v.1,
                Err(e) => r == Err::<MachineSpec, MachineSpecError>(e),
            },
    {
        if regions.len() == 0 {
            return Err(MachineSpecError::NoMemory);
        }
        let mut top: usize = 0;
        let mut k: usize = 0;
        while k < regions.len()
            invariant
                k <= regions.len(),
                top == max_end(regions@.subrange(0, k as int)),
                forall|j: int| 0 <= j < k ==> region_end(#[trigger] regions@[j]) <= usize::MAX,
            decreases regions.len() - k,
        {
            let r = regions[k];
            let size: usize = match r.size {
                Some(s) => s,
                None => 0,
            };
            assert(regions@.subrange(0, k + 1).drop_last() =~= regions@.subrange(0, k as int));
            if r.starting_address > usize::MAX - size {
                assert(region_end(regions@[k as int]) > usize::MAX);
                return Err(MachineSpecError::RegionOverflow);
            }
            let end = r.starting_address + size;
            if top < end {
                top = end;
            }
            k = k + 1;
        }
        assert(regions@.subrange(0, k as int) =~= regions@);
        if cpu_count >= 0x200_0000 {
            assert(reserved_bytes(cpu_count as int) > MAX_VIRTUAL_ADDRESS);
            return Err(MachineSpecError::TooManyCpus);
        }
        let reserved: u64 = 4096 * (2 * cpu_count as u64 + 1);
        let limit: u64 = MAX_VIRTUAL_ADDRESS - reserved;
        let phystop: usize = if (top as u64) < limit {
            top
        } else {
            limit as usize
        };
        Ok(MachineSpec { phystop, cpu_count })
    }
}

/// The number of harts.
pub fn get_cpu_count(spec: &MachineSpec) -> (r: usize)
    ensures
        r == spec.cpus(),
{
    spec.cpu_count
}

/// One beyond the last usable byte of physical memory.
pub fn get_physical_memory_size(spec: &MachineSpec) -> (r: usize)
    ensures
        r == spec.phystop(),
{
    spec.phystop
}

} // verus!
