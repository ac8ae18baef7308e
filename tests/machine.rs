use oxiv6_kernel::machine::{
    get_cpu_count, get_physical_memory_size, MachineSpec, MachineSpecError, MemoryRegion,
};

#[test]
fn phystop_is_top_of_ram() {
    let regions = vec![MemoryRegion { starting_address: 0x8000_0000, size: Some(0x800_0000) }];
    let spec = MachineSpec::from_device_tree(&regions, 1).unwrap();
    assert_eq!(get_physical_memory_size(&spec), 0x8800_0000);
    assert_eq!(get_cpu_count(&spec), 1);
}

#[test]
fn phystop_is_highest_region_end() {
    let regions = vec![
        MemoryRegion { starting_address: 0x8000_0000, size: Some(0x100_0000) },
        MemoryRegion { starting_address: 0x9000_0000, size: Some(0x1000) },
        MemoryRegion { starting_address: 0x8800_0000, size: None },
    ];
    let spec = MachineSpec::from_device_tree(&regions, 8).unwrap();
    assert_eq!(get_physical_memory_size(&spec), 0x9000_1000);
    assert_eq!(get_cpu_count(&spec), 8);
}

#[test]
fn phystop_is_clamped_below_reserved_pages() {
    let regions = vec![MemoryRegion { starting_address: 0, size: Some(0x100_0000_0000) }];
    let spec = MachineSpec::from_device_tree(&regions, 2).unwrap();
    assert_eq!(get_physical_memory_size(&spec), (1usize << 38) - 4096 * 5);
}

#[test]
fn no_memory_is_refused() {
    assert_eq!(MachineSpec::from_device_tree(&vec![], 1), Err(MachineSpecError::NoMemory));
}

#[test]
fn overflowing_region_is_refused() {
    let regions = vec![MemoryRegion { starting_address: usize::MAX - 10, size: Some(11) }];
    assert_eq!(MachineSpec::from_device_tree(&regions, 1), Err(MachineSpecError::RegionOverflow));
}

#[test]
fn too_many_cpus_is_refused() {
    let regions = vec![MemoryRegion { starting_address: 0x8000_0000, size: Some(0x1000) }];
    assert_eq!(
        MachineSpec::from_device_tree(&regions, 1 << 25),
        Err(MachineSpecError::TooManyCpus)
    );
    assert!(MachineSpec::from_device_tree(&regions, (1 << 25) - 1).is_ok());
}
