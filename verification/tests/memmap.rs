use efilite::efi::memmap::{
    allocate_pages, allocate_pages_fixed, allocate_region, convert_region, copy_to_slice,
    declare_memory_region, declare_region, declare_runtime_region, free_pages, key, len,
    size_to_pages, MemoryMap, Placement, EFI_PAGE_MASK, EFI_PAGE_SHIFT,
};
use efilite::efi::memorytype::{MemoryDescriptor, MemoryType};

const PAGE: u64 = 4096;

fn snapshot(mm: &MemoryMap) -> Vec<(MemoryType, u64, u64)> {
    let mut out = Vec::new();
    let mut i = 0;
    while let Some(d) = mm.get(i) {
        assert_eq!(d.virtual_start, 0);
        out.push((d.memory_type, d.physical_start, d.number_of_pages));
        i += 1;
    }
    out
}

fn map_of(regions: &[(u64, u64)]) -> MemoryMap {
    let mut mm = MemoryMap::new();
    for (base, pages) in regions {
        assert_eq!(declare_memory_region(&mut mm, *base, (*pages * PAGE) as usize), Ok(()));
    }
    mm
}

#[test]
fn allocate_anywhere_takes_the_top_of_the_only_descriptor() {
    let mut mm = MemoryMap::new();
    assert_eq!(declare_memory_region(&mut mm, 0x0, 100 * 4096), Ok(()));
    let before = key(&mm);
    let base = allocate_pages(&mut mm, 10, MemoryType::EfiLoaderCode, Placement::Anywhere);
    assert_eq!(base, Some(90 * PAGE));
    assert_eq!(len(&mm), 2);
    assert_eq!(
        snapshot(&mm),
        vec![
            (MemoryType::EfiConventionalMemory, 0, 90),
            (MemoryType::EfiLoaderCode, 90 * PAGE, 10),
        ]
    );
    // one change for the split and one for the conversion
    assert_eq!(key(&mm), before + 2);
}

#[test]
fn new_map_is_empty_at_key_one() {
    let mm = MemoryMap::new();
    assert_eq!(len(&mm), 0);
    assert_eq!(key(&mm), 1);
    assert_eq!(mm.get(0), None);
}

#[test]
fn page_constants() {
    assert_eq!(EFI_PAGE_SHIFT, 12);
    assert_eq!(EFI_PAGE_MASK, 0xfff);
}

#[test]
fn size_to_pages_rounds_up() {
    assert_eq!(size_to_pages(0), 0);
    assert_eq!(size_to_pages(1), 1);
    assert_eq!(size_to_pages(4095), 1);
    assert_eq!(size_to_pages(4096), 1);
    assert_eq!(size_to_pages(4097), 2);
    assert_eq!(size_to_pages(10 * 4096), 10);
    assert_eq!(size_to_pages(usize::MAX), usize::MAX / 4096 + 1);
}

#[test]
fn declared_descriptor_carries_the_write_back_attribute() {
    let mut mm = MemoryMap::new();
    assert_eq!(declare_memory_region(&mut mm, 0x4000_0000, 0x20_0000), Ok(()));
    assert_eq!(
        mm.get(0),
        Some(MemoryDescriptor {
            memory_type: MemoryType::EfiConventionalMemory,
            physical_start: 0x4000_0000,
            virtual_start: 0,
            number_of_pages: 512,
            attribute: 0x8,
        })
    );
    assert_eq!(key(&mm), 2);
}

#[test]
fn runtime_region_carries_the_runtime_attribute() {
    let mut mm = MemoryMap::new();
    assert_eq!(declare_runtime_region(&mut mm, 0x1000, 3 * 4096), Ok(()));
    assert_eq!(
        mm.get(0),
        Some(MemoryDescriptor {
            memory_type: MemoryType::EfiRuntimeServicesCode,
            physical_start: 0x1000,
            virtual_start: 0,
            number_of_pages: 3,
            attribute: 0x8000_0000_0000_0008,
        })
    );
}

#[test]
fn declared_size_is_cut_to_whole_pages() {
    let mut mm = MemoryMap::new();
    assert_eq!(declare_memory_region(&mut mm, 0x10000, 2 * 4096 + 100), Ok(()));
    assert_eq!(snapshot(&mm), vec![(MemoryType::EfiConventionalMemory, 0x10000, 2)]);
}

#[test]
fn declarations_that_cannot_be_described_are_refused() {
    let mut mm = map_of(&[(0x10000, 4)]);
    let before = snapshot(&mm);
    let k = key(&mm);
    // less than a page
    assert_eq!(declare_memory_region(&mut mm, 0x80000, 4095), Err(()));
    // not on a page boundary
    assert_eq!(declare_memory_region(&mut mm, 0x80010, 4096), Err(()));
    // beyond the end of the address space
    assert_eq!(declare_region(&mut mm, u64::MAX - 4095, 1, MemoryType::EfiLoaderData, 0), Err(()));
    assert_eq!(declare_region(&mut mm, 0x1000, u64::MAX, MemoryType::EfiLoaderData, 0), Err(()));
    assert_eq!(snapshot(&mm), before);
    assert_eq!(key(&mm), k);
}

#[test]
fn overlapping_declarations_are_refused() {
    let mut mm = map_of(&[(0x10000, 4)]);
    let k = key(&mm);
    assert_eq!(declare_memory_region(&mut mm, 0x10000, 4096), Err(()));
    assert_eq!(declare_memory_region(&mut mm, 0x13000, 2 * 4096), Err(()));
    assert_eq!(declare_memory_region(&mut mm, 0xf000, 2 * 4096), Err(()));
    assert_eq!(declare_runtime_region(&mut mm, 0x8000, 0x20000), Err(()));
    assert_eq!(snapshot(&mm), vec![(MemoryType::EfiConventionalMemory, 0x10000, 4)]);
    assert_eq!(key(&mm), k);
}

#[test]
fn touching_regions_coalesce_in_either_order() {
    let a = 0x20_0000u64;
    let n = 16u64;
    let mut low_first = MemoryMap::new();
    assert_eq!(declare_memory_region(&mut low_first, a, (n * PAGE) as usize), Ok(()));
    assert_eq!(declare_memory_region(&mut low_first, a + n * PAGE, (n * PAGE) as usize), Ok(()));
    let mut high_first = MemoryMap::new();
    assert_eq!(declare_memory_region(&mut high_first, a + n * PAGE, (n * PAGE) as usize), Ok(()));
    assert_eq!(declare_memory_region(&mut high_first, a, (n * PAGE) as usize), Ok(()));
    let expected = vec![(MemoryType::EfiConventionalMemory, a, 2 * n)];
    assert_eq!(snapshot(&low_first), expected);
    assert_eq!(snapshot(&high_first), expected);
    assert_eq!(key(&low_first), 3);
    assert_eq!(key(&high_first), 3);
}

#[test]
fn a_region_between_two_of_its_type_joins_both() {
    let mut mm = map_of(&[(0x10000, 2), (0x14000, 2)]);
    assert_eq!(len(&mm), 2);
    assert_eq!(declare_memory_region(&mut mm, 0x12000, 2 * 4096), Ok(()));
    assert_eq!(snapshot(&mm), vec![(MemoryType::EfiConventionalMemory, 0x10000, 6)]);
    assert_eq!(key(&mm), 4);
}

#[test]
fn touching_regions_of_different_types_stay_apart() {
    let mut mm = map_of(&[(0x10000, 2)]);
    assert_eq!(declare_runtime_region(&mut mm, 0x12000, 2 * 4096), Ok(()));
    assert_eq!(declare_runtime_region(&mut mm, 0xe000, 2 * 4096), Ok(()));
    assert_eq!(
        snapshot(&mm),
        vec![
            (MemoryType::EfiRuntimeServicesCode, 0xe000, 2),
            (MemoryType::EfiConventionalMemory, 0x10000, 2),
            (MemoryType::EfiRuntimeServicesCode, 0x12000, 2),
        ]
    );
}

#[test]
fn descriptors_stay_sorted_whatever_the_order_of_declaration() {
    let mm = map_of(&[(0x50000, 1), (0x10000, 1), (0x30000, 1)]);
    assert_eq!(
        snapshot(&mm),
        vec![
            (MemoryType::EfiConventionalMemory, 0x10000, 1),
            (MemoryType::EfiConventionalMemory, 0x30000, 1),
            (MemoryType::EfiConventionalMemory, 0x50000, 1),
        ]
    );
}

#[test]
fn conversion_in_the_middle_splits_in_three() {
    let mut mm = map_of(&[(0x10_0000, 16)]);
    let k = key(&mm);
    assert_eq!(
        convert_region(
            &mut mm,
            0x10_4000,
            4,
            Some(MemoryType::EfiConventionalMemory),
            MemoryType::EfiBootServicesData
        ),
        Ok(())
    );
    assert_eq!(
        snapshot(&mm),
        vec![
            (MemoryType::EfiConventionalMemory, 0x10_0000, 4),
            (MemoryType::EfiBootServicesData, 0x10_4000, 4),
            (MemoryType::EfiConventionalMemory, 0x10_8000, 8),
        ]
    );
    assert_eq!(key(&mm), k + 2);
}

#[test]
fn conversion_at_the_start_of_a_descriptor_changes_the_key_once() {
    let mut mm = map_of(&[(0x10_0000, 16)]);
    let k = key(&mm);
    assert_eq!(
        allocate_region(&mut mm, 0x10_0000, 2 * 4096, MemoryType::EfiBootServicesData),
        Ok(())
    );
    assert_eq!(
        snapshot(&mm),
        vec![
            (MemoryType::EfiBootServicesData, 0x10_0000, 2),
            (MemoryType::EfiConventionalMemory, 0x10_2000, 14),
        ]
    );
    assert_eq!(key(&mm), k + 1);
}

#[test]
fn conversion_of_a_whole_descriptor_replaces_it() {
    let mut mm = map_of(&[(0x10_0000, 16)]);
    assert_eq!(
        allocate_region(&mut mm, 0x10_0000, 16 * 4096, MemoryType::EfiRuntimeServicesData),
        Ok(())
    );
    assert_eq!(
        mm.get(0),
        Some(MemoryDescriptor {
            memory_type: MemoryType::EfiRuntimeServicesData,
            physical_start: 0x10_0000,
            virtual_start: 0,
            number_of_pages: 16,
            attribute: 0x8000_0000_0000_0008,
        })
    );
    assert_eq!(len(&mm), 1);
}

#[test]
fn conversion_merges_with_a_neighbour_of_the_new_type() {
    let mut mm = map_of(&[(0x10_0000, 16)]);
    assert_eq!(
        allocate_pages_fixed(&mut mm, 0x10_0000, 2, MemoryType::EfiLoaderData),
        Some(0x10_0000)
    );
    assert_eq!(
        allocate_pages_fixed(&mut mm, 0x10_2000, 3, MemoryType::EfiLoaderData),
        Some(0x10_2000)
    );
    assert_eq!(
        snapshot(&mm),
        vec![
            (MemoryType::EfiLoaderData, 0x10_0000, 5),
            (MemoryType::EfiConventionalMemory, 0x10_5000, 11),
        ]
    );
}

#[test]
fn conversion_fails_and_changes_nothing() {
    let mut mm = map_of(&[(0x10_0000, 16), (0x20_0000, 16)]);
    assert_eq!(allocate_pages_fixed(&mut mm, 0x10_4000, 4, MemoryType::EfiLoaderCode), Some(0x10_4000));
    let before = snapshot(&mm);
    let k = key(&mm);
    // the wrong type at that address
    assert_eq!(allocate_region(&mut mm, 0x10_4000, 4096, MemoryType::EfiLoaderData), Err(()));
    // more pages than the descriptor holds
    assert_eq!(allocate_region(&mut mm, 0x10_0000, 5 * 4096, MemoryType::EfiLoaderData), Err(()));
    // across a gap
    assert_eq!(allocate_region(&mut mm, 0x10_f000, 0x10_0000, MemoryType::EfiLoaderData), Err(()));
    // nothing declared there
    assert_eq!(allocate_region(&mut mm, 0x80_0000, 4096, MemoryType::EfiLoaderData), Err(()));
    assert_eq!(free_pages(&mut mm, 0x80_0000, 1), Err(()));
    // no pages at all
    assert_eq!(allocate_region(&mut mm, 0x10_0000, 100, MemoryType::EfiLoaderData), Err(()));
    assert_eq!(free_pages(&mut mm, 0x10_4000, 0), Err(()));
    // not on a page boundary
    assert_eq!(allocate_pages_fixed(&mut mm, 0x10_0800, 1, MemoryType::EfiLoaderData), None);
    // across two descriptors of different types
    assert_eq!(free_pages(&mut mm, 0x10_3000, 2), Err(()));
    assert_eq!(snapshot(&mm), before);
    assert_eq!(key(&mm), k);
}

#[test]
fn conversion_and_back_restores_the_layout() {
    let mut mm = map_of(&[(0x10_0000, 16), (0x20_0000, 16)]);
    let before = snapshot(&mm);
    for (base, pages) in [(0x10_0000u64, 4u64), (0x10_6000, 2), (0x10_c000, 4), (0x20_0000, 16)] {
        assert_eq!(
            convert_region(
                &mut mm,
                base,
                pages,
                Some(MemoryType::EfiConventionalMemory),
                MemoryType::EfiACPIReclaimMemory
            ),
            Ok(())
        );
        assert_ne!(snapshot(&mm), before);
        assert_eq!(
            convert_region(
                &mut mm,
                base,
                pages,
                Some(MemoryType::EfiACPIReclaimMemory),
                MemoryType::EfiConventionalMemory
            ),
            Ok(())
        );
        assert_eq!(snapshot(&mm), before);
    }
}

#[test]
fn free_pages_accepts_any_type() {
    let mut mm = map_of(&[(0x10_0000, 16)]);
    assert_eq!(
        allocate_pages(&mut mm, 4, MemoryType::EfiRuntimeServicesData, Placement::Fixed(0x10_2000)),
        Some(0x10_2000)
    );
    assert_eq!(free_pages(&mut mm, 0x10_3000, 2), Ok(()));
    assert_eq!(
        snapshot(&mm),
        vec![
            (MemoryType::EfiConventionalMemory, 0x10_0000, 2),
            (MemoryType::EfiRuntimeServicesData, 0x10_2000, 1),
            (MemoryType::EfiConventionalMemory, 0x10_3000, 2),
            (MemoryType::EfiRuntimeServicesData, 0x10_5000, 1),
            (MemoryType::EfiConventionalMemory, 0x10_6000, 10),
        ]
    );
    assert_eq!(mm.get(1).map(|d| d.attribute), Some(0x8000_0000_0000_0008));
    assert_eq!(mm.get(2).map(|d| d.attribute), Some(0x8));
}

#[test]
fn the_key_moves_with_changes_and_not_with_queries() {
    let mut mm = MemoryMap::new();
    assert_eq!(key(&mm), 1);
    assert_eq!(declare_memory_region(&mut mm, 0x10_0000, 16 * 4096), Ok(()));
    assert_eq!(key(&mm), 2);
    let _ = len(&mm);
    let _ = mm.get(0);
    let mut copy = vec![mm.get(0).unwrap()];
    assert_eq!(copy_to_slice(&mm, &mut copy), 2);
    assert_eq!(key(&mm), 2);
    assert_eq!(declare_memory_region(&mut mm, 0x10_0000, 16 * 4096), Err(()));
    assert_eq!(key(&mm), 2);
    assert_eq!(allocate_pages(&mut mm, 1, MemoryType::EfiLoaderData, Placement::Anywhere), Some(0x10_f000));
    assert_eq!(key(&mm), 4);
    assert_eq!(allocate_pages(&mut mm, 100, MemoryType::EfiLoaderData, Placement::Anywhere), None);
    assert_eq!(key(&mm), 4);
    assert_eq!(free_pages(&mut mm, 0x10_f000, 1), Ok(()));
    assert_eq!(key(&mm), 5);
}

#[test]
fn copy_to_slice_gives_the_descriptors_in_order() {
    let mut mm = map_of(&[(0x30_0000, 1), (0x10_0000, 2)]);
    assert_eq!(declare_runtime_region(&mut mm, 0x20_0000, 3 * 4096), Ok(()));
    let filler = MemoryDescriptor {
        memory_type: MemoryType::EfiReservedMemoryType,
        physical_start: 0,
        virtual_start: 0,
        number_of_pages: 0,
        attribute: 0,
    };
    let mut tbl = vec![filler; 3];
    assert_eq!(copy_to_slice(&mm, &mut tbl), key(&mm));
    assert_eq!(tbl.len(), 3);
    assert_eq!(tbl[0].physical_start, 0x10_0000);
    assert_eq!(tbl[1].physical_start, 0x20_0000);
    assert_eq!(tbl[1].memory_type, MemoryType::EfiRuntimeServicesCode);
    assert_eq!(tbl[2].physical_start, 0x30_0000);
    for (i, d) in tbl.iter().enumerate() {
        assert_eq!(Some(*d), mm.get(i));
    }
}

#[test]
fn fixed_placement_gives_its_own_address_or_nothing() {
    let mut mm = map_of(&[(0x10_0000, 16), (0x40_0000, 16)]);
    assert_eq!(
        allocate_pages(&mut mm, 2, MemoryType::EfiLoaderCode, Placement::Fixed(0x10_3000)),
        Some(0x10_3000)
    );
    // taken already: no other address is substituted
    assert_eq!(
        allocate_pages(&mut mm, 2, MemoryType::EfiLoaderCode, Placement::Fixed(0x10_3000)),
        None
    );
    assert_eq!(
        allocate_pages(&mut mm, 2, MemoryType::EfiLoaderCode, Placement::Fixed(0x30_0000)),
        None
    );
    assert_eq!(
        allocate_pages(&mut mm, 17, MemoryType::EfiLoaderCode, Placement::Fixed(0x40_0000)),
        None
    );
    assert_eq!(
        allocate_pages(&mut mm, 16, MemoryType::EfiLoaderCode, Placement::Fixed(0x40_0000)),
        Some(0x40_0000)
    );
}

#[test]
fn highest_descriptor_is_preferred() {
    let mut mm = map_of(&[(0x10_0000, 16), (0x40_0000, 16), (0x80_0000, 2)]);
    assert_eq!(allocate_pages(&mut mm, 4, MemoryType::EfiLoaderData, Placement::Anywhere), Some(0x40_c000));
    assert_eq!(allocate_pages(&mut mm, 2, MemoryType::EfiLoaderData, Placement::Anywhere), Some(0x80_0000));
    assert_eq!(allocate_pages(&mut mm, 12, MemoryType::EfiLoaderData, Placement::Anywhere), Some(0x40_0000));
    assert_eq!(allocate_pages(&mut mm, 12, MemoryType::EfiLoaderData, Placement::Anywhere), Some(0x10_4000));
    assert_eq!(allocate_pages(&mut mm, 5, MemoryType::EfiLoaderData, Placement::Anywhere), None);
}

#[test]
fn max_placement_stays_at_or_below_the_limit() {
    let mut mm = map_of(&[(0x10_0000, 256)]);
    // the last byte may be the limit itself
    assert_eq!(
        allocate_pages(&mut mm, 4, MemoryType::EfiLoaderData, Placement::Max(0x18_0fff)),
        Some(0x17_d000)
    );
    let mut mm = map_of(&[(0x10_0000, 256)]);
    assert_eq!(
        allocate_pages(&mut mm, 4, MemoryType::EfiLoaderData, Placement::Max(0x18_0ffe)),
        Some(0x17_c000)
    );
    // below the lowest descriptor
    let mut mm = map_of(&[(0x10_0000, 256)]);
    assert_eq!(allocate_pages(&mut mm, 4, MemoryType::EfiLoaderData, Placement::Max(0x10_3ffe)), None);
    assert_eq!(
        allocate_pages(&mut mm, 4, MemoryType::EfiLoaderData, Placement::Max(0x10_3fff)),
        Some(0x10_0000)
    );
}

#[test]
fn max_placement_skips_descriptors_above_the_limit() {
    let mut mm = map_of(&[(0x10_0000, 16), (0x4000_0000, 16)]);
    assert_eq!(
        allocate_pages(&mut mm, 4, MemoryType::EfiLoaderData, Placement::Max(0xffff_ffff)),
        Some(0x4000_c000)
    );
    assert_eq!(
        allocate_pages(&mut mm, 4, MemoryType::EfiLoaderData, Placement::Max(0x3fff_ffff)),
        Some(0x10_c000)
    );
}

#[test]
fn max_align_mask_gives_the_highest_aligned_base() {
    let mut mm = map_of(&[(0x10_0000, 256)]);
    assert_eq!(
        allocate_pages(
            &mut mm,
            4,
            MemoryType::EfiLoaderData,
            Placement::MaxAlignMask(0x18_0fff, 0xffff)
        ),
        Some(0x17_0000)
    );
    // the base satisfies the mask and the region ends at or below the limit
    assert_eq!(0x17_0000u64 & 0xffff, 0);
    assert!(0x17_0000u64 + 4 * PAGE - 1 <= 0x18_0fff);
    // the next aligned base would end above the limit
    assert!(0x18_0000u64 + 4 * PAGE - 1 > 0x18_0fff);
}

#[test]
fn aligned_placement_counts_the_pages_lost_to_alignment() {
    // the descriptor starts 4 pages above a multiple of 64 KiB
    let mut mm = map_of(&[(0x10_4000, 16)]);
    // 12 pages are lost before 0x110000, which leaves 4
    assert_eq!(allocate_pages(&mut mm, 5, MemoryType::EfiLoaderData, Placement::Aligned(0x1_0000)), None);
    assert_eq!(
        allocate_pages(&mut mm, 4, MemoryType::EfiLoaderData, Placement::Aligned(0x1_0000)),
        Some(0x11_0000)
    );
    assert_eq!(
        snapshot(&mm),
        vec![
            (MemoryType::EfiConventionalMemory, 0x10_4000, 12),
            (MemoryType::EfiLoaderData, 0x11_0000, 4),
        ]
    );
}

#[test]
fn placements_with_a_bad_alignment_give_nothing() {
    let mut mm = map_of(&[(0x10_0000, 256)]);
    let k = key(&mm);
    assert_eq!(allocate_pages(&mut mm, 1, MemoryType::EfiLoaderData, Placement::Aligned(0)), None);
    assert_eq!(allocate_pages(&mut mm, 1, MemoryType::EfiLoaderData, Placement::Aligned(0x800)), None);
    assert_eq!(allocate_pages(&mut mm, 1, MemoryType::EfiLoaderData, Placement::Aligned(0x3000)), None);
    assert_eq!(allocate_pages(&mut mm, 1, MemoryType::EfiLoaderData, Placement::Random(7, 0)), None);
    assert_eq!(
        allocate_pages(&mut mm, 1, MemoryType::EfiLoaderData, Placement::MaxAlignMask(u64::MAX, 0xff)),
        None
    );
    assert_eq!(
        allocate_pages(&mut mm, 1, MemoryType::EfiLoaderData, Placement::MaxAlignMask(u64::MAX, 0x2fff)),
        None
    );
    assert_eq!(allocate_pages(&mut mm, 0, MemoryType::EfiLoaderData, Placement::Anywhere), None);
    assert_eq!(key(&mm), k);
}

#[test]
fn only_conventional_memory_is_allocated() {
    let mut mm = MemoryMap::new();
    assert_eq!(declare_runtime_region(&mut mm, 0x10_0000, 16 * 4096), Ok(()));
    assert_eq!(allocate_pages(&mut mm, 1, MemoryType::EfiLoaderData, Placement::Anywhere), None);
    assert_eq!(allocate_pages(&mut mm, 1, MemoryType::EfiLoaderData, Placement::Random(0, 0x1000)), None);
    assert_eq!(allocate_pages(&mut mm, 1, MemoryType::EfiLoaderData, Placement::Fixed(0x10_0000)), None);
}

#[test]
fn random_placement_picks_the_slot_of_the_seed() {
    // 16 slots of 64 KiB for 4 pages in 1 MiB
    let seeds: [(u32, u64); 5] = [
        (0, 0x10_0000),
        (0x8000_0000, 0x18_0000),
        (0x0fff_ffff, 0x10_0000),
        (0x1000_0000, 0x11_0000),
        (u32::MAX, 0x1f_0000),
    ];
    for (seed, expected) in seeds {
        let mut mm = map_of(&[(0x10_0000, 256)]);
        assert_eq!(
            allocate_pages(&mut mm, 4, MemoryType::EfiLoaderCode, Placement::Random(seed, 0x1_0000)),
            Some(expected)
        );
    }
}

#[test]
fn random_placement_counts_slots_across_descriptors() {
    // 2 slots in the first descriptor, none in the second (too small), 4 in the third
    let regions = [(0x10_0000u64, 32u64), (0x40_0000, 8), (0x80_0000, 64)];
    let expected: [(u32, u64); 6] = [
        (0, 0x10_0000),
        (0x2aaa_aaab, 0x11_0000),
        (0x5555_5556, 0x80_0000),
        (0x8000_0000, 0x81_0000),
        (0xaaaa_aaab, 0x82_0000),
        (0xd555_5556, 0x83_0000),
    ];
    for (seed, base) in expected {
        let mut mm = map_of(&regions);
        assert_eq!(
            allocate_pages(&mut mm, 16, MemoryType::EfiLoaderCode, Placement::Random(seed, 0x1_0000)),
            Some(base)
        );
    }
}

#[test]
fn descriptors_of_a_type_cover_what_was_declared_with_it() {
    let conventional = [(0x10_0000u64, 4u64), (0x10_8000, 4), (0x10_4000, 2), (0x40_0000, 8)];
    let runtime = [(0x10_6000u64, 2u64), (0x20_0000, 3), (0x3f_f000, 1)];
    let mut mm = MemoryMap::new();
    let mut declared: Vec<(MemoryType, u64, u64)> = Vec::new();
    for i in 0..4 {
        let (base, pages) = conventional[i];
        assert_eq!(declare_memory_region(&mut mm, base, (pages * PAGE) as usize), Ok(()));
        declared.push((MemoryType::EfiConventionalMemory, base, pages));
        if i < 3 {
            let (base, pages) = runtime[i];
            assert_eq!(declare_runtime_region(&mut mm, base, (pages * PAGE) as usize), Ok(()));
            declared.push((MemoryType::EfiRuntimeServicesCode, base, pages));
        }
        // at every point: each page has the type that it was declared with, or none
        let map = snapshot(&mm);
        let mut page = 0x0f_0000u64;
        while page < 0x42_0000 {
            let have = map
                .iter()
                .filter(|(_, s, n)| *s <= page && page < s + n * PAGE)
                .map(|(t, _, _)| *t)
                .collect::<Vec<_>>();
            let want = declared
                .iter()
                .filter(|(_, s, n)| *s <= page && page < s + n * PAGE)
                .map(|(t, _, _)| *t)
                .collect::<Vec<_>>();
            assert_eq!(have, want);
            assert!(have.len() <= 1);
            page += PAGE;
        }
        // no descriptor overlaps the next, and none touches one of its own type
        for w in map.windows(2) {
            assert!(w[0].1 + w[0].2 * PAGE <= w[1].1);
            assert!(w[0].1 + w[0].2 * PAGE < w[1].1 || w[0].0 != w[1].0);
        }
    }
    assert_eq!(
        snapshot(&mm),
        vec![
            (MemoryType::EfiConventionalMemory, 0x10_0000, 6),
            (MemoryType::EfiRuntimeServicesCode, 0x10_6000, 2),
            (MemoryType::EfiConventionalMemory, 0x10_8000, 4),
            (MemoryType::EfiRuntimeServicesCode, 0x20_0000, 3),
            (MemoryType::EfiRuntimeServicesCode, 0x3f_f000, 1),
            (MemoryType::EfiConventionalMemory, 0x40_0000, 8),
        ]
    );
}

fn attributes(mm: &MemoryMap) -> Vec<(MemoryType, u64, u64, u64)> {
    let mut out = Vec::new();
    let mut i = 0;
    while let Some(d) = mm.get(i) {
        out.push((d.memory_type, d.physical_start, d.number_of_pages, d.attribute));
        i += 1;
    }
    out
}

const RUNTIME: u64 = 0x8000_0000_0000_0000;
const UNCACHED: u64 = 0x1;

#[test]
fn a_declaration_carries_its_attribute_with_write_back() {
    let mut mm = MemoryMap::new();
    assert_eq!(declare_region(&mut mm, 0x900_0000, 1, MemoryType::EfiMemoryMappedIO, RUNTIME), Ok(()));
    assert_eq!(declare_region(&mut mm, 0xa00_0000, 2, MemoryType::EfiMemoryMappedIO, UNCACHED), Ok(()));
    assert_eq!(declare_region(&mut mm, 0xb00_0000, 3, MemoryType::EfiLoaderData, 0x8), Ok(()));
    assert_eq!(
        attributes(&mm),
        vec![
            (MemoryType::EfiMemoryMappedIO, 0x900_0000, 1, RUNTIME | 0x8),
            (MemoryType::EfiMemoryMappedIO, 0xa00_0000, 2, 0x9),
            (MemoryType::EfiLoaderData, 0xb00_0000, 3, 0x8),
        ]
    );
}

#[test]
fn touching_regions_coalesce_only_with_one_type_and_one_attribute() {
    let t = MemoryType::EfiMemoryMappedIO;
    let mut mm = MemoryMap::new();
    assert_eq!(declare_region(&mut mm, 0x10000, 2, t, RUNTIME), Ok(()));
    // the same type with another attribute, on either side
    assert_eq!(declare_region(&mut mm, 0x12000, 2, t, 0), Ok(()));
    assert_eq!(declare_region(&mut mm, 0xe000, 2, t, UNCACHED), Ok(()));
    assert_eq!(
        attributes(&mm),
        vec![(t, 0xe000, 2, 0x9), (t, 0x10000, 2, RUNTIME | 0x8), (t, 0x12000, 2, 0x8)]
    );
    // the same type and attribute: taken in on either side
    assert_eq!(declare_region(&mut mm, 0x14000, 1, t, 0), Ok(()));
    assert_eq!(declare_region(&mut mm, 0xd000, 1, t, UNCACHED), Ok(()));
    assert_eq!(
        attributes(&mm),
        vec![(t, 0xd000, 3, 0x9), (t, 0x10000, 2, RUNTIME | 0x8), (t, 0x14000 - 0x2000, 3, 0x8)]
    );
    // another type with the same attribute stays apart
    assert_eq!(declare_region(&mut mm, 0x15000, 1, MemoryType::EfiLoaderData, 0), Ok(()));
    assert_eq!(len(&mm), 4);
}

#[test]
fn a_region_between_two_of_its_kind_joins_both_whatever_the_order() {
    let t = MemoryType::EfiMemoryMappedIO;
    let mut a = MemoryMap::new();
    assert_eq!(declare_region(&mut a, 0x10000, 2, t, RUNTIME), Ok(()));
    assert_eq!(declare_region(&mut a, 0x14000, 2, t, RUNTIME), Ok(()));
    assert_eq!(declare_region(&mut a, 0x12000, 2, t, RUNTIME), Ok(()));
    let mut b = MemoryMap::new();
    assert_eq!(declare_region(&mut b, 0x12000, 2, t, RUNTIME), Ok(()));
    assert_eq!(declare_region(&mut b, 0x10000, 2, t, RUNTIME), Ok(()));
    assert_eq!(declare_region(&mut b, 0x14000, 2, t, RUNTIME), Ok(()));
    assert_eq!(attributes(&a), vec![(t, 0x10000, 6, RUNTIME | 0x8)]);
    assert_eq!(attributes(&b), attributes(&a));
}

#[test]
fn a_conversion_gives_the_attribute_of_the_new_type() {
    let mut mm = MemoryMap::new();
    assert_eq!(declare_region(&mut mm, 0x10000, 4, MemoryType::EfiConventionalMemory, UNCACHED), Ok(()));
    assert_eq!(
        allocate_pages_fixed(&mut mm, 0x11000, 1, MemoryType::EfiRuntimeServicesData),
        Some(0x11000)
    );
    assert_eq!(
        attributes(&mm),
        vec![
            (MemoryType::EfiConventionalMemory, 0x10000, 1, 0x9),
            (MemoryType::EfiRuntimeServicesData, 0x11000, 1, RUNTIME | 0x8),
            (MemoryType::EfiConventionalMemory, 0x12000, 2, 0x9),
        ]
    );
    // freed memory is plain conventional memory, which the uncached
    // descriptors around it do not take in
    assert_eq!(free_pages(&mut mm, 0x11000, 1), Ok(()));
    assert_eq!(
        attributes(&mm),
        vec![
            (MemoryType::EfiConventionalMemory, 0x10000, 1, 0x9),
            (MemoryType::EfiConventionalMemory, 0x11000, 1, 0x8),
            (MemoryType::EfiConventionalMemory, 0x12000, 2, 0x9),
        ]
    );
    // and an allocation cannot span descriptors of different attributes
    assert_eq!(allocate_pages_fixed(&mut mm, 0x10000, 2, MemoryType::EfiLoaderData), None);
    assert_eq!(allocate_pages_fixed(&mut mm, 0x12000, 2, MemoryType::EfiLoaderData), Some(0x12000));
}
