use efilite::mapper::{
    get_attr_from_flags, match_efi_attributes, remap_outcome, retry_outcome, uniform_attributes,
    MapFault, MemoryMapper, RemapStep, WalkedEntry, EFI_MEMORY_RO, EFI_MEMORY_XP, KNOWN_FLAGS,
};
use efilite::paging::Attributes;

fn rw() -> Attributes {
    Attributes::normal().non_global().execute_disable().valid()
}

fn ro() -> Attributes {
    Attributes::normal().non_global().read_only().valid()
}

fn rwx() -> Attributes {
    Attributes::normal().non_global().valid()
}

#[test]
fn firmware_attributes_to_entry_flags() {
    assert_eq!(EFI_MEMORY_XP, 0x4000);
    assert_eq!(EFI_MEMORY_RO, 0x20000);
    assert_eq!(match_efi_attributes(0).bits(), 0);
    assert_eq!(match_efi_attributes(EFI_MEMORY_RO).bits(), 0x80);
    assert_eq!(match_efi_attributes(EFI_MEMORY_XP).bits(), 3 << 53);
    assert_eq!(match_efi_attributes(EFI_MEMORY_RO | EFI_MEMORY_XP).bits(), 3 << 53 | 0x80);
    // other bits play no part
    assert_eq!(match_efi_attributes(0x8000_0000_0000_000f).bits(), 0);
    assert_eq!(match_efi_attributes(u64::MAX).bits(), 3 << 53 | 0x80);
}

#[test]
fn entry_flags_to_firmware_attributes() {
    assert_eq!(get_attr_from_flags(0), 0);
    assert_eq!(get_attr_from_flags(0x80), EFI_MEMORY_RO);
    assert_eq!(get_attr_from_flags(3 << 53), EFI_MEMORY_XP);
    assert_eq!(get_attr_from_flags(1 << 53), EFI_MEMORY_XP);
    assert_eq!(get_attr_from_flags(1 << 54), EFI_MEMORY_XP);
    assert_eq!(get_attr_from_flags(3 << 53 | 0x80), EFI_MEMORY_RO | EFI_MEMORY_XP);
    assert_eq!(get_attr_from_flags(0xb05), 0);
    assert_eq!(get_attr_from_flags(u64::MAX), EFI_MEMORY_RO | EFI_MEMORY_XP);
}

#[test]
fn outcomes_of_a_request() {
    assert_eq!(remap_outcome(Ok(())), RemapStep::Done);
    assert_eq!(remap_outcome(Err(MapFault::BreakBeforeMakeViolation)), RemapStep::BreakBeforeMake);
    assert_eq!(remap_outcome(Err(MapFault::AddressRange)), RemapStep::Failed);
    assert_eq!(remap_outcome(Err(MapFault::InvalidVirtualAddress)), RemapStep::Failed);
    assert_eq!(remap_outcome(Err(MapFault::RegionBackwards)), RemapStep::Failed);
    assert_eq!(remap_outcome(Err(MapFault::PteUpdateFault)), RemapStep::Failed);
    assert_eq!(remap_outcome(Err(MapFault::InvalidFlags)), RemapStep::Failed);
    assert_eq!(retry_outcome(Ok(())), RemapStep::Done);
    assert_eq!(retry_outcome(Err(MapFault::BreakBeforeMakeViolation)), RemapStep::Failed);
    assert_eq!(retry_outcome(Err(MapFault::PteUpdateFault)), RemapStep::Failed);
}

#[test]
fn a_walk_reports_what_all_entries_share() {
    let e = |valid: bool, flags: Option<u64>| WalkedEntry { valid, flags };
    assert_eq!(uniform_attributes(&vec![]), Some(0));
    assert_eq!(uniform_attributes(&vec![e(true, Some(0x705))]), Some(0));
    assert_eq!(uniform_attributes(&vec![e(true, Some(0x785)), e(true, Some(0x80))]), Some(EFI_MEMORY_RO));
    assert_eq!(
        uniform_attributes(&vec![e(true, Some(3 << 53)), e(true, Some(3 << 53 | 0x705))]),
        Some(EFI_MEMORY_XP)
    );
    assert_eq!(
        uniform_attributes(&vec![e(true, Some(3 << 53 | 0x80)); 5]),
        Some(EFI_MEMORY_RO | EFI_MEMORY_XP)
    );
    // differing protection
    assert_eq!(uniform_attributes(&vec![e(true, Some(0x80)), e(true, Some(0))]), None);
    assert_eq!(uniform_attributes(&vec![e(true, Some(0)), e(true, Some(0)), e(true, Some(3 << 53))]), None);
    assert_eq!(uniform_attributes(&vec![e(true, Some(1 << 53)), e(true, Some(3 << 53))]), None);
    // an invalid or unknown entry
    assert_eq!(uniform_attributes(&vec![e(false, Some(0x80))]), None);
    assert_eq!(uniform_attributes(&vec![e(true, Some(0x80)), e(false, Some(0x80))]), None);
    assert_eq!(uniform_attributes(&vec![e(true, None)]), None);
    assert_eq!(uniform_attributes(&vec![e(true, Some(0)), e(true, None)]), None);
}

#[test]
fn every_known_flag_is_accepted() {
    assert_eq!(KNOWN_FLAGS, 0x07e8_0000_0000_0fc7);
    let mut m = MemoryMapper::new();
    // all known flags but the table-or-page bit
    assert_eq!(
        m.map_range(&(0x8000_0000..0x8000_1000), Attributes { bits: 0x07e8_0000_0000_0fc5 }),
        Ok(())
    );
    assert_eq!(
        m.query_range(&(0x8000_0000..0x8000_1000)),
        Some(EFI_MEMORY_RO | EFI_MEMORY_XP)
    );
    for bit in [3u64, 4, 5, 12, 47, 48, 49, 50, 52, 59, 60, 61, 62, 63] {
        assert_eq!(
            m.map_range(&(0x8000_0000..0x8000_1000), Attributes { bits: 1 | 1 << bit }),
            Err(MapFault::InvalidFlags)
        );
    }
    assert_eq!(
        m.query_range(&(0x8000_0000..0x8000_1000)),
        Some(EFI_MEMORY_RO | EFI_MEMORY_XP)
    );
}

#[test]
fn a_new_map_has_nothing_mapped() {
    let m = MemoryMapper::new();
    for r in [0..0x1000usize, 0x8000_0000..0x8020_0000, 0x7f_ffff_f000..0x80_0000_0000] {
        assert_eq!(m.query_range(&r), None);
    }
}

#[test]
fn reserved_ranges_are_found_by_overlap() {
    let mut m = MemoryMapper::new();
    assert!(!m.range_is_reserved(&(0..usize::MAX)));
    assert_eq!(m.map_reserved_range(&(0x900_0000..0x900_1000), rw()), Ok(()));
    assert_eq!(m.map_reserved_range(&(0x4000_0000..0x4020_0000), ro()), Ok(()));
    assert!(m.range_is_reserved(&(0x900_0000..0x900_1000)));
    assert!(m.range_is_reserved(&(0x900_0fff..0x900_2000)));
    assert!(m.range_is_reserved(&(0x8ff_f000..0x900_0001)));
    assert!(m.range_is_reserved(&(0..usize::MAX)));
    assert!(m.range_is_reserved(&(0x4010_0000..0x4010_0001)));
    assert!(!m.range_is_reserved(&(0x900_1000..0x900_2000)));
    assert!(!m.range_is_reserved(&(0x8ff_f000..0x900_0000)));
    assert!(!m.range_is_reserved(&(0x4020_0000..0x4040_0000)));
    // an empty range counts where it lies strictly inside a reserved range
    assert!(m.range_is_reserved(&(0x900_0800..0x900_0800)));
    assert!(!m.range_is_reserved(&(0x900_0000..0x900_0000)));
    assert!(!m.range_is_reserved(&(0x900_1000..0x900_1000)));
}

#[test]
fn query_reports_the_protection_of_a_mapped_range() {
    let mut m = MemoryMapper::new();
    assert_eq!(m.map_range(&(0x8000_0000..0x8040_0000), rw()), Ok(()));
    assert_eq!(m.map_range(&(0x8040_0000..0x8040_3000), ro()), Ok(()));
    assert_eq!(m.map_range(&(0x8080_0000..0x8080_1000), rwx()), Ok(()));
    assert_eq!(m.map_range(&(0x8080_1000..0x8080_2000), Attributes::normal().valid().read_only().execute_disable()), Ok(()));
    assert_eq!(m.query_range(&(0x8000_0000..0x8040_0000)), Some(EFI_MEMORY_XP));
    assert_eq!(m.query_range(&(0x8010_0000..0x8010_1000)), Some(EFI_MEMORY_XP));
    assert_eq!(m.query_range(&(0x8040_0000..0x8040_3000)), Some(EFI_MEMORY_RO));
    assert_eq!(m.query_range(&(0x8040_1234..0x8040_1235)), Some(EFI_MEMORY_RO));
    assert_eq!(m.query_range(&(0x8080_0000..0x8080_1000)), Some(0));
    assert_eq!(m.query_range(&(0x8080_1000..0x8080_2000)), Some(EFI_MEMORY_RO | EFI_MEMORY_XP));
}

#[test]
fn query_fails_across_differing_protection() {
    let mut m = MemoryMapper::new();
    assert_eq!(m.map_range(&(0x8000_0000..0x8040_0000), rw()), Ok(()));
    assert_eq!(m.map_range(&(0x8040_0000..0x8040_3000), ro()), Ok(()));
    assert_eq!(m.query_range(&(0x803f_f000..0x8040_1000)), None);
    assert_eq!(m.query_range(&(0x8000_0000..0x8040_3000)), None);
}

#[test]
fn query_fails_on_unmapped_memory() {
    let mut m = MemoryMapper::new();
    assert_eq!(m.query_range(&(0x8000_0000..0x8000_1000)), None);
    assert_eq!(m.map_range(&(0x8000_0000..0x8000_1000), rw()), Ok(()));
    assert_eq!(m.query_range(&(0x8000_0000..0x8000_1000)), Some(EFI_MEMORY_XP));
    assert_eq!(m.query_range(&(0x8000_0000..0x8000_2000)), None);
    assert_eq!(m.query_range(&(0x7fff_f000..0x8000_1000)), None);
    // beyond what the map spans
    assert_eq!(m.query_range(&(0x80_0000_0000..0x80_0000_1000)), None);
    // a range that cannot be handed to the map
    assert_eq!(m.query_range(&(0..0)), None);
    assert_eq!(m.query_range(&(0..usize::MAX)), None);
}

#[test]
fn query_fails_on_reserved_ranges() {
    let mut m = MemoryMapper::new();
    assert_eq!(m.map_reserved_range(&(0x8000_0000..0x8000_2000), rw()), Ok(()));
    assert_eq!(m.map_range(&(0x8000_2000..0x8000_4000), rw()), Ok(()));
    assert_eq!(m.query_range(&(0x8000_0000..0x8000_2000)), None);
    assert_eq!(m.query_range(&(0x8000_1000..0x8000_3000)), None);
    assert_eq!(m.query_range(&(0x8000_2000..0x8000_4000)), Some(EFI_MEMORY_XP));
}

#[test]
fn remap_changes_the_protection() {
    let mut m = MemoryMapper::new();
    assert_eq!(m.map_range(&(0x8000_0000..0x8040_0000), rw()), Ok(()));
    assert_eq!(
        m.remap_range(&(0x8000_3000..0x8000_5000), EFI_MEMORY_RO, EFI_MEMORY_XP),
        RemapStep::Done
    );
    assert_eq!(m.query_range(&(0x8000_3000..0x8000_5000)), Some(EFI_MEMORY_RO));
    assert_eq!(m.query_range(&(0x8000_0000..0x8000_3000)), Some(EFI_MEMORY_XP));
    assert_eq!(m.query_range(&(0x8000_5000..0x8040_0000)), Some(EFI_MEMORY_XP));
    assert_eq!(m.query_range(&(0x8000_0000..0x8040_0000)), None);
    assert_eq!(
        m.remap_range_inactive(&(0x8000_3000..0x8000_5000), EFI_MEMORY_XP, EFI_MEMORY_RO),
        RemapStep::Done
    );
    assert_eq!(m.query_range(&(0x8000_0000..0x8040_0000)), Some(EFI_MEMORY_XP));
    assert_eq!(m.remap_range(&(0x8000_0000..0x8040_0000), 0, EFI_MEMORY_XP | EFI_MEMORY_RO), RemapStep::Done);
    assert_eq!(m.query_range(&(0x8000_0000..0x8040_0000)), Some(0));
}

#[test]
fn remap_refuses_reserved_ranges() {
    let mut m = MemoryMapper::new();
    assert_eq!(m.map_reserved_range(&(0x8000_0000..0x8000_2000), rw()), Ok(()));
    assert_eq!(m.map_range(&(0x8000_2000..0x8000_4000), rw()), Ok(()));
    assert_eq!(m.remap_range(&(0x8000_1000..0x8000_3000), EFI_MEMORY_RO, 0), RemapStep::Reserved);
    assert_eq!(m.remap_range_inactive(&(0x8000_0000..0x8000_1000), EFI_MEMORY_RO, 0), RemapStep::Reserved);
    // nothing was changed
    assert_eq!(m.query_range(&(0x8000_2000..0x8000_4000)), Some(EFI_MEMORY_XP));
    assert_eq!(m.remap_range(&(0x8000_2000..0x8000_3000), EFI_MEMORY_RO, 0), RemapStep::Done);
    assert_eq!(m.query_range(&(0x8000_2000..0x8000_3000)), Some(EFI_MEMORY_RO | EFI_MEMORY_XP));
}

#[test]
fn requests_that_the_map_refuses() {
    let mut m = MemoryMapper::new();
    // beyond the 512 GiB that a root at level 1 spans
    assert_eq!(m.map_range(&(0x80_0000_0000..0x80_0000_1000), rw()), Err(MapFault::AddressRange));
    assert_eq!(m.remap_range(&(0x80_0000_0000..0x80_0000_1000), EFI_MEMORY_RO, 0), RemapStep::Failed);
    // the end before the start
    assert_eq!(m.map_range(&(0x8000_2000..0x8000_1000), rw()), Err(MapFault::RegionBackwards));
    // flags that no mapping can have
    assert_eq!(m.map_range(&(0x8000_0000..0x8000_1000), rw().page()), Err(MapFault::InvalidFlags));
    // flags with a bit that the map does not know; the map is not touched
    assert_eq!(
        m.map_range(&(0x8000_0000..0x8000_1000), Attributes { bits: 0x9 }),
        Err(MapFault::InvalidFlags)
    );
    let mut other = MemoryMapper::new();
    assert_eq!(
        other.map_reserved_range(&(0x9000_0000..0x9000_1000), Attributes { bits: 1 << 52 }),
        Err(MapFault::InvalidFlags)
    );
    // the range is reserved all the same
    assert!(other.range_is_reserved(&(0x9000_0000..0x9000_1000)));
    assert_eq!(m.map_range(&(0..0), Attributes { bits: 1 << 63 }), Err(MapFault::InvalidFlags));
    assert_eq!(m.query_range(&(0x8000_0000..0x8000_1000)), None);
    assert_eq!(m.map_range(&(0x8000_0000..0x8000_1000), rw()), Ok(()));
    assert_eq!(m.query_range(&(0x8000_0000..0x8000_1000)), Some(EFI_MEMORY_XP));
    // ranges that cannot be handed over
    assert_eq!(m.map_range(&(0..0), rw()), Err(MapFault::AddressRange));
    assert_eq!(m.map_range(&(0x1000..usize::MAX), rw()), Err(MapFault::AddressRange));
    assert_eq!(m.remap_range(&(0..0), EFI_MEMORY_RO, 0), RemapStep::Failed);
    assert_eq!(m.remap_range_inactive(&(0x1000..usize::MAX), EFI_MEMORY_RO, 0), RemapStep::Failed);
}
