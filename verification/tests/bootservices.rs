use efilite::efi::bootservices::{
    allocate_pages, exit_boot_services, free_pages, get_memory_map, AllocateType, TaskPriority,
    EFI_MEMORY_DESCRIPTOR_SIZE, EFI_MEMORY_DESCRIPTOR_VERSION,
};
use efilite::efi::memmap::{declare_memory_region, key, MemoryMap};
use efilite::efi::memorytype::{encode_records, MemoryDescriptor, MemoryType};
use efilite::efi::status::Status;
use efilite::efi::{new_handle, HandleCounter, TPL_APPLICATION, TPL_NOTIFY};

fn word(bytes: &[u8], off: usize, n: usize) -> u64 {
    let mut v = 0u64;
    for i in (0..n).rev() {
        v = v << 8 | bytes[off + i] as u64;
    }
    v
}

fn one_megabyte() -> MemoryMap {
    let mut mm = MemoryMap::new();
    assert_eq!(declare_memory_region(&mut mm, 0x10_0000, 0x10_0000), Ok(()));
    mm
}

#[test]
fn status_codes_have_the_error_bit() {
    let base = isize::MAX as usize + 1;
    assert_eq!(Status::EFI_SUCCESS.code(), 0);
    assert_eq!(Status::EFI_LOAD_ERROR.code(), base + 1);
    assert_eq!(Status::EFI_INVALID_PARAMETER.code(), base + 2);
    assert_eq!(Status::EFI_UNSUPPORTED.code(), base + 3);
    assert_eq!(Status::EFI_BAD_BUFFER_SIZE.code(), base + 4);
    assert_eq!(Status::EFI_BUFFER_TOO_SMALL.code(), base + 5);
    assert_eq!(Status::EFI_NOT_READY.code(), base + 6);
    assert_eq!(Status::EFI_DEVICE_ERROR.code(), base + 7);
    assert_eq!(Status::EFI_WRITE_PROTECTED.code(), base + 8);
    assert_eq!(Status::EFI_OUT_OF_RESOURCES.code(), base + 9);
    assert_eq!(Status::EFI_NOT_FOUND.code(), base + 14);
    assert_eq!(Status::EFI_TIMEOUT.code(), base + 18);
    assert_eq!(Status::EFI_ABORTED.code(), base + 21);
    assert_eq!(Status::EFI_SECURITY_VIOLATION.code(), base + 26);
    assert!(!Status::EFI_SUCCESS.is_error());
    assert!(Status::EFI_NOT_FOUND.is_error());
}

#[test]
fn allocate_any_pages_reports_the_base() {
    let mut mm = one_megabyte();
    assert_eq!(
        allocate_pages(&mut mm, AllocateType::AllocateAnyPages, MemoryType::EfiLoaderData, 16, 0x1234),
        (Status::EFI_SUCCESS, 0x1f_0000)
    );
}

#[test]
fn allocate_max_address_uses_the_address_as_limit() {
    let mut mm = one_megabyte();
    assert_eq!(
        allocate_pages(
            &mut mm,
            AllocateType::AllocateMaxAddress,
            MemoryType::EfiLoaderData,
            16,
            0x17_ffff
        ),
        (Status::EFI_SUCCESS, 0x17_0000)
    );
}

#[test]
fn allocate_address_uses_the_address_itself() {
    let mut mm = one_megabyte();
    assert_eq!(
        allocate_pages(&mut mm, AllocateType::AllocateAddress, MemoryType::EfiLoaderData, 16, 0x12_0000),
        (Status::EFI_SUCCESS, 0x12_0000)
    );
    let k = key(&mm);
    assert_eq!(
        allocate_pages(&mut mm, AllocateType::AllocateAddress, MemoryType::EfiLoaderData, 16, 0x12_0000),
        (Status::EFI_OUT_OF_RESOURCES, 0x12_0000)
    );
    assert_eq!(key(&mm), k);
}

#[test]
fn allocate_without_room_is_out_of_resources() {
    let mut mm = one_megabyte();
    assert_eq!(
        allocate_pages(&mut mm, AllocateType::AllocateAnyPages, MemoryType::EfiLoaderData, 257, 77),
        (Status::EFI_OUT_OF_RESOURCES, 77)
    );
}

#[test]
fn free_pages_statuses() {
    let mut mm = one_megabyte();
    assert_eq!(
        allocate_pages(&mut mm, AllocateType::AllocateAnyPages, MemoryType::EfiLoaderData, 16, 0),
        (Status::EFI_SUCCESS, 0x1f_0000)
    );
    assert_eq!(free_pages(&mut mm, 0x1f_0001, 1), Status::EFI_INVALID_PARAMETER);
    assert_eq!(free_pages(&mut mm, 0x40_0000, 1), Status::EFI_NOT_FOUND);
    assert_eq!(free_pages(&mut mm, 0x1f_0000, 17), Status::EFI_NOT_FOUND);
    assert_eq!(free_pages(&mut mm, 0x1f_0000, 16), Status::EFI_SUCCESS);
    assert_eq!(mm.get(0).map(|d| d.number_of_pages), Some(256));
    assert_eq!(mm.get(1), None);
}

#[test]
fn get_memory_map_asks_for_room() {
    let mut mm = one_megabyte();
    assert_eq!(
        allocate_pages(&mut mm, AllocateType::AllocateAddress, MemoryType::EfiLoaderData, 1, 0x18_0000),
        (Status::EFI_SUCCESS, 0x18_0000)
    );
    let mut buffer = vec![0x5au8; 3 * 40 - 1];
    let reply = get_memory_map(&mm, &mut buffer);
    assert_eq!(reply.status, Status::EFI_BUFFER_TOO_SMALL);
    assert_eq!(reply.memory_map_size, 120);
    assert_eq!(buffer, vec![0x5au8; 3 * 40 - 1]);
    let reply = get_memory_map(&mm, &mut []);
    assert_eq!(reply.status, Status::EFI_BUFFER_TOO_SMALL);
    assert_eq!(reply.memory_map_size, 120);
}

#[test]
fn get_memory_map_copies_the_map_with_its_key() {
    let mut mm = one_megabyte();
    assert_eq!(
        allocate_pages(&mut mm, AllocateType::AllocateAddress, MemoryType::EfiLoaderData, 1, 0x18_0000),
        (Status::EFI_SUCCESS, 0x18_0000)
    );
    let mut buffer = vec![0x5au8; 120];
    let reply = get_memory_map(&mm, &mut buffer);
    assert_eq!(reply.status, Status::EFI_SUCCESS);
    assert_eq!(reply.memory_map_size, 120);
    assert_eq!(reply.map_key, key(&mm));
    assert_eq!(reply.descriptor_size, EFI_MEMORY_DESCRIPTOR_SIZE);
    assert_eq!(reply.descriptor_size, 40);
    assert_eq!(reply.descriptor_version, EFI_MEMORY_DESCRIPTOR_VERSION);
    assert_eq!(reply.descriptor_version, 1);
    // record 0: conventional memory, 128 pages at 1 MiB, write-back
    assert_eq!(word(&buffer, 0, 4), 7);
    assert_eq!(word(&buffer, 4, 4), 0);
    assert_eq!(word(&buffer, 8, 8), 0x10_0000);
    assert_eq!(word(&buffer, 16, 8), 0);
    assert_eq!(word(&buffer, 24, 8), 128);
    assert_eq!(word(&buffer, 32, 8), 0x8);
    // record 1: loader data, one page
    assert_eq!(word(&buffer, 40, 4), 2);
    assert_eq!(word(&buffer, 48, 8), 0x18_0000);
    assert_eq!(word(&buffer, 64, 8), 1);
    // record 2: the rest of the conventional memory
    assert_eq!(word(&buffer, 80, 4), 7);
    assert_eq!(word(&buffer, 88, 8), 0x18_1000);
    assert_eq!(word(&buffer, 104, 8), 127);
    assert_eq!(&buffer[..8], &[7, 0, 0, 0, 0, 0, 0, 0]);
    assert_eq!(&buffer[8..16], &[0, 0, 0x10, 0, 0, 0, 0, 0]);
    // a larger buffer is fine: what follows the records stays as it was
    let mut large = vec![0xa5u8; 4096];
    let reply = get_memory_map(&mm, &mut large);
    assert_eq!(reply.status, Status::EFI_SUCCESS);
    assert_eq!(reply.memory_map_size, 120);
    assert_eq!(&large[..120], &buffer[..]);
    assert!(large[120..].iter().all(|b| *b == 0xa5));
}

#[test]
fn get_memory_map_of_an_empty_map() {
    let mm = MemoryMap::new();
    let reply = get_memory_map(&mm, &mut []);
    assert_eq!(reply.status, Status::EFI_SUCCESS);
    assert_eq!(reply.memory_map_size, 0);
    assert_eq!(reply.map_key, 1);
}

#[test]
fn exit_boot_services_wants_the_current_key() {
    let mut mm = one_megabyte();
    let mut buffer = vec![0u8; 4096];
    let reply = get_memory_map(&mm, &mut buffer);
    assert_eq!(exit_boot_services(&mm, reply.map_key), Status::EFI_SUCCESS);
    assert_eq!(exit_boot_services(&mm, reply.map_key + 1), Status::EFI_INVALID_PARAMETER);
    assert_eq!(
        allocate_pages(&mut mm, AllocateType::AllocateAnyPages, MemoryType::EfiLoaderData, 1, 0).0,
        Status::EFI_SUCCESS
    );
    // the map changed after the snapshot was taken
    assert_eq!(exit_boot_services(&mm, reply.map_key), Status::EFI_INVALID_PARAMETER);
    assert_eq!(exit_boot_services(&mm, key(&mm)), Status::EFI_SUCCESS);
}

#[test]
fn task_priority_is_swapped() {
    let mut tpl = TaskPriority::new();
    assert_eq!(tpl.raise_tpl(TPL_NOTIFY), TPL_APPLICATION);
    assert_eq!(tpl.raise_tpl(31), TPL_NOTIFY);
    tpl.restore_tpl(TPL_APPLICATION);
    assert_eq!(tpl.raise_tpl(8), 4);
}

#[test]
fn handles_count_up_from_one() {
    let mut counter = HandleCounter::new();
    assert_eq!(new_handle(&mut counter), 1);
    assert_eq!(new_handle(&mut counter), 2);
    assert_eq!(new_handle(&mut counter), 3);
}

#[test]
fn records_are_written_one_after_the_other() {
    let records = vec![
        MemoryDescriptor {
            memory_type: MemoryType::EfiMemoryMappedIO,
            physical_start: 0x900_0000,
            virtual_start: 0,
            number_of_pages: 1,
            attribute: 0x8000_0000_0000_0008,
        },
        MemoryDescriptor {
            memory_type: MemoryType::EfiPersistentMemory,
            physical_start: 0x1_0000_0000,
            virtual_start: 0,
            number_of_pages: 0x0102_0304,
            attribute: 0x8,
        },
    ];
    let mut out = vec![0xffu8; 83];
    encode_records(&records, &mut out);
    assert_eq!(word(&out, 0, 4), 11);
    assert_eq!(word(&out, 4, 4), 0);
    assert_eq!(word(&out, 8, 8), 0x900_0000);
    assert_eq!(word(&out, 32, 8), 0x8000_0000_0000_0008);
    assert_eq!(out[39], 0x80);
    assert_eq!(word(&out, 40, 4), 14);
    assert_eq!(word(&out, 48, 8), 0x1_0000_0000);
    assert_eq!(&out[64..72], &[4, 3, 2, 1, 0, 0, 0, 0]);
    assert_eq!(word(&out, 72, 8), 0x8);
    assert_eq!(&out[80..], &[0xff, 0xff, 0xff]);
    // no records: nothing is written
    let mut none = vec![7u8; 5];
    encode_records(&Vec::new(), &mut none);
    assert_eq!(none, vec![7u8; 5]);
}
