use efilite::efi::devicepath::is_prefix;
use efilite::efi::guid::Guid;
use efilite::efi::initrdloadfile2::{
    efi_device_path_protocol_guid, efi_load_file2_protocol_guid, initrd_device_path,
    linux_efi_initrd_media_guid, new as new_load_file2,
};
use efilite::efi::loadedimage::{
    efi_loaded_image_protocol_guid, linux_efi_loaded_image_rand_guid, LoadedImage,
    EFI_LOADED_IMAGE_PROTOCOL_REVISION,
};
use efilite::efi::memorytype::MemoryType;
use efilite::efi::protocol::ProtocolDb;
use efilite::efi::rng::{efi_rng_protocol_guid, new as new_rng};
use efilite::efi::HandleCounter;

#[test]
fn an_identifier_lies_in_memory_in_mixed_order() {
    let g = Guid::new(0x5568e427, 0x68fc, 0x4f3d, [0xac, 0x74, 0xca, 0x55, 0x52, 0x31, 0xcc, 0x68]);
    let mut out = [0xeeu8; 18];
    g.encode(&mut out, 1);
    assert_eq!(
        out,
        [
            0xee, 0x27, 0xe4, 0x68, 0x55, 0xfc, 0x68, 0x3d, 0x4f, 0xac, 0x74, 0xca, 0x55, 0x52,
            0x31, 0xcc, 0x68, 0xee
        ]
    );
}

#[test]
fn the_device_path_of_the_initial_ram_disk() {
    let path = initrd_device_path();
    assert_eq!(
        path,
        vec![
            4, 3, 20, 0, 0x27, 0xe4, 0x68, 0x55, 0xfc, 0x68, 0x3d, 0x4f, 0xac, 0x74, 0xca, 0x55,
            0x52, 0x31, 0xcc, 0x68, 0x7f, 0xff, 4, 0
        ]
    );
    // the path is a prefix of itself up to its end node
    assert_eq!(is_prefix(&path, &path), 20);
    assert!(linux_efi_initrd_media_guid() == Guid::new(0x5568e427, 0x68fc, 0x4f3d, [0xac, 0x74, 0xca, 0x55, 0x52, 0x31, 0xcc, 0x68]));
}

#[test]
fn a_loaded_image_gets_a_handle_and_its_protocols() {
    let mut handles = HandleCounter::new();
    let mut db = ProtocolDb::new();
    let li = LoadedImage::new(
        &mut handles,
        &(0x4000_0000..0x4012_3000),
        0x5000_0000,
        7,
        MemoryType::EfiLoaderCode,
        MemoryType::EfiLoaderData,
        0x4000_1000,
        false,
    );
    assert_eq!(li.image_handle, 1);
    assert_eq!(li.revision, EFI_LOADED_IMAGE_PROTOCOL_REVISION);
    assert_eq!(li.revision, 0x1000);
    assert_eq!(li.parent_handle, 0);
    assert_eq!(li.device_handle, 0);
    assert_eq!(li.reserved, usize::MAX);
    assert_eq!(li.load_options_size, 14);
    assert_eq!(li.load_options, 0x5000_0000);
    assert_eq!(li.image_base, 0x4000_0000);
    assert_eq!(li.image_size, 0x12_3000);
    assert_eq!(li.image_code_type, MemoryType::EfiLoaderCode);
    assert_eq!(li.image_data_type, MemoryType::EfiLoaderData);
    assert_eq!(li.entrypoint, 0x4000_1000);
    assert!(!li.randomized);
    li.install(&mut db, 0x7000);
    assert_eq!(db.handle_protocol(1, &efi_loaded_image_protocol_guid()), Some(0x7000));
    assert_eq!(db.handle_protocol(1, &linux_efi_loaded_image_rand_guid()), None);

    let random = LoadedImage::new(
        &mut handles,
        &(0x5000_0000..0x5000_1000),
        0,
        0x8000_0001,
        MemoryType::EfiLoaderCode,
        MemoryType::EfiLoaderData,
        0x5000_0000,
        true,
    );
    assert_eq!(random.image_handle, 2);
    // the size of the options is cut to 32 bits
    assert_eq!(random.load_options_size, 2);
    random.install(&mut db, 0x8000);
    assert_eq!(db.handle_protocol(2, &efi_loaded_image_protocol_guid()), Some(0x8000));
    assert_eq!(db.handle_protocol(2, &linux_efi_loaded_image_rand_guid()), Some(0x8000));
    assert_eq!(db.handle_protocol(1, &efi_loaded_image_protocol_guid()), Some(0x7000));
    random.uninstall(&mut db);
    assert_eq!(db.handle_protocol(2, &efi_loaded_image_protocol_guid()), None);
    assert_eq!(db.handle_protocol(2, &linux_efi_loaded_image_rand_guid()), None);
    li.uninstall(&mut db);
    assert_eq!(db.handle_protocol(1, &efi_loaded_image_protocol_guid()), None);
    assert_eq!(db.len(), 0);
}

#[test]
fn the_initial_ram_disk_and_the_random_numbers_get_handles() {
    let mut handles = HandleCounter::new();
    let mut db = ProtocolDb::new();
    let rng = new_rng(&mut handles, &mut db, 0x100);
    let lf = new_load_file2(&mut handles, &mut db, 0x200, 0x300);
    assert_eq!(rng.handle, 1);
    assert_eq!(lf.handle, 2);
    assert_eq!(db.len(), 3);
    assert_eq!(db.entry(0).map(|e| (e.handle, e.interface)), Some((1, 0x100)));
    assert_eq!(db.entry(3).map(|e| e.handle), None);
    assert_eq!(db.handle_protocol(1, &efi_rng_protocol_guid()), Some(0x100));
    assert_eq!(db.handle_protocol(2, &efi_load_file2_protocol_guid()), Some(0x200));
    assert_eq!(db.handle_protocol(2, &efi_device_path_protocol_guid()), Some(0x300));
    assert_eq!(db.locate_protocol(&efi_device_path_protocol_guid()), Some(0x300));
    lf.remove(&mut db);
    assert_eq!(db.handle_protocol(2, &efi_load_file2_protocol_guid()), None);
    assert_eq!(db.handle_protocol(2, &efi_device_path_protocol_guid()), None);
    assert_eq!(db.handle_protocol(1, &efi_rng_protocol_guid()), Some(0x100));
    rng.remove(&mut db);
    assert_eq!(db.len(), 0);
}
