use efilite::cmo::{dcache_clean_to_pou, line_size, zero_lines};
use efilite::console::write_str;
use efilite::cstring::{bcmp, byte_difference, memcmp, memcpy, memmove, memset};
use efilite::efi::guid::Guid;
use efilite::efi::protocol::{
    handle_protocol_status, locate_device_path, locate_status, ProtocolDb,
};
use efilite::efi::rng::{
    efi_rng_algorithm_raw, efi_rng_protocol_guid, get_info, get_rng_status, rng_algorithm_default,
    select_algorithm, wants_single_word,
};
use efilite::efi::status::Status;
use efilite::psci::{reset_system, ResetType, PSCI_SYSTEM_OFF, PSCI_SYSTEM_RESET};
use efilite::rng::{bits_to_request, fill_high, fill_low, have_rndr, have_smccc, upper_bytes, Random};

#[test]
fn reset_requests() {
    assert_eq!(PSCI_SYSTEM_OFF, 0x84000008);
    assert_eq!(PSCI_SYSTEM_RESET, 0x84000009);
    assert_eq!(reset_system(ResetType::EfiResetShutdown), PSCI_SYSTEM_OFF);
    assert_eq!(reset_system(ResetType::EfiResetCold), PSCI_SYSTEM_RESET);
    assert_eq!(reset_system(ResetType::EfiResetWarm), PSCI_SYSTEM_RESET);
    assert_eq!(reset_system(ResetType::EfiResetPlatformSpecific), PSCI_SYSTEM_RESET);
}

#[test]
fn cache_lines() {
    assert_eq!(line_size(0), 4);
    assert_eq!(line_size(4), 64);
    assert_eq!(line_size(15), 131072);
    // 64-byte lines
    let ctr = 4u64 << 16;
    assert_eq!(dcache_clean_to_pou(ctr, 0), Some((64, 0)));
    assert_eq!(dcache_clean_to_pou(ctr, 1), Some((64, 1)));
    assert_eq!(dcache_clean_to_pou(ctr, 64), Some((64, 1)));
    assert_eq!(dcache_clean_to_pou(ctr, 65), Some((64, 2)));
    assert_eq!(dcache_clean_to_pou(ctr, 4096), Some((64, 64)));
    assert_eq!(dcache_clean_to_pou(ctr | 0xffff_ffff_0000_ffff & !(1 << 28), 128), Some((64, 2)));
    assert_eq!(dcache_clean_to_pou(usize::MAX as u64 & 0, usize::MAX), Some((4, usize::MAX / 4 + 1)));
    // no cleaning is needed where the register says so
    assert_eq!(dcache_clean_to_pou(ctr | 1 << 28, 4096), None);
    assert_eq!(zero_lines(4), (64, 64));
    assert_eq!(zero_lines(0x14), (64, 64));
    assert_eq!(zero_lines(0), (4, 1024));
    assert_eq!(zero_lines(10), (4096, 1));
    assert_eq!(zero_lines(11), (8192, 0));
}

#[test]
fn line_feeds_get_a_carriage_return() {
    assert_eq!(write_str(b""), b"".to_vec());
    assert_eq!(write_str(b"abc"), b"abc".to_vec());
    assert_eq!(write_str(b"abc\n"), b"abc\r\n".to_vec());
    assert_eq!(write_str(b"\n\nx\ny"), b"\r\n\r\nx\r\ny".to_vec());
    assert_eq!(write_str(b"a\r\nb"), b"a\r\r\nb".to_vec());
}

#[test]
fn comparing_bytes() {
    assert_eq!(memcmp(b"abcd", b"abcd", 4), 0);
    assert_eq!(memcmp(b"abcd", b"abce", 3), 0);
    assert_eq!(memcmp(b"abcd", b"abce", 4), -1);
    assert_eq!(memcmp(b"abzd", b"abce", 4), 23);
    assert_eq!(memcmp(&[0, 255], &[0, 0], 2), 255);
    assert_eq!(memcmp(&[0, 0], &[0, 255], 2), -255);
    assert_eq!(memcmp(b"x", b"y", 0), 0);
    assert_eq!(bcmp(b"abzd", b"abce", 4), 23);
    assert_eq!(bcmp(b"abzd", b"abzd", 4), 0);
    assert_eq!(byte_difference(3, 5), -2);
}

#[test]
fn filling_and_copying_bytes() {
    let mut buf = [1u8, 2, 3, 4, 5];
    memset(&mut buf, 9, 3);
    assert_eq!(buf, [9, 9, 9, 4, 5]);
    memset(&mut buf, 7, 0);
    assert_eq!(buf, [9, 9, 9, 4, 5]);
    memcpy(&mut buf, &[1, 2, 3, 4], 2);
    assert_eq!(buf, [1, 2, 9, 4, 5]);
    let mut buf = [0u8, 1, 2, 3, 4, 5, 6, 7];
    // overlapping, to a higher address
    memmove(&mut buf, 2, 0, 5);
    assert_eq!(buf, [0, 1, 0, 1, 2, 3, 4, 7]);
    let mut buf = [0u8, 1, 2, 3, 4, 5, 6, 7];
    // overlapping, to a lower address
    memmove(&mut buf, 0, 2, 5);
    assert_eq!(buf, [2, 3, 4, 5, 6, 5, 6, 7]);
    let mut buf = [0u8, 1, 2, 3, 4, 5, 6, 7];
    memmove(&mut buf, 4, 0, 4);
    assert_eq!(buf, [0, 1, 2, 3, 0, 1, 2, 3]);
    memmove(&mut buf, 3, 3, 5);
    assert_eq!(buf, [0, 1, 2, 3, 0, 1, 2, 3]);
}

#[test]
fn sources_of_random_numbers() {
    assert!(!have_rndr(0));
    assert!(!have_rndr(0x0fff_ffff_ffff_ffff));
    assert!(have_rndr(0x1000_0000_0000_0000));
    assert!(have_rndr(u64::MAX));
    assert!(have_smccc(0x10000, 0, 0x10001, 0x10000, 0));
    assert!(have_smccc(0x10001, 0, 0x20000, 0x10002, 0));
    assert!(!have_smccc(0xffff, 0, 0x10001, 0x10000, 0));
    assert!(!have_smccc(0x10000, -1, 0x10001, 0x10000, 0));
    assert!(!have_smccc(0x10000, 0, 0x10000, 0x10000, 0));
    assert!(!have_smccc(0x10000, 0, 0x10001, -1, 0));
    assert!(!have_smccc(0x10000, 0, 0x10001, 0x10000, -1));
    assert_eq!(Random::new(1 << 60, true), Random { have_smccc: true, have_rndr: true });
    assert_eq!(Random::new(1 << 59, false), Random { have_smccc: false, have_rndr: false });
    assert_eq!(bits_to_request(0), 0);
    assert_eq!(bits_to_request(1), 8);
    assert_eq!(bits_to_request(23), 184);
    assert_eq!(bits_to_request(24), 192);
    assert_eq!(bits_to_request(1000), 192);
}

#[test]
fn words_fill_a_buffer() {
    let word = 0x0102_0304_0506_0708u64;
    let mut buf = [0xeeu8; 12];
    assert_eq!(fill_low(&mut buf, 0, word), 8);
    assert_eq!(buf, [8, 7, 6, 5, 4, 3, 2, 1, 0xee, 0xee, 0xee, 0xee]);
    assert_eq!(fill_low(&mut buf, 8, word), 12);
    assert_eq!(buf, [8, 7, 6, 5, 4, 3, 2, 1, 8, 7, 6, 5]);
    assert_eq!(fill_low(&mut buf, 12, word), 12);
    let mut buf = [0xeeu8; 12];
    assert_eq!(fill_high(&mut buf, 0, word), 8);
    assert_eq!(buf, [8, 7, 6, 5, 4, 3, 2, 1, 0xee, 0xee, 0xee, 0xee]);
    // the four highest bytes, the lowest of them first
    assert_eq!(fill_high(&mut buf, 8, word), 12);
    assert_eq!(buf, [8, 7, 6, 5, 4, 3, 2, 1, 4, 3, 2, 1]);
    let mut one = [0u8; 1];
    assert_eq!(fill_high(&mut one, 0, word), 1);
    assert_eq!(one, [1]);
    assert_eq!(upper_bytes(word, 0), word);
    assert_eq!(upper_bytes(word, 3), 0x01_0203_0405);
    assert_eq!(upper_bytes(word, 8), 0);
}

#[test]
fn random_number_protocol() {
    assert_eq!(get_info(0), (Status::EFI_BUFFER_TOO_SMALL, 2));
    assert_eq!(get_info(1), (Status::EFI_BUFFER_TOO_SMALL, 2));
    assert_eq!(get_info(2), (Status::EFI_SUCCESS, 2));
    assert_eq!(get_info(100), (Status::EFI_SUCCESS, 2));
    assert_eq!(select_algorithm(None), Ok(false));
    assert_eq!(select_algorithm(Some(rng_algorithm_default())), Ok(false));
    assert_eq!(select_algorithm(Some(efi_rng_algorithm_raw())), Ok(true));
    assert_eq!(select_algorithm(Some(efi_rng_protocol_guid())), Err(Status::EFI_UNSUPPORTED));
    assert_eq!(rng_algorithm_default().data1, 0xb65fc704);
    assert_eq!(efi_rng_algorithm_raw().data4, [0xb7, 0x84, 0x7f, 0xfd, 0xc4, 0xb6, 0x85, 0x61]);
    assert_eq!(efi_rng_protocol_guid().data2, 0xeade);
    assert!(wants_single_word(false, 8));
    assert!(wants_single_word(false, 0));
    assert!(!wants_single_word(false, 9));
    assert!(!wants_single_word(true, 4));
    assert_eq!(get_rng_status(true), Status::EFI_SUCCESS);
    assert_eq!(get_rng_status(false), Status::EFI_NOT_READY);
}

#[test]
fn protocols_are_installed_per_handle_and_identifier() {
    let a = Guid::new(1, 2, 3, [4; 8]);
    let b = Guid::new(1, 2, 3, [5; 8]);
    let mut db = ProtocolDb::new();
    assert_eq!(db.handle_protocol(1, &a), None);
    assert_eq!(db.locate_protocol(&a), None);
    db.install_protocol(7, &a, 0x7000);
    db.install_protocol(3, &a, 0x3000);
    db.install_protocol(3, &b, 0x3b00);
    db.install_protocol(9, &a, 0x9000);
    assert_eq!(db.handle_protocol(7, &a), Some(0x7000));
    assert_eq!(db.handle_protocol(3, &a), Some(0x3000));
    assert_eq!(db.handle_protocol(3, &b), Some(0x3b00));
    assert_eq!(db.handle_protocol(7, &b), None);
    assert_eq!(db.handle_protocol(4, &a), None);
    // the lowest handle that offers the protocol
    assert_eq!(db.locate_protocol(&a), Some(0x3000));
    assert_eq!(db.locate_protocol(&b), Some(0x3b00));
    // installing again replaces
    db.install_protocol(3, &a, 0x3333);
    assert_eq!(db.handle_protocol(3, &a), Some(0x3333));
    assert_eq!(db.handle_protocol(3, &b), Some(0x3b00));
    db.uninstall_protocol(3, &a);
    assert_eq!(db.handle_protocol(3, &a), None);
    assert_eq!(db.handle_protocol(3, &b), Some(0x3b00));
    assert_eq!(db.locate_protocol(&a), Some(0x7000));
    db.uninstall_protocol(3, &a);
    db.uninstall_protocol(7, &a);
    db.uninstall_protocol(9, &a);
    assert_eq!(db.locate_protocol(&a), None);
    assert_eq!(handle_protocol_status(Some(1)), Status::EFI_SUCCESS);
    assert_eq!(handle_protocol_status(None), Status::EFI_UNSUPPORTED);
    assert_eq!(locate_status(Some(1)), Status::EFI_SUCCESS);
    assert_eq!(locate_status(None), Status::EFI_NOT_FOUND);
}

#[test]
fn the_device_whose_path_matches_most_is_located() {
    assert_eq!(locate_device_path(&vec![]), None);
    assert_eq!(locate_device_path(&vec![0, 0, 0]), None);
    assert_eq!(locate_device_path(&vec![0, 20, 0]), Some(1));
    assert_eq!(locate_device_path(&vec![20, 30, 24]), Some(1));
    // of several that match as much, the last
    assert_eq!(locate_device_path(&vec![30, 20, 30, 0]), Some(2));
}
