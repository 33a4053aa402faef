use efilite::efi::configtable::ConfigurationTable;
use efilite::efi::devicepath::{
    is_prefix, DevicePath, DevicePathSubtype, DevicePathType, VendorMedia,
};
use efilite::efi::guid::{same_bytes, Guid};
use efilite::efi::status::Status;
use efilite::efi::tableheader::{crc_step, TableHeader};
use efilite::initrd::{load_file, load_file_check, load_file_status, InitrdLoader};

fn node(kind: u8, subtype: u8, payload: &[u8]) -> Vec<u8> {
    let size = (payload.len() + 4) as u16;
    let mut v = vec![kind, subtype, size as u8, (size >> 8) as u8];
    v.extend_from_slice(payload);
    v
}

fn end() -> Vec<u8> {
    node(0x7f, 0xff, &[])
}

fn path(nodes: &[Vec<u8>]) -> Vec<u8> {
    nodes.concat()
}

#[test]
fn node_codes() {
    assert_eq!(DevicePathType::EFI_DEV_MEDIA.code(), 4);
    assert_eq!(DevicePathType::EFI_DEV_END_PATH.code(), 0x7f);
    assert_eq!(DevicePathSubtype::EFI_DEV_MEDIA_VENDOR.code(), 3);
    assert_eq!(DevicePathSubtype::EFI_DEV_END_ENTIRE.code(), 0xff);
    let header = DevicePath {
        _type: DevicePathType::EFI_DEV_MEDIA,
        subtype: DevicePathSubtype::EFI_DEV_MEDIA_VENDOR,
        size: 20,
    };
    let vendor = VendorMedia { header, vendor_guid: Guid::new(1, 2, 3, [4; 8]) };
    assert_eq!(vendor.header.size, 20);
    assert_eq!(vendor.vendor_guid.data1, 1);
}

#[test]
fn a_path_is_a_prefix_of_itself() {
    let a = node(4, 3, &[1, 2, 3, 4, 5, 6, 7, 8, 9, 10, 11, 12, 13, 14, 15, 16]);
    let p = path(&[a.clone(), end()]);
    assert_eq!(is_prefix(&p, &p), 20);
}

#[test]
fn a_prefix_matches_up_to_its_end_node() {
    let a = node(4, 3, &[1; 16]);
    let b = node(4, 4, &[2; 6]);
    let c = node(3, 1, &[]);
    let pfx = path(&[a.clone(), b.clone(), end()]);
    let long = path(&[a.clone(), b.clone(), c.clone(), end()]);
    assert_eq!(is_prefix(&pfx, &long), 30);
    assert_eq!(is_prefix(&path(&[a.clone(), end()]), &long), 20);
    // the longer path is no prefix of the shorter
    assert_eq!(is_prefix(&long, &pfx), 0);
}

#[test]
fn a_differing_node_is_no_match() {
    let a = node(4, 3, &[1; 16]);
    let mut other = a.clone();
    other[19] = 9;
    let b = node(4, 4, &[2; 6]);
    assert_eq!(is_prefix(&path(&[a.clone(), b.clone(), end()]), &path(&[other.clone(), b.clone(), end()])), 0);
    assert_eq!(is_prefix(&path(&[b.clone(), a.clone(), end()]), &path(&[b.clone(), other, end()])), 0);
    // the same payload under another subtype
    let a2 = node(4, 5, &[1; 16]);
    assert_eq!(is_prefix(&path(&[a.clone(), end()]), &path(&[a2, end()])), 0);
    // the same start with another size
    let short = node(4, 3, &[1; 8]);
    assert_eq!(is_prefix(&path(&[a, end()]), &path(&[short, end()])), 0);
}

#[test]
fn an_empty_prefix_matches_nothing() {
    let a = node(4, 3, &[1; 16]);
    assert_eq!(is_prefix(&end(), &path(&[a, end()])), 0);
    assert_eq!(is_prefix(&end(), &end()), 0);
    assert_eq!(is_prefix(&end(), &vec![]), 0);
}

#[test]
fn malformed_paths_match_nothing() {
    let a = node(4, 3, &[1; 16]);
    let good = path(&[a.clone(), end()]);
    // no end node
    assert_eq!(is_prefix(&a, &good), 0);
    assert_eq!(is_prefix(&vec![], &good), 0);
    assert_eq!(is_prefix(&vec![4, 3], &good), 0);
    // a node that claims less than a header
    assert_eq!(is_prefix(&vec![4, 3, 0, 0, 0x7f, 0xff, 4, 0], &vec![4, 3, 0, 0, 0x7f, 0xff, 4, 0]), 0);
    assert_eq!(is_prefix(&vec![4, 3, 3, 0, 0x7f, 0xff, 4, 0], &vec![4, 3, 3, 0, 0x7f, 0xff, 4, 0]), 0);
    // a node that claims more than there is
    assert_eq!(is_prefix(&vec![4, 3, 9, 0, 0x7f, 0xff, 4, 0], &vec![4, 3, 9, 0, 0x7f, 0xff, 4, 0]), 0);
    // the path is cut short
    assert_eq!(is_prefix(&good, &a[..10].to_vec()), 0);
    assert_eq!(is_prefix(&good, &vec![]), 0);
    // the end node of the prefix need not be in the path
    assert_eq!(is_prefix(&good, &a), 20);
}

#[test]
fn sizes_use_both_bytes() {
    let big = node(4, 3, &[7; 300]);
    assert_eq!(big[2], 0x30);
    assert_eq!(big[3], 0x01);
    let p = path(&[big, end()]);
    assert_eq!(is_prefix(&p, &p), 304);
}

#[test]
fn guids_compare_by_every_part() {
    let g = Guid::new(0x5b1b31a1, 0x9562, 0x11d2, [0x8e, 0x3f, 0x00, 0xa0, 0xc9, 0x69, 0x72, 0x3b]);
    assert!(g == Guid::new(0x5b1b31a1, 0x9562, 0x11d2, [0x8e, 0x3f, 0x00, 0xa0, 0xc9, 0x69, 0x72, 0x3b]));
    assert!(g != Guid::new(0x5b1b31a2, 0x9562, 0x11d2, [0x8e, 0x3f, 0x00, 0xa0, 0xc9, 0x69, 0x72, 0x3b]));
    assert!(g != Guid::new(0x5b1b31a1, 0x9563, 0x11d2, [0x8e, 0x3f, 0x00, 0xa0, 0xc9, 0x69, 0x72, 0x3b]));
    assert!(g != Guid::new(0x5b1b31a1, 0x9562, 0x11d3, [0x8e, 0x3f, 0x00, 0xa0, 0xc9, 0x69, 0x72, 0x3b]));
    assert!(g != Guid::new(0x5b1b31a1, 0x9562, 0x11d2, [0x8e, 0x3f, 0x00, 0xa0, 0xc9, 0x69, 0x72, 0x3c]));
    assert!(g != Guid::new(0x5b1b31a1, 0x9562, 0x11d2, [0x8f, 0x3f, 0x00, 0xa0, 0xc9, 0x69, 0x72, 0x3b]));
    assert!(same_bytes(&[1, 2, 3, 4, 5, 6, 7, 8], &[1, 2, 3, 4, 5, 6, 7, 8]));
    assert!(!same_bytes(&[1, 2, 3, 4, 5, 6, 7, 8], &[1, 2, 3, 4, 0, 6, 7, 8]));
    let table = ConfigurationTable { vendor_guid: g, vendor_table: 0x4000_0000 };
    assert!(table.vendor_guid == g);
}

#[test]
fn checksum_pieces() {
    assert_eq!(crc_step(1), 1);
    assert_eq!(crc_step(2), 2);
    assert_eq!(crc_step(3), 2);
    assert_eq!(crc_step(4), 4);
    assert_eq!(crc_step(7), 4);
    assert_eq!(crc_step(8), 8);
    assert_eq!(crc_step(9), 8);
    assert_eq!(crc_step(120), 8);
    // a header of 24 bytes is fed in three pieces of 8
    let header = TableHeader {
        signature: [b'B', b'O', b'O', b'T', b'S', b'E', b'R', b'V'],
        revision: 0x2005a,
        header_size: 24,
        crc32: 0,
        reserved: 0,
    };
    let mut remaining = header.header_size as usize;
    let mut pieces = Vec::new();
    while remaining > 0 {
        let p = crc_step(remaining);
        pieces.push(p);
        remaining -= p;
    }
    assert_eq!(pieces, vec![8, 8, 8]);
}

struct Image {
    bytes: Vec<u8>,
    fail: bool,
}

impl InitrdLoader for Image {
    fn get_size(&mut self) -> usize {
        self.bytes.len()
    }

    fn load_initrd_image(&mut self, loadbuffer: &mut Vec<u8>) -> Result<(), ()> {
        if self.fail {
            return Err(());
        }
        loadbuffer.copy_from_slice(&self.bytes);
        Ok(())
    }
}

#[test]
fn load_file_decisions() {
    assert!(load_file_check(10, true, 10));
    assert!(load_file_check(11, true, 10));
    assert!(!load_file_check(9, true, 10));
    assert!(!load_file_check(10, false, 10));
    assert!(load_file_check(0, true, 0));
    assert_eq!(load_file_status(Ok(())), Status::EFI_SUCCESS);
    assert_eq!(load_file_status(Err(())), Status::EFI_DEVICE_ERROR);
}

#[test]
fn load_file_asks_for_room_then_loads() {
    let mut image = Image { bytes: vec![1, 2, 3, 4, 5], fail: false };
    let mut none: Option<Vec<u8>> = None;
    assert_eq!(load_file(&mut image, 100, &mut none), (Status::EFI_BUFFER_TOO_SMALL, 5));
    assert_eq!(none, None);
    let mut small = Some(vec![9; 4]);
    assert_eq!(load_file(&mut image, 4, &mut small), (Status::EFI_BUFFER_TOO_SMALL, 5));
    assert_eq!(small, Some(vec![9; 4]));
    let mut buffer = Some(vec![0; 8]);
    assert_eq!(load_file(&mut image, 8, &mut buffer), (Status::EFI_SUCCESS, 8));
    assert_eq!(buffer, Some(vec![1, 2, 3, 4, 5]));
    let mut broken = Image { bytes: vec![1, 2, 3], fail: true };
    let mut buffer = Some(vec![0; 8]);
    assert_eq!(load_file(&mut broken, 8, &mut buffer), (Status::EFI_DEVICE_ERROR, 8));
}
