use efilite::pecoff::Parser;
use efilite::pl031::{time_from_ts, Time, EFI_UNSPECIFIED_TIMEZONE};

fn put32(v: &mut [u8], off: usize, x: u32) {
    v[off..off + 4].copy_from_slice(&x.to_le_bytes());
}

fn image(len: usize, hdr: u32, code_base: u32, code_size: u32, entry: u32, image_size: u32) -> Vec<u8> {
    let mut v = vec![0u8; len];
    v[0] = b'M';
    v[1] = b'Z';
    put32(&mut v, 60, hdr);
    let h = hdr as usize;
    v[h] = b'P';
    v[h + 1] = b'E';
    put32(&mut v, h + 28, code_size);
    put32(&mut v, h + 40, entry);
    put32(&mut v, h + 44, code_base);
    put32(&mut v, h + 80, image_size);
    v
}

#[test]
fn a_well_formed_image_is_parsed() {
    let v = image(0x3000, 0x80, 0x1000, 0x1800, 0x1234, 0x3000);
    assert_eq!(Parser::get_pe_header(&v), Some(0x80));
    assert_eq!(Parser::get_image_size(&v), Some(0x3000));
    let p = Parser::from_slice(&v).unwrap();
    assert_eq!(p.get_image(), 0..0x3000);
    assert_eq!(p.get_code_region(), 0x1000..0x2800);
    assert_eq!(p.get_entrypoint(), 0x1234);
    assert_eq!(p, Parser { image: 0..0x3000, code: 0x1000..0x2800, entrypoint: 0x1234 });
}

#[test]
fn numbers_are_little_endian() {
    let v = image(0x12346, 0x100, 0x01020, 0x1_0304, 0x1_0201, 0x1_2345);
    assert_eq!(v[0x100 + 80..0x100 + 84], [0x45, 0x23, 0x01, 0x00]);
    let p = Parser::from_slice(&v).unwrap();
    assert_eq!(p.get_image(), 0..0x12345);
    assert_eq!(p.get_code_region(), 0x1020..0x1020 + 0x10304);
    assert_eq!(p.get_entrypoint(), 0x10201);
}

#[test]
fn files_without_a_header_are_turned_down() {
    let good = image(0x3000, 0x80, 0x1000, 0x1800, 0x1234, 0x3000);
    assert_eq!(Parser::get_pe_header(&[]), None);
    assert_eq!(Parser::get_pe_header(&[b'M']), None);
    assert_eq!(Parser::get_pe_header(&good[..63]), None);
    assert_eq!(Parser::get_image_size(&[b'M', b'Z']), None);
    assert_eq!(Parser::from_slice(&[]), None);
    let mut v = good.clone();
    v[0] = b'N';
    assert_eq!(Parser::get_pe_header(&v), None);
    let mut v = good.clone();
    v[1] = b'z';
    assert_eq!(Parser::from_slice(&v), None);
    let mut v = good.clone();
    v[0x80] = b'Q';
    assert_eq!(Parser::get_pe_header(&v), None);
    let mut v = good.clone();
    v[0x81] = 0;
    assert_eq!(Parser::get_image_size(&v), None);
    // the header must have 84 bytes in the file
    let mut v = good.clone();
    put32(&mut v, 60, 0x3000 - 83);
    assert_eq!(Parser::get_pe_header(&v), None);
    let mut v = good.clone();
    put32(&mut v, 60, 0x3000 - 84);
    v[0x3000 - 84] = b'P';
    v[0x3000 - 83] = b'E';
    assert_eq!(Parser::get_pe_header(&v), Some(0x3000 - 84));
    let mut v = good.clone();
    put32(&mut v, 60, u32::MAX);
    assert_eq!(Parser::get_pe_header(&v), None);
}

#[test]
fn images_that_do_not_fit_the_file_are_turned_down() {
    let len = 0x3000;
    assert!(Parser::from_slice(&image(len, 0x80, 0x1000, 0x2000, 0x1234, 0x3000)).is_some());
    // code beyond the end
    assert_eq!(Parser::from_slice(&image(len, 0x80, 0x1000, 0x2001, 0x1234, 0x3000)), None);
    assert_eq!(Parser::from_slice(&image(len, 0x80, 0x3000, 1, 0x1234, 0x3000)), None);
    assert_eq!(Parser::from_slice(&image(len, 0x80, 0x1000, u32::MAX, 0x1234, 0x3000)), None);
    // no code
    assert_eq!(Parser::from_slice(&image(len, 0x80, 0x1000, 0, 0x1234, 0x3000)), None);
    // entry point beyond the end
    assert_eq!(Parser::from_slice(&image(len, 0x80, 0x1000, 0x1800, 0x3000, 0x3000)), None);
    assert!(Parser::from_slice(&image(len, 0x80, 0x1000, 0x1800, 0x2fff, 0x3000)).is_some());
    // no image, or more than the file
    assert_eq!(Parser::from_slice(&image(len, 0x80, 0x1000, 0x1800, 0x1234, 0)), None);
    assert_eq!(Parser::from_slice(&image(len, 0x80, 0x1000, 0x1800, 0x1234, 0x3001)), None);
    // the size of the image is still reported
    assert_eq!(Parser::get_image_size(&image(len, 0x80, 0x1000, 0x1800, 0x1234, 0x3001)), Some(0x3001));
}

fn time(year: u16, month: u8, day: u8, hour: u8, minute: u8, second: u8) -> Time {
    Time {
        year,
        month,
        day,
        hour,
        minute,
        second,
        pad1: 0,
        nanosecond: 0,
        timezone: EFI_UNSPECIFIED_TIMEZONE,
        daylight: 0,
        pad2: 0,
    }
}

#[test]
fn seconds_to_dates() {
    assert_eq!(EFI_UNSPECIFIED_TIMEZONE, 0x07ff);
    assert_eq!(time_from_ts(0), time(1970, 1, 1, 0, 0, 0));
    assert_eq!(time_from_ts(59), time(1970, 1, 1, 0, 0, 59));
    assert_eq!(time_from_ts(86399), time(1970, 1, 1, 23, 59, 59));
    assert_eq!(time_from_ts(86400), time(1970, 1, 2, 0, 0, 0));
    assert_eq!(time_from_ts(31 * 86400), time(1970, 2, 1, 0, 0, 0));
    assert_eq!(time_from_ts(365 * 86400 - 1), time(1970, 12, 31, 23, 59, 59));
    assert_eq!(time_from_ts(365 * 86400), time(1971, 1, 1, 0, 0, 0));
    assert_eq!(time_from_ts(68169600), time(1972, 2, 29, 0, 0, 0));
    assert_eq!(time_from_ts(68256000), time(1972, 3, 1, 0, 0, 0));
    assert_eq!(time_from_ts(951782400), time(2000, 2, 29, 0, 0, 0));
    assert_eq!(time_from_ts(1000000000), time(2001, 9, 9, 1, 46, 40));
    assert_eq!(time_from_ts(1234567890), time(2009, 2, 13, 23, 31, 30));
    assert_eq!(time_from_ts(1709164800), time(2024, 2, 29, 0, 0, 0));
    assert_eq!(time_from_ts(1735689599), time(2024, 12, 31, 23, 59, 59));
    // 2100 is no leap year
    assert_eq!(time_from_ts(4107542400), time(2100, 3, 1, 0, 0, 0));
    assert_eq!(time_from_ts(4107456000), time(2100, 2, 28, 0, 0, 0));
    assert_eq!(time_from_ts(u32::MAX), time(2106, 2, 7, 6, 28, 15));
}
