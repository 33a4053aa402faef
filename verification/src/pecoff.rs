//! The header of a loadable image: where the image, its code and its entry
//! point lie in the file.
//!
//! The file starts with the bytes `MZ`; the 32-bit number at offset 60 is the
//! offset of the image header, which starts with the bytes `PE` and holds, as
//! little-endian 32-bit numbers, the size of the code at offset 28, the
//! entry point at offset 40, the base of the code at offset 44 and the size
//! of the image at offset 80.

use core::ops::Range;
use vstd::prelude::*;

verus! {

/// The little-endian 32-bit number at offset `off`.
pub open spec fn le32(bytes: Seq<u8>, off: int) -> int {
    bytes[off] + 256 * bytes[off + 1] + 65536 * bytes[off + 2] + 16777216 * bytes[off + 3]
}

/// The offset of the image header, where the file has one: it starts with
/// `MZ`, is at least 64 bytes long, and at the offset that it names 84 bytes
/// or more follow, the first two of them `PE`.
pub open spec fn pe_header(bytes: Seq<u8>) -> Option<int> {
    if bytes.len() >= 64 && bytes[0] == 0x4d && bytes[1] == 0x5a && le32(bytes, 60) + 84
        <= bytes.len() && bytes[le32(bytes, 60)] == 0x50 && bytes[le32(bytes, 60) + 1] == 0x45 {
        Some(le32(bytes, 60))
    } else {
        None
    }
}

/// Whether the numbers of the image header at `hdr` describe an image that
/// lies in the file: the code is not empty and lies in the file, the entry
/// point lies in the file, and the image is not empty and not larger than
/// the file.
pub open spec fn image_fits(bytes: Seq<u8>, hdr: int) -> bool {
    &&& le32(bytes, hdr + 44) < bytes.len()
    &&& le32(bytes, hdr + 44) + le32(bytes, hdr + 28) <= bytes.len()
    &&& le32(bytes, hdr + 40) < bytes.len()
    &&& le32(bytes, hdr + 28) != 0
    &&& le32(bytes, hdr + 80) != 0
    &&& le32(bytes, hdr + 80) <= bytes.len()
}

/// Where the parts of an image lie in its file.
#[derive(Debug, PartialEq, Eq)]
pub struct Parser {
    pub image: Range<usize>,
    pub code: Range<usize>,
    pub entrypoint: usize,
}

fn read_le32(slice: &[u8], off: usize) -> (v: u32)
    requires
        off + 4 <= slice@.len(),
    ensures
        v == le32(slice@, off as int),
{
    let b0 = slice[off] as u32;
    let b1 = slice[off + 1] as u32;
    let b2 = slice[off + 2] as u32;
    let b3 = slice[off + 3] as u32;
    b0 + 256 * b1 + 65536 * b2 + 16777216 * b3
}

impl Parser {
    /// The offset of the image header in the file, if the file has one.
    pub fn get_pe_header(slice: &[u8]) -> (hdr: Option<usize>)
        ensures
            match hdr {
                Some(off) => pe_header(slice@) == Some(off as int) && off + 84 <= slice@.len()
                    && off + 84 <= usize::MAX,
                None => pe_header(slice@) is None,
            },
    {
        if slice.len() < 64 || slice[0] != 0x4d || slice[1] != 0x5a {
            return None;
        }
        let offset = read_le32(slice, 60) as u64;
        let len = slice.len() as u64;
        if offset + 84 > len {
            return None;
        }
        let off = offset as usize;
        if slice[off] != 0x50 || slice[off + 1] != 0x45 {
            return None;
        }
        Some(off)
    }

    /// The size of the image, as its header has it.
    pub fn get_image_size(slice: &[u8]) -> (size: Option<usize>)
        ensures
            size == (match pe_header(slice@) {
                Some(hdr) => Some(le32(slice@, hdr + 80) as usize),
                None => None,
            }),
    {
        match Parser::get_pe_header(slice) {
            Some(hdr) => Some(read_le32(slice, hdr + 80) as usize),
            None => None,
        }
    }

    /// Where the image, its code and its entry point lie, if the file holds
    /// an image with a header whose numbers fit the file.
    pub fn from_slice(slice: &[u8]) -> (parser: Option<Parser>)
        ensures
            parser is Some <==> pe_header(slice@) is Some && image_fits(
                slice@,
                pe_header(slice@)->0,
            ),
            parser matches Some(p) ==> {
                let hdr = pe_header(slice@)->0;
                &&& p.image.start == 0
                &&& p.image.end == le32(slice@, hdr + 80)
                &&& p.code.start == le32(slice@, hdr + 44)
                &&& p.code.end == le32(slice@, hdr + 44) + le32(slice@, hdr + 28)
                &&& p.entrypoint == le32(slice@, hdr + 40)
            },
    {
        let hdr = match Parser::get_pe_header(slice) {
            Some(hdr) => hdr,
            None => {
                return None;
            },
        };
        let len = slice.len() as u64;
        let base_of_code = read_le32(slice, hdr + 44) as u64;
        let size_of_code = read_le32(slice, hdr + 28) as u64;
        let entrypoint = read_le32(slice, hdr + 40) as u64;
        let size_of_image = read_le32(slice, hdr + 80) as u64;
        if base_of_code >= len || base_of_code + size_of_code > len || entrypoint >= len
            || size_of_code == 0 || size_of_image == 0 || size_of_image > len {
            return None;
        }
        Some(
            Parser {
                image: 0..size_of_image as usize,
                code: base_of_code as usize..(base_of_code + size_of_code) as usize,
                entrypoint: entrypoint as usize,
            },
        )
    }

    /// The bytes of the file that make up the image.
    pub fn get_image(&self) -> (r: Range<usize>)
        ensures
            r == self.image,
    {
        self.image.start..self.image.end
    }

    /// The bytes of the file that hold the code.
    pub fn get_code_region(&self) -> (r: Range<usize>)
        ensures
            r == self.code,
    {
        self.code.start..self.code.end
    }

    /// The offset of the entry point in the file.
    pub fn get_entrypoint(&self) -> (e: usize)
        ensures
            e == self.entrypoint,
    {
        self.entrypoint
    }
}

} // verus!
