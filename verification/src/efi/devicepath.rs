//! Device paths: sequences of nodes that say where a device or a file is.
//!
//! A node starts with a header of four bytes: the type, the subtype and the
//! size of the node, header included, as a little-endian 16-bit number. A
//! path ends with a node of the end type.

use vstd::prelude::*;
use crate::efi::guid::Guid;

verus! {

#[allow(non_camel_case_types)]
#[derive(Clone, Copy, PartialEq, Eq, Structural, Debug)]
pub enum DevicePathType {
    EFI_DEV_MEDIA,
    EFI_DEV_END_PATH,
}

#[allow(non_camel_case_types)]
#[derive(Clone, Copy, PartialEq, Eq, Structural, Debug)]
pub enum DevicePathSubtype {
    EFI_DEV_MEDIA_VENDOR,
    EFI_DEV_END_ENTIRE,
}

impl DevicePathType {
    /// The byte that stands for the type in a node.
    pub fn code(&self) -> (c: u8)
        ensures
            c == (match *self {
                DevicePathType::EFI_DEV_MEDIA => 4u8,
                DevicePathType::EFI_DEV_END_PATH => 0x7fu8,
            }),
    {
        match self {
            DevicePathType::EFI_DEV_MEDIA => 4,
            DevicePathType::EFI_DEV_END_PATH => 0x7f,
        }
    }
}

impl DevicePathSubtype {
    /// The byte that stands for the subtype in a node.
    pub fn code(&self) -> (c: u8)
        ensures
            c == (match *self {
                DevicePathSubtype::EFI_DEV_MEDIA_VENDOR => 3u8,
                DevicePathSubtype::EFI_DEV_END_ENTIRE => 0xffu8,
            }),
    {
        match self {
            DevicePathSubtype::EFI_DEV_MEDIA_VENDOR => 3,
            DevicePathSubtype::EFI_DEV_END_ENTIRE => 0xff,
        }
    }
}

/// The header of a node.
#[derive(Clone, Copy, PartialEq, Eq, Structural, Debug)]
pub struct DevicePath {
    pub _type: DevicePathType,
    pub subtype: DevicePathSubtype,
    pub size: u16,
}

/// A media node that a vendor defines, named by an identifier.
#[derive(Clone, Copy, Debug)]
pub struct VendorMedia {
    pub header: DevicePath,
    pub vendor_guid: Guid,
}

/// The byte that marks the end node of a path.
pub const END_PATH: u8 = 0x7f;

/// The size that the node at `off` claims, header included.
pub open spec fn node_size(path: Seq<u8>, off: int) -> int {
    path[off + 2] + 256 * path[off + 3]
}

/// Whether the `n` bytes from `off` on are the same in both paths.
pub open spec fn same_node(a: Seq<u8>, b: Seq<u8>, off: int, n: int) -> bool {
    a.subrange(off, off + n) == b.subrange(off, off + n)
}

/// Whether `pfx` has a whole node at `off` that `path` has too, byte for
/// byte, and that can be stepped over: its size is at least that of a header.
pub open spec fn shared_node(pfx: Seq<u8>, path: Seq<u8>, off: int) -> bool {
    &&& off + 4 <= pfx.len()
    &&& off + 4 <= path.len()
    &&& 4 <= node_size(pfx, off)
    &&& off + node_size(pfx, off) <= pfx.len()
    &&& off + node_size(pfx, off) <= path.len()
    &&& same_node(pfx, path, off, node_size(pfx, off))
}

/// The number of bytes of `path` that `pfx` matches, node by node from `off`
/// on, up to the end node of `pfx`; 0 where a node of `pfx` before its end
/// node is not in `path`, or where `pfx` is cut short.
pub open spec fn matched(pfx: Seq<u8>, path: Seq<u8>, off: int) -> int
    decreases pfx.len() - off,
{
    if off < 0 || off + 4 > pfx.len() {
        0
    } else if pfx[off] == 0x7f {
        off
    } else if shared_node(pfx, path, off) {
        matched(pfx, path, off + node_size(pfx, off))
    } else {
        0
    }
}

/// Checks whether `path` has `pfx` as its prefix: if so, returns the number
/// of bytes matched, which is where the end node of `pfx` starts.
pub fn is_prefix(pfx: &[u8], path: &[u8]) -> (ret: usize)
    ensures
        ret == matched(pfx@, path@, 0),
{
    let mut off: usize = 0;
    loop
        invariant
            off <= pfx@.len(),
            matched(pfx@, path@, 0) == matched(pfx@, path@, off as int),
        decreases pfx@.len() - off,
    {
        if pfx.len() - off < 4 {
            return 0;
        }
        if pfx[off] == END_PATH {
            return off;
        }
        if path.len() < off || path.len() - off < 4 {
            assert(!shared_node(pfx@, path@, off as int));
            return 0;
        }
        let size: usize = pfx[off + 2] as usize + 256 * (pfx[off + 3] as usize);
        assert(size == node_size(pfx@, off as int));
        if size < 4 || pfx.len() - off < size || path.len() - off < size {
            assert(!shared_node(pfx@, path@, off as int));
            return 0;
        }
        let mut i: usize = 0;
        while i < size
            invariant
                off + size <= pfx@.len(),
                off + size <= path@.len(),
                pfx@.len() <= usize::MAX,
                size == node_size(pfx@, off as int),
                size >= 4,
                pfx@[off as int] != 0x7f,
                matched(pfx@, path@, 0) == matched(pfx@, path@, off as int),
                i <= size,
                forall|j: int| off <= j < off + i ==> pfx@[j] == path@[j],
            decreases size - i,
        {
            if pfx[off + i] != path[off + i] {
                proof {
                    let a = pfx@.subrange(off as int, off + size);
                    let b = path@.subrange(off as int, off + size);
                    assert(a[i as int] == pfx@[off + i]);
                    assert(b[i as int] == path@[off + i]);
                    assert(!same_node(pfx@, path@, off as int, size as int));
                    assert(!shared_node(pfx@, path@, off as int));
                }
                return 0;
            }
            i += 1;
        }
        proof {
            assert(pfx@.subrange(off as int, off + size) =~= path@.subrange(
                off as int,
                off + size,
            ));
            assert(shared_node(pfx@, path@, off as int));
        }
        off = off + size;
    }
}

} // verus!
