//! The protocol through which the loaded program fetches the initial RAM
//! disk: the handle that offers it, and the device path that names it.

use vstd::prelude::*;
use crate::bytes::le_value;
use crate::efi::guid::Guid;
use crate::efi::protocol::ProtocolDb;
use crate::efi::{new_handle, Handle, HandleCounter};

verus! {

/// The identifier of the protocol that loads a file into a buffer.
pub open spec fn load_file2_guid() -> Guid {
    Guid {
        data1: 0x4006c0c1,
        data2: 0xfcb3,
        data3: 0x403e,
        data4: [0x99u8, 0x6d, 0x4a, 0x6c, 0x87, 0x24, 0xe0, 0x6d],
    }
}

/// The identifier of the device path protocol.
pub open spec fn device_path_guid() -> Guid {
    Guid {
        data1: 0x9576e91,
        data2: 0x6d3f,
        data3: 0x11d2,
        data4: [0x8eu8, 0x39, 0x0, 0xa0, 0xc9, 0x69, 0x72, 0x3b],
    }
}

/// The identifier of the medium that holds the initial RAM disk.
pub open spec fn initrd_media_guid() -> Guid {
    Guid {
        data1: 0x5568e427,
        data2: 0x68fc,
        data3: 0x4f3d,
        data4: [0xacu8, 0x74, 0xca, 0x55, 0x52, 0x31, 0xcc, 0x68],
    }
}

/// The identifier of the protocol that loads a file into a buffer.
pub fn efi_load_file2_protocol_guid() -> (g: Guid)
    ensures
        g.same(&load_file2_guid()),
{
    Guid::new(0x4006c0c1, 0xfcb3, 0x403e, [0x99, 0x6d, 0x4a, 0x6c, 0x87, 0x24, 0xe0, 0x6d])
}

/// The identifier of the device path protocol.
pub fn efi_device_path_protocol_guid() -> (g: Guid)
    ensures
        g.same(&device_path_guid()),
{
    Guid::new(0x9576e91, 0x6d3f, 0x11d2, [0x8e, 0x39, 0x0, 0xa0, 0xc9, 0x69, 0x72, 0x3b])
}

/// The identifier of the medium that holds the initial RAM disk.
pub fn linux_efi_initrd_media_guid() -> (g: Guid)
    ensures
        g.same(&initrd_media_guid()),
{
    Guid::new(0x5568e427, 0x68fc, 0x4f3d, [0xac, 0x74, 0xca, 0x55, 0x52, 0x31, 0xcc, 0x68])
}

/// The handle that offers the initial RAM disk.
#[derive(Clone, Copy, Debug)]
pub struct LoadFile2 {
    pub handle: Handle,
}

/// Puts the protocol, whose interface lies at `interface`, on a new handle,
/// together with the device path at `device_path` that names the initial RAM
/// disk.
pub fn new(handles: &mut HandleCounter, db: &mut ProtocolDb, interface: usize, device_path: usize) -> (lf:
    LoadFile2)
    requires
        old(db).wf(),
    ensures
        final(db).wf(),
        lf.handle == old(handles).upcoming(),
        final(db).lookup(lf.handle, &load_file2_guid()) == Some(interface),
        final(db).lookup(lf.handle, &device_path_guid()) == Some(device_path),
        forall|h: Handle, g: Guid|
            h != lf.handle ==> #[trigger] final(db).lookup(h, &g) == old(db).lookup(h, &g),
{
    let handle = new_handle(handles);
    let file = efi_load_file2_protocol_guid();
    let path = efi_device_path_protocol_guid();
    db.install_protocol(handle, &file, interface);
    let ghost mid = db@;
    db.install_protocol(handle, &path, device_path);
    proof {
        crate::efi::protocol::lemma_lookup_same(mid, handle, &file, &load_file2_guid());
        crate::efi::protocol::lemma_lookup_same(db@, handle, &path, &device_path_guid());
    }
    LoadFile2 { handle }
}

impl LoadFile2 {
    /// Takes both protocols off the handle again.
    pub fn remove(&self, db: &mut ProtocolDb)
        requires
            old(db).wf(),
        ensures
            final(db).wf(),
            final(db).lookup(self.handle, &load_file2_guid()) is None,
            final(db).lookup(self.handle, &device_path_guid()) is None,
            forall|h: Handle, g: Guid|
                h != self.handle ==> #[trigger] final(db).lookup(h, &g) == old(db).lookup(h, &g),
    {
        let file = efi_load_file2_protocol_guid();
        let path = efi_device_path_protocol_guid();
        db.uninstall_protocol(self.handle, &file);
        let ghost mid = db@;
        db.uninstall_protocol(self.handle, &path);
        proof {
            crate::efi::protocol::lemma_lookup_same(mid, self.handle, &file, &load_file2_guid());
            crate::efi::protocol::lemma_lookup_same(db@, self.handle, &path, &device_path_guid());
        }
    }
}

/// The device path of the initial RAM disk: a vendor media node of 20 bytes
/// that holds the identifier of the medium, and the end node.
pub fn initrd_device_path() -> (path: Vec<u8>)
    ensures
        path@.len() == 24,
        path@[0] == 4 && path@[1] == 3 && path@[2] == 20 && path@[3] == 0,
        le_value(path@, 4, 4) == 0x5568e427,
        le_value(path@, 8, 2) == 0x68fc,
        le_value(path@, 10, 2) == 0x4f3d,
        path@.subrange(12, 20) == seq![0xacu8, 0x74, 0xca, 0x55, 0x52, 0x31, 0xcc, 0x68],
        path@[20] == 0x7f && path@[21] == 0xff && path@[22] == 4 && path@[23] == 0,
{
    let mut path: Vec<u8> = Vec::new();
    path.push(4);
    path.push(3);
    path.push(20);
    path.push(0);
    let mut i: usize = 0;
    while i < 16
        invariant
            i <= 16,
            path@.len() == 4 + i,
            path@[0] == 4 && path@[1] == 3 && path@[2] == 20 && path@[3] == 0,
        decreases 16 - i,
    {
        path.push(0);
        i += 1;
    }
    path.push(0x7f);
    path.push(0xff);
    path.push(4);
    path.push(0);
    let guid = linux_efi_initrd_media_guid();
    guid.encode(path.as_mut_slice(), 4);
    path
}

} // verus!
