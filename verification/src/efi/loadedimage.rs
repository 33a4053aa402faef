//! Loaded images: what the loaded image protocol says of an image, and the
//! handle that it is installed on.

use core::ops::Range;
use vstd::prelude::*;
use crate::efi::guid::Guid;
use crate::efi::memorytype::MemoryType;
use crate::efi::protocol::ProtocolDb;
use crate::efi::{new_handle, Handle, HandleCounter};

verus! {

pub const EFI_LOADED_IMAGE_PROTOCOL_REVISION: u32 = 0x1000;

/// The identifier of the loaded image protocol.
pub open spec fn loaded_image_guid() -> Guid {
    Guid {
        data1: 0x5B1B31A1,
        data2: 0x9562,
        data3: 0x11d2,
        data4: [0x8Eu8, 0x3F, 0x00, 0xA0, 0xC9, 0x69, 0x72, 0x3B],
    }
}

/// The identifier that marks an image as loaded at a random address.
pub open spec fn loaded_image_rand_guid() -> Guid {
    Guid {
        data1: 0xf5a37b6d,
        data2: 0x3344,
        data3: 0x42a5,
        data4: [0xb6u8, 0xbb, 0x97, 0x86, 0x48, 0xc1, 0x89, 0x0a],
    }
}

/// The identifier of the loaded image protocol.
pub fn efi_loaded_image_protocol_guid() -> (g: Guid)
    ensures
        g.same(&loaded_image_guid()),
{
    Guid::new(0x5B1B31A1, 0x9562, 0x11d2, [0x8E, 0x3F, 0x00, 0xA0, 0xC9, 0x69, 0x72, 0x3B])
}

/// The identifier that marks an image as loaded at a random address.
pub fn linux_efi_loaded_image_rand_guid() -> (g: Guid)
    ensures
        g.same(&loaded_image_rand_guid()),
{
    Guid::new(0xf5a37b6d, 0x3344, 0x42a5, [0xb6, 0xbb, 0x97, 0x86, 0x48, 0xc1, 0x89, 0x0a])
}

/// What the loaded image protocol says of an image. Addresses stand for the
/// pointers of the protocol.
#[derive(Clone, Copy, Debug)]
pub struct LoadedImage {
    pub revision: u32,
    pub parent_handle: Handle,
    pub device_handle: Handle,
    /// Where the stack pointer of the firmware is kept while the image runs;
    /// all bits are set until the image is started.
    pub reserved: usize,
    pub load_options_size: u32,
    pub load_options: usize,
    pub image_base: usize,
    pub image_size: u64,
    pub image_code_type: MemoryType,
    pub image_data_type: MemoryType,
    pub image_handle: Handle,
    pub entrypoint: usize,
    pub randomized: bool,
}

impl LoadedImage {
    /// Describes the image that lies in `buffer`, on a new handle. The load
    /// options are `load_options_len` 16-bit characters at the address
    /// `load_options`; their size in bytes is cut to 32 bits.
    pub fn new(
        handles: &mut HandleCounter,
        buffer: &Range<usize>,
        load_options: usize,
        load_options_len: usize,
        code_type: MemoryType,
        data_type: MemoryType,
        entrypoint: usize,
        randomized: bool,
    ) -> (li: LoadedImage)
        requires
            buffer.start <= buffer.end,
        ensures
            li.image_handle == old(handles).upcoming(),
            final(handles).upcoming() == (if li.image_handle == usize::MAX {
                0
            } else {
                (li.image_handle + 1) as usize
            }),
            li.revision == 0x1000,
            li.parent_handle == 0,
            li.device_handle == 0,
            li.reserved == usize::MAX,
            li.load_options_size == (load_options_len * 2) % 0x1_0000_0000,
            li.load_options == load_options,
            li.image_base == buffer.start,
            li.image_size == buffer.end - buffer.start,
            li.image_code_type == code_type,
            li.image_data_type == data_type,
            li.entrypoint == entrypoint,
            li.randomized == randomized,
    {
        let handle = new_handle(handles);
        let half = (load_options_len % 0x8000_0000) as u32;
        LoadedImage {
            revision: EFI_LOADED_IMAGE_PROTOCOL_REVISION,
            parent_handle: 0,
            device_handle: 0,
            reserved: usize::MAX,
            load_options_size: half * 2,
            load_options,
            image_base: buffer.start,
            image_size: (buffer.end - buffer.start) as u64,
            image_code_type: code_type,
            image_data_type: data_type,
            image_handle: handle,
            entrypoint,
            randomized,
        }
    }

    /// Installs the protocol, whose interface lies at `interface`, on the
    /// handle of the image; an image that was loaded at a random address
    /// offers it under the identifier that says so too.
    pub fn install(&self, db: &mut ProtocolDb, interface: usize)
        requires
            old(db).wf(),
        ensures
            final(db).wf(),
            final(db).lookup(self.image_handle, &loaded_image_guid()) == Some(interface),
            self.randomized ==> final(db).lookup(self.image_handle, &loaded_image_rand_guid())
                == Some(interface),
            !self.randomized ==> final(db).lookup(self.image_handle, &loaded_image_rand_guid())
                == old(db).lookup(self.image_handle, &loaded_image_rand_guid()),
            forall|h: Handle, g: Guid|
                h != self.image_handle ==> #[trigger] final(db).lookup(h, &g) == old(db).lookup(
                    h,
                    &g,
                ),
    {
        let main = efi_loaded_image_protocol_guid();
        let rand = linux_efi_loaded_image_rand_guid();
        db.install_protocol(self.image_handle, &main, interface);
        proof {
            lemma_guids_differ();
            crate::efi::protocol::lemma_lookup_same(db@, self.image_handle, &main, &loaded_image_guid());
        }
        if self.randomized {
            let ghost mid = db@;
            db.install_protocol(self.image_handle, &rand, interface);
            proof {
                crate::efi::protocol::lemma_lookup_same(
                    db@,
                    self.image_handle,
                    &rand,
                    &loaded_image_rand_guid(),
                );
                crate::efi::protocol::lemma_lookup_same(
                    mid,
                    self.image_handle,
                    &main,
                    &loaded_image_guid(),
                );
            }
        }
    }

    /// Takes the protocol off the handle of the image again.
    pub fn uninstall(&self, db: &mut ProtocolDb)
        requires
            old(db).wf(),
        ensures
            final(db).wf(),
            final(db).lookup(self.image_handle, &loaded_image_guid()) is None,
            self.randomized ==> final(db).lookup(self.image_handle, &loaded_image_rand_guid())
                is None,
            forall|h: Handle, g: Guid|
                h != self.image_handle ==> #[trigger] final(db).lookup(h, &g) == old(db).lookup(
                    h,
                    &g,
                ),
    {
        let main = efi_loaded_image_protocol_guid();
        let rand = linux_efi_loaded_image_rand_guid();
        db.uninstall_protocol(self.image_handle, &main);
        proof {
            lemma_guids_differ();
            crate::efi::protocol::lemma_lookup_same(db@, self.image_handle, &main, &loaded_image_guid());
        }
        if self.randomized {
            let ghost mid = db@;
            db.uninstall_protocol(self.image_handle, &rand);
            proof {
                crate::efi::protocol::lemma_lookup_same(
                    db@,
                    self.image_handle,
                    &rand,
                    &loaded_image_rand_guid(),
                );
                crate::efi::protocol::lemma_lookup_same(
                    mid,
                    self.image_handle,
                    &main,
                    &loaded_image_guid(),
                );
            }
        }
    }
}

/// The two identifiers of a loaded image are not the same.
pub proof fn lemma_guids_differ()
    ensures
        !loaded_image_guid().same(&loaded_image_rand_guid()),
        !loaded_image_rand_guid().same(&loaded_image_guid()),
{
}

} // verus!
