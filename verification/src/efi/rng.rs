//! The random number protocol: which algorithms it names, and how a request
//! is answered.

use vstd::prelude::*;
use crate::efi::guid::Guid;
use crate::efi::protocol::ProtocolDb;
use crate::efi::status::Status;
use crate::efi::{new_handle, Handle, HandleCounter};

verus! {

/// The identifier of the random number protocol.
pub fn efi_rng_protocol_guid() -> (g: Guid)
    ensures
        g.data1 == 0x3152bca5 && g.data2 == 0xeade && g.data3 == 0x433d && g.data4@ == seq![
            0x86u8,
            0x2e,
            0xc0,
            0x1c,
            0xdc,
            0x29,
            0x1f,
            0x44,
        ],
{
    Guid::new(0x3152bca5, 0xeade, 0x433d, [0x86, 0x2e, 0xc0, 0x1c, 0xdc, 0x29, 0x1f, 0x44])
}

/// The identifier of the default algorithm. It is not the raw one, so that
/// either source can serve a request for the default.
pub fn rng_algorithm_default() -> (g: Guid)
    ensures
        g.data1 == 0xb65fc704 && g.data2 == 0x93b4 && g.data3 == 0x4301 && g.data4@ == seq![
            0x90u8,
            0xea,
            0xa7,
            0x5c,
            0x33,
            0x93,
            0xb5,
            0xe9,
        ],
{
    Guid::new(0xb65fc704, 0x93b4, 0x4301, [0x90, 0xea, 0xa7, 0x5c, 0x33, 0x93, 0xb5, 0xe9])
}

/// The identifier of the raw algorithm: entropy as the source delivers it.
pub fn efi_rng_algorithm_raw() -> (g: Guid)
    ensures
        g.data1 == 0xe43176d7 && g.data2 == 0xb6e8 && g.data3 == 0x4827 && g.data4@ == seq![
            0xb7u8,
            0x84,
            0x7f,
            0xfd,
            0xc4,
            0xb6,
            0x85,
            0x61,
        ],
{
    Guid::new(0xe43176d7, 0xb6e8, 0x4827, [0xb7, 0x84, 0x7f, 0xfd, 0xc4, 0xb6, 0x85, 0x61])
}

/// The answer to a request for the list of algorithms into a list with room
/// for `list_size` of them: the status and the number of algorithms, which is
/// two. A list with room for fewer is too small.
pub fn get_info(list_size: usize) -> (res: (Status, usize))
    ensures
        res.1 == 2,
        res.0 == (if list_size < 2 {
            Status::EFI_BUFFER_TOO_SMALL
        } else {
            Status::EFI_SUCCESS
        }),
{
    if list_size < 2 {
        return (Status::EFI_BUFFER_TOO_SMALL, 2);
    }
    (Status::EFI_SUCCESS, 2)
}

/// Whether a request for the algorithm `algorithm` asks for raw entropy: no
/// algorithm and the default one do not, the raw one does, and any other
/// algorithm is not supported.
pub fn select_algorithm(algorithm: Option<Guid>) -> (res: Result<bool, Status>)
    ensures
        res == (match algorithm {
            None => Ok::<bool, Status>(false),
            Some(g) => if g.same(&rng_algorithm_default_spec()) {
                Ok::<bool, Status>(false)
            } else if g.same(&efi_rng_algorithm_raw_spec()) {
                Ok::<bool, Status>(true)
            } else {
                Err::<bool, Status>(Status::EFI_UNSUPPORTED)
            },
        }),
{
    match algorithm {
        None => Ok(false),
        Some(g) => {
            let default = rng_algorithm_default();
            let raw = efi_rng_algorithm_raw();
            if g == default {
                Ok(false)
            } else if g == raw {
                Ok(true)
            } else {
                Err(Status::EFI_UNSUPPORTED)
            }
        },
    }
}

/// The identifier of the default algorithm.
pub open spec fn rng_algorithm_default_spec() -> Guid {
    Guid {
        data1: 0xb65fc704,
        data2: 0x93b4,
        data3: 0x4301,
        data4: [0x90u8, 0xea, 0xa7, 0x5c, 0x33, 0x93, 0xb5, 0xe9],
    }
}

/// The identifier of the raw algorithm.
pub open spec fn efi_rng_algorithm_raw_spec() -> Guid {
    Guid {
        data1: 0xe43176d7,
        data2: 0xb6e8,
        data3: 0x4827,
        data4: [0xb7u8, 0x84, 0x7f, 0xfd, 0xc4, 0xb6, 0x85, 0x61],
    }
}

/// Whether a request for `length` bytes is served from one word of the
/// processor's instruction: only where raw entropy is not asked for and one
/// word is enough.
pub fn wants_single_word(use_raw: bool, length: usize) -> (r: bool)
    ensures
        r == (!use_raw && length <= 8),
{
    !use_raw && length <= 8
}

/// The status of a request by whether the buffer was filled.
pub fn get_rng_status(filled: bool) -> (status: Status)
    ensures
        status == (if filled {
            Status::EFI_SUCCESS
        } else {
            Status::EFI_NOT_READY
        }),
{
    if filled {
        Status::EFI_SUCCESS
    } else {
        Status::EFI_NOT_READY
    }
}

/// The identifier of the random number protocol.
pub open spec fn rng_protocol_guid() -> Guid {
    Guid {
        data1: 0x3152bca5,
        data2: 0xeade,
        data3: 0x433d,
        data4: [0x86u8, 0x2e, 0xc0, 0x1c, 0xdc, 0x29, 0x1f, 0x44],
    }
}

/// The handle that offers random numbers.
#[derive(Clone, Copy, Debug)]
pub struct EfiRng {
    pub handle: Handle,
}

/// Puts the random number protocol, whose interface lies at `interface`, on a
/// new handle.
pub fn new(handles: &mut HandleCounter, db: &mut ProtocolDb, interface: usize) -> (rng: EfiRng)
    requires
        old(db).wf(),
    ensures
        final(db).wf(),
        rng.handle == old(handles).upcoming(),
        final(db).lookup(rng.handle, &rng_protocol_guid()) == Some(interface),
        forall|h: Handle, g: Guid|
            h != rng.handle ==> #[trigger] final(db).lookup(h, &g) == old(db).lookup(h, &g),
{
    let handle = new_handle(handles);
    let guid = efi_rng_protocol_guid();
    db.install_protocol(handle, &guid, interface);
    proof {
        crate::efi::protocol::lemma_lookup_same(db@, handle, &guid, &rng_protocol_guid());
    }
    EfiRng { handle }
}

impl EfiRng {
    /// Takes the protocol off the handle again.
    pub fn remove(&self, db: &mut ProtocolDb)
        requires
            old(db).wf(),
        ensures
            final(db).wf(),
            final(db).lookup(self.handle, &rng_protocol_guid()) is None,
            forall|h: Handle, g: Guid|
                h != self.handle ==> #[trigger] final(db).lookup(h, &g) == old(db).lookup(h, &g),
    {
        let guid = efi_rng_protocol_guid();
        db.uninstall_protocol(self.handle, &guid);
        proof {
            crate::efi::protocol::lemma_lookup_same(db@, self.handle, &guid, &rng_protocol_guid());
        }
    }
}

} // verus!
