//! The firmware-services side: memory types, the physical memory map and the
//! status vocabulary of the call surface.

use vstd::prelude::*;

pub mod bootservices;
pub mod configtable;
pub mod devicepath;
pub mod edit;
pub mod guid;
pub mod history;
pub mod initrdloadfile2;
pub mod layout;
pub mod loadedimage;
pub mod memmap;
pub mod memorytype;
pub mod placement;
pub mod protocol;
pub mod rng;
pub mod status;
pub mod tableheader;

verus! {

/// A physical address.
pub type PhysicalAddress = u64;

/// A virtual address; every region of this firmware is identity mapped.
pub type VirtualAddress = u64;

/// The name of an object that protocols are installed on.
pub type Handle = usize;

/// A task priority level.
pub type Tpl = usize;

pub const TPL_APPLICATION: Tpl = 4;

pub const TPL_CALLBACK: Tpl = 8;

pub const TPL_NOTIFY: Tpl = 16;

pub const TPL_HIGH_LEVEL: Tpl = 31;

/// The revision of the firmware interface: 2.90.
pub const UEFI_REVISION: u32 = 0x2005a;

/// The source of handles: a counter that starts at 1.
pub struct HandleCounter {
    next: usize,
}

impl HandleCounter {
    /// The handle that comes next.
    pub closed spec fn upcoming(&self) -> usize {
        self.next
    }

    pub fn new() -> (c: HandleCounter)
        ensures
            c.upcoming() == 1,
    {
        HandleCounter { next: 1 }
    }
}

/// A handle that no earlier call gave out, as long as the counter has not
/// wrapped around.
pub fn new_handle(counter: &mut HandleCounter) -> (handle: usize)
    ensures
        handle == old(counter).upcoming(),
        final(counter).upcoming() == (if handle == usize::MAX {
            0
        } else {
            (handle + 1) as usize
        }),
{
    let handle = counter.next;
    counter.next = if handle == usize::MAX {
        0
    } else {
        handle + 1
    };
    handle
}

} // verus!
