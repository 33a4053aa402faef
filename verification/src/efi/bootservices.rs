//! The boot services that deal with memory: what the calls for allocating
//! pages, freeing pages, reading the memory map and leaving the boot phase
//! answer, in the status vocabulary of the call surface.

use vstd::prelude::*;
use crate::efi::layout::{plain, retyped};
use crate::efi::edit::{converted, convertible, starts_descriptor};
use crate::efi::memmap::{MemoryMap, next_key, place, Placement};
use crate::efi::memorytype::{encode_records, record_at, MemoryDescriptor, MemoryType};
use crate::efi::status::Status;
use crate::efi::{Handle, Tpl, TPL_APPLICATION};

verus! {

/// The version of the descriptor format.
pub const EFI_MEMORY_DESCRIPTOR_VERSION: u32 = 1;

/// The size of one descriptor record in bytes: a type of 4 bytes, 4 bytes of
/// padding, and four fields of 8 bytes.
pub const EFI_MEMORY_DESCRIPTOR_SIZE: usize = 40;

#[allow(dead_code)]
#[derive(Clone, Copy, PartialEq, Eq, Structural, Debug)]
pub enum AllocateType {
    AllocateAnyPages,
    AllocateMaxAddress,
    AllocateAddress,
}

#[allow(dead_code)]
#[derive(Clone, Copy, PartialEq, Eq, Structural, Debug)]
pub enum TimerDelay {
    TimerCancel,
    TimerPeriodic,
    TimerRelative,
}

#[allow(dead_code)]
#[allow(non_camel_case_types)]
#[derive(Clone, Copy, PartialEq, Eq, Structural, Debug)]
pub enum InterfaceType {
    EFI_NATIVE_INTERFACE,
}

#[allow(dead_code)]
#[derive(Clone, Copy, PartialEq, Eq, Structural, Debug)]
pub enum LocateSearchType {
    AllHandles,
    ByRegisterNotify,
    ByProtocol,
}

#[derive(Clone, Copy, PartialEq, Eq, Structural, Debug)]
pub struct OpenProtocolInformationEntry {
    pub agent_handle: Handle,
    pub controller_handle: Handle,
    pub attributes: u32,
    pub open_count: u32,
}

/// The task priority level that the firmware runs at.
pub struct TaskPriority {
    current: Tpl,
}

impl TaskPriority {
    /// The current level.
    pub closed spec fn level(&self) -> Tpl {
        self.current
    }

    /// The level that applications run at.
    pub fn new() -> (t: TaskPriority)
        ensures
            t.level() == TPL_APPLICATION,
    {
        TaskPriority { current: TPL_APPLICATION }
    }

    /// Sets the level to `new_tpl` and returns the level from before.
    pub fn raise_tpl(&mut self, new_tpl: Tpl) -> (previous: Tpl)
        ensures
            previous == old(self).level(),
            final(self).level() == new_tpl,
    {
        let previous = self.current;
        self.current = new_tpl;
        previous
    }

    /// Sets the level back to `old_tpl`.
    pub fn restore_tpl(&mut self, old_tpl: Tpl)
        ensures
            final(self).level() == old_tpl,
    {
        self.current = old_tpl;
    }
}

/// The placement that a request of the given kind asks for; `memory` is the
/// address that came with the request.
pub open spec fn placement_of(allocate_type: AllocateType, memory: u64) -> Placement {
    match allocate_type {
        AllocateType::AllocateAnyPages => Placement::Anywhere,
        AllocateType::AllocateMaxAddress => Placement::Max(memory),
        AllocateType::AllocateAddress => Placement::Fixed(memory),
    }
}

/// Allocates `pages` pages of type `memory_type`. Returns the status and the
/// base address of the pages; where nothing was allocated the address is
/// `memory`, as it came, and the map is as it was.
pub fn allocate_pages(
    mm: &mut MemoryMap,
    allocate_type: AllocateType,
    memory_type: MemoryType,
    pages: usize,
    memory: u64,
) -> (res: (Status, u64))
    requires
        old(mm).wf(),
    ensures
        final(mm).wf(),
        match place(old(mm)@, pages as u64, placement_of(allocate_type, memory)) {
            Some(base) => res == (Status::EFI_SUCCESS, base) && retyped(
                old(mm)@,
                final(mm)@,
                base as int,
                pages * 4096,
                plain(memory_type),
            ) && final(mm).map_key() == (if starts_descriptor(old(mm)@, base) {
                next_key(old(mm).map_key())
            } else {
                next_key(next_key(old(mm).map_key()))
            }) && final(mm)@ == converted(old(mm)@, base, pages as u64, memory_type),
            None => res == (Status::EFI_OUT_OF_RESOURCES, memory) && *final(mm) == *old(mm),
        },
{
    let placement = match allocate_type {
        AllocateType::AllocateAnyPages => Placement::Anywhere,
        AllocateType::AllocateMaxAddress => Placement::Max(memory),
        AllocateType::AllocateAddress => Placement::Fixed(memory),
    };
    match crate::efi::memmap::allocate_pages(mm, pages, memory_type, placement) {
        Some(base) => (Status::EFI_SUCCESS, base),
        None => (Status::EFI_OUT_OF_RESOURCES, memory),
    }
}

/// Frees `pages` pages at `memory`: an address that is not page-aligned is an
/// invalid parameter; pages that do not lie in one descriptor are not found.
pub fn free_pages(mm: &mut MemoryMap, memory: u64, pages: usize) -> (status: Status)
    requires
        old(mm).wf(),
    ensures
        final(mm).wf(),
        status == (if memory as int % 4096 != 0 {
            Status::EFI_INVALID_PARAMETER
        } else if convertible(old(mm)@, memory, pages as u64, None) {
            Status::EFI_SUCCESS
        } else {
            Status::EFI_NOT_FOUND
        }),
        status == Status::EFI_SUCCESS ==> retyped(
            old(mm)@,
            final(mm)@,
            memory as int,
            pages * 4096,
            plain(MemoryType::EfiConventionalMemory),
        ) && final(mm).map_key() == (if starts_descriptor(old(mm)@, memory) {
            next_key(old(mm).map_key())
        } else {
            next_key(next_key(old(mm).map_key()))
        }) && final(mm)@ == converted(
            old(mm)@,
            memory,
            pages as u64,
            MemoryType::EfiConventionalMemory,
        ),
        status != Status::EFI_SUCCESS ==> *final(mm) == *old(mm),
{
    if memory % 4096 != 0 {
        return Status::EFI_INVALID_PARAMETER;
    }
    match crate::efi::memmap::free_pages(mm, memory, pages) {
        Ok(_) => Status::EFI_SUCCESS,
        Err(_) => Status::EFI_NOT_FOUND,
    }
}

/// The answer to a request for the memory map.
#[derive(Clone, Copy, PartialEq, Eq, Structural, Debug)]
pub struct MemoryMapReply {
    pub status: Status,
    /// The size in bytes that a buffer for the map needs.
    pub memory_map_size: usize,
    /// The key of the map that was copied; 0 where none was.
    pub map_key: usize,
    pub descriptor_size: usize,
    pub descriptor_version: u32,
}

/// The size in bytes of the records of all descriptors of the map, as far as
/// a machine word can tell it.
pub open spec fn map_size(mm: &MemoryMap) -> int {
    if mm@.len() * 40 <= usize::MAX {
        (mm@.len() * 40) as int
    } else {
        usize::MAX as int
    }
}

/// Copies the memory map into the buffer `memory_map`, if it is large
/// enough.
///
/// The reply tells the size that the map needs in either case. Where the
/// buffer is too small nothing is copied. Otherwise the buffer holds the
/// records of the descriptors in ascending order, one after the other from
/// its start, with what follows them left as it was, and the reply holds the
/// key that the copy is valid for, the size of a record and the version of
/// the format.
pub fn get_memory_map(mm: &MemoryMap, memory_map: &mut [u8]) -> (reply: MemoryMapReply)
    ensures
        reply.memory_map_size == map_size(mm),
        reply.status == (if old(memory_map)@.len() < mm@.len() * 40 {
            Status::EFI_BUFFER_TOO_SMALL
        } else {
            Status::EFI_SUCCESS
        }),
        final(memory_map)@.len() == old(memory_map)@.len(),
        reply.status == Status::EFI_BUFFER_TOO_SMALL ==> final(memory_map)@ == old(memory_map)@,
        reply.status == Status::EFI_SUCCESS ==> reply.map_key == mm.map_key()
            && reply.descriptor_size == 40 && reply.descriptor_version == 1,
        reply.status == Status::EFI_SUCCESS ==> forall|j: int|
            0 <= j < mm@.len() ==> record_at(final(memory_map)@, 40 * j, #[trigger] mm@[j]),
        reply.status == Status::EFI_SUCCESS ==> forall|i: int|
            mm@.len() * 40 <= i < old(memory_map)@.len() ==> final(memory_map)@[i] == old(
                memory_map,
            )@[i],
{
    let memory_map_size = memory_map.len();
    let maplen = crate::efi::memmap::len(mm);
    if maplen > usize::MAX / EFI_MEMORY_DESCRIPTOR_SIZE {
        return MemoryMapReply {
            status: Status::EFI_BUFFER_TOO_SMALL,
            memory_map_size: usize::MAX,
            map_key: 0,
            descriptor_size: 0,
            descriptor_version: 0,
        };
    }
    let mapsize = maplen * EFI_MEMORY_DESCRIPTOR_SIZE;
    if memory_map_size < mapsize {
        return MemoryMapReply {
            status: Status::EFI_BUFFER_TOO_SMALL,
            memory_map_size: mapsize,
            map_key: 0,
            descriptor_size: 0,
            descriptor_version: 0,
        };
    }
    let mut records: Vec<MemoryDescriptor> = Vec::new();
    let mut i: usize = 0;
    while i < maplen
        invariant
            maplen == mm@.len(),
            i <= maplen,
            records@.len() == i,
            forall|j: int| 0 <= j < i ==> records@[j] == mm@[j],
        decreases maplen - i,
    {
        match mm.get(i) {
            Some(d) => {
                records.push(d);
            },
            None => {},
        }
        i += 1;
    }
    proof {
        assert(records@ =~= mm@);
    }
    encode_records(&records, memory_map);
    MemoryMapReply {
        status: Status::EFI_SUCCESS,
        memory_map_size: mapsize,
        map_key: crate::efi::memmap::key(mm),
        descriptor_size: EFI_MEMORY_DESCRIPTOR_SIZE,
        descriptor_version: EFI_MEMORY_DESCRIPTOR_VERSION,
    }
}

/// Whether the boot phase may end: only a caller that presents the current
/// map key has seen the map as it is.
pub fn exit_boot_services(mm: &MemoryMap, map_key: usize) -> (status: Status)
    ensures
        status == (if map_key == mm.map_key() {
            Status::EFI_SUCCESS
        } else {
            Status::EFI_INVALID_PARAMETER
        }),
{
    if map_key != crate::efi::memmap::key(mm) {
        return Status::EFI_INVALID_PARAMETER;
    }
    Status::EFI_SUCCESS
}

} // verus!
