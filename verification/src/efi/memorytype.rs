//! Memory types and the memory descriptor record.

use vstd::prelude::*;
use crate::efi::{PhysicalAddress, VirtualAddress};
use crate::bytes::{le_value, lemma_le_value_same, lemma_pow256_values, write_le};

verus! {

/// What a range of physical memory is used for.
#[allow(dead_code)]
#[derive(Clone, Copy, PartialEq, Eq, Structural, Debug)]
pub enum MemoryType {
    EfiReservedMemoryType,
    EfiLoaderCode,
    EfiLoaderData,
    EfiBootServicesCode,
    EfiBootServicesData,
    EfiRuntimeServicesCode,
    EfiRuntimeServicesData,
    EfiConventionalMemory,
    EfiUnusableMemory,
    EfiACPIReclaimMemory,
    EfiACPIMemoryNVS,
    EfiMemoryMappedIO,
    EfiMemoryMappedIOPortSpace,
    EfiPalCode,
    EfiPersistentMemory,
}

/// One record of the memory map: `number_of_pages` pages of one type that
/// start at `physical_start`.
#[derive(Clone, Copy, PartialEq, Eq, Structural, Debug)]
pub struct MemoryDescriptor {
    pub memory_type: MemoryType,
    pub physical_start: PhysicalAddress,
    pub virtual_start: VirtualAddress,
    pub number_of_pages: u64,
    pub attribute: u64,
}

/// The number that stands for a memory type in a record of the memory map.
pub open spec fn type_code(t: MemoryType) -> u32 {
    match t {
        MemoryType::EfiReservedMemoryType => 0,
        MemoryType::EfiLoaderCode => 1,
        MemoryType::EfiLoaderData => 2,
        MemoryType::EfiBootServicesCode => 3,
        MemoryType::EfiBootServicesData => 4,
        MemoryType::EfiRuntimeServicesCode => 5,
        MemoryType::EfiRuntimeServicesData => 6,
        MemoryType::EfiConventionalMemory => 7,
        MemoryType::EfiUnusableMemory => 8,
        MemoryType::EfiACPIReclaimMemory => 9,
        MemoryType::EfiACPIMemoryNVS => 10,
        MemoryType::EfiMemoryMappedIO => 11,
        MemoryType::EfiMemoryMappedIOPortSpace => 12,
        MemoryType::EfiPalCode => 13,
        MemoryType::EfiPersistentMemory => 14,
    }
}

impl MemoryType {
    /// The number that stands for the type in a record of the memory map.
    pub fn code(&self) -> (c: u32)
        ensures
            c == type_code(*self),
    {
        match self {
            MemoryType::EfiReservedMemoryType => 0,
            MemoryType::EfiLoaderCode => 1,
            MemoryType::EfiLoaderData => 2,
            MemoryType::EfiBootServicesCode => 3,
            MemoryType::EfiBootServicesData => 4,
            MemoryType::EfiRuntimeServicesCode => 5,
            MemoryType::EfiRuntimeServicesData => 6,
            MemoryType::EfiConventionalMemory => 7,
            MemoryType::EfiUnusableMemory => 8,
            MemoryType::EfiACPIReclaimMemory => 9,
            MemoryType::EfiACPIMemoryNVS => 10,
            MemoryType::EfiMemoryMappedIO => 11,
            MemoryType::EfiMemoryMappedIOPortSpace => 12,
            MemoryType::EfiPalCode => 13,
            MemoryType::EfiPersistentMemory => 14,
        }
    }
}

/// Whether the 40 bytes of `out` from `off` on are the record of `d`: the
/// type in 4 bytes, 4 bytes of padding, which are zero, and the physical
/// start, the virtual start, the number of pages and the attribute in 8
/// bytes each, all numbers little-endian.
pub open spec fn record_at(out: Seq<u8>, off: int, d: MemoryDescriptor) -> bool {
    &&& le_value(out, off, 4) == type_code(d.memory_type)
    &&& le_value(out, off + 4, 4) == 0
    &&& le_value(out, off + 8, 8) == d.physical_start
    &&& le_value(out, off + 16, 8) == d.virtual_start
    &&& le_value(out, off + 24, 8) == d.number_of_pages
    &&& le_value(out, off + 32, 8) == d.attribute
}

/// Bytes that agree on the 40 bytes from `off` on hold the same record
/// there.
pub proof fn lemma_record_same(a: Seq<u8>, b: Seq<u8>, off: int, d: MemoryDescriptor)
    requires
        forall|i: int| off <= i < off + 40 ==> a[i] == b[i],
        record_at(a, off, d),
    ensures
        record_at(b, off, d),
{
    lemma_le_value_same(a, b, off, 4);
    lemma_le_value_same(a, b, off + 4, 4);
    lemma_le_value_same(a, b, off + 8, 8);
    lemma_le_value_same(a, b, off + 16, 8);
    lemma_le_value_same(a, b, off + 24, 8);
    lemma_le_value_same(a, b, off + 32, 8);
}

/// Writes the records of the descriptors one after the other from the start
/// of `out`, which has room for them: record `j` lies at `40 * j`. The bytes
/// after the last record stay as they are.
pub fn encode_records(records: &Vec<MemoryDescriptor>, out: &mut [u8])
    requires
        records@.len() * 40 <= old(out)@.len(),
    ensures
        final(out)@.len() == old(out)@.len(),
        forall|j: int|
            0 <= j < records@.len() ==> record_at(final(out)@, 40 * j, #[trigger] records@[j]),
        forall|i: int|
            records@.len() * 40 <= i < old(out)@.len() ==> final(out)@[i] == old(out)@[i],
{
    let n = records.len();
    let len = out.len();
    let ghost start = out@;
    let mut i: usize = 0;
    while i < n
        invariant
            n == records@.len(),
            len == out@.len(),
            len == start.len(),
            i <= n,
            n * 40 <= len,
            forall|j: int| 0 <= j < i ==> record_at(out@, 40 * j, #[trigger] records@[j]),
            forall|k: int| i * 40 <= k < len ==> out@[k] == start[k],
        decreases n - i,
    {
        let ghost before = out@;
        let d = records[i];
        d.encode(out, i * 40);
        proof {
            assert forall|j: int| 0 <= j < i implies record_at(
                out@,
                40 * j,
                #[trigger] records@[j],
            ) by {
                lemma_record_same(before, out@, 40 * j, records@[j]);
            }
        }
        i += 1;
    }
}

impl MemoryDescriptor {
    /// Writes the record of the descriptor at `off`: 40 bytes that hold the
    /// type in 4 bytes, 4 bytes of padding, which are zero, and the physical
    /// start, the virtual start, the number of pages and the attribute in 8
    /// bytes each, all numbers little-endian. The other bytes stay as they
    /// are.
    pub fn encode(&self, out: &mut [u8], off: usize)
        requires
            off + 40 <= old(out)@.len(),
        ensures
            final(out)@.len() == old(out)@.len(),
            record_at(final(out)@, off as int, *self),
            forall|i: int|
                0 <= i < old(out)@.len() && !(off <= i < off + 40) ==> final(out)@[i] == old(
                    out,
                )@[i],
    {
        let len = out.len();
        proof {
            lemma_pow256_values();
        }
        write_le(out, off, 4, self.memory_type.code() as u64);
        let ghost s1 = out@;
        write_le(out, off + 4, 4, 0);
        let ghost s2 = out@;
        write_le(out, off + 8, 8, self.physical_start);
        let ghost s3 = out@;
        write_le(out, off + 16, 8, self.virtual_start);
        let ghost s4 = out@;
        write_le(out, off + 24, 8, self.number_of_pages);
        let ghost s5 = out@;
        write_le(out, off + 32, 8, self.attribute);
        proof {
            lemma_le_value_same(s1, out@, off as int, 4);
            lemma_le_value_same(s2, out@, off + 4, 4);
            lemma_le_value_same(s3, out@, off + 8, 8);
            lemma_le_value_same(s4, out@, off + 16, 8);
            lemma_le_value_same(s5, out@, off + 24, 8);
        }
    }
}

} // verus!
