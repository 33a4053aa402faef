//! Translation table entries, attribute words and address chunks: the parts
//! that tables are made of.

use core::ops::Range;
use vstd::prelude::*;
use crate::align::{align_down, lemma_align_down};

pub mod geometry;
pub mod table;

pub use crate::paging::table::{PageTable, RootTable};

verus! {

pub const PAGE_SHIFT: usize = 12;

pub const PAGE_SIZE: usize = 4096;

/// The number of entries in a table.
pub const ENTRIES: usize = 512;

/// The level of the tables whose entries map single pages.
pub const LEAF_LEVEL: usize = 3;

/// The entry is honoured by a table walk.
pub const VALID: u64 = 0x1;

/// Above the leaf level: the entry points to a table. At the leaf level: the
/// entry maps a page.
pub const TABLE_OR_PAGE: u64 = 0x2;

/// Memory type: device memory.
pub const DEVICE_NGNRE: u64 = 0x0;

/// Memory type: normal memory, inner shareable.
pub const NORMAL: u64 = 0x304;

pub const READ_ONLY: u64 = 0x80;

pub const ACCESSED: u64 = 0x400;

pub const NON_GLOBAL: u64 = 0x800;

pub const EXECUTE_NEVER: u64 = 0x60_0000_0000_0000;

/// The bits of an entry that hold the output address.
pub const ADDRESS_BITS: u64 = 0x0000_ffff_ffff_f000;

/// The bits of an entry that hold flags.
pub const FLAG_BITS: u64 = 0xffff_0000_0000_0fff;

/// The flag bits that say how memory behaves: all but the valid bit, the
/// table-or-page bit and the accessed bit.
pub const PROTECTION_BITS: u64 = 0xffff_0000_0000_0bfc;

/// The marks of an entry that maps memory at `level`: valid and accessed,
/// and at the last level the bit that makes it a page.
pub open spec fn written_marks(level: int) -> u64 {
    if level >= 3 {
        0x403
    } else {
        0x401
    }
}

/// The span of one entry of a table at `level`, in bytes.
pub open spec fn granule(level: int) -> int {
    if level >= 3 {
        0x1000
    } else if level == 2 {
        0x20_0000
    } else if level == 1 {
        0x4000_0000
    } else {
        0x80_0000_0000
    }
}

/// The span of one entry of a table at `level`, in bytes.
pub fn granularity(level: usize) -> (g: u64)
    ensures
        g == granule(level as int),
{
    if level >= 3 {
        0x1000
    } else if level == 2 {
        0x20_0000
    } else if level == 1 {
        0x4000_0000
    } else {
        0x80_0000_0000
    }
}

/// A set of entry flags.
#[derive(Clone, Copy, PartialEq, Eq, Structural, Debug)]
pub struct Attributes {
    pub bits: u64,
}

impl Attributes {
    /// Whether the flags can be given to a mapping: they leave the address
    /// bits and the table-or-page bit alone.
    pub open spec fn for_mapping(self) -> bool {
        self.bits & 0x0000_ffff_ffff_f002 == 0
    }

    /// No flag at all.
    pub fn empty() -> (r: Attributes)
        ensures
            r.bits == 0,
            r.for_mapping(),
    {
        assert(0u64 & 0x0000_ffff_ffff_f002 == 0) by (bit_vector);
        Attributes { bits: 0 }
    }

    /// The flags of normal memory: cacheable and inner shareable.
    pub fn normal() -> (r: Attributes)
        ensures
            r.bits == NORMAL,
            r.for_mapping(),
    {
        assert(0x304u64 & 0x0000_ffff_ffff_f002 == 0) by (bit_vector);
        Attributes { bits: NORMAL }
    }

    /// The flags of device memory.
    pub fn device() -> (r: Attributes)
        ensures
            r.bits == DEVICE_NGNRE,
            r.for_mapping(),
    {
        assert(0u64 & 0x0000_ffff_ffff_f002 == 0) by (bit_vector);
        Attributes { bits: DEVICE_NGNRE }
    }

    /// The flag word.
    pub fn bits(self) -> (b: u64)
        ensures
            b == self.bits,
    {
        self.bits
    }

    /// These flags and those of `other`.
    pub fn insert(&mut self, other: Attributes)
        ensures
            final(self).bits == old(self).bits | other.bits,
            old(self).for_mapping() && other.for_mapping() ==> final(self).for_mapping(),
    {
        let a = self.bits;
        let b = other.bits;
        assert(a & 0x0000_ffff_ffff_f002 == 0 && b & 0x0000_ffff_ffff_f002 == 0 ==> (a | b)
            & 0x0000_ffff_ffff_f002 == 0) by (bit_vector);
        self.bits = a | b;
    }

    /// Whether all flags of `other` are among these.
    pub fn contains(self, other: Attributes) -> (r: bool)
        ensures
            r == (self.bits & other.bits == other.bits),
    {
        self.bits & other.bits == other.bits
    }

    pub fn read_only(self) -> (r: Attributes)
        ensures
            r.bits == self.bits | READ_ONLY,
            self.for_mapping() ==> r.for_mapping(),
    {
        let a = self.bits;
        assert(a & 0x0000_ffff_ffff_f002 == 0 ==> (a | 0x80) & 0x0000_ffff_ffff_f002 == 0)
            by (bit_vector);
        Attributes { bits: a | READ_ONLY }
    }

    pub fn non_global(self) -> (r: Attributes)
        ensures
            r.bits == self.bits | NON_GLOBAL,
            self.for_mapping() ==> r.for_mapping(),
    {
        let a = self.bits;
        assert(a & 0x0000_ffff_ffff_f002 == 0 ==> (a | 0x800) & 0x0000_ffff_ffff_f002 == 0)
            by (bit_vector);
        Attributes { bits: a | NON_GLOBAL }
    }

    pub fn execute_disable(self) -> (r: Attributes)
        ensures
            r.bits == self.bits | EXECUTE_NEVER,
            self.for_mapping() ==> r.for_mapping(),
    {
        let a = self.bits;
        assert(a & 0x0000_ffff_ffff_f002 == 0 ==> (a | 0x60_0000_0000_0000)
            & 0x0000_ffff_ffff_f002 == 0) by (bit_vector);
        Attributes { bits: a | EXECUTE_NEVER }
    }

    pub fn valid(self) -> (r: Attributes)
        ensures
            r.bits == self.bits | VALID,
    {
        Attributes { bits: self.bits | VALID }
    }

    pub fn accessed(self) -> (r: Attributes)
        ensures
            r.bits == self.bits | ACCESSED,
    {
        Attributes { bits: self.bits | ACCESSED }
    }

    pub fn page(self) -> (r: Attributes)
        ensures
            r.bits == self.bits | TABLE_OR_PAGE,
    {
        Attributes { bits: self.bits | TABLE_OR_PAGE }
    }
}

/// One entry of a translation table: a machine word.
#[derive(Clone, Copy, PartialEq, Eq, Structural, Debug)]
pub struct Descriptor(pub u64);

impl Descriptor {
    /// The address that the entry points to.
    pub open spec fn address(self) -> u64 {
        self.0 & 0x0000_ffff_ffff_f000
    }

    /// Whether a table walk honours the entry.
    pub open spec fn valid(self) -> bool {
        self.0 & 0x1 != 0
    }

    /// Whether the entry is valid and has the table-or-page bit.
    pub open spec fn table(self) -> bool {
        self.valid() && self.0 & 0x2 != 0
    }

    /// How the memory behind the entry behaves: its flags without the valid
    /// bit, the table-or-page bit and the accessed bit.
    pub open spec fn protection(self) -> u64 {
        self.0 & 0xffff_0000_0000_0bfc
    }

    /// The marks of the entry: the valid bit, the table-or-page bit and the
    /// accessed bit. Address, protection and marks make up the word.
    pub open spec fn marks(self) -> u64 {
        self.0 & 0x403
    }

    /// An entry that maps nothing.
    pub fn invalid() -> (d: Descriptor)
        ensures
            d.0 == 0,
            !d.valid(),
            !d.table(),
    {
        assert(0u64 & 0x1 == 0) by (bit_vector);
        Descriptor(0)
    }

    pub fn output_address(&self) -> (pa: u64)
        ensures
            pa == self.address(),
            pa as int % 4096 == 0,
            pa < 0x1_0000_0000_0000,
    {
        proof {
            lemma_address(*self);
        }
        self.0 & ADDRESS_BITS
    }

    pub fn flags(self) -> (f: Attributes)
        ensures
            f.bits == self.0 & 0xffff_0000_0000_0fff,
            f.bits & 0x0000_ffff_ffff_f000 == 0,
            self.valid() && !self.table() ==> f.for_mapping(),
            f.bits & 0xffff_0000_0000_0bfc == self.protection(),
    {
        let w = self.0;
        assert((w & 0xffff_0000_0000_0fff) & 0x0000_ffff_ffff_f000 == 0) by (bit_vector);
        assert((w & 0x1 != 0 && !(w & 0x1 != 0 && w & 0x2 != 0)) ==> (w & 0xffff_0000_0000_0fff)
            & 0x0000_ffff_ffff_f002 == 0) by (bit_vector);
        assert((w & 0xffff_0000_0000_0fff) & 0xffff_0000_0000_0bfc == w & 0xffff_0000_0000_0bfc)
            by (bit_vector);
        Attributes { bits: w & FLAG_BITS }
    }

    pub fn is_valid(&self) -> (r: bool)
        ensures
            r == self.valid(),
    {
        (self.0 & VALID) != 0
    }

    pub fn is_table(&self) -> (r: bool)
        ensures
            r == self.table(),
    {
        self.is_valid() && (self.0 & TABLE_OR_PAGE) != 0
    }

    /// Makes the entry a valid one that points to `pa` with the given flags.
    pub fn set(&mut self, pa: u64, flags: Attributes)
        ensures
            final(self).0 == pa | (flags.bits | VALID),
            final(self).valid(),
            pa & 0xffff_0000_0000_0fff == 0 && flags.bits & 0x0000_ffff_ffff_f000 == 0 ==> {
                &&& final(self).address() == pa
                &&& final(self).protection() == flags.bits & 0xffff_0000_0000_0bfc
                &&& final(self).table() == (flags.bits & 0x2 != 0)
            },
    {
        let fb = flags.bits;
        assert((pa | (fb | 0x1)) & 0x1 != 0) by (bit_vector);
        assert(pa & 0xffff_0000_0000_0fff == 0 && fb & 0x0000_ffff_ffff_f000 == 0 ==> (pa | (fb
            | 0x1)) & 0x0000_ffff_ffff_f000 == pa && (pa | (fb | 0x1)) & 0xffff_0000_0000_0bfc == fb
            & 0xffff_0000_0000_0bfc && (((pa | (fb | 0x1)) & 0x2 != 0) == (fb & 0x2 != 0)))
            by (bit_vector);
        self.0 = pa | flags.valid().bits();
    }
}

/// The address of an entry is page-aligned and below the limit of the output
/// address field.
pub proof fn lemma_address(d: Descriptor)
    ensures
        d.address() as int % 4096 == 0,
        d.address() < 0x1_0000_0000_0000,
{
    let w = d.0;
    assert((w & 0x0000_ffff_ffff_f000) % 4096 == 0 && (w & 0x0000_ffff_ffff_f000)
        < 0x1_0000_0000_0000) by (bit_vector);
}

/// A page-aligned address below the limit of the output address field leaves
/// the flag bits of an entry alone.
/// An entry is made of its address, its protection and its marks, and of
/// nothing else; one with the marks of a written entry is valid.
pub proof fn lemma_word_parts(d: Descriptor)
    ensures
        d.0 == (d.address() | d.protection()) | d.marks(),
        d.marks() == 0x401 || d.marks() == 0x403 ==> d.valid(),
        d.0 == 0 ==> !d.valid() && d.marks() == 0,
{
    let w = d.0;
    assert(w == ((w & 0x0000_ffff_ffff_f000) | (w & 0xffff_0000_0000_0bfc)) | (w & 0x403))
        by (bit_vector);
    assert(w & 0x403 == 0x401 || w & 0x403 == 0x403 ==> w & 0x1 != 0) by (bit_vector);
    assert(0u64 & 0x1 == 0 && 0u64 & 0x403 == 0) by (bit_vector);
}

pub proof fn lemma_page_address(pa: u64)
    requires
        pa as int % 4096 == 0,
        pa < 0x1_0000_0000_0000,
    ensures
        pa & 0xffff_0000_0000_0fff == 0,
{
    assert(pa % 4096 == 0 && pa < 0x1_0000_0000_0000 ==> pa & 0xffff_0000_0000_0fff == 0)
        by (bit_vector);
}

/// A contiguous range of addresses.
pub struct Chunk(pub Range<u64>);

impl Chunk {
    /// Whether the chunk is made of whole pages, none or more, and lies below
    /// the limit of the address space.
    pub open spec fn pages(&self) -> bool {
        &&& self.0.start <= self.0.end
        &&& self.0.start as int % 4096 == 0
        &&& self.0.end as int % 4096 == 0
        &&& self.0.end <= 0x1_0000_0000_0000
    }

    /// Whether the chunk is not empty, is made of whole pages and lies below
    /// the limit of the address space.
    pub open spec fn wf(&self) -> bool {
        self.0.start < self.0.end && self.pages()
    }

    /// Whether byte address `va` lies in the chunk.
    pub open spec fn holds(&self, va: int) -> bool {
        self.0.start <= va < self.0.end
    }

    /// The end of the first piece of the chunk at `level`: the end of the
    /// chunk, or the next boundary between entries of a table at `level`,
    /// whichever comes first.
    pub open spec fn first_end(&self, level: int) -> int {
        let boundary = align_down(self.0.start as int, granule(level)) + granule(level);
        if self.0.end < boundary {
            self.0.end as int
        } else {
            boundary
        }
    }

    /// Whether the chunk holds the whole of what the entry for `va` spans in
    /// a table at `level`.
    pub open spec fn covers_block(&self, va: int, level: int) -> bool {
        &&& self.0.start <= align_down(va, granule(level))
        &&& align_down(va, granule(level)) + granule(level) <= self.0.end
    }

    /// Whether the chunk holds a byte of what the entry for `va` spans in a
    /// table at `level`.
    pub open spec fn touches_block(&self, va: int, level: int) -> bool {
        &&& self.0.start < self.0.end
        &&& self.0.start < align_down(va, granule(level)) + granule(level)
        &&& align_down(va, granule(level)) < self.0.end
    }

    /// Whether the chunk is exactly what one entry of a table at `level`
    /// spans, or several of them.
    pub open spec fn block(&self, level: int) -> bool {
        self.0.start as int % granule(level) == 0 && self.0.end as int % granule(level) == 0
    }

    /// Splits the first piece off the chunk: the part that lies under one
    /// entry of a table at `level`. The second chunk is the rest, which may
    /// be empty; both are empty where the chunk is.
    pub fn split(&self, level: usize) -> (r: (Chunk, Chunk))
        requires
            self.0.start <= self.0.end <= 0x1_0000_0000_0000,
        ensures
            r.0.0.start == self.0.start,
            r.0.0.end == self.first_end(level as int),
            r.1.0.start == r.0.0.end,
            r.1.0.end == self.0.end,
            self.0.start <= r.0.0.end <= self.0.end,
            self.0.start < self.0.end ==> self.0.start < r.0.0.end,
    {
        let gran = granularity(level);
        let start = self.0.start;
        let end = self.0.end;
        proof {
            lemma_align_down(start as int, gran as int);
        }
        let boundary = start - start % gran + gran;
        let stop = if end < boundary {
            end
        } else {
            boundary
        };
        (Chunk(start..stop), Chunk(stop..end))
    }

    /// Whether this chunk covers an entire block mapping at this level.
    pub fn is_block(&self, level: usize) -> (r: bool)
        ensures
            r == self.block(level as int),
    {
        let gran = granularity(level);
        self.0.start % gran == 0 && self.0.end % gran == 0
    }
}

} // verus!
