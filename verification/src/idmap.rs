//! The identity map: the translation tree under which the firmware runs once
//! all of memory is mapped, with every virtual address equal to the physical
//! address behind it.

use vstd::prelude::*;
use crate::align::{align_down, align_up};
use crate::paging::geometry::{index_of, level_after, level_beside};
use crate::paging::table::{image_leaf, image_walk, image_wf, PageTable, RootTable, words_of};
use crate::paging::{Attributes, Chunk, Descriptor};

verus! {

/// The address-space identifier of the identity map. The initial map uses
/// another, so that invalidating the translations of this one leaves those of
/// the initial map alone.
pub const ASID: u64 = 1;

/// The level of the root table: with pages of 4 KiB and 39 bits of address, a
/// walk starts at level 1.
pub const ROOT_LEVEL: usize = 1;

/// The number of bytes that the identity map spans: 512 GiB.
pub const SPAN: u64 = 0x80_0000_0000;

/// The value of the translation base register that puts a map into use whose
/// root table lies at `root`: the address of the table, tagged with the
/// address-space identifier in the highest 16 bits.
pub fn translation_base(root: u64) -> (ttbr: u64)
    requires
        root < 0x1_0000_0000_0000,
    ensures
        ttbr == root + 0x1_0000_0000_0000,
        ttbr & 0x0000_ffff_ffff_ffff == root,
        ttbr & 0xffff_0000_0000_0000 == 0x1_0000_0000_0000,
{
    assert(root < 0x1_0000_0000_0000 ==> (root | 0x1_0000_0000_0000) == root + 0x1_0000_0000_0000
        && (root | 0x1_0000_0000_0000) & 0x0000_ffff_ffff_ffff == root && (root
        | 0x1_0000_0000_0000) & 0xffff_0000_0000_0000 == 0x1_0000_0000_0000) by (bit_vector);
    root | 0x1_0000_0000_0000
}

/// The operand that invalidates the cached translations of the map's
/// address-space identifier and no others.
pub fn invalidation_operand() -> (operand: u64)
    ensures
        operand == 0x1_0000_0000_0000,
{
    0x1_0000_0000_0000
}

pub struct IdMap {
    root: RootTable,
}

impl IdMap {
    /// The tree of the map.
    pub closed spec fn tree(&self) -> RootTable {
        self.root
    }

    /// The invariant: a valid tree with its root at level 1.
    pub open spec fn wf(&self) -> bool {
        self.tree().wf() && self.tree().root_level() == 1
    }

    /// What the map makes of address `va`: the physical address and the
    /// protection bits, or nothing where the address is not mapped.
    pub open spec fn walk(&self, va: int) -> Option<(int, u64)> {
        self.tree().walk(va)
    }

    /// The level of the table in which the walk for `va` ends.
    pub open spec fn leaf_level(&self, va: int) -> int {
        self.tree().leaf_level(va)
    }

    /// The entry at which the walk for `va` ends.
    pub open spec fn leaf(&self, va: int) -> Descriptor {
        self.tree().leaf(va)
    }

    /// The pages that hold `[start, start + len)`.
    pub open spec fn pages(start: u64, len: u64) -> Chunk {
        Chunk((align_down(start as int, 4096) as u64)..(align_up(start + len, 4096) as u64))
    }

    /// Whether the pages that hold `[start, start + len)` hold `va`.
    pub open spec fn holds(start: u64, len: u64, va: int) -> bool {
        align_down(start as int, 4096) <= va < align_up(start + len, 4096)
    }

    /// Whether the pages that hold `[start, start + len)` hold a byte of the
    /// gigabyte of `va`, which is what one root entry spans.
    pub open spec fn touches(start: u64, len: u64, va: int) -> bool {
        &&& align_down(start as int, 4096) < align_up(start + len, 4096)
        &&& align_down(start as int, 4096) < align_down(va, 0x4000_0000) + 0x4000_0000
        &&& align_down(va, 0x4000_0000) < align_up(start + len, 4096)
    }

    /// A map that holds what the first root entry of `initial` maps, the
    /// lowest gigabyte, and nothing else. `initial` is the root table, at
    /// level 1, that the firmware starts under.
    pub fn new(initial: &PageTable) -> (id: IdMap)
        requires
            initial.wf(1),
        ensures
            id.wf(),
            forall|va: int|
                0 <= va ==> (#[trigger] id.walk(va)) == (if index_of(va, 1) == 0 {
                    initial.walk(va, 1)
                } else {
                    None
                }),
            forall|va: int|
                0 <= va ==> (#[trigger] id.leaf_level(va)) == (if index_of(va, 1) == 0 {
                    initial.leaf_level(va, 1)
                } else {
                    1
                }),
            forall|va: int|
                0 <= va ==> (#[trigger] id.leaf(va)).0 == (if index_of(va, 1) == 0 {
                    initial.leaf(va, 1).0
                } else {
                    0
                }),
    {
        let mut id = IdMap { root: RootTable::new(ROOT_LEVEL) };
        id.root.clone_raw_entry(initial, 0);
        id
    }

    /// Maps the pages that hold `[start, start + len)` to themselves with the
    /// given flags. What was mapped outside those pages stays as it was.
    ///
    /// The walk for an address of the pages ends at the first level at which
    /// the pages hold all that the entry for it spans and the entry led to
    /// no table; the walk for another address ends where it ended, or, where
    /// the pages hold a part of what its entry spanned, at the first level
    /// below at which they hold nothing of it. Each entry that is written
    /// bears the valid bit and the accessed bit, and at the last level the
    /// bit that makes it a page. No table is added where the walks for the
    /// pages end where they ended.
    pub fn map_range(&mut self, start: u64, len: u64, flags: Attributes)
        requires
            old(self).wf(),
            flags.for_mapping(),
            start + len + 4095 <= 0x80_0000_0000,
        ensures
            final(self).wf(),
            forall|va: int|
                0 <= va < 0x80_0000_0000 ==> (#[trigger] final(self).walk(va)) == (if align_down(
                    start as int,
                    4096,
                ) <= va < align_up(start + len, 4096) {
                    Some((va, flags.bits & 0xffff_0000_0000_0bfc))
                } else {
                    old(self).walk(va)
                }),
            forall|va: int|
                align_down(start as int, 4096) <= va < align_up(start + len, 4096) ==> ((
                #[trigger] final(self).leaf_level(va)) == 1 <==> align_down(start as int, 4096)
                    <= align_down(va, 0x4000_0000) && align_down(va, 0x4000_0000) + 0x4000_0000
                    <= align_up(start + len, 4096) && old(self).leaf_level(va) == 1),
            forall|va: int|
                IdMap::holds(start, len, va) ==> (#[trigger] final(self).leaf_level(va))
                    == level_after(IdMap::pages(start, len), va, old(self).leaf_level(va), 1),
            forall|va: int|
                0 <= va < 0x80_0000_0000 && !IdMap::holds(start, len, va) ==> (
                #[trigger] final(self).leaf_level(va)) == level_beside(
                    IdMap::pages(start, len),
                    va,
                    old(self).leaf_level(va),
                    1,
                ),
            forall|va: int|
                IdMap::holds(start, len, va) ==> #[trigger] final(self).tree().written(va),
            forall|va: int|
                0 <= va < 0x80_0000_0000 && !IdMap::holds(start, len, va) ==> #[trigger] old(
                    self,
                ).tree().kept(final(self).tree(), va),
            forall|va: int|
                0 <= va < 0x80_0000_0000 && !IdMap::touches(start, len, va) ==> (
                #[trigger] final(self).leaf_level(va)) == old(self).leaf_level(va),
            forall|va: int|
                0 <= va < 0x80_0000_0000 && !IdMap::touches(start, len, va) ==> (
                #[trigger] final(self).leaf(va)) == old(self).leaf(va),
            forall|va: int|
                0 <= va && IdMap::touches(start, len, va) && !(align_down(start as int, 4096)
                    <= align_down(va, 0x4000_0000) && align_down(va, 0x4000_0000) + 0x4000_0000
                    <= align_up(start + len, 4096)) ==> (#[trigger] final(self).leaf_level(va))
                    > 1,
            final(self).count() >= old(self).count(),
            (forall|va: int|
                IdMap::holds(start, len, va) ==> (#[trigger] final(self).leaf_level(va)) == old(
                    self,
                ).leaf_level(va)) ==> final(self).count() == old(self).count(),
    {
        let base = start - start % 4096;
        let span = start - base + len;
        let size = if span % 4096 == 0 {
            span
        } else {
            span - span % 4096 + 4096
        };
        let ghost before = *self;
        let pages = Chunk(base..base + size);
        self.root.map_range(&pages, base, flags);
        proof {
            assert(pages == IdMap::pages(start, len));
            if forall|va: int|
                IdMap::holds(start, len, va) ==> (#[trigger] self.leaf_level(va))
                    == before.leaf_level(va) {
                assert forall|va: int| pages.holds(va) implies (#[trigger] self.root.leaf_level(
                    va,
                )) == before.root.leaf_level(va) by {
                    assert(IdMap::holds(start, len, va));
                    assert(self.leaf_level(va) == before.leaf_level(va));
                }
                assert(before.root.same_levels(self.root, pages));
            }
        }
    }

    /// The entry at which the walk for `va` ends.
    pub fn entry(&self, va: u64) -> (d: Descriptor)
        requires
            self.wf(),
        ensures
            d == self.leaf(va as int),
    {
        self.root.entry(va)
    }

    /// The number of tables of the map.
    pub open spec fn count(&self) -> int {
        self.tree().count()
    }

    /// The number of tables of the map: at least one, and at most 262657.
    pub fn table_count(&self) -> (n: usize)
        requires
            self.wf(),
        ensures
            n == self.count(),
            1 <= n <= 262657,
    {
        self.root.table_count()
    }

    /// The tables of the map as the hardware reads them, for consecutive
    /// pages from `base` on: table `k` of the image is to lie at address
    /// `base + k * 4096`, and the root is table 0. A walk of the image from
    /// the root, at level 1, gives what the map gives.
    pub fn image(&self, base: u64) -> (img: Vec<Vec<u64>>)
        requires
            self.wf(),
            base as int % 4096 == 0,
            base + self.count() * 4096 <= 0x1_0000_0000_0000,
        ensures
            img@.len() == self.count(),
            image_wf(words_of(img@), base as int, 0, 1),
            forall|va: int|
                0 <= va ==> (#[trigger] image_walk(words_of(img@), base as int, 0, va, 1))
                    == self.walk(va),
            forall|va: int|
                0 <= va ==> (#[trigger] image_leaf(words_of(img@), base as int, 0, va, 1))
                    == self.leaf(va).0,
    {
        self.root.image(base)
    }

    /// The level of the table in which the walk for `va` ends.
    pub fn mapping_level(&self, va: u64) -> (l: usize)
        requires
            self.wf(),
        ensures
            l == self.leaf_level(va as int),
            1 <= l <= 3,
    {
        self.root.mapping_level(va)
    }

    /// Translates `va`: the physical address and the protection bits, or
    /// nothing where the address is not mapped.
    pub fn translate(&self, va: u64) -> (r: Option<(u64, u64)>)
        requires
            self.wf(),
        ensures
            match r {
                Some((pa, protection)) => self.walk(va as int) == Some((pa as int, protection)),
                None => self.walk(va as int) is None || (self.walk(va as int) matches Some(
                    (pa, _),
                ) && pa > u64::MAX),
            },
    {
        self.root.translate(va)
    }
}

} // verus!
