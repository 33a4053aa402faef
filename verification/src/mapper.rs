//! The boot-time face of the translation hardware: it keeps the list of
//! ranges that the firmware itself occupies, refuses to change or report on
//! them, and turns requests in firmware attribute bits into changes of the
//! live identity map.

use aarch64_paging::paging::MemoryRegion;
use aarch64_paging::MapError;
use core::ops::Range;
use vstd::prelude::*;
use crate::paging::Attributes;

verus! {

/// The address-space identifier that the live identity map is tagged with.
pub const ASID: usize = 1;

/// The level of the root table; it matches the tables that the firmware
/// starts under.
pub const PAGING_ROOT_LEVEL: usize = 1;

/// Firmware attribute bit: the range cannot be executed from.
pub const EFI_MEMORY_XP: u64 = 0x4000;

/// Firmware attribute bit: the range cannot be written to.
pub const EFI_MEMORY_RO: u64 = 0x20000;

/// Entry flag: the mapping is read-only.
pub const READ_ONLY: u64 = 0x80;

/// Entry flags: the mapping cannot be executed from, at either privilege.
pub const EXECUTE_NEVER: u64 = 0x60_0000_0000_0000;

/// The flag bits that the `aarch64_paging` crate knows. An entry that holds
/// another flag bit has no flags for the crate, and it gives up on a live map
/// that holds such an entry.
pub const KNOWN_FLAGS: u64 = 0x07e8_0000_0000_0fc7;

/// The live identity map: the translation tree of the `aarch64_paging`
/// crate. Nothing is known of what is inside a value.
#[verifier::external_body]
pub struct LiveMap {
    pub inner: aarch64_paging::idmap::IdMap,
}

/// Why the identity map refused a request.
#[derive(Clone, Copy, PartialEq, Eq, Structural, Debug)]
pub enum MapFault {
    /// The range reaches beyond what the map spans.
    AddressRange,
    /// An address of the range cannot be mapped.
    InvalidVirtualAddress,
    /// The range ends before it starts.
    RegionBackwards,
    /// An entry could not be updated.
    PteUpdateFault,
    /// The flags hold bits that a mapping cannot have.
    InvalidFlags,
    /// The change would alter a live translation in a way that the
    /// architecture allows only while the map is not in use.
    BreakBeforeMakeViolation,
}

/// What one entry of the identity map says, as a table walk finds it.
#[derive(Clone, Copy, PartialEq, Eq, Structural, Debug)]
pub struct WalkedEntry {
    /// Whether the entry is valid.
    pub valid: bool,
    /// The flag bits of the entry, where all of them are known flags.
    pub flags: Option<u64>,
}

/// The entries of the identity map that cover the pages of `[start, end)`, in
/// ascending order, or nothing where the map refuses to walk that range.
pub uninterp spec fn walked_entries(idmap: LiveMap, start: usize, end: usize) -> Option<
    Seq<WalkedEntry>,
>;

/// What the identity map answers to a request to map the pages of
/// `[start, end)` with the flag bits `flags`: the fault, or nothing where it
/// maps them.
pub uninterp spec fn map_answer(idmap: LiveMap, start: usize, end: usize, flags: u64) -> Option<
    MapFault,
>;

/// What the identity map answers to a request to set the flag bits `set` and
/// clear the flag bits `clear` on the pages of `[start, end)`: the fault, or
/// nothing where it changes them.
pub uninterp spec fn modify_answer(
    idmap: LiveMap,
    start: usize,
    end: usize,
    set: u64,
    clear: u64,
) -> Option<MapFault>;

/// Whether `[start, end)` can be handed to the identity map: rounding the end
/// up to a page boundary must not leave the address space, and the crate
/// computes with the address before the end.
pub open spec fn region_representable(start: usize, end: usize) -> bool {
    0 < end && end <= usize::MAX - 4095
}

/// Whether all of the flag bits are flags that the crate knows.
pub open spec fn known_flags(bits: u64) -> bool {
    bits & 0xf817_ffff_ffff_f038 == 0
}

/// What an entry says that was written for a mapping with the flag bits
/// `bits`: it is valid where the bits say so, and it holds the bits with the
/// accessed flag, and with the page flag where it maps a single page.
pub open spec fn mapped_entry(e: WalkedEntry, bits: u64) -> bool {
    &&& e.valid == (bits & 0x1 != 0)
    &&& (e.flags == Some(bits | 0x400) || e.flags == Some(bits | 0x402))
}

/// What an entry says after the flag bits `set` were set in it and the flag
/// bits `clear` cleared: where its flags are known, none of `clear` is among
/// them, and all of `set` that `clear` does not take away are.
pub open spec fn modified_entry(e: WalkedEntry, set: u64, clear: u64) -> bool {
    e.flags matches Some(f) ==> f & clear == 0 && (set & !clear) & !f == 0
}

/// Whether every entry is invalid.
pub open spec fn all_invalid(es: Seq<WalkedEntry>) -> bool {
    forall|i: int| 0 <= i < es.len() ==> !(#[trigger] es[i]).valid
}

/// Whether every entry is one written for a mapping with the flag bits
/// `bits`.
pub open spec fn all_mapped(es: Seq<WalkedEntry>, bits: u64) -> bool {
    forall|i: int| 0 <= i < es.len() ==> mapped_entry(#[trigger] es[i], bits)
}

/// Whether every entry is one in which `set` was set and `clear` cleared.
pub open spec fn all_modified(es: Seq<WalkedEntry>, set: u64, clear: u64) -> bool {
    forall|i: int| 0 <= i < es.len() ==> modified_entry(#[trigger] es[i], set, clear)
}

/// Calls `IdMap::new`: a map not in use, whose root table is zeroed, so that
/// whatever a walk of it visits is invalid. The root level is at most 3,
/// which the crate insists on.
#[verifier::external_body]
fn idmap_new(asid: usize, rootlevel: usize) -> (idmap: LiveMap)
    requires
        rootlevel <= 3,
    ensures
        forall|start: usize, end: usize|
            (#[trigger] walked_entries(idmap, start, end)) is Some ==> all_invalid(
                walked_entries(idmap, start, end)->0,
            ),
{
    LiveMap { inner: aarch64_paging::idmap::IdMap::new(asid, rootlevel) }
}

/// Calls `IdMap::map_range` on the pages of `[start, end)`. The answer is the
/// one that the map gives for this range and these flags. The flags hold
/// known bits only: the crate gives up on a live map in which it finds
/// another. Where the crate accepts the request, the flags did not hold the
/// table-or-page bit, which it checks before it maps, and a walk of the same
/// range finds what it wrote: each entry with the flags and the accessed
/// flag, a page entry with the page flag too.
#[verifier::external_body]
fn idmap_map_range(idmap: &mut LiveMap, start: usize, end: usize, flags: Attributes) -> (res:
    Result<(), MapFault>)
    requires
        region_representable(start, end),
        known_flags(flags.bits),
    ensures
        res is Ok <==> map_answer(*old(idmap), start, end, flags.bits) is None,
        res matches Err(f) ==> map_answer(*old(idmap), start, end, flags.bits) == Some(f),
        res is Ok ==> flags.bits & 0x2 == 0,
        res is Ok ==> walked_entries(*final(idmap), start, end) is Some && all_mapped(
            walked_entries(*final(idmap), start, end)->0,
            flags.bits,
        ),
{
    let flags = aarch64_paging::paging::Attributes::from_bits_retain(flags.bits as usize);
    idmap.inner.map_range(&MemoryRegion::new(start, end), flags).map_err(|e| match e {
        MapError::AddressRange(_) => MapFault::AddressRange,
        MapError::InvalidVirtualAddress(_) => MapFault::InvalidVirtualAddress,
        MapError::RegionBackwards(_) => MapFault::RegionBackwards,
        MapError::PteUpdateFault(_) => MapFault::PteUpdateFault,
        MapError::InvalidFlags(_) => MapFault::InvalidFlags,
        MapError::BreakBeforeMakeViolation(_) => MapFault::BreakBeforeMakeViolation,
    })
}

/// Calls `IdMap::modify_range` on the pages of `[start, end)` with an updater
/// that sets the flags `set` and clears the flags `clear` in each entry. The
/// answer is the one that the map gives for this range and these flags. The
/// updater of the crate panics where it would turn a block into a table or
/// back, so neither set of flags may hold the table-or-page bit; and both
/// hold known bits only, because the crate gives up on a live map in which
/// it finds another. Where the crate accepts the request, a walk of the same
/// range finds the entries changed.
#[verifier::external_body]
fn idmap_modify_flags(
    idmap: &mut LiveMap,
    start: usize,
    end: usize,
    set: Attributes,
    clear: Attributes,
) -> (res: Result<(), MapFault>)
    requires
        region_representable(start, end),
        known_flags(set.bits),
        known_flags(clear.bits),
        set.bits & 0x2 == 0,
        clear.bits & 0x2 == 0,
    ensures
        res is Ok <==> modify_answer(*old(idmap), start, end, set.bits, clear.bits) is None,
        res matches Err(f) ==> modify_answer(*old(idmap), start, end, set.bits, clear.bits)
            == Some(f),
        res is Ok ==> walked_entries(*final(idmap), start, end) is Some && all_modified(
            walked_entries(*final(idmap), start, end)->0,
            set.bits,
            clear.bits,
        ),
{
    let set = aarch64_paging::paging::Attributes::from_bits_retain(set.bits as usize);
    let clear = aarch64_paging::paging::Attributes::from_bits_retain(clear.bits as usize);
    let f = |_: &MemoryRegion, d: &mut aarch64_paging::paging::Descriptor, _: usize| {
        Ok(d.modify_flags(set, clear))
    };
    idmap.inner.modify_range(&MemoryRegion::new(start, end), &f).map_err(|e| match e {
        MapError::AddressRange(_) => MapFault::AddressRange,
        MapError::InvalidVirtualAddress(_) => MapFault::InvalidVirtualAddress,
        MapError::RegionBackwards(_) => MapFault::RegionBackwards,
        MapError::PteUpdateFault(_) => MapFault::PteUpdateFault,
        MapError::InvalidFlags(_) => MapFault::InvalidFlags,
        MapError::BreakBeforeMakeViolation(_) => MapFault::BreakBeforeMakeViolation,
    })
}

/// Calls `IdMap::walk_range` on the pages of `[start, end)` and hands out
/// what it visits: for each entry whether it is valid, and its flags. The
/// result is the one that the walk gives for this map and this range.
#[verifier::external_body]
fn idmap_walk(idmap: &LiveMap, start: usize, end: usize) -> (res: Option<Vec<WalkedEntry>>)
    requires
        region_representable(start, end),
    ensures
        res is Some <==> walked_entries(*idmap, start, end) is Some,
        res matches Some(v) ==> walked_entries(*idmap, start, end) == Some(v@),
{
    let mut out: Vec<WalkedEntry> = Vec::new();
    let mut visit = |_: &MemoryRegion, d: &aarch64_paging::paging::Descriptor, _: usize| {
        out.push(WalkedEntry { valid: d.is_valid(), flags: d.flags().map(|f| f.bits() as u64) });
        Ok(())
    };
    let walked = idmap.inner.walk_range(&MemoryRegion::new(start, end), &mut visit);
    walked.ok().map(|_| out)
}

/// The entry flags that stand for the firmware attribute bits `attributes`:
/// read-only for the write-protect bit and execute-never for the
/// execute-protect bit. Other bits play no part.
pub open spec fn entry_flags_of(attributes: u64) -> u64 {
    if attributes & 0x24000 == 0 {
        0
    } else if attributes & 0x24000 == 0x20000 {
        0x80
    } else if attributes & 0x24000 == 0x4000 {
        0x60_0000_0000_0000
    } else {
        0x60_0000_0000_0080
    }
}

/// The firmware attribute bits that stand for the entry flags `flags`:
/// write-protect where the read-only flag is set, and execute-protect where
/// one of the execute-never flags is.
pub open spec fn efi_attributes_of(flags: u64) -> u64 {
    if flags & 0x80 != 0 && flags & 0x60_0000_0000_0000 != 0 {
        0x24000
    } else if flags & 0x80 != 0 {
        0x20000
    } else if flags & 0x60_0000_0000_0000 != 0 {
        0x4000
    } else {
        0
    }
}

/// The protection that a walked entry shows: its read-only and execute-never
/// flags, where it is valid and all its flags are known.
pub open spec fn shown_protection(e: WalkedEntry) -> Option<u64> {
    match e.flags {
        Some(f) => if e.valid {
            Some(f & 0x60_0000_0000_0080)
        } else {
            None
        },
        None => None,
    }
}

/// Whether every entry shows a protection, and all show the same.
pub open spec fn uniform(entries: Seq<WalkedEntry>) -> bool {
    &&& forall|i: int| 0 <= i < entries.len() ==> (#[trigger] shown_protection(entries[i])) is Some
    &&& forall|i: int, j: int|
        0 <= i < entries.len() && 0 <= j < entries.len() ==> #[trigger] shown_protection(entries[i])
            == #[trigger] shown_protection(entries[j])
}

/// What is reported for a walked range: the firmware attribute bits of the
/// protection that all entries share; no bits for an empty walk; nothing
/// where an entry is invalid or unknown, or where two entries differ.
pub open spec fn reported(entries: Seq<WalkedEntry>) -> Option<u64> {
    if !uniform(entries) {
        None
    } else if entries.len() == 0 {
        Some(0)
    } else {
        Some(efi_attributes_of(shown_protection(entries[0])->0))
    }
}

/// What the mapper does next with a request to change a range.
#[derive(Clone, Copy, PartialEq, Eq, Structural, Debug)]
pub enum RemapStep {
    /// The change was made.
    Done,
    /// The change touches live translations: the caller takes the map out
    /// of use, repeats the request with `remap_range_inactive`, and puts the
    /// map back into use, whatever the repeated request gave.
    BreakBeforeMake,
    /// The range overlaps one that the firmware occupies; nothing changed.
    Reserved,
    /// The map refused the change for another reason.
    Failed,
}

/// The step that follows from the answer of the identity map to a first
/// request.
pub open spec fn step_of(answer: Option<MapFault>) -> RemapStep {
    match answer {
        None => RemapStep::Done,
        Some(MapFault::BreakBeforeMakeViolation) => RemapStep::BreakBeforeMake,
        Some(_) => RemapStep::Failed,
    }
}

/// The step that follows from the answer of the identity map to a request
/// that was repeated while the map was out of use.
pub open spec fn retry_step_of(answer: Option<MapFault>) -> RemapStep {
    match answer {
        None => RemapStep::Done,
        Some(_) => RemapStep::Failed,
    }
}

/// What follows from the answer of the identity map to a first request.
pub fn remap_outcome(answer: Result<(), MapFault>) -> (step: RemapStep)
    ensures
        step == (match answer {
            Ok(_) => RemapStep::Done,
            Err(MapFault::BreakBeforeMakeViolation) => RemapStep::BreakBeforeMake,
            Err(_) => RemapStep::Failed,
        }),
        step == step_of(answer.err()),
        step != RemapStep::Reserved,
{
    match answer {
        Ok(_) => RemapStep::Done,
        Err(MapFault::BreakBeforeMakeViolation) => RemapStep::BreakBeforeMake,
        Err(_) => RemapStep::Failed,
    }
}

/// What follows from the answer of the identity map to a request that was
/// repeated while the map was out of use: there is no second retry.
pub fn retry_outcome(answer: Result<(), MapFault>) -> (step: RemapStep)
    ensures
        step == (match answer {
            Ok(_) => RemapStep::Done,
            Err(_) => RemapStep::Failed,
        }),
        step == retry_step_of(answer.err()),
        step != RemapStep::BreakBeforeMake,
        step != RemapStep::Reserved,
{
    match answer {
        Ok(_) => RemapStep::Done,
        Err(_) => RemapStep::Failed,
    }
}

/// What a walk reports: see `reported`.
pub fn uniform_attributes(entries: &Vec<WalkedEntry>) -> (res: Option<u64>)
    ensures
        res == reported(entries@),
        res is Some <==> uniform(entries@),
{
    let mask: u64 = READ_ONLY | EXECUTE_NEVER;
    let n = entries.len();
    assert(0x80u64 | 0x60_0000_0000_0000u64 == 0x60_0000_0000_0080u64) by (bit_vector);
    if n == 0 {
        return Some(0);
    }
    let first = entries[0];
    let shown: u64 = match first.flags {
        Some(f) => {
            if !first.valid {
                proof {
                    assert(shown_protection(entries@[0]) is None);
                }
                return None;
            }
            f & mask
        },
        None => {
            proof {
                assert(shown_protection(entries@[0]) is None);
            }
            return None;
        },
    };
    let mut i: usize = 1;
    while i < n
        invariant
            n == entries@.len(),
            1 <= i <= n,
            mask == 0x60_0000_0000_0080u64,
            shown_protection(entries@[0]) == Some(shown),
            forall|j: int| 0 <= j < i ==> (#[trigger] shown_protection(entries@[j])) == Some(shown),
        decreases n - i,
    {
        let e = entries[i];
        match e.flags {
            Some(f) => {
                if !e.valid || f & mask != shown {
                    proof {
                        assert(shown_protection(entries@[i as int]) != shown_protection(
                            entries@[0],
                        ));
                    }
                    return None;
                }
            },
            None => {
                proof {
                    assert(shown_protection(entries@[i as int]) is None);
                }
                return None;
            },
        }
        i += 1;
    }
    Some(get_attr_from_flags(shown))
}

/// The entry flags that stand for firmware attribute bits.
pub fn match_efi_attributes(attributes: u64) -> (flags: Attributes)
    ensures
        flags.bits == entry_flags_of(attributes),
        flags.bits & 0x2 == 0,
        flags.for_mapping(),
        known_flags(flags.bits),
{
    assert(0x0u64 & 0xf817_ffff_ffff_f038 == 0 && 0x80u64 & 0xf817_ffff_ffff_f038 == 0
        && 0x60_0000_0000_0000u64 & 0xf817_ffff_ffff_f038 == 0 && 0x60_0000_0000_0080u64
        & 0xf817_ffff_ffff_f038 == 0) by (bit_vector);
    assert(0x20000u64 | 0x4000u64 == 0x24000u64) by (bit_vector);
    assert(0x0u64 & 0x0000_ffff_ffff_f002 == 0 && 0x80u64 & 0x0000_ffff_ffff_f002 == 0
        && 0x60_0000_0000_0000u64 & 0x0000_ffff_ffff_f002 == 0 && 0x60_0000_0000_0080u64
        & 0x0000_ffff_ffff_f002 == 0 && 0x0u64 & 0x2 == 0 && 0x80u64 & 0x2 == 0
        && 0x60_0000_0000_0000u64 & 0x2 == 0 && 0x60_0000_0000_0080u64 & 0x2 == 0) by (bit_vector);
    let both = EFI_MEMORY_RO | EFI_MEMORY_XP;
    let bits = attributes & both;
    if bits == 0 {
        Attributes { bits: 0 }
    } else if bits == EFI_MEMORY_RO {
        Attributes { bits: 0x80 }
    } else if bits == EFI_MEMORY_XP {
        Attributes { bits: 0x60_0000_0000_0000 }
    } else {
        Attributes { bits: 0x60_0000_0000_0080 }
    }
}

/// The firmware attribute bits that stand for entry flags.
pub fn get_attr_from_flags(flags: u64) -> (attributes: u64)
    ensures
        attributes == efi_attributes_of(flags),
{
    assert(0x20000u64 | 0x4000u64 == 0x24000u64 && 0u64 | 0x20000u64 == 0x20000u64 && 0u64
        | 0x4000u64 == 0x4000u64) by (bit_vector);
    let mut ret: u64 = 0;
    if flags & READ_ONLY != 0 {
        ret = ret | EFI_MEMORY_RO;
    }
    if flags & EXECUTE_NEVER != 0 {
        ret = ret | EFI_MEMORY_XP;
    }
    ret
}

/// The mapper: the live identity map and the ranges that the firmware itself
/// occupies.
pub struct MemoryMapper {
    pub idmap: LiveMap,
    reserved: Vec<Range<usize>>,
}

/// Whether two ranges have an address in common.
pub open spec fn overlaps(a: Range<usize>, b: Range<usize>) -> bool {
    a.start < b.end && b.start < a.end
}

impl MemoryMapper {
    /// The reserved ranges, in the order in which they were mapped.
    pub closed spec fn reserved_ranges(&self) -> Seq<Range<usize>> {
        self.reserved@
    }

    /// The live identity map.
    pub closed spec fn live_map(&self) -> LiveMap {
        self.idmap
    }

    /// Whether `r` overlaps a reserved range.
    pub open spec fn reserves(&self, r: Range<usize>) -> bool {
        exists|i: int|
            0 <= i < self.reserved_ranges().len() && overlaps(r, #[trigger] self.reserved_ranges()[i])
    }

    /// A mapper with an empty identity map and no reserved range: whatever a
    /// walk of the map visits is invalid.
    pub fn new() -> (m: MemoryMapper)
        ensures
            m.reserved_ranges() == Seq::<Range<usize>>::empty(),
            forall|start: usize, end: usize|
                (#[trigger] walked_entries(m.live_map(), start, end)) is Some ==> all_invalid(
                    walked_entries(m.live_map(), start, end)->0,
                ),
    {
        MemoryMapper { idmap: idmap_new(ASID, PAGING_ROOT_LEVEL), reserved: Vec::new() }
    }

    /// Maps the pages of `r` to themselves with the given flags.
    ///
    /// Flags with a bit that the map does not know are turned down as
    /// invalid, and a range that cannot be handed to the map as out of the
    /// address range; the map is left alone then. Otherwise the answer is
    /// that of the identity map. Where it maps the range, a walk of the range
    /// finds every entry with the flags and the accessed flag. The reserved
    /// ranges do not change.
    pub fn map_range(&mut self, r: &Range<usize>, flags: Attributes) -> (res: Result<(), MapFault>)
        ensures
            final(self).reserved_ranges() == old(self).reserved_ranges(),
            !known_flags(flags.bits) ==> res == Err::<(), MapFault>(MapFault::InvalidFlags)
                && final(self).live_map() == old(self).live_map(),
            known_flags(flags.bits) && !region_representable(r.start, r.end) ==> res == Err::<
                (),
                MapFault,
            >(MapFault::AddressRange) && final(self).live_map() == old(self).live_map(),
            known_flags(flags.bits) && region_representable(r.start, r.end) ==> (res is Ok
                <==> map_answer(old(self).live_map(), r.start, r.end, flags.bits) is None) && (
            res matches Err(f) ==> map_answer(old(self).live_map(), r.start, r.end, flags.bits)
                == Some(f)),
            res is Ok ==> flags.bits & 0x2 == 0 && walked_entries(
                final(self).live_map(),
                r.start,
                r.end,
            ) is Some && all_mapped(
                walked_entries(final(self).live_map(), r.start, r.end)->0,
                flags.bits,
            ),
    {
        if flags.bits & 0xf817_ffff_ffff_f038 != 0 {
            return Err(MapFault::InvalidFlags);
        }
        if r.end == 0 || r.end > usize::MAX - 4095 {
            return Err(MapFault::AddressRange);
        }
        idmap_map_range(&mut self.idmap, r.start, r.end, flags)
    }

    /// Records `r` as reserved and maps it like `map_range`: from now on the
    /// range is neither changed nor reported on, whatever the map answered.
    pub fn map_reserved_range(&mut self, r: &Range<usize>, flags: Attributes) -> (res: Result<
        (),
        MapFault,
    >)
        ensures
            final(self).reserved_ranges() == old(self).reserved_ranges().push(*r),
            final(self).reserves(*r) || r.start >= r.end,
            !known_flags(flags.bits) ==> res == Err::<(), MapFault>(MapFault::InvalidFlags)
                && final(self).live_map() == old(self).live_map(),
            known_flags(flags.bits) && !region_representable(r.start, r.end) ==> res == Err::<
                (),
                MapFault,
            >(MapFault::AddressRange) && final(self).live_map() == old(self).live_map(),
            known_flags(flags.bits) && region_representable(r.start, r.end) ==> (res is Ok
                <==> map_answer(old(self).live_map(), r.start, r.end, flags.bits) is None) && (
            res matches Err(f) ==> map_answer(old(self).live_map(), r.start, r.end, flags.bits)
                == Some(f)),
            res is Ok ==> flags.bits & 0x2 == 0 && walked_entries(
                final(self).live_map(),
                r.start,
                r.end,
            ) is Some && all_mapped(
                walked_entries(final(self).live_map(), r.start, r.end)->0,
                flags.bits,
            ),
    {
        self.reserved.push(r.start..r.end);
        proof {
            let n = old(self).reserved_ranges().len() as int;
            assert(self.reserved_ranges()[n] == *r);
            if r.start < r.end {
                assert(overlaps(*r, self.reserved_ranges()[n]));
            }
        }
        self.map_range(r, flags)
    }

    /// Whether `r` overlaps a reserved range.
    pub fn range_is_reserved(&self, r: &Range<usize>) -> (res: bool)
        ensures
            res == self.reserves(*r),
    {
        let n = self.reserved.len();
        let mut i: usize = 0;
        while i < n
            invariant
                n == self.reserved_ranges().len(),
                i <= n,
                forall|j: int| 0 <= j < i ==> !overlaps(*r, #[trigger] self.reserved_ranges()[j]),
            decreases n - i,
        {
            if r.start < self.reserved[i].end && self.reserved[i].start < r.end {
                return true;
            }
            i += 1;
        }
        false
    }

    /// Sets the protection that the firmware attribute bits `set` stand for,
    /// and clears that of `clr`, on the pages of `range`.
    ///
    /// A range that overlaps a reserved one is turned down and the map is not
    /// touched; a range that cannot be handed to the map fails. Otherwise the
    /// step follows from the answer of the identity map: done where it made
    /// the change, and where it answers that the change needs the map out of
    /// use, the step says so and the caller goes on as `RemapStep` describes.
    /// After a change that was made, a walk of the range finds no entry with
    /// a flag that was to be cleared, and every entry whose flags are known
    /// with those that were to be set.
    pub fn remap_range(&mut self, range: &Range<usize>, set: u64, clr: u64) -> (step: RemapStep)
        ensures
            final(self).reserved_ranges() == old(self).reserved_ranges(),
            old(self).reserves(*range) <==> step == RemapStep::Reserved,
            old(self).reserves(*range) ==> final(self).live_map() == old(self).live_map(),
            !old(self).reserves(*range) && !region_representable(range.start, range.end) ==> step
                == RemapStep::Failed && final(self).live_map() == old(self).live_map(),
            !old(self).reserves(*range) && region_representable(range.start, range.end) ==> step
                == step_of(
                modify_answer(
                    old(self).live_map(),
                    range.start,
                    range.end,
                    entry_flags_of(set),
                    entry_flags_of(clr),
                ),
            ),
            step == RemapStep::Done ==> walked_entries(
                final(self).live_map(),
                range.start,
                range.end,
            ) is Some && all_modified(
                walked_entries(final(self).live_map(), range.start, range.end)->0,
                entry_flags_of(set),
                entry_flags_of(clr),
            ),
    {
        if self.range_is_reserved(range) {
            return RemapStep::Reserved;
        }
        if range.end == 0 || range.end > usize::MAX - 4095 {
            return RemapStep::Failed;
        }
        let set_flags = match_efi_attributes(set);
        let clr_flags = match_efi_attributes(clr);
        let answer = idmap_modify_flags(
            &mut self.idmap,
            range.start,
            range.end,
            set_flags,
            clr_flags,
        );
        remap_outcome(answer)
    }

    /// Repeats a request that `remap_range` answered with `BreakBeforeMake`,
    /// while the map is out of use. The answer is final: done where the map
    /// made the change, failed where it answered with any fault.
    pub fn remap_range_inactive(&mut self, range: &Range<usize>, set: u64, clr: u64) -> (step:
        RemapStep)
        ensures
            final(self).reserved_ranges() == old(self).reserved_ranges(),
            step != RemapStep::BreakBeforeMake,
            old(self).reserves(*range) <==> step == RemapStep::Reserved,
            old(self).reserves(*range) ==> final(self).live_map() == old(self).live_map(),
            !old(self).reserves(*range) && !region_representable(range.start, range.end) ==> step
                == RemapStep::Failed && final(self).live_map() == old(self).live_map(),
            !old(self).reserves(*range) && region_representable(range.start, range.end) ==> step
                == retry_step_of(
                modify_answer(
                    old(self).live_map(),
                    range.start,
                    range.end,
                    entry_flags_of(set),
                    entry_flags_of(clr),
                ),
            ),
            step == RemapStep::Done ==> walked_entries(
                final(self).live_map(),
                range.start,
                range.end,
            ) is Some && all_modified(
                walked_entries(final(self).live_map(), range.start, range.end)->0,
                entry_flags_of(set),
                entry_flags_of(clr),
            ),
    {
        if self.range_is_reserved(range) {
            return RemapStep::Reserved;
        }
        if range.end == 0 || range.end > usize::MAX - 4095 {
            return RemapStep::Failed;
        }
        let set_flags = match_efi_attributes(set);
        let clr_flags = match_efi_attributes(clr);
        let answer = idmap_modify_flags(
            &mut self.idmap,
            range.start,
            range.end,
            set_flags,
            clr_flags,
        );
        retry_outcome(answer)
    }

    /// The firmware attribute bits of the protection that all pages of
    /// `range` share, or nothing: where the range overlaps a reserved one,
    /// where the map refuses to walk it, where a page is not mapped, and where
    /// two entries under the range differ in protection.
    pub fn query_range(&self, range: &Range<usize>) -> (res: Option<u64>)
        ensures
            res == (if self.reserves(*range) || !region_representable(range.start, range.end) {
                None
            } else {
                match walked_entries(self.live_map(), range.start, range.end) {
                    Some(entries) => reported(entries),
                    None => None,
                }
            }),
    {
        if self.range_is_reserved(range) {
            return None;
        }
        if range.end == 0 || range.end > usize::MAX - 4095 {
            return None;
        }
        match idmap_walk(&self.idmap, range.start, range.end) {
            Some(entries) => uniform_attributes(&entries),
            None => None,
        }
    }
}

/// A walk over entries of which two show different protection, or of which
/// one shows none, reports nothing.
pub proof fn lemma_mixed_protection_reports_nothing(entries: Seq<WalkedEntry>, i: int, j: int)
    requires
        0 <= i < entries.len(),
        0 <= j < entries.len(),
        shown_protection(entries[i]) != shown_protection(entries[j]) || shown_protection(
            entries[i],
        ) is None,
    ensures
        reported(entries) is None,
{
}

/// What was mapped with valid flags is reported with the protection of those
/// flags: a walk that finds only entries written for a mapping with the flag
/// bits `bits`, and at least one, reports the firmware attribute bits that
/// stand for `bits`.
pub proof fn lemma_mapped_range_reports(entries: Seq<WalkedEntry>, bits: u64)
    requires
        all_mapped(entries, bits),
        bits & 0x1 != 0,
        entries.len() > 0,
    ensures
        reported(entries) == Some(efi_attributes_of(bits)),
{
    assert((bits | 0x400) & 0x60_0000_0000_0080 == bits & 0x60_0000_0000_0080 && (bits | 0x402)
        & 0x60_0000_0000_0080 == bits & 0x60_0000_0000_0080 && ((bits & 0x60_0000_0000_0080) & 0x80
        != 0) == (bits & 0x80 != 0) && ((bits & 0x60_0000_0000_0080) & 0x60_0000_0000_0000 != 0)
        == (bits & 0x60_0000_0000_0000 != 0)) by (bit_vector);
    assert forall|i: int| 0 <= i < entries.len() implies (#[trigger] shown_protection(
        entries[i],
    )) == Some(bits & 0x60_0000_0000_0080) by {
        assert(mapped_entry(entries[i], bits));
    }
}

} // verus!
