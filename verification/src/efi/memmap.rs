//! The physical memory map: an ordered, coalesced list of descriptors with a
//! version counter, and the operations that declare, allocate and free
//! regions of it.

use vstd::prelude::*;
use vstd::arithmetic::div_mod::{lemma_fundamental_div_mod, lemma_mod_bound};
use crate::align::{align_up, lemma_align_down};
use crate::efi::edit::{
    carved, converted, convertible, cover_of, declared, lemma_carve_middle, lemma_carve_side,
    lemma_carve_whole, lemma_declare_after, lemma_declare_apart, lemma_declare_before,
    lemma_declare_between, lemma_gap_vacant, lemma_one_cover, lemma_run_ends, lemma_slot_of,
    lemma_within_has_kind, region_ok, slot_of, starts_descriptor, vacated, within,
};
use crate::efi::layout::{
    attribute_of, covers, desc_end, desc_of, desc_wf, kind, kind_at, layout_wf, lemma_kind_at,
    plain, range_vacant, retyped, type_at, Kind, EFI_MEMORY_RUNTIME, EFI_MEMORY_WB,
};
use crate::efi::memorytype::{MemoryDescriptor, MemoryType};
use crate::efi::placement::{
    lemma_nth_slot, lemma_place_max_convertible, lemma_place_random_convertible, lemma_slot_within,
    lemma_slots_bound, lemma_slots_of_bound, place_max, place_random, request_ok, seed_index,
    slots_before, slots_of, top_candidate,
};

verus! {

pub const EFI_PAGE_SHIFT: usize = 12;

pub const EFI_PAGE_MASK: usize = 0xfff;

/// The size of a page in bytes.
pub const EFI_PAGE_SIZE: u64 = 4096;

/// The memory map of the machine: its descriptors in ascending order of
/// their start, no two overlapping, and touching descriptors of one type and
/// attribute word merged into one.
pub struct MemoryMap {
    descs: Vec<MemoryDescriptor>,
    key: usize,
}

impl View for MemoryMap {
    type V = Seq<MemoryDescriptor>;

    closed spec fn view(&self) -> Seq<MemoryDescriptor> {
        self.descs@
    }
}

/// The counter after one more structural change; it wraps at the width of
/// `usize`.
pub open spec fn next_key(k: usize) -> usize {
    if k == usize::MAX {
        0
    } else {
        (k + 1) as usize
    }
}

impl MemoryMap {
    /// The map key: the version of the map.
    pub closed spec fn map_key(&self) -> usize {
        self.key
    }

    /// The invariant: descriptors are valid, sorted, disjoint and coalesced.
    pub open spec fn wf(&self) -> bool {
        layout_wf(self@)
    }

    /// The type of the memory at byte address `a`, if it was declared.
    pub open spec fn type_at(&self, a: int) -> Option<MemoryType> {
        type_at(self@, a)
    }

    /// The kind of the memory at byte address `a`, its type with its
    /// attribute word, if it was declared.
    pub open spec fn kind_at(&self, a: int) -> Option<Kind> {
        kind_at(self@, a)
    }

    /// An empty map, at version 1.
    pub fn new() -> (mm: MemoryMap)
        ensures
            mm@ == Seq::<MemoryDescriptor>::empty(),
            mm.map_key() == 1,
            mm.wf(),
    {
        MemoryMap { descs: Vec::new(), key: 1 }
    }

    /// The descriptor at position `i`.
    pub fn get(&self, i: usize) -> (d: Option<MemoryDescriptor>)
        ensures
            d == (if i < self@.len() {
                Some(self@[i as int])
            } else {
                None
            }),
    {
        if i < self.descs.len() {
            Some(self.descs[i])
        } else {
            None
        }
    }
}

/// The attribute word of memory of type `t` that a conversion made.
fn attribute_for(t: MemoryType) -> (attr: u64)
    ensures
        attr == attribute_of(t),
        attr | 0x8 == attr,
{
    assert(0x8000_0000_0000_0008u64 | 0x8 == 0x8000_0000_0000_0008 && 0x8u64 | 0x8 == 0x8)
        by (bit_vector);
    match t {
        MemoryType::EfiRuntimeServicesCode => 0x8000_0000_0000_0008,
        MemoryType::EfiRuntimeServicesData => 0x8000_0000_0000_0008,
        _ => 0x8,
    }
}

/// Builds the descriptor of `pages` pages of type `t` with the attribute
/// word `attribute` at `start`.
fn make_desc(t: MemoryType, attribute: u64, start: u64, pages: u64) -> (d: MemoryDescriptor)
    ensures
        d == desc_of(kind(t, attribute), start, pages),
{
    MemoryDescriptor {
        memory_type: t,
        physical_start: start,
        virtual_start: 0,
        number_of_pages: pages,
        attribute,
    }
}

/// The end address of a valid descriptor.
fn end_of(d: &MemoryDescriptor) -> (e: u64)
    requires
        desc_wf(*d),
    ensures
        e == desc_end(*d),
{
    d.physical_start + d.number_of_pages * 4096
}

fn inc_map_key(mm: &mut MemoryMap)
    ensures
        final(mm)@ == old(mm)@,
        final(mm).map_key() == next_key(old(mm).map_key()),
{
    mm.key = if mm.key == usize::MAX {
        0
    } else {
        mm.key + 1
    };
}

/// The position of the first descriptor that starts at or after `phys`.
fn find_slot(mm: &MemoryMap, phys: u64) -> (i: usize)
    requires
        mm.wf(),
    ensures
        i <= mm@.len(),
        forall|j: int| 0 <= j < i ==> (#[trigger] mm@[j]).physical_start < phys,
        forall|j: int| i <= j < mm@.len() ==> (#[trigger] mm@[j]).physical_start >= phys,
        i == slot_of(mm@, phys),
{
    let mut i: usize = 0;
    while i < mm.descs.len() && mm.descs[i].physical_start < phys
        invariant
            mm.wf(),
            i <= mm@.len(),
            forall|j: int| 0 <= j < i ==> (#[trigger] mm@[j]).physical_start < phys,
        decreases mm@.len() - i,
    {
        i += 1;
    }
    proof {
        assert forall|j: int| i <= j < mm@.len() implies (#[trigger] mm@[j]).physical_start
            >= phys by {
            if j > i {
                assert(desc_end(mm@[i as int]) <= mm@[j].physical_start);
            }
        }
        lemma_slot_of(mm@, i as int, phys);
    }
    i
}

/// The position of the descriptor that covers `phys`, if there is one.
fn find_covering(mm: &MemoryMap, phys: u64) -> (r: Option<usize>)
    requires
        mm.wf(),
    ensures
        match r {
            Some(k) => k < mm@.len() && covers(mm@[k as int], phys as int),
            None => mm.type_at(phys as int) is None,
        },
{
    let mut k: usize = 0;
    while k < mm.descs.len()
        invariant
            mm.wf(),
            k <= mm@.len(),
            forall|j: int| 0 <= j < k ==> !covers(#[trigger] mm@[j], phys as int),
        decreases mm@.len() - k,
    {
        let d = mm.descs[k];
        if d.physical_start <= phys && phys < end_of(&d) {
            return Some(k);
        }
        k += 1;
    }
    None
}

fn check_region(phys: u64, pages: u64) -> (ok: bool)
    ensures
        ok == region_ok(phys, pages),
{
    pages > 0 && phys % 4096 == 0 && pages <= (u64::MAX - phys) / 4096
}

/// Declares `pages` pages at `phys` as memory of type `t` with the attribute
/// word `attribute`, to which the write-back bit is added.
///
/// The region must be describable and must not overlap what was declared
/// before; otherwise the map is left as it was. The new descriptor is merged
/// with a descriptor of the same type and attribute that ends where the
/// region starts, and with one that starts where it ends.
pub fn declare_region(
    mm: &mut MemoryMap,
    phys: u64,
    pages: u64,
    t: MemoryType,
    attribute: u64,
) -> (res: Result<(), ()>)
    requires
        old(mm).wf(),
    ensures
        final(mm).wf(),
        res is Ok <==> region_ok(phys, pages) && range_vacant(old(mm)@, phys as int, pages * 4096),
        res is Ok ==> retyped(
            old(mm)@,
            final(mm)@,
            phys as int,
            pages * 4096,
            kind(t, attribute | 0x8),
        ) && final(mm).map_key() == next_key(old(mm).map_key()),
        res is Ok ==> final(mm)@ == declared(old(mm)@, phys, pages, kind(t, attribute | 0x8)),
        res is Err ==> *final(mm) == *old(mm),
{
    let attr = attribute | EFI_MEMORY_WB;
    let ghost k = kind(t, attr);
    if !check_region(phys, pages) {
        return Err(());
    }
    let end = phys + pages * 4096;
    let i = find_slot(mm, phys);
    let n = mm.descs.len();
    if i > 0 {
        let p = mm.descs[i - 1];
        if end_of(&p) > phys {
            proof {
                assert(covers(p, phys as int));
                lemma_kind_at(mm@, i - 1, phys as int);
            }
            return Err(());
        }
    }
    if i < n {
        let x = mm.descs[i];
        if x.physical_start < end {
            proof {
                assert(covers(x, x.physical_start as int));
                lemma_kind_at(mm@, i as int, x.physical_start as int);
            }
            return Err(());
        }
    }
    let ghost s0 = mm@;
    proof {
        lemma_gap_vacant(s0, i as int, phys, pages);
    }
    let join_prev = i > 0 && mm.descs[i - 1].memory_type == t && mm.descs[i - 1].attribute == attr
        && end_of(&mm.descs[i - 1]) == phys;
    let join_next = i < n && mm.descs[i].memory_type == t && mm.descs[i].attribute == attr
        && mm.descs[i].physical_start == end;
    if join_prev && join_next {
        let p = mm.descs[i - 1];
        let x = mm.descs[i];
        let d = make_desc(t, attr, p.physical_start, p.number_of_pages + pages + x.number_of_pages);
        mm.descs.remove(i);
        mm.descs.set(i - 1, d);
        proof {
            lemma_declare_between(s0, i as int, phys, pages, k);
        }
    } else if join_prev {
        let p = mm.descs[i - 1];
        let d = make_desc(t, attr, p.physical_start, p.number_of_pages + pages);
        mm.descs.set(i - 1, d);
        proof {
            lemma_declare_after(s0, i as int, phys, pages, k);
        }
    } else if join_next {
        let x = mm.descs[i];
        let d = make_desc(t, attr, phys, pages + x.number_of_pages);
        mm.descs.set(i, d);
        proof {
            lemma_declare_before(s0, i as int, phys, pages, k);
        }
    } else {
        let d = make_desc(t, attr, phys, pages);
        mm.descs.insert(i, d);
        proof {
            lemma_declare_apart(s0, i as int, phys, pages, k);
        }
    }
    inc_map_key(mm);
    Ok(())
}

/// Declares the whole pages of `[base, base + size)` as conventional memory,
/// free for allocation.
pub fn declare_memory_region(mm: &mut MemoryMap, base: u64, size: usize) -> (res: Result<(), ()>)
    requires
        old(mm).wf(),
    ensures
        final(mm).wf(),
        res is Ok <==> region_ok(base, (size / 4096) as u64) && range_vacant(
            old(mm)@,
            base as int,
            (size / 4096) * 4096,
        ),
        res is Ok ==> retyped(
            old(mm)@,
            final(mm)@,
            base as int,
            (size / 4096) * 4096,
            plain(MemoryType::EfiConventionalMemory),
        ) && final(mm).map_key() == next_key(old(mm).map_key()),
        res is Ok ==> final(mm)@ == declared(
            old(mm)@,
            base,
            (size / 4096) as u64,
            plain(MemoryType::EfiConventionalMemory),
        ),
        res is Err ==> *final(mm) == *old(mm),
{
    let pages = (size / 4096) as u64;
    assert(0u64 | 0x8 == 0x8) by (bit_vector);
    declare_region(mm, base, pages, MemoryType::EfiConventionalMemory, 0)
}

/// Declares the whole pages of `[base, base + size)` as run-time code: memory
/// that holds the firmware's own services.
pub fn declare_runtime_region(mm: &mut MemoryMap, base: u64, size: usize) -> (res: Result<(), ()>)
    requires
        old(mm).wf(),
    ensures
        final(mm).wf(),
        res is Ok <==> region_ok(base, (size / 4096) as u64) && range_vacant(
            old(mm)@,
            base as int,
            (size / 4096) * 4096,
        ),
        res is Ok ==> retyped(
            old(mm)@,
            final(mm)@,
            base as int,
            (size / 4096) * 4096,
            plain(MemoryType::EfiRuntimeServicesCode),
        ) && final(mm).map_key() == next_key(old(mm).map_key()),
        res is Ok ==> final(mm)@ == declared(
            old(mm)@,
            base,
            (size / 4096) as u64,
            plain(MemoryType::EfiRuntimeServicesCode),
        ),
        res is Err ==> *final(mm) == *old(mm),
{
    let pages = (size / 4096) as u64;
    assert(0x8000_0000_0000_0000u64 | 0x8 == 0x8000_0000_0000_0008) by (bit_vector);
    declare_region(mm, base, pages, MemoryType::EfiRuntimeServicesCode, EFI_MEMORY_RUNTIME)
}

/// Takes the region of `pages` pages at `phys` out of the descriptor at
/// position `k`, which holds it. Returns whether the descriptor had to be
/// split at `phys`.
fn carve(mm: &mut MemoryMap, k: usize, phys: u64, pages: u64) -> (split: bool)
    requires
        within(old(mm)@, k as int, phys, pages),
    ensures
        final(mm).wf(),
        vacated(old(mm)@, final(mm)@, phys as int, pages * 4096),
        final(mm).map_key() == old(mm).map_key(),
        split == (old(mm)@[k as int].physical_start < phys),
        final(mm)@ == carved(old(mm)@, k as int, phys, pages),
{
    let ghost s0 = mm@;
    assert(k < mm.descs.len());
    let d = mm.descs[k];
    let end = phys + pages * 4096;
    let d_end = end_of(&d);
    let left = d.physical_start < phys;
    let right = end < d_end;
    let left_pages = (phys - d.physical_start) / 4096;
    let right_pages = (d_end - end) / 4096;
    if left && right {
        let l = make_desc(d.memory_type, d.attribute, d.physical_start, left_pages);
        let r = make_desc(d.memory_type, d.attribute, end, right_pages);
        mm.descs.set(k, l);
        mm.descs.insert(k + 1, r);
        proof {
            lemma_carve_middle(s0, k as int, phys, pages, l, r);
        }
    } else if left {
        let l = make_desc(d.memory_type, d.attribute, d.physical_start, left_pages);
        mm.descs.set(k, l);
        proof {
            lemma_carve_side(s0, k as int, l);
        }
    } else if right {
        let r = make_desc(d.memory_type, d.attribute, end, right_pages);
        mm.descs.set(k, r);
        proof {
            lemma_carve_side(s0, k as int, r);
        }
    } else {
        mm.descs.remove(k);
        proof {
            lemma_carve_whole(s0, k as int);
        }
    }
    left
}

/// Changes the type of the region of `pages` pages at `phys` to `to`: the
/// one step behind allocating and freeing.
///
/// The region must lie within one descriptor, of type `from` where one is
/// given; otherwise nothing changes. The descriptor is split at the region's
/// start where it starts earlier, gives the region up, and the region is
/// declared anew with type `to` and the attribute word of that type: the
/// run-time bit for run-time code and data, and write-back.
pub fn convert_region(
    mm: &mut MemoryMap,
    phys: u64,
    pages: u64,
    from: Option<MemoryType>,
    to: MemoryType,
) -> (res: Result<(), ()>)
    requires
        old(mm).wf(),
    ensures
        final(mm).wf(),
        res is Ok <==> convertible(old(mm)@, phys, pages, from),
        res is Ok ==> retyped(old(mm)@, final(mm)@, phys as int, pages * 4096, plain(to))
            && final(mm).map_key() == (if starts_descriptor(old(mm)@, phys) {
            next_key(old(mm).map_key())
        } else {
            next_key(next_key(old(mm).map_key()))
        }),
        res is Ok ==> final(mm)@ == converted(old(mm)@, phys, pages, to),
        res is Err ==> *final(mm) == *old(mm),
{
    if !check_region(phys, pages) {
        return Err(());
    }
    let k = match find_covering(mm, phys) {
        Some(k) => k,
        None => {
            return Err(());
        },
    };
    let ghost s0 = mm@;
    let d = mm.descs[k];
    proof {
        lemma_kind_at(s0, k as int, phys as int);
    }
    match from {
        Some(f) => {
            if f != d.memory_type {
                return Err(());
            }
        },
        None => {},
    }
    if end_of(&d) - phys < pages * 4096 {
        proof {
            lemma_run_ends(s0, k as int);
        }
        return Err(());
    }
    proof {
        lemma_within_has_kind(s0, k as int, phys, pages);
        lemma_one_cover(s0, cover_of(s0, phys), k as int, phys as int);
        if starts_descriptor(s0, phys) {
            let i = choose|i: int| 0 <= i < s0.len() && (#[trigger] s0[i]).physical_start == phys;
            assert(covers(s0[i], phys as int));
            lemma_one_cover(s0, i, k as int, phys as int);
        }
    }
    let split = carve(mm, k, phys, pages);
    if split {
        inc_map_key(mm);
    }
    let ghost s1 = mm@;
    let res = declare_region(mm, phys, pages, to, attribute_for(to));
    proof {
        assert(range_vacant(s1, phys as int, pages * 4096));
        assert(res is Ok);
    }
    res
}

/// Allocates the whole pages of `[base, base + size)`, which must be
/// conventional memory, as memory of type `t`.
pub fn allocate_region(mm: &mut MemoryMap, base: u64, size: usize, t: MemoryType) -> (res: Result<
    (),
    (),
>)
    requires
        old(mm).wf(),
    ensures
        final(mm).wf(),
        res is Ok <==> convertible(
            old(mm)@,
            base,
            (size / 4096) as u64,
            Some(MemoryType::EfiConventionalMemory),
        ),
        res is Ok ==> retyped(old(mm)@, final(mm)@, base as int, (size / 4096) * 4096, plain(t))
            && final(mm).map_key() == (if starts_descriptor(old(mm)@, base) {
            next_key(old(mm).map_key())
        } else {
            next_key(next_key(old(mm).map_key()))
        }),
        res is Ok ==> final(mm)@ == converted(old(mm)@, base, (size / 4096) as u64, t),
        res is Err ==> *final(mm) == *old(mm),
{
    convert_region(mm, base, (size / 4096) as u64, Some(MemoryType::EfiConventionalMemory), t)
}

/// Returns `pages` pages at `base`, of whatever one type they are, to
/// conventional memory.
pub fn free_pages(mm: &mut MemoryMap, base: u64, pages: usize) -> (res: Result<(), ()>)
    requires
        old(mm).wf(),
    ensures
        final(mm).wf(),
        res is Ok <==> convertible(old(mm)@, base, pages as u64, None),
        res is Ok ==> retyped(
            old(mm)@,
            final(mm)@,
            base as int,
            pages * 4096,
            plain(MemoryType::EfiConventionalMemory),
        ) && final(mm).map_key() == (if starts_descriptor(old(mm)@, base) {
            next_key(old(mm).map_key())
        } else {
            next_key(next_key(old(mm).map_key()))
        }),
        res is Ok ==> final(mm)@ == converted(
            old(mm)@,
            base,
            pages as u64,
            MemoryType::EfiConventionalMemory,
        ),
        res is Err ==> *final(mm) == *old(mm),
{
    convert_region(mm, base, pages as u64, None, MemoryType::EfiConventionalMemory)
}

/// Allocates `pages` pages of conventional memory at exactly `base` as memory
/// of type `t`, and returns `base`.
pub fn allocate_pages_fixed(mm: &mut MemoryMap, base: u64, pages: usize, t: MemoryType) -> (res:
    Option<u64>)
    requires
        old(mm).wf(),
    ensures
        final(mm).wf(),
        res is Some <==> convertible(
            old(mm)@,
            base,
            pages as u64,
            Some(MemoryType::EfiConventionalMemory),
        ),
        res is Some ==> res == Some(base) && retyped(
            old(mm)@,
            final(mm)@,
            base as int,
            pages * 4096,
            plain(t),
        ) && final(mm).map_key() == (if starts_descriptor(old(mm)@, base) {
            next_key(old(mm).map_key())
        } else {
            next_key(next_key(old(mm).map_key()))
        }),
        res is Some ==> final(mm)@ == converted(old(mm)@, base, pages as u64, t),
        res is None ==> *final(mm) == *old(mm),
{
    match convert_region(mm, base, pages as u64, Some(MemoryType::EfiConventionalMemory), t) {
        Ok(_) => Some(base),
        Err(_) => None,
    }
}

/// Where to place an allocation.
pub enum Placement {
    /// Anywhere with the last byte at or below the given address.
    Max(u64),
    /// At exactly the given address.
    Fixed(u64),
    /// Anywhere.
    Anywhere,
    /// At a slot picked by the given seed, aligned to the given power of two.
    Random(u32, u64),
    /// Anywhere at a multiple of the given power of two.
    Aligned(u64),
    /// With the last byte at or below the first value, and the base clear of
    /// the bits of the second, an alignment mask.
    MaxAlignMask(u64, u64),
}

/// The base address that a placement resolves to in a layout, if any.
pub open spec fn place(s: Seq<MemoryDescriptor>, pages: u64, placement: Placement) -> Option<u64> {
    match placement {
        Placement::Max(max) => place_max(s, pages, max, 0xfff),
        Placement::Fixed(base) => if convertible(
            s,
            base,
            pages,
            Some(MemoryType::EfiConventionalMemory),
        ) {
            Some(base)
        } else {
            None
        },
        Placement::Anywhere => place_max(s, pages, u64::MAX, 0xfff),
        Placement::Random(seed, align) => if align == 0 {
            None
        } else {
            place_random(s, pages, seed, (align - 1) as u64)
        },
        Placement::Aligned(align) => if align == 0 {
            None
        } else {
            place_max(s, pages, u64::MAX, (align - 1) as u64)
        },
        Placement::MaxAlignMask(max, mask) => place_max(s, pages, max, mask),
    }
}

fn check_request(pages: u64, mask: u64) -> (ok: bool)
    ensures
        ok == request_ok(pages, mask),
{
    let next: u64 = if mask == u64::MAX {
        0
    } else {
        mask + 1
    };
    pages > 0 && pages <= u64::MAX / 4096 && mask >= 0xfff && mask & next == 0
}

/// The start of a descriptor rounded up to the alignment of `mask`.
fn aligned_start(d: &MemoryDescriptor, mask: u64) -> (up: u128)
    ensures
        up == align_up(d.physical_start as int, mask + 1),
        d.physical_start <= up <= d.physical_start + mask,
{
    let a: u128 = mask as u128 + 1;
    let st: u128 = d.physical_start as u128;
    let rem = st % a;
    proof {
        lemma_mod_bound(st as int, a as int);
        lemma_fundamental_div_mod(st as int, a as int);
        assert(0 <= a * (st / a)) by (nonlinear_arith)
            requires
                a > 0,
                st >= 0,
                st == a * (st / a) + st % a,
                st % a < a,
        ;
    }
    if rem == 0 {
        st
    } else {
        st - rem + a
    }
}

/// The number of aligned slots for `pages` pages in a descriptor.
fn slots_in(d: &MemoryDescriptor, pages: u64, mask: u64) -> (k: u64)
    requires
        desc_wf(*d),
        request_ok(pages, mask),
    ensures
        k == slots_of(*d, pages * 4096, mask + 1),
{
    let a: u128 = mask as u128 + 1;
    let len: u128 = pages as u128 * 4096;
    let up = aligned_start(d, mask);
    let end = end_of(d) as u128;
    proof {
        lemma_slots_of_bound(*d, len as int, a as int);
    }
    if d.memory_type == MemoryType::EfiConventionalMemory && up + len <= end {
        (1 + (end - up - len) / a) as u64
    } else {
        0
    }
}

/// The highest placement: see `place_max`.
fn search_max(mm: &MemoryMap, pages: u64, max: u64, mask: u64) -> (r: Option<u64>)
    requires
        mm.wf(),
    ensures
        r == place_max(mm@, pages, max, mask),
{
    if !check_request(pages, mask) {
        return None;
    }
    let len: u128 = pages as u128 * 4096;
    let a: u128 = mask as u128 + 1;
    let mut i: usize = mm.descs.len();
    while i > 0
        invariant
            mm.wf(),
            i <= mm@.len(),
            len == pages * 4096,
            a == mask + 1,
            request_ok(pages, mask),
            top_candidate(mm@, mm@.len() as int, len as int, max as int, a as int)
                == top_candidate(mm@, i as int, len as int, max as int, a as int),
        decreases i,
    {
        let d = mm.descs[i - 1];
        let up = aligned_start(&d, mask);
        let end = end_of(&d) as u128;
        if d.memory_type == MemoryType::EfiConventionalMemory && up + len <= end && up + len - 1
            <= max as u128 {
            let top = if end - len <= max as u128 + 1 - len {
                end - len
            } else {
                max as u128 + 1 - len
            };
            proof {
                lemma_align_down(top as int, a as int);
            }
            let base = top - top % a;
            return Some(base as u64);
        }
        i -= 1;
    }
    None
}

/// The placement at the slot that `seed` selects: see `place_random`.
fn search_random(mm: &MemoryMap, pages: u64, seed: u32, mask: u64) -> (r: Option<u64>)
    requires
        mm.wf(),
    ensures
        r == place_random(mm@, pages, seed, mask),
{
    if !check_request(pages, mask) {
        return None;
    }
    let ghost len = pages * 4096;
    let ghost al = mask + 1;
    let a: u128 = mask as u128 + 1;
    let n = mm.descs.len();
    let mut total: u64 = 0;
    let mut i: usize = 0;
    while i < n
        invariant
            mm.wf(),
            n == mm@.len(),
            i <= n,
            len == pages * 4096,
            al == mask + 1,
            request_ok(pages, mask),
            total == slots_before(mm@, i as int, len, al),
        decreases n - i,
    {
        let d = mm.descs[i];
        let k = slots_in(&d, pages, mask);
        proof {
            lemma_slots_bound(mm@, i + 1, len, al);
        }
        total = total + k;
        i += 1;
    }
    if total == 0 {
        return None;
    }
    proof {
        lemma_slots_bound(mm@, n as int, len, al);
        assert(total as int * seed as int <= 0xffff_ffff_ffff_ffff * 0xffff_ffff) by (nonlinear_arith)
            requires
                0 <= total <= 0xffff_ffff_ffff_ffff,
                0 <= seed <= 0xffff_ffff,
        ;
    }
    let index: u64 = ((total as u128 * seed as u128) / 0x1_0000_0000) as u64;
    proof {
        let p = total as int * seed as int;
        assert(0 <= p < total * 0x1_0000_0000) by (nonlinear_arith)
            requires
                p == total as int * seed as int,
                total > 0,
                0 <= seed < 0x1_0000_0000,
        ;
        assert(index == seed_index(total as int, seed));
        assert(index < total);
    }
    let mut acc: u64 = 0;
    i = 0;
    while i < n
        invariant
            mm.wf(),
            n == mm@.len(),
            i <= n,
            len == pages * 4096,
            al == mask + 1,
            a == mask + 1,
            request_ok(pages, mask),
            acc == slots_before(mm@, i as int, len, al),
            acc <= index < total,
            index == seed_index(total as int, seed),
            total == slots_before(mm@, n as int, len, al),
        decreases n - i,
    {
        let d = mm.descs[i];
        let k = slots_in(&d, pages, mask);
        proof {
            lemma_slots_bound(mm@, i + 1, len, al);
            lemma_slots_of_bound(d, len, al);
        }
        if index - acc < k {
            let up = aligned_start(&d, mask);
            proof {
                lemma_nth_slot(mm@, n as int, i as int, index as int, len, al);
                lemma_slot_within(d, index - acc, len, al);
            }
            let base = up + (index - acc) as u128 * a;
            return Some(base as u64);
        }
        acc = acc + k;
        i += 1;
    }
    None
}

/// Allocates `pages` pages of conventional memory as memory of type `t`, at
/// the base that the placement resolves to, and returns the base.
///
/// A fixed placement gives its own address or nothing. The others take the
/// highest fitting descriptor and the highest aligned base in it, or the slot
/// that the seed selects.
pub fn allocate_pages(mm: &mut MemoryMap, pages: usize, t: MemoryType, placement: Placement) -> (res:
    Option<u64>)
    requires
        old(mm).wf(),
    ensures
        final(mm).wf(),
        res == place(old(mm)@, pages as u64, placement),
        placement matches Placement::Fixed(b) ==> res is None || res == Some(b),
        res matches Some(base) ==> convertible(
            old(mm)@,
            base,
            pages as u64,
            Some(MemoryType::EfiConventionalMemory),
        ) && retyped(old(mm)@, final(mm)@, base as int, pages * 4096, plain(t)) && final(mm).map_key() == (
        if starts_descriptor(old(mm)@, base) {
            next_key(old(mm).map_key())
        } else {
            next_key(next_key(old(mm).map_key()))
        }),
        res matches Some(base) ==> final(mm)@ == converted(old(mm)@, base, pages as u64, t),
        res is None ==> *final(mm) == *old(mm),
{
    let p = pages as u64;
    let found = match placement {
        Placement::Max(max) => search_max(mm, p, max, 0xfff),
        Placement::Fixed(base) => {
            return allocate_pages_fixed(mm, base, pages, t);
        },
        Placement::Anywhere => search_max(mm, p, u64::MAX, 0xfff),
        Placement::Random(seed, align) => {
            if align == 0 {
                None
            } else {
                let r = search_random(mm, p, seed, align - 1);
                proof {
                    if r is Some {
                        lemma_place_random_convertible(mm@, p, seed, (align - 1) as u64);
                    }
                }
                r
            }
        },
        Placement::Aligned(align) => {
            if align == 0 {
                None
            } else {
                let r = search_max(mm, p, u64::MAX, align - 1);
                proof {
                    if r is Some {
                        lemma_place_max_convertible(mm@, p, u64::MAX, (align - 1) as u64);
                    }
                }
                r
            }
        },
        Placement::MaxAlignMask(max, mask) => {
            let r = search_max(mm, p, max, mask);
            proof {
                if r is Some {
                    lemma_place_max_convertible(mm@, p, max, mask);
                }
            }
            r
        },
    };
    proof {
        if found is Some {
            match placement {
                Placement::Max(max) => lemma_place_max_convertible(mm@, p, max, 0xfff),
                Placement::Anywhere => lemma_place_max_convertible(mm@, p, u64::MAX, 0xfff),
                _ => {},
            }
        }
    }
    match found {
        Some(base) => allocate_pages_fixed(mm, base, pages, t),
        None => None,
    }
}

/// Copies the descriptors, in ascending order, into `tbl`, which must have
/// room for exactly that many, and returns the map key that the copy is
/// valid for.
pub fn copy_to_slice(mm: &MemoryMap, tbl: &mut [MemoryDescriptor]) -> (k: usize)
    requires
        old(tbl)@.len() == mm@.len(),
    ensures
        final(tbl)@ == mm@,
        k == mm.map_key(),
{
    let n = mm.descs.len();
    let mut i: usize = 0;
    while i < n
        invariant
            n == mm@.len(),
            tbl@.len() == n,
            i <= n,
            forall|j: int| 0 <= j < i ==> tbl@[j] == mm@[j],
        decreases n - i,
    {
        tbl[i] = mm.descs[i];
        i += 1;
    }
    proof {
        assert(tbl@ =~= mm@);
    }
    mm.key
}

/// The number of pages that `size` bytes take.
pub fn size_to_pages(size: usize) -> (pages: usize)
    ensures
        pages == (size + 4095) / 4096,
{
    if size % 4096 == 0 {
        size / 4096
    } else {
        size / 4096 + 1
    }
}

/// The number of descriptors in the map.
pub fn len(mm: &MemoryMap) -> (n: usize)
    ensures
        n == mm@.len(),
{
    mm.descs.len()
}

/// The current map key.
pub fn key(mm: &MemoryMap) -> (k: usize)
    ensures
        k == mm.map_key(),
{
    mm.key
}

} // verus!
