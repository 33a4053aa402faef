//! Where an allocation goes: alignment arithmetic, and the rules that pick a
//! base address among the conventional descriptors of a layout.

use vstd::prelude::*;
use vstd::arithmetic::div_mod::{
    lemma_div_is_ordered_by_denominator, lemma_fundamental_div_mod, lemma_mod_bound,
    lemma_mod_multiples_basic,
};
use crate::align::{
    align_down, align_up, lemma_align_down, lemma_align_up, lemma_aligned_pages,
    lemma_multiple_below,
};
use crate::efi::edit::{convertible, lemma_within_has_kind, within};
use crate::efi::layout::{
    desc_end, desc_wf, joinable, kind_at, kind_of, layout_wf, lemma_kind_at,
    lemma_kind_at_witness, range_has_kind, sorted, Kind,
};
use crate::efi::memorytype::{MemoryDescriptor, MemoryType};

verus! {

/// Whether `mask` is an alignment mask: a run of low one bits that covers at
/// least the bits of a page offset.
pub open spec fn mask_ok(mask: u64) -> bool {
    let next = if mask == u64::MAX {
        0u64
    } else {
        (mask + 1) as u64
    };
    mask >= 0xfff && mask & next == 0
}

/// The alignment of a valid mask is a whole number of pages.
pub proof fn lemma_mask_pages(mask: u64)
    requires
        mask_ok(mask),
    ensures
        (mask + 1) % 4096 == 0,
{
    let next = if mask == u64::MAX {
        0u64
    } else {
        (mask + 1) as u64
    };
    assert(mask >= 0xfff && mask & next == 0 && (next == 0 ==> mask == 0xffff_ffff_ffff_ffffu64)
        && (next != 0 ==> next == mask + 1) ==> (mask as u128 + 1) % 4096 == 0) by (bit_vector);
}

/// Whether `len` bytes fit into the conventional descriptor `d` at an address
/// aligned to `a`.
pub open spec fn fits(d: MemoryDescriptor, len: int, a: int) -> bool {
    d.memory_type == MemoryType::EfiConventionalMemory && align_up(d.physical_start as int, a)
        + len <= desc_end(d)
}

/// Whether `d` can serve an allocation of `len` bytes, aligned to `a`, whose
/// last byte is at most `max`.
pub open spec fn candidate(d: MemoryDescriptor, len: int, max: int, a: int) -> bool {
    fits(d, len, a) && align_up(d.physical_start as int, a) + len - 1 <= max
}

/// The position of the last candidate among the first `n` descriptors.
pub open spec fn top_candidate(
    s: Seq<MemoryDescriptor>,
    n: int,
    len: int,
    max: int,
    a: int,
) -> Option<int>
    decreases n,
{
    if n <= 0 {
        None
    } else if candidate(s[n - 1], len, max, a) {
        Some(n - 1)
    } else {
        top_candidate(s, n - 1, len, max, a)
    }
}

/// The highest aligned base in `d` for `len` bytes that end at or below
/// `max`.
pub open spec fn top_base(d: MemoryDescriptor, len: int, max: int, a: int) -> int {
    let top = if desc_end(d) - len <= max - len + 1 {
        desc_end(d) - len
    } else {
        max - len + 1
    };
    align_down(top, a)
}

/// Whether an allocation of `pages` pages under the alignment mask `mask` is
/// a request that can be placed at all.
pub open spec fn request_ok(pages: u64, mask: u64) -> bool {
    pages > 0 && pages * 4096 <= u64::MAX && mask_ok(mask)
}

/// The base of an allocation of `pages` pages, aligned to `mask`, with its
/// last byte at or below `max`: the highest such base in the highest
/// conventional descriptor that has one.
pub open spec fn place_max(s: Seq<MemoryDescriptor>, pages: u64, max: u64, mask: u64) -> Option<
    u64,
> {
    if !request_ok(pages, mask) {
        None
    } else {
        match top_candidate(s, s.len() as int, pages * 4096, max as int, mask + 1) {
            Some(i) => Some(top_base(s[i], pages * 4096, max as int, mask + 1) as u64),
            None => None,
        }
    }
}

/// What `top_candidate` finds is a candidate, and no later descriptor is one.
pub proof fn lemma_top_candidate(s: Seq<MemoryDescriptor>, n: int, len: int, max: int, a: int)
    requires
        0 <= n <= s.len(),
    ensures
        match top_candidate(s, n, len, max, a) {
            Some(i) => 0 <= i < n && candidate(s[i], len, max, a) && forall|j: int|
                i < j < n ==> !candidate(#[trigger] s[j], len, max, a),
            None => forall|j: int| 0 <= j < n ==> !candidate(#[trigger] s[j], len, max, a),
        },
    decreases n,
{
    if n > 0 && !candidate(s[n - 1], len, max, a) {
        lemma_top_candidate(s, n - 1, len, max, a);
    }
}

/// The base chosen in a candidate is aligned, lies in the candidate with the
/// whole allocation, and ends at or below `max`.
pub proof fn lemma_top_base(d: MemoryDescriptor, len: int, max: int, a: int)
    requires
        desc_wf(d),
        candidate(d, len, max, a),
        0 < len,
        0 < a,
    ensures
        d.physical_start <= top_base(d, len, max, a),
        top_base(d, len, max, a) + len <= desc_end(d),
        top_base(d, len, max, a) + len - 1 <= max,
        top_base(d, len, max, a) % a == 0,
{
    let start = d.physical_start as int;
    let top = if desc_end(d) - len <= max - len + 1 {
        desc_end(d) - len
    } else {
        max - len + 1
    };
    lemma_align_up(start, a);
    lemma_align_down(top, a);
    lemma_multiple_below(top, align_up(start, a), a);
}

/// The number of aligned slots for `len` bytes in `d`.
pub open spec fn slots_of(d: MemoryDescriptor, len: int, a: int) -> int {
    if fits(d, len, a) {
        1 + (desc_end(d) - align_up(d.physical_start as int, a) - len) / a
    } else {
        0
    }
}

/// The number of slots in the first `n` descriptors.
pub open spec fn slots_before(s: Seq<MemoryDescriptor>, n: int, len: int, a: int) -> int
    decreases n,
{
    if n <= 0 {
        0
    } else {
        slots_before(s, n - 1, len, a) + slots_of(s[n - 1], len, a)
    }
}

/// The address of slot number `index`, counting the slots of the first `n`
/// descriptors in ascending order.
pub open spec fn nth_slot(s: Seq<MemoryDescriptor>, n: int, index: int, len: int, a: int) -> int
    decreases n,
{
    if n <= 0 {
        0
    } else if index >= slots_before(s, n - 1, len, a) {
        align_up(s[n - 1].physical_start as int, a) + (index - slots_before(s, n - 1, len, a)) * a
    } else {
        nth_slot(s, n - 1, index, len, a)
    }
}

/// The slot that a 32-bit seed selects among `total` slots: the seed is read
/// as a fraction of 2^32.
pub open spec fn seed_index(total: int, seed: u32) -> int {
    (total * seed) / 0x1_0000_0000
}

/// The base of an allocation of `pages` pages, aligned to `mask`, at the slot
/// that `seed` selects among all slots of the conventional descriptors.
pub open spec fn place_random(s: Seq<MemoryDescriptor>, pages: u64, seed: u32, mask: u64) -> Option<
    u64,
> {
    if !request_ok(pages, mask) {
        None
    } else {
        let total = slots_before(s, s.len() as int, pages * 4096, mask + 1);
        if total == 0 {
            None
        } else {
            Some(nth_slot(s, s.len() as int, seed_index(total, seed), pages * 4096, mask + 1) as u64)
        }
    }
}

/// A descriptor has no more slots than pages.
pub proof fn lemma_slots_of_bound(d: MemoryDescriptor, len: int, a: int)
    requires
        desc_wf(d),
        len >= 4096,
        a >= 4096,
    ensures
        0 <= slots_of(d, len, a) <= d.number_of_pages,
        slots_of(d, len, a) > 0 <==> fits(d, len, a),
{
    if fits(d, len, a) {
        let start = d.physical_start as int;
        lemma_align_up(start, a);
        let room = desc_end(d) - align_up(start, a) - len;
        lemma_div_is_ordered_by_denominator(room, 4096, a);
        lemma_fundamental_div_mod(room, a);
        lemma_mod_bound(room, a);
        assert(room / a >= 0) by (nonlinear_arith)
            requires
                room == a * (room / a) + room % a,
                0 <= room % a < a,
                room >= 0,
                a > 0,
        ;
        assert(room <= (d.number_of_pages - 1) * 4096);
        assert(room / 4096 <= d.number_of_pages - 1);
    }
}

/// The slots of the first `n` descriptors of a sorted layout are no more than
/// the pages below the end of the last of them.
pub proof fn lemma_slots_bound(s: Seq<MemoryDescriptor>, n: int, len: int, a: int)
    requires
        sorted(s),
        0 <= n <= s.len(),
        len >= 4096,
        a >= 4096,
    ensures
        0 <= slots_before(s, n, len, a),
        n > 0 ==> slots_before(s, n, len, a) * 4096 <= desc_end(s[n - 1]),
        n == 0 ==> slots_before(s, n, len, a) == 0,
    decreases n,
{
    if n > 0 {
        lemma_slots_bound(s, n - 1, len, a);
        lemma_slots_of_bound(s[n - 1], len, a);
        if n > 1 {
            assert(desc_end(s[n - 2]) <= s[n - 1].physical_start);
        }
    }
}

/// The slot counts grow with the number of descriptors counted.
pub proof fn lemma_slots_monotone(s: Seq<MemoryDescriptor>, i: int, n: int, len: int, a: int)
    requires
        sorted(s),
        0 <= i <= n <= s.len(),
        len >= 4096,
        a >= 4096,
    ensures
        slots_before(s, i, len, a) <= slots_before(s, n, len, a),
    decreases n - i,
{
    if i < n {
        lemma_slots_monotone(s, i, n - 1, len, a);
        lemma_slots_of_bound(s[n - 1], len, a);
    }
}

/// Slot `index` is the slot of the descriptor at position `i` when the slots
/// before `i` are at most `index` and those up to `i` are more.
pub proof fn lemma_nth_slot(s: Seq<MemoryDescriptor>, n: int, i: int, index: int, len: int, a: int)
    requires
        sorted(s),
        0 <= i < n <= s.len(),
        len >= 4096,
        a >= 4096,
        slots_before(s, i, len, a) <= index < slots_before(s, i + 1, len, a),
    ensures
        nth_slot(s, n, index, len, a) == align_up(s[i].physical_start as int, a) + (index
            - slots_before(s, i, len, a)) * a,
    decreases n,
{
    if n - 1 > i {
        lemma_slots_monotone(s, i + 1, n - 1, len, a);
        lemma_nth_slot(s, n - 1, i, index, len, a);
    }
}

/// A slot of a descriptor is aligned and holds the whole allocation within
/// the descriptor.
pub proof fn lemma_slot_within(d: MemoryDescriptor, k: int, len: int, a: int)
    requires
        desc_wf(d),
        len >= 4096,
        a >= 4096,
        0 <= k < slots_of(d, len, a),
    ensures
        d.physical_start <= align_up(d.physical_start as int, a) + k * a,
        align_up(d.physical_start as int, a) + k * a + len <= desc_end(d),
        (align_up(d.physical_start as int, a) + k * a) % a == 0,
{
    let start = d.physical_start as int;
    let up = align_up(start, a);
    lemma_align_up(start, a);
    let room = desc_end(d) - up - len;
    lemma_fundamental_div_mod(room, a);
    lemma_mod_bound(room, a);
    assert(k * a <= room && k * a >= 0) by (nonlinear_arith)
        requires
            0 <= k <= room / a,
            room == a * (room / a) + room % a,
            0 <= room % a,
            a > 0,
    ;
    lemma_fundamental_div_mod(up, a);
    assert(up + k * a == (up / a + k) * a) by (nonlinear_arith)
        requires
            up == a * (up / a) + up % a,
            up % a == 0,
    ;
    lemma_mod_multiples_basic(up / a + k, a);
}

/// A run of bytes of one kind lies within one descriptor of a valid layout.
pub proof fn lemma_run_within(s: Seq<MemoryDescriptor>, base: int, len: int, t: Kind) -> (k: int)
    requires
        layout_wf(s),
        0 < len,
        range_has_kind(s, base, len, t),
    ensures
        0 <= k < s.len(),
        kind_of(s[k]) == t,
        s[k].physical_start <= base,
        base + len <= desc_end(s[k]),
{
    assert(kind_at(s, base) == Some(t));
    let k = lemma_kind_at_witness(s, base);
    let e = desc_end(s[k]);
    if e < base + len {
        assert(kind_at(s, e) == Some(t));
        let j = lemma_kind_at_witness(s, e);
        if j < k {
            assert(desc_end(s[j]) <= s[k].physical_start);
        } else if j > k {
            assert(desc_end(s[k]) <= s[k + 1].physical_start);
            if j > k + 1 {
                assert(desc_end(s[k + 1]) <= s[j].physical_start);
            }
            assert(!joinable(s, k));
        }
    }
    k
}

/// A base that `place_max` gives can be allocated: it lies, with the whole
/// allocation, in conventional memory.
pub proof fn lemma_place_max_convertible(
    s: Seq<MemoryDescriptor>,
    pages: u64,
    max: u64,
    mask: u64,
)
    requires
        layout_wf(s),
        place_max(s, pages, max, mask) is Some,
    ensures
        convertible(
            s,
            place_max(s, pages, max, mask)->0,
            pages,
            Some(MemoryType::EfiConventionalMemory),
        ),
        place_max(s, pages, max, mask)->0 + pages * 4096 - 1 <= max,
        place_max(s, pages, max, mask)->0 as int % (mask + 1) == 0,
{
    let len = pages * 4096;
    let a = mask + 1;
    lemma_top_candidate(s, s.len() as int, len, max as int, a);
    let i = top_candidate(s, s.len() as int, len, max as int, a)->0;
    lemma_top_base(s[i], len, max as int, a);
    let b = top_base(s[i], len, max as int, a);
    lemma_mask_pages(mask);
    lemma_aligned_pages(b, a);
    assert(within(s, i, b as u64, pages));
    lemma_within_has_kind(s, i, b as u64, pages);
    lemma_kind_at(s, i, b);
}

/// A base that `place_random` gives can be allocated: it lies, with the whole
/// allocation, in conventional memory.
pub proof fn lemma_place_random_convertible(
    s: Seq<MemoryDescriptor>,
    pages: u64,
    seed: u32,
    mask: u64,
)
    requires
        layout_wf(s),
        place_random(s, pages, seed, mask) is Some,
    ensures
        convertible(
            s,
            place_random(s, pages, seed, mask)->0,
            pages,
            Some(MemoryType::EfiConventionalMemory),
        ),
        place_random(s, pages, seed, mask)->0 as int % (mask + 1) == 0,
{
    let len = pages * 4096;
    let a = mask + 1;
    let n = s.len() as int;
    let total = slots_before(s, n, len, a);
    let index = seed_index(total, seed);
    lemma_slots_bound(s, n, len, a);
    assert(0 <= index < total) by {
        let p = total * seed;
        assert(0 <= p < total * 0x1_0000_0000) by (nonlinear_arith)
            requires
                p == total * seed,
                total > 0,
                0 <= seed < 0x1_0000_0000,
        ;
    }
    let i = lemma_slot_owner(s, n, index, len, a);
    lemma_nth_slot(s, n, i, index, len, a);
    lemma_slot_within(s[i], index - slots_before(s, i, len, a), len, a);
    lemma_slots_of_bound(s[i], len, a);
    let b = nth_slot(s, n, index, len, a);
    lemma_mask_pages(mask);
    lemma_aligned_pages(b, a);
    assert(within(s, i, b as u64, pages));
    lemma_within_has_kind(s, i, b as u64, pages);
    lemma_kind_at(s, i, b);
}

/// Every slot number below the total belongs to one descriptor.
pub proof fn lemma_slot_owner(s: Seq<MemoryDescriptor>, n: int, index: int, len: int, a: int) -> (i:
    int)
    requires
        sorted(s),
        0 <= n <= s.len(),
        len >= 4096,
        a >= 4096,
        0 <= index < slots_before(s, n, len, a),
    ensures
        0 <= i < n,
        slots_before(s, i, len, a) <= index < slots_before(s, i + 1, len, a),
    decreases n,
{
    if index >= slots_before(s, n - 1, len, a) {
        n - 1
    } else {
        lemma_slot_owner(s, n - 1, index, len, a)
    }
}

} // verus!
