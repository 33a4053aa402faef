//! How declaring a region and taking one out change a layout: the cases, and
//! for each of them that the result is a valid layout that gives the bytes
//! the types they should have.

use vstd::prelude::*;
use crate::efi::layout::{
    covers, desc_end, desc_of, desc_wf, joinable, kind_of, layout_wf, lemma_insert, lemma_remove,
    plain, Kind,
    lemma_kind_at, lemma_kind_at_witness, lemma_update, range_has_kind, range_vacant, retyped,
    sorted, kind_at,
};
use crate::efi::memorytype::{MemoryDescriptor, MemoryType};

verus! {

/// Whether a region of `pages` pages at `phys` can be described at all: it is
/// not empty, starts on a page boundary and ends within the address space.
pub open spec fn region_ok(phys: u64, pages: u64) -> bool {
    &&& pages > 0
    &&& phys as int % 4096 == 0
    &&& phys + pages * 4096 <= u64::MAX
}

/// Whether the region of `pages` pages at `phys` fits into the gap before
/// position `i` of a valid layout.
pub open spec fn gap_at(s: Seq<MemoryDescriptor>, i: int, phys: u64, pages: u64) -> bool {
    &&& layout_wf(s)
    &&& region_ok(phys, pages)
    &&& 0 <= i <= s.len()
    &&& i > 0 ==> desc_end(s[i - 1]) <= phys
    &&& i < s.len() ==> phys + pages * 4096 <= s[i].physical_start
}

/// Whether a new region of kind `t` that ends at the start of position `i`
/// merges with the descriptor before it.
pub open spec fn joins_prev(s: Seq<MemoryDescriptor>, i: int, phys: u64, t: Kind) -> bool {
    i > 0 && kind_of(s[i - 1]) == t && desc_end(s[i - 1]) == phys
}

/// Whether a new region of kind `t` merges with the descriptor at position
/// `i`, which follows it.
pub open spec fn joins_next(
    s: Seq<MemoryDescriptor>,
    i: int,
    phys: u64,
    pages: u64,
    t: Kind,
) -> bool {
    i < s.len() && kind_of(s[i]) == t && s[i].physical_start == phys + pages * 4096
}

/// A gap holds no declared byte.
pub proof fn lemma_gap_vacant(s: Seq<MemoryDescriptor>, i: int, phys: u64, pages: u64)
    requires
        gap_at(s, i, phys, pages),
    ensures
        range_vacant(s, phys as int, pages * 4096),
{
    assert forall|a: int| phys <= a < phys + pages * 4096 implies (#[trigger] kind_at(s, a))
        is None by {
        if kind_at(s, a) is Some {
            let j = lemma_kind_at_witness(s, a);
            if j < i {
                if j < i - 1 {
                    assert(desc_end(s[j]) <= s[i - 1].physical_start);
                }
            } else {
                if j > i {
                    assert(desc_end(s[i]) <= s[j].physical_start);
                }
            }
        }
    }
}

/// A region declared between two descriptors of its kind makes one
/// descriptor of the three.
pub proof fn lemma_declare_between(s: Seq<MemoryDescriptor>, i: int, phys: u64, pages: u64, t: Kind)
    requires
        gap_at(s, i, phys, pages),
        joins_prev(s, i, phys, t),
        joins_next(s, i, phys, pages, t),
    ensures
        ({
            let d = desc_of(
                t,
                s[i - 1].physical_start,
                (s[i - 1].number_of_pages + pages + s[i].number_of_pages) as u64,
            );
            let r = s.remove(i).update(i - 1, d);
            layout_wf(r) && retyped(s, r, phys as int, pages * 4096, t)
        }),
{
    let p = s[i - 1];
    let x = s[i];
    let d = desc_of(t, p.physical_start, (p.number_of_pages + pages + x.number_of_pages) as u64);
    lemma_remove(s, i);
    let s1 = s.remove(i);
    assert(s1[i - 1] == s[i - 1]);
    if i < s1.len() {
        assert(s1[i] == s[i + 1]);
        assert(desc_end(s[i]) <= s[i + 1].physical_start);
    }
    if i > 1 {
        assert(s1[i - 2] == s[i - 2]);
        assert(desc_end(s[i - 2]) <= s[i - 1].physical_start);
    }
    lemma_update(s1, i - 1, d);
    let s2 = s1.update(i - 1, d);
    assert forall|a: int|
        (#[trigger] kind_at(s2, a)) == (if phys <= a < phys + pages * 4096 {
            Some(t)
        } else {
            kind_at(s, a)
        }) by {
        if covers(p, a) {
            lemma_kind_at(s, i - 1, a);
        } else if covers(x, a) {
            lemma_kind_at(s, i, a);
        }
    }
    assert forall|k: int| 0 <= k < s2.len() implies !#[trigger] joinable(s2, k) by {
        if k + 1 < s2.len() {
            if k < i - 2 {
                assert(s2[k] == s[k] && s2[k + 1] == s[k + 1]);
                assert(!joinable(s, k));
            } else if k == i - 2 {
                assert(s2[k] == s[k]);
                assert(!joinable(s, k));
            } else if k == i - 1 {
                assert(s2[k + 1] == s[k + 2]);
                assert(!joinable(s, k + 1));
            } else {
                assert(s2[k] == s[k + 1] && s2[k + 1] == s[k + 2]);
                assert(!joinable(s, k + 1));
            }
        }
    }
}

/// A region declared right after a descriptor of its kind extends it.
pub proof fn lemma_declare_after(s: Seq<MemoryDescriptor>, i: int, phys: u64, pages: u64, t: Kind)
    requires
        gap_at(s, i, phys, pages),
        joins_prev(s, i, phys, t),
        !joins_next(s, i, phys, pages, t),
    ensures
        ({
            let d = desc_of(t, s[i - 1].physical_start, (s[i - 1].number_of_pages + pages) as u64);
            let r = s.update(i - 1, d);
            layout_wf(r) && retyped(s, r, phys as int, pages * 4096, t)
        }),
{
    let p = s[i - 1];
    let d = desc_of(t, p.physical_start, (p.number_of_pages + pages) as u64);
    if i > 1 {
        assert(desc_end(s[i - 2]) <= s[i - 1].physical_start);
    }
    lemma_update(s, i - 1, d);
    let s2 = s.update(i - 1, d);
    assert forall|a: int|
        (#[trigger] kind_at(s2, a)) == (if phys <= a < phys + pages * 4096 {
            Some(t)
        } else {
            kind_at(s, a)
        }) by {
        if covers(p, a) {
            lemma_kind_at(s, i - 1, a);
        }
    }
    assert forall|k: int| 0 <= k < s2.len() implies !#[trigger] joinable(s2, k) by {
        if k + 1 < s2.len() {
            if k == i - 2 {
                assert(s2[k] == s[k]);
                assert(!joinable(s, k));
            } else if k == i - 1 {
                assert(s2[k + 1] == s[k + 1]);
            } else {
                assert(s2[k] == s[k] && s2[k + 1] == s[k + 1]);
                assert(!joinable(s, k));
            }
        }
    }
}

/// A region declared right before a descriptor of its kind extends it
/// downwards.
pub proof fn lemma_declare_before(s: Seq<MemoryDescriptor>, i: int, phys: u64, pages: u64, t: Kind)
    requires
        gap_at(s, i, phys, pages),
        !joins_prev(s, i, phys, t),
        joins_next(s, i, phys, pages, t),
    ensures
        ({
            let d = desc_of(t, phys, (pages + s[i].number_of_pages) as u64);
            let r = s.update(i, d);
            layout_wf(r) && retyped(s, r, phys as int, pages * 4096, t)
        }),
{
    let x = s[i];
    let d = desc_of(t, phys, (pages + x.number_of_pages) as u64);
    if i + 1 < s.len() {
        assert(desc_end(s[i]) <= s[i + 1].physical_start);
    }
    lemma_update(s, i, d);
    let s2 = s.update(i, d);
    assert forall|a: int|
        (#[trigger] kind_at(s2, a)) == (if phys <= a < phys + pages * 4096 {
            Some(t)
        } else {
            kind_at(s, a)
        }) by {
        if covers(x, a) {
            lemma_kind_at(s, i, a);
        }
    }
    assert forall|k: int| 0 <= k < s2.len() implies !#[trigger] joinable(s2, k) by {
        if k + 1 < s2.len() {
            if k == i - 1 {
                assert(s2[k] == s[k]);
            } else if k == i {
                assert(s2[k + 1] == s[k + 1]);
                assert(!joinable(s, k));
            } else {
                assert(s2[k] == s[k] && s2[k + 1] == s[k + 1]);
                assert(!joinable(s, k));
            }
        }
    }
}

/// A region declared apart from descriptors of its kind gets a descriptor of
/// its own.
pub proof fn lemma_declare_apart(s: Seq<MemoryDescriptor>, i: int, phys: u64, pages: u64, t: Kind)
    requires
        gap_at(s, i, phys, pages),
        !joins_prev(s, i, phys, t),
        !joins_next(s, i, phys, pages, t),
    ensures
        ({
            let r = s.insert(i, desc_of(t, phys, pages));
            layout_wf(r) && retyped(s, r, phys as int, pages * 4096, t)
        }),
{
    let d = desc_of(t, phys, pages);
    lemma_insert(s, i, d);
    let s2 = s.insert(i, d);
    assert forall|k: int| 0 <= k < s2.len() implies !#[trigger] joinable(s2, k) by {
        if k + 1 < s2.len() {
            if k < i - 1 {
                assert(s2[k] == s[k] && s2[k + 1] == s[k + 1]);
                assert(!joinable(s, k));
            } else if k == i - 1 {
                assert(s2[k] == s[k]);
            } else if k == i {
                assert(s2[k + 1] == s[k]);
            } else {
                assert(s2[k] == s[k - 1] && s2[k + 1] == s[k]);
                assert(!joinable(s, k - 1));
            }
        }
    }
}

/// Whether a descriptor of the layout starts at `phys`.
pub open spec fn starts_descriptor(s: Seq<MemoryDescriptor>, phys: u64) -> bool {
    exists|i: int| 0 <= i < s.len() && (#[trigger] s[i]).physical_start == phys
}

/// Whether the region of `pages` pages at `phys` can change its type: each of
/// its bytes is of one and the same kind, and the type of that kind is `from`
/// where one is given.
pub open spec fn convertible(
    s: Seq<MemoryDescriptor>,
    phys: u64,
    pages: u64,
    from: Option<MemoryType>,
) -> bool {
    &&& region_ok(phys, pages)
    &&& match kind_at(s, phys as int) {
        Some(t) => (from is None || from == Some(t.memory_type)) && range_has_kind(
            s,
            phys as int,
            pages * 4096,
            t,
        ),
        None => false,
    }
}

/// Whether `b` is `a` without `[base, base + len)` and nothing else changed.
pub open spec fn vacated(
    a: Seq<MemoryDescriptor>,
    b: Seq<MemoryDescriptor>,
    base: int,
    len: int,
) -> bool {
    forall|x: int|
        (#[trigger] kind_at(b, x)) == (if base <= x < base + len {
            None
        } else {
            kind_at(a, x)
        })
}

/// Whether the region of `pages` pages at `phys` lies within the descriptor
/// at position `k` of a valid layout.
pub open spec fn within(s: Seq<MemoryDescriptor>, k: int, phys: u64, pages: u64) -> bool {
    &&& layout_wf(s)
    &&& region_ok(phys, pages)
    &&& 0 <= k < s.len()
    &&& s[k].physical_start <= phys
    &&& phys + pages * 4096 <= desc_end(s[k])
}

/// In a sorted layout at most one descriptor covers an address.
pub proof fn lemma_one_cover(s: Seq<MemoryDescriptor>, j: int, k: int, a: int)
    requires
        sorted(s),
        0 <= j < s.len(),
        0 <= k < s.len(),
        covers(s[j], a),
        covers(s[k], a),
    ensures
        j == k,
{
    if j < k {
        assert(desc_end(s[j]) <= s[k].physical_start);
    } else if k < j {
        assert(desc_end(s[k]) <= s[j].physical_start);
    }
}

/// The bytes of one kind around an address end where its descriptor ends.
pub proof fn lemma_run_ends(s: Seq<MemoryDescriptor>, k: int)
    requires
        layout_wf(s),
        0 <= k < s.len(),
    ensures
        kind_at(s, desc_end(s[k])) != Some(kind_of(s[k])),
{
    let e = desc_end(s[k]);
    if kind_at(s, e) is Some {
        let j = lemma_kind_at_witness(s, e);
        if j < k {
            assert(desc_end(s[j]) <= s[k].physical_start);
        } else if j > k {
            assert(desc_end(s[k]) <= s[k + 1].physical_start);
            if j > k + 1 {
                assert(desc_end(s[k + 1]) <= s[j].physical_start);
            }
            assert(!joinable(s, k));
        }
    }
}

/// Every byte of a region within a descriptor has the descriptor's kind.
pub proof fn lemma_within_has_kind(s: Seq<MemoryDescriptor>, k: int, phys: u64, pages: u64)
    requires
        within(s, k, phys, pages),
    ensures
        range_has_kind(s, phys as int, pages * 4096, kind_of(s[k])),
{
    assert forall|a: int| phys <= a < phys + pages * 4096 implies (#[trigger] kind_at(s, a))
        == Some(kind_of(s[k])) by {
        lemma_kind_at(s, k, a);
    }
}

/// Taking a region out of the middle of a descriptor leaves a piece on each
/// side.
pub proof fn lemma_carve_middle(
    s: Seq<MemoryDescriptor>,
    k: int,
    phys: u64,
    pages: u64,
    l: MemoryDescriptor,
    r: MemoryDescriptor,
)
    requires
        within(s, k, phys, pages),
        l == desc_of(kind_of(s[k]), s[k].physical_start, l.number_of_pages),
        r == desc_of(kind_of(s[k]), (phys + pages * 4096) as u64, r.number_of_pages),
        l.number_of_pages > 0,
        r.number_of_pages > 0,
        desc_end(l) == phys,
        desc_end(r) == desc_end(s[k]),
    ensures
        layout_wf(s.update(k, l).insert(k + 1, r)),
        vacated(s, s.update(k, l).insert(k + 1, r), phys as int, pages * 4096),
{
    let d = s[k];
    lemma_carve_side(s, k, l);
    let s1 = s.update(k, l);
    assert(s1[k] == l);
    if k + 1 < s.len() {
        assert(s1[k + 1] == s[k + 1]);
        assert(desc_end(s[k]) <= s[k + 1].physical_start);
        assert(!joinable(s, k));
    }
    lemma_declare_apart(s1, k + 1, r.physical_start, r.number_of_pages, kind_of(d));
    let c = s1.insert(k + 1, r);
    assert forall|x: int|
        (#[trigger] kind_at(c, x)) == (if phys <= x < phys + pages * 4096 {
            None
        } else {
            kind_at(s, x)
        }) by {
        assert(kind_at(s1, x) == (if covers(d, x) && !covers(l, x) {
            None
        } else {
            kind_at(s, x)
        }));
        if covers(d, x) {
            lemma_kind_at(s, k, x);
        }
    }
}

/// Replacing a descriptor by a piece of itself keeps the layout valid and
/// leaves the rest of its bytes without a kind.
pub proof fn lemma_carve_side(s: Seq<MemoryDescriptor>, k: int, d: MemoryDescriptor)
    requires
        layout_wf(s),
        0 <= k < s.len(),
        desc_wf(d),
        kind_of(d) == kind_of(s[k]),
        s[k].physical_start <= d.physical_start,
        desc_end(d) <= desc_end(s[k]),
    ensures
        layout_wf(s.update(k, d)),
        forall|x: int|
            (#[trigger] kind_at(s.update(k, d), x)) == (if covers(s[k], x) && !covers(d, x) {
                None
            } else {
                kind_at(s, x)
            }),
{
    if k > 0 {
        assert(desc_end(s[k - 1]) <= s[k].physical_start);
    }
    if k + 1 < s.len() {
        assert(desc_end(s[k]) <= s[k + 1].physical_start);
    }
    lemma_update(s, k, d);
    let c = s.update(k, d);
    assert forall|x: int|
        (#[trigger] kind_at(c, x)) == (if covers(s[k], x) && !covers(d, x) {
            None
        } else {
            kind_at(s, x)
        }) by {
        if covers(d, x) {
            lemma_kind_at(s, k, x);
        }
    }
    assert forall|j: int| 0 <= j < c.len() implies !#[trigger] joinable(c, j) by {
        if j + 1 < c.len() {
            if j == k - 1 {
                assert(c[j] == s[j]);
                assert(!joinable(s, j));
            } else if j == k {
                assert(c[j + 1] == s[j + 1]);
                assert(!joinable(s, j));
            } else {
                assert(c[j] == s[j] && c[j + 1] == s[j + 1]);
                assert(!joinable(s, j));
            }
        }
    }
}

/// Taking a whole descriptor out keeps the layout valid.
pub proof fn lemma_carve_whole(s: Seq<MemoryDescriptor>, k: int)
    requires
        layout_wf(s),
        0 <= k < s.len(),
    ensures
        layout_wf(s.remove(k)),
        forall|x: int|
            (#[trigger] kind_at(s.remove(k), x)) == (if covers(s[k], x) {
                None
            } else {
                kind_at(s, x)
            }),
{
    lemma_remove(s, k);
    let c = s.remove(k);
    assert forall|j: int| 0 <= j < c.len() implies !#[trigger] joinable(c, j) by {
        if j + 1 < c.len() {
            if j < k - 1 {
                assert(c[j] == s[j] && c[j + 1] == s[j + 1]);
                assert(!joinable(s, j));
            } else if j == k - 1 {
                assert(c[j] == s[j] && c[j + 1] == s[j + 2]);
                assert(desc_end(s[k - 1]) <= s[k].physical_start);
                assert(desc_end(s[k]) <= s[k + 1].physical_start);
            } else {
                assert(c[j] == s[j + 1] && c[j + 1] == s[j + 2]);
                assert(!joinable(s, j + 1));
            }
        }
    }
}

/// The position at which a region that starts at `phys` goes into a layout:
/// behind the descriptors that start below it.
pub open spec fn slot_of(s: Seq<MemoryDescriptor>, phys: u64) -> int
    decreases s.len(),
{
    if s.len() == 0 {
        0
    } else if s.last().physical_start < phys {
        s.len() as int
    } else {
        slot_of(s.drop_last(), phys)
    }
}

/// The position before which all descriptors start below `phys`, and from
/// which on none does, is the position at which a region at `phys` goes in.
pub proof fn lemma_slot_of(s: Seq<MemoryDescriptor>, i: int, phys: u64)
    requires
        0 <= i <= s.len(),
        forall|j: int| 0 <= j < i ==> (#[trigger] s[j]).physical_start < phys,
        forall|j: int| i <= j < s.len() ==> (#[trigger] s[j]).physical_start >= phys,
    ensures
        slot_of(s, phys) == i,
    decreases s.len(),
{
    if s.len() > 0 {
        if s.last().physical_start < phys {
            if i < s.len() {
                assert(s[s.len() - 1].physical_start >= phys);
            }
        } else {
            let t = s.drop_last();
            if i == s.len() {
                assert(s[s.len() - 1].physical_start < phys);
            }
            assert forall|j: int| 0 <= j < i implies (#[trigger] t[j]).physical_start < phys by {
                assert(t[j] == s[j]);
            }
            assert forall|j: int| i <= j < t.len() implies (#[trigger] t[j]).physical_start
                >= phys by {
                assert(t[j] == s[j]);
            }
            lemma_slot_of(t, i, phys);
        }
    }
}

/// The layout after a region of `pages` pages of kind `t` at `phys` was
/// declared in a gap of the layout `s`. A descriptor of the same kind that
/// ends where the region starts takes the region in; one that starts where
/// the region ends is taken in with it; otherwise the region gets a
/// descriptor of its own.
pub open spec fn declared(
    s: Seq<MemoryDescriptor>,
    phys: u64,
    pages: u64,
    t: Kind,
) -> Seq<MemoryDescriptor> {
    let i = slot_of(s, phys);
    if joins_prev(s, i, phys, t) && joins_next(s, i, phys, pages, t) {
        s.remove(i).update(
            i - 1,
            desc_of(
                t,
                s[i - 1].physical_start,
                (s[i - 1].number_of_pages + pages + s[i].number_of_pages) as u64,
            ),
        )
    } else if joins_prev(s, i, phys, t) {
        s.update(
            i - 1,
            desc_of(t, s[i - 1].physical_start, (s[i - 1].number_of_pages + pages) as u64),
        )
    } else if joins_next(s, i, phys, pages, t) {
        s.update(i, desc_of(t, phys, (pages + s[i].number_of_pages) as u64))
    } else {
        s.insert(i, desc_of(t, phys, pages))
    }
}

/// The position of the descriptor that covers `phys`.
pub open spec fn cover_of(s: Seq<MemoryDescriptor>, phys: u64) -> int {
    choose|k: int| 0 <= k < s.len() && covers(#[trigger] s[k], phys as int)
}

/// The layout after the region of `pages` pages at `phys` was taken out of
/// the descriptor at position `k`, which holds it: what the descriptor holds
/// below the region and above it stays, each part as a descriptor of its own.
pub open spec fn carved(
    s: Seq<MemoryDescriptor>,
    k: int,
    phys: u64,
    pages: u64,
) -> Seq<MemoryDescriptor> {
    let d = s[k];
    let end = phys + pages * 4096;
    let low = desc_of(kind_of(d), d.physical_start, ((phys - d.physical_start) / 4096) as u64);
    let high = desc_of(kind_of(d), end as u64, ((desc_end(d) - end) / 4096) as u64);
    if d.physical_start < phys && end < desc_end(d) {
        s.update(k, low).insert(k + 1, high)
    } else if d.physical_start < phys {
        s.update(k, low)
    } else if end < desc_end(d) {
        s.update(k, high)
    } else {
        s.remove(k)
    }
}

/// The layout after the region of `pages` pages at `phys`, which lies within
/// one descriptor, was given the type `to`: the region is taken out of its
/// descriptor and declared anew, with the attribute word of its new type.
pub open spec fn converted(
    s: Seq<MemoryDescriptor>,
    phys: u64,
    pages: u64,
    to: MemoryType,
) -> Seq<MemoryDescriptor> {
    declared(carved(s, cover_of(s, phys), phys, pages), phys, pages, plain(to))
}

} // verus!
