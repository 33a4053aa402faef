//! The mathematical model of the memory map: a sequence of descriptors read
//! as a partial function from byte addresses to kinds of memory, a kind being
//! a type with an attribute word, and the facts that relate the two readings.

use vstd::prelude::*;
use crate::efi::memorytype::{MemoryDescriptor, MemoryType};

verus! {

/// Attribute bit: the range can be cached write-back.
pub const EFI_MEMORY_WB: u64 = 0x8;

/// Attribute bit: the range must stay mapped while the loaded program runs.
pub const EFI_MEMORY_RUNTIME: u64 = 0x8000_0000_0000_0000;

/// Whether a type denotes memory that the firmware keeps using at run time.
pub open spec fn is_runtime_type(t: MemoryType) -> bool {
    t == MemoryType::EfiRuntimeServicesCode || t == MemoryType::EfiRuntimeServicesData
}

/// The attribute word of memory of type `t` that a conversion made:
/// write-back, and the run-time bit for run-time code and data.
pub open spec fn attribute_of(t: MemoryType) -> u64 {
    if is_runtime_type(t) {
        0x8000_0000_0000_0008u64
    } else {
        0x8u64
    }
}

/// What a descriptor says of its memory: the type and the attribute word.
/// Descriptors that touch are one descriptor exactly when they are of one
/// kind.
pub struct Kind {
    pub memory_type: MemoryType,
    pub attribute: u64,
}

/// The kind of the memory of a descriptor.
pub open spec fn kind_of(d: MemoryDescriptor) -> Kind {
    Kind { memory_type: d.memory_type, attribute: d.attribute }
}

/// The kind with type `t` and the attribute word `attribute`.
pub open spec fn kind(t: MemoryType, attribute: u64) -> Kind {
    Kind { memory_type: t, attribute }
}

/// The kind of memory of type `t` that a conversion made.
pub open spec fn plain(t: MemoryType) -> Kind {
    Kind { memory_type: t, attribute: attribute_of(t) }
}

/// The first byte address past the descriptor.
pub open spec fn desc_end(d: MemoryDescriptor) -> int {
    d.physical_start + d.number_of_pages * 4096
}

/// Whether byte address `a` lies in the descriptor.
pub open spec fn covers(d: MemoryDescriptor, a: int) -> bool {
    d.physical_start <= a < desc_end(d)
}

/// A descriptor on its own is valid when it is not empty, starts on a page
/// boundary and ends within the address space.
pub open spec fn desc_wf(d: MemoryDescriptor) -> bool {
    &&& d.number_of_pages > 0
    &&& d.physical_start as int % 4096 == 0
    &&& desc_end(d) <= u64::MAX
    &&& d.virtual_start == 0
}

/// The descriptor of `pages` pages of kind `k` at `start`.
pub open spec fn desc_of(k: Kind, start: u64, pages: u64) -> MemoryDescriptor {
    MemoryDescriptor {
        memory_type: k.memory_type,
        physical_start: start,
        virtual_start: 0,
        number_of_pages: pages,
        attribute: k.attribute,
    }
}

/// Valid descriptors in ascending order, none overlapping another.
pub open spec fn sorted(s: Seq<MemoryDescriptor>) -> bool {
    &&& forall|i: int| 0 <= i < s.len() ==> desc_wf(#[trigger] s[i])
    &&& forall|i: int, j: int|
        0 <= i < j < s.len() ==> desc_end(#[trigger] s[i]) <= (#[trigger] s[j]).physical_start
}

/// Whether the descriptors at `k` and `k + 1` touch and are of one kind, so
/// that one descriptor could stand for both.
pub open spec fn joinable(s: Seq<MemoryDescriptor>, k: int) -> bool {
    &&& 0 <= k
    &&& k + 1 < s.len()
    &&& desc_end(s[k]) == s[k + 1].physical_start
    &&& kind_of(s[k]) == kind_of(s[k + 1])
}

/// The invariant of the memory map: sorted, disjoint, and coalesced.
pub open spec fn layout_wf(s: Seq<MemoryDescriptor>) -> bool {
    &&& sorted(s)
    &&& forall|k: int| 0 <= k < s.len() ==> !#[trigger] joinable(s, k)
}

/// The kind of the memory at byte address `a`, if any descriptor covers it.
pub open spec fn kind_at(s: Seq<MemoryDescriptor>, a: int) -> Option<Kind> {
    if exists|i: int| 0 <= i < s.len() && covers(#[trigger] s[i], a) {
        let i = choose|i: int| 0 <= i < s.len() && covers(#[trigger] s[i], a);
        Some(kind_of(s[i]))
    } else {
        None
    }
}

/// The type of the memory at byte address `a`, if any descriptor covers it.
pub open spec fn type_at(s: Seq<MemoryDescriptor>, a: int) -> Option<MemoryType> {
    match kind_at(s, a) {
        Some(k) => Some(k.memory_type),
        None => None,
    }
}

/// Whether every byte of `[base, base + len)` is free of descriptors.
pub open spec fn range_vacant(s: Seq<MemoryDescriptor>, base: int, len: int) -> bool {
    forall|a: int| base <= a < base + len ==> (#[trigger] kind_at(s, a)) is None
}

/// Whether every byte of `[base, base + len)` is of kind `t`.
pub open spec fn range_has_kind(s: Seq<MemoryDescriptor>, base: int, len: int, t: Kind) -> bool {
    forall|a: int| base <= a < base + len ==> (#[trigger] kind_at(s, a)) == Some(t)
}

/// Whether `b` is `a` with `[base, base + len)` set to the kind `t` and
/// nothing else changed.
pub open spec fn retyped(
    a: Seq<MemoryDescriptor>,
    b: Seq<MemoryDescriptor>,
    base: int,
    len: int,
    t: Kind,
) -> bool {
    forall|x: int|
        (#[trigger] kind_at(b, x)) == (if base <= x < base + len {
            Some(t)
        } else {
            kind_at(a, x)
        })
}

/// Whether two layouts give every byte address the same kind.
pub open spec fn same_kinds(a: Seq<MemoryDescriptor>, b: Seq<MemoryDescriptor>) -> bool {
    forall|x: int| (#[trigger] kind_at(a, x)) == kind_at(b, x)
}

/// In a sorted layout the descriptor that covers an address decides its kind.
pub proof fn lemma_kind_at(s: Seq<MemoryDescriptor>, i: int, a: int)
    requires
        sorted(s),
        0 <= i < s.len(),
        covers(s[i], a),
    ensures
        kind_at(s, a) == Some(kind_of(s[i])),
{
    let j = choose|j: int| 0 <= j < s.len() && covers(#[trigger] s[j], a);
    if j < i {
        assert(desc_end(s[j]) <= s[i].physical_start);
    } else if i < j {
        assert(desc_end(s[i]) <= s[j].physical_start);
    }
}

/// An address that has a kind is covered by a descriptor of that kind.
pub proof fn lemma_kind_at_witness(s: Seq<MemoryDescriptor>, a: int) -> (i: int)
    requires
        kind_at(s, a) is Some,
    ensures
        0 <= i < s.len(),
        covers(s[i], a),
        kind_at(s, a) == Some(kind_of(s[i])),
{
    choose|i: int| 0 <= i < s.len() && covers(#[trigger] s[i], a)
}

/// Putting a descriptor into a gap of a sorted layout keeps it sorted.
proof fn lemma_insert_sorted(s: Seq<MemoryDescriptor>, i: int, d: MemoryDescriptor)
    requires
        sorted(s),
        desc_wf(d),
        0 <= i <= s.len(),
        i > 0 ==> desc_end(s[i - 1]) <= d.physical_start,
        i < s.len() ==> desc_end(d) <= s[i].physical_start,
    ensures
        sorted(s.insert(i, d)),
{
    let t = s.insert(i, d);
    assert forall|x: int, y: int| 0 <= x < y < t.len() implies desc_end(#[trigger] t[x]) <= (
    #[trigger] t[y]).physical_start by {
        let ox = if x < i { x } else { x - 1 };
        let oy = if y < i { y } else { y - 1 };
        if x == i {
            assert(t[y] == s[oy]);
            if oy > i {
                assert(desc_end(s[i]) <= s[oy].physical_start);
            }
        } else if y == i {
            assert(t[x] == s[ox]);
            if ox < i - 1 {
                assert(desc_end(s[ox]) <= s[i - 1].physical_start);
            }
        } else {
            assert(t[x] == s[ox]);
            assert(t[y] == s[oy]);
            assert(desc_end(s[ox]) <= s[oy].physical_start);
        }
    }
    assert forall|x: int| 0 <= x < t.len() implies desc_wf(#[trigger] t[x]) by {
        if x < i {
            assert(t[x] == s[x]);
        } else if x > i {
            assert(t[x] == s[x - 1]);
        }
    }
}

/// Putting a descriptor into a gap of a sorted layout keeps it sorted and
/// gives the descriptor's bytes its kind.
pub proof fn lemma_insert(s: Seq<MemoryDescriptor>, i: int, d: MemoryDescriptor)
    requires
        sorted(s),
        desc_wf(d),
        0 <= i <= s.len(),
        i > 0 ==> desc_end(s[i - 1]) <= d.physical_start,
        i < s.len() ==> desc_end(d) <= s[i].physical_start,
    ensures
        sorted(s.insert(i, d)),
        forall|a: int|
            (#[trigger] kind_at(s.insert(i, d), a)) == (if covers(d, a) {
                Some(kind_of(d))
            } else {
                kind_at(s, a)
            }),
{
    lemma_insert_sorted(s, i, d);
    let t = s.insert(i, d);
    assert forall|a: int|
        (#[trigger] kind_at(t, a)) == (if covers(d, a) {
            Some(kind_of(d))
        } else {
            kind_at(s, a)
        }) by {
        lemma_insert_kind_at(s, i, d, a);
    }
}

/// The kind of one address after a descriptor was put into a gap.
proof fn lemma_insert_kind_at(s: Seq<MemoryDescriptor>, i: int, d: MemoryDescriptor, a: int)
    requires
        sorted(s),
        sorted(s.insert(i, d)),
        0 <= i <= s.len(),
    ensures
        kind_at(s.insert(i, d), a) == (if covers(d, a) {
            Some(kind_of(d))
        } else {
            kind_at(s, a)
        }),
{
    let t = s.insert(i, d);
    if covers(d, a) {
        assert(t[i] == d);
        lemma_kind_at(t, i, a);
    } else if kind_at(s, a) is Some {
        let j = lemma_kind_at_witness(s, a);
        let nj = if j < i { j } else { j + 1 };
        assert(t[nj] == s[j]);
        lemma_kind_at(t, nj, a);
    } else {
        if kind_at(t, a) is Some {
            let j = lemma_kind_at_witness(t, a);
            let oj = if j < i { j } else { j - 1 };
            assert(j != i);
            assert(t[j] == s[oj]);
            assert(covers(s[oj], a));
        }
    }
}

/// Taking a descriptor out of a sorted layout keeps it sorted and leaves the
/// descriptor's bytes without a kind.
pub proof fn lemma_remove(s: Seq<MemoryDescriptor>, k: int)
    requires
        sorted(s),
        0 <= k < s.len(),
    ensures
        sorted(s.remove(k)),
        forall|a: int|
            (#[trigger] kind_at(s.remove(k), a)) == (if covers(s[k], a) {
                None
            } else {
                kind_at(s, a)
            }),
{
    let t = s.remove(k);
    assert forall|x: int, y: int| 0 <= x < y < t.len() implies desc_end(#[trigger] t[x]) <= (
    #[trigger] t[y]).physical_start by {
        let ox = if x < k { x } else { x + 1 };
        let oy = if y < k { y } else { y + 1 };
        assert(t[x] == s[ox]);
        assert(t[y] == s[oy]);
        assert(desc_end(s[ox]) <= s[oy].physical_start);
    }
    assert forall|x: int| 0 <= x < t.len() implies desc_wf(#[trigger] t[x]) by {
        let ox = if x < k { x } else { x + 1 };
        assert(t[x] == s[ox]);
    }
    assert forall|a: int|
        (#[trigger] kind_at(t, a)) == (if covers(s[k], a) {
            None
        } else {
            kind_at(s, a)
        }) by {
        if kind_at(t, a) is Some {
            let j = lemma_kind_at_witness(t, a);
            let oj = if j < k { j } else { j + 1 };
            assert(t[j] == s[oj]);
            lemma_kind_at(s, oj, a);
            if covers(s[k], a) {
                lemma_kind_at(s, k, a);
                if oj < k {
                    assert(desc_end(s[oj]) <= s[k].physical_start);
                } else {
                    assert(desc_end(s[k]) <= s[oj].physical_start);
                }
            }
        } else if !covers(s[k], a) && kind_at(s, a) is Some {
            let j = lemma_kind_at_witness(s, a);
            let nj = if j < k { j } else { j - 1 };
            assert(t[nj] == s[j]);
            assert(covers(t[nj], a));
        }
    }
}

/// Replacing a descriptor by one that fits between its neighbours keeps a
/// sorted layout sorted; the old descriptor's bytes lose their kind and the
/// new one's get its kind.
pub proof fn lemma_update(s: Seq<MemoryDescriptor>, k: int, d: MemoryDescriptor)
    requires
        sorted(s),
        desc_wf(d),
        0 <= k < s.len(),
        k > 0 ==> desc_end(s[k - 1]) <= d.physical_start,
        k + 1 < s.len() ==> desc_end(d) <= s[k + 1].physical_start,
    ensures
        sorted(s.update(k, d)),
        forall|a: int|
            (#[trigger] kind_at(s.update(k, d), a)) == (if covers(d, a) {
                Some(kind_of(d))
            } else if covers(s[k], a) {
                None
            } else {
                kind_at(s, a)
            }),
{
    lemma_remove(s, k);
    let r = s.remove(k);
    if k > 0 {
        assert(r[k - 1] == s[k - 1]);
    }
    if k < r.len() {
        assert(r[k] == s[k + 1]);
    }
    lemma_insert(r, k, d);
    assert(r.insert(k, d) =~= s.update(k, d));
}

/// A layout that satisfies the invariant is the only one for the kinds it
/// gives to the byte addresses: the descriptors are the maximal runs of bytes
/// of one kind.
pub proof fn lemma_layout_unique(a: Seq<MemoryDescriptor>, b: Seq<MemoryDescriptor>)
    requires
        layout_wf(a),
        layout_wf(b),
        same_kinds(a, b),
    ensures
        a == b,
    decreases a.len(),
{
    if a.len() == 0 {
        if b.len() > 0 {
            assert(covers(b[0], b[0].physical_start as int));
            lemma_kind_at(b, 0, b[0].physical_start as int);
            assert(kind_at(a, b[0].physical_start as int) is None);
        }
        assert(a =~= b);
    } else {
        let a0 = a[0];
        let sa = a0.physical_start as int;
        assert(covers(a0, sa));
        lemma_kind_at(a, 0, sa);
        assert(kind_at(b, sa) == Some(kind_of(a0)));
        let j = lemma_kind_at_witness(b, sa);
        let b0 = b[0];
        let sb = b0.physical_start as int;
        assert(covers(b0, sb));
        lemma_kind_at(b, 0, sb);
        assert(kind_at(a, sb) == Some(kind_of(b0)));
        let i = lemma_kind_at_witness(a, sb);
        if j > 0 {
            assert(desc_end(b[0]) <= b[j].physical_start);
        }
        if i > 0 {
            assert(desc_end(a[0]) <= a[i].physical_start);
        }
        assert(sa == sb);
        assert(kind_of(a0) == kind_of(b0));
        lemma_first_run_ends(a, b);
        lemma_first_run_ends(b, a);
        assert(desc_end(a0) == desc_end(b0));
        assert(a0 == b0);
        let ta = a.remove(0);
        let tb = b.remove(0);
        lemma_remove(a, 0);
        lemma_remove(b, 0);
        lemma_tail_wf(a);
        lemma_tail_wf(b);
        assert forall|x: int| (#[trigger] kind_at(ta, x)) == kind_at(tb, x) by {
            assert(kind_at(a, x) == kind_at(b, x));
        }
        lemma_layout_unique(ta, tb);
        assert(a =~= seq![a0] + ta);
        assert(b =~= seq![b0] + tb);
    }
}

/// Where two valid layouts agree on every byte and start at one address with
/// one kind, the first descriptor of the one does not end before that of the
/// other.
proof fn lemma_first_run_ends(a: Seq<MemoryDescriptor>, b: Seq<MemoryDescriptor>)
    requires
        layout_wf(a),
        layout_wf(b),
        same_kinds(a, b),
        a.len() > 0,
        b.len() > 0,
        a[0].physical_start == b[0].physical_start,
        kind_of(a[0]) == kind_of(b[0]),
    ensures
        desc_end(a[0]) >= desc_end(b[0]),
{
    let e = desc_end(a[0]);
    if e < desc_end(b[0]) {
        assert(covers(b[0], e));
        lemma_kind_at(b, 0, e);
        assert(kind_at(a, e) == Some(kind_of(b[0])));
        let k = lemma_kind_at_witness(a, e);
        assert(k != 0);
        assert(desc_end(a[0]) <= a[1].physical_start);
        if k > 1 {
            assert(desc_end(a[1]) <= a[k].physical_start);
        }
        assert(k == 1);
        assert(joinable(a, 0));
    }
}

/// The invariant holds of a layout without its first descriptor.
proof fn lemma_tail_wf(s: Seq<MemoryDescriptor>)
    requires
        layout_wf(s),
        s.len() > 0,
    ensures
        layout_wf(s.remove(0)),
{
    lemma_remove(s, 0);
    let t = s.remove(0);
    assert forall|k: int| 0 <= k < t.len() implies !#[trigger] joinable(t, k) by {
        if k + 1 < t.len() {
            assert(t[k] == s[k + 1]);
            assert(t[k + 1] == s[k + 2]);
            assert(!joinable(s, k + 1));
        }
    }
}

} // verus!
