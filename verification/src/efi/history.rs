//! What holds of the memory map over several operations: what a run of
//! declarations leaves behind, that the order of declarations does not
//! matter, that a conversion can be undone, and how the map key moves.

use vstd::prelude::*;
use crate::efi::layout::{
    kind, kind_at, layout_wf, lemma_layout_unique, plain, range_has_kind, range_vacant, retyped,
    type_at, Kind,
};
use crate::efi::edit::{convertible, region_ok};
use crate::efi::memmap::next_key;
use crate::efi::memorytype::{MemoryDescriptor, MemoryType};
use crate::align::{lemma_multiple_above, lemma_multiple_below};
use crate::efi::placement::{
    candidate, lemma_run_within, lemma_top_base, lemma_top_candidate, place_max, request_ok,
    top_base, top_candidate,
};

verus! {

/// One accepted declaration: `pages` pages of the kind `kind`, a type with
/// an attribute word, at `base`.
pub struct Declaration {
    pub base: u64,
    pub pages: u64,
    pub kind: Kind,
}

impl Declaration {
    /// Whether byte address `a` lies in the declared region.
    pub open spec fn holds(&self, a: int) -> bool {
        self.base <= a < self.base + self.pages * 4096
    }
}

/// Whether `maps[0]`, `maps[1]`, ... are the layouts that an empty map goes
/// through while the declarations are made one after the other, each of them
/// accepted.
pub open spec fn declared_in_turn(
    maps: Seq<Seq<MemoryDescriptor>>,
    decls: Seq<Declaration>,
) -> bool {
    &&& maps.len() == decls.len() + 1
    &&& maps[0] == Seq::<MemoryDescriptor>::empty()
    &&& forall|i: int|
        0 <= i < decls.len() ==> {
            &&& layout_wf(#[trigger] maps[i + 1])
            &&& region_ok(decls[i].base, decls[i].pages)
            &&& range_vacant(maps[i], decls[i].base as int, decls[i].pages * 4096)
            &&& retyped(
                maps[i],
                maps[i + 1],
                decls[i].base as int,
                decls[i].pages * 4096,
                decls[i].kind,
            )
        }
}

/// After any number of declarations a byte is of kind `t` exactly when one
/// of the regions declared so far with kind `t` holds it: the descriptors of
/// a kind cover what was declared with that kind, no more and no less.
pub proof fn lemma_declared_cover(
    maps: Seq<Seq<MemoryDescriptor>>,
    decls: Seq<Declaration>,
    n: int,
    a: int,
    t: Kind,
)
    requires
        declared_in_turn(maps, decls),
        0 <= n <= decls.len(),
    ensures
        kind_at(maps[n], a) == Some(t) <==> exists|i: int|
            0 <= i < n && (#[trigger] decls[i]).holds(a) && decls[i].kind == t,
    decreases n,
{
    if n == 0 {
        assert(maps[0].len() == 0);
    } else {
        lemma_declared_cover(maps, decls, n - 1, a, t);
        let d = decls[n - 1];
        assert(layout_wf(maps[n - 1 + 1]));
        assert(kind_at(maps[n], a) == (if d.holds(a) {
            Some(d.kind)
        } else {
            kind_at(maps[n - 1], a)
        }));
        if d.holds(a) {
            assert(kind_at(maps[n - 1], a) is None);
            if d.kind == t {
                assert(decls[n - 1].holds(a) && decls[n - 1].kind == t);
            } else {
                if exists|i: int|
                    0 <= i < n && (#[trigger] decls[i]).holds(a) && decls[i].kind == t {
                    let i = choose|i: int|
                        0 <= i < n && (#[trigger] decls[i]).holds(a) && decls[i].kind == t;
                    assert(i < n - 1);
                }
            }
        } else {
            if kind_at(maps[n - 1], a) == Some(t) {
                let i = choose|i: int|
                    0 <= i < n - 1 && (#[trigger] decls[i]).holds(a) && decls[i].kind == t;
                assert(0 <= i < n && decls[i].holds(a) && decls[i].kind == t);
            }
        }
    }
}

/// After any number of declarations a byte has type `t` exactly when one of
/// the regions declared so far with type `t` holds it: the descriptors of a
/// type cover what was declared with that type, no more and no less.
pub proof fn lemma_declared_cover_of_type(
    maps: Seq<Seq<MemoryDescriptor>>,
    decls: Seq<Declaration>,
    n: int,
    a: int,
    t: MemoryType,
)
    requires
        declared_in_turn(maps, decls),
        0 <= n <= decls.len(),
    ensures
        type_at(maps[n], a) == Some(t) <==> exists|i: int|
            0 <= i < n && (#[trigger] decls[i]).holds(a) && decls[i].kind.memory_type == t,
{
    if type_at(maps[n], a) == Some(t) {
        let k = kind_at(maps[n], a)->0;
        lemma_declared_cover(maps, decls, n, a, k);
        let i = choose|i: int| 0 <= i < n && (#[trigger] decls[i]).holds(a) && decls[i].kind == k;
        assert(decls[i].holds(a) && decls[i].kind.memory_type == t);
    }
    if exists|i: int|
        0 <= i < n && (#[trigger] decls[i]).holds(a) && decls[i].kind.memory_type == t {
        let i = choose|i: int|
            0 <= i < n && (#[trigger] decls[i]).holds(a) && decls[i].kind.memory_type == t;
        lemma_declared_cover(maps, decls, n, a, decls[i].kind);
    }
}

/// No two accepted declarations share a byte.
pub proof fn lemma_declared_disjoint(
    maps: Seq<Seq<MemoryDescriptor>>,
    decls: Seq<Declaration>,
    i: int,
    j: int,
    a: int,
)
    requires
        declared_in_turn(maps, decls),
        0 <= i < j < decls.len(),
    ensures
        !(decls[i].holds(a) && decls[j].holds(a)),
{
    if decls[i].holds(a) && decls[j].holds(a) {
        lemma_declared_cover(maps, decls, j, a, decls[i].kind);
        assert(layout_wf(maps[j + 1]));
        assert(kind_at(maps[j], a) is None);
    }
}

/// Two declarations give the same layout in either order.
pub proof fn lemma_declare_commutes(
    start: Seq<MemoryDescriptor>,
    first: Declaration,
    second: Declaration,
    mid_a: Seq<MemoryDescriptor>,
    end_a: Seq<MemoryDescriptor>,
    mid_b: Seq<MemoryDescriptor>,
    end_b: Seq<MemoryDescriptor>,
)
    requires
        layout_wf(end_a),
        layout_wf(end_b),
        forall|a: int| !(first.holds(a) && second.holds(a)),
        retyped(start, mid_a, first.base as int, first.pages * 4096, first.kind),
        retyped(mid_a, end_a, second.base as int, second.pages * 4096, second.kind),
        retyped(start, mid_b, second.base as int, second.pages * 4096, second.kind),
        retyped(mid_b, end_b, first.base as int, first.pages * 4096, first.kind),
    ensures
        end_a == end_b,
{
    assert forall|x: int| (#[trigger] kind_at(end_a, x)) == kind_at(end_b, x) by {
        assert(!(first.holds(x) && second.holds(x)));
        let _ = kind_at(mid_a, x);
        let _ = kind_at(mid_b, x);
    }
    lemma_layout_unique(end_a, end_b);
}

/// Two touching regions of one kind, the same type with the same attribute
/// word, declared in either order, leave what one declaration of the two
/// together leaves: one descriptor holds both.
pub proof fn lemma_declare_adjacent(
    start: Seq<MemoryDescriptor>,
    base: u64,
    pages_low: u64,
    pages_high: u64,
    t: Kind,
    mid_a: Seq<MemoryDescriptor>,
    end_a: Seq<MemoryDescriptor>,
    mid_b: Seq<MemoryDescriptor>,
    end_b: Seq<MemoryDescriptor>,
    whole: Seq<MemoryDescriptor>,
) -> (k: int)
    requires
        layout_wf(end_a),
        layout_wf(end_b),
        layout_wf(whole),
        pages_low > 0,
        pages_high > 0,
        retyped(start, mid_a, base as int, pages_low * 4096, t),
        retyped(mid_a, end_a, base + pages_low * 4096, pages_high * 4096, t),
        retyped(start, mid_b, base + pages_low * 4096, pages_high * 4096, t),
        retyped(mid_b, end_b, base as int, pages_low * 4096, t),
        retyped(start, whole, base as int, (pages_low + pages_high) * 4096, t),
    ensures
        end_a == end_b,
        end_a == whole,
        0 <= k < end_a.len(),
        end_a[k].memory_type == t.memory_type,
        end_a[k].attribute == t.attribute,
        end_a[k].physical_start <= base,
        base + (pages_low + pages_high) * 4096 <= end_a[k].physical_start + end_a[k].number_of_pages
            * 4096,
{
    assert forall|x: int| (#[trigger] kind_at(end_a, x)) == kind_at(whole, x) by {
        let _ = kind_at(mid_a, x);
    }
    assert forall|x: int| (#[trigger] kind_at(end_b, x)) == kind_at(whole, x) by {
        let _ = kind_at(mid_b, x);
    }
    lemma_layout_unique(end_a, whole);
    lemma_layout_unique(end_b, whole);
    assert(range_has_kind(whole, base as int, (pages_low + pages_high) * 4096, t)) by {
        assert forall|x: int|
            base <= x < base + (pages_low + pages_high) * 4096 implies (#[trigger] kind_at(
            whole,
            x,
        )) == Some(t) by {}
    }
    lemma_run_within(whole, base as int, (pages_low + pages_high) * 4096, t)
}

/// A conversion followed by the opposite conversion of the same region gives
/// back the layout from before, where the region had the attribute word that
/// a conversion gives to its type; and the opposite conversion is accepted.
pub proof fn lemma_convert_back(
    before: Seq<MemoryDescriptor>,
    between: Seq<MemoryDescriptor>,
    after: Seq<MemoryDescriptor>,
    base: u64,
    pages: u64,
    from: MemoryType,
    to: MemoryType,
)
    requires
        layout_wf(before),
        layout_wf(after),
        convertible(before, base, pages, Some(from)),
        range_has_kind(before, base as int, pages * 4096, plain(from)),
        retyped(before, between, base as int, pages * 4096, plain(to)),
        retyped(between, after, base as int, pages * 4096, plain(from)),
    ensures
        convertible(between, base, pages, Some(to)),
        after == before,
{
    assert(kind_at(between, base as int) == Some(plain(to)));
    assert forall|x: int| (#[trigger] kind_at(after, x)) == kind_at(before, x) by {
        let _ = kind_at(between, x);
    }
    lemma_layout_unique(after, before);
}

/// The map key grows with a structural change, as long as the counter has
/// not reached the greatest value of its type.
pub proof fn lemma_key_grows(k: usize)
    requires
        k < usize::MAX,
    ensures
        next_key(k) > k,
        next_key(k) == k + 1,
{
}

/// Among all bases that are aligned to `mask`, end at or below `max` and lie
/// with the whole allocation in conventional memory of one attribute word,
/// `place_max` gives the highest; it gives one whenever there is one.
pub proof fn lemma_place_max_highest(
    s: Seq<MemoryDescriptor>,
    pages: u64,
    max: u64,
    mask: u64,
    other: u64,
    attribute: u64,
)
    requires
        layout_wf(s),
        request_ok(pages, mask),
        other as int % (mask + 1) == 0,
        other + pages * 4096 - 1 <= max,
        range_has_kind(
            s,
            other as int,
            pages * 4096,
            kind(MemoryType::EfiConventionalMemory, attribute),
        ),
    ensures
        place_max(s, pages, max, mask) is Some,
        other <= place_max(s, pages, max, mask)->0,
{
    let len = pages * 4096;
    let a = mask + 1;
    let n = s.len() as int;
    let j = lemma_run_within(
        s,
        other as int,
        len,
        kind(MemoryType::EfiConventionalMemory, attribute),
    );
    lemma_multiple_above(s[j].physical_start as int, other as int, a);
    assert(candidate(s[j], len, max as int, a));
    lemma_top_candidate(s, n, len, max as int, a);
    let i = top_candidate(s, n, len, max as int, a)->0;
    assert(j <= i);
    lemma_top_base(s[i], len, max as int, a);
    let b = top_base(s[i], len, max as int, a);
    if j < i {
        assert(s[j].physical_start + s[j].number_of_pages * 4096 <= s[i].physical_start);
    } else {
        let top = if s[i].physical_start + s[i].number_of_pages * 4096 - len <= max - len + 1 {
            s[i].physical_start + s[i].number_of_pages * 4096 - len
        } else {
            max - len + 1
        };
        lemma_multiple_below(top, other as int, a);
    }
}

} // verus!
